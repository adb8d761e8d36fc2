//! The dependencies between the modules of a crate.
use crate::order::{lemma_order_laws, Rank, Ranked};
use crate::path::{path_parts, FilePath, PathPart, PathView};
use crate::resolve::{
    module_path_to_string, resolve_internal_module, resolved_module, Usage, UsageView,
};
use crate::table::{
    ascending, entries_from, insert_ranked, lemma_ascending_distinct, lemma_entries_step,
    lemma_paired_at, paired, OrderedMap, OrderedSet,
};
use crate::text::{join_path, same_texts};
use vstd::prelude::*;

verus! {

/// The module `from_module` uses something of `to_module`, first at a line of `file`.
#[derive(Debug, PartialEq, Eq)]
pub struct InternalDependency {
    pub file: FilePath,
    pub line: usize,
    pub from_module: String,
    pub to_module: String,
}

/// The mathematical value of an [`InternalDependency`].
#[verifier::ext_equal]
pub struct InternalDependencyView {
    pub file: Seq<PathPart>,
    pub line: usize,
    pub from_module: Seq<char>,
    pub to_module: Seq<char>,
}

impl DeepView for InternalDependency {
    type V = InternalDependencyView;

    open spec fn deep_view(&self) -> InternalDependencyView {
        InternalDependencyView {
            file: self.file.deep_view(),
            line: self.line,
            from_module: self.from_module@,
            to_module: self.to_module@,
        }
    }
}

/// What decides the order of dependencies: the file, then the line, then the two modules.
pub open spec fn dependency_position(dependency: InternalDependencyView) -> (
    Seq<PathPart>,
    (usize, (Seq<char>, Seq<char>)),
) {
    (dependency.file, (dependency.line, (dependency.from_module, dependency.to_module)))
}

impl Ranked for InternalDependency {
    open spec fn precedes(a: InternalDependencyView, b: InternalDependencyView) -> bool {
        <(FilePath, (usize, (String, String))) as Ranked>::precedes(
            dependency_position(a),
            dependency_position(b),
        )
    }

    proof fn order_laws() {
        lemma_order_laws::<(FilePath, (usize, (String, String)))>();
        let less = |a: InternalDependencyView, b: InternalDependencyView| Self::precedes(a, b);
        assert forall|a: InternalDependencyView, b: InternalDependencyView| #[trigger]
            less(a, b) || a == b || less(b, a) by {
            if dependency_position(a) == dependency_position(b) {
                assert(a =~= b);
            }
        }
    }

    fn rank(&self, other: &InternalDependency) -> (rank: Rank) {
        proof {
            Self::order_laws();
            lemma_order_laws::<FilePath>();
            lemma_order_laws::<usize>();
            lemma_order_laws::<String>();
        }
        let rank = match self.file.rank(&other.file) {
            Rank::Same => match self.line.rank(&other.line) {
                Rank::Same => match self.from_module.rank(&other.from_module) {
                    Rank::Same => self.to_module.rank(&other.to_module),
                    decided => decided,
                },
                decided => decided,
            },
            decided => decided,
        };
        assert(rank == Rank::Same ==> self.deep_view() =~= other.deep_view());
        rank
    }
}

/// What tells one dependency from another: the file and the two modules.
pub type DependencyKey = (Seq<PathPart>, (Seq<char>, Seq<char>));

/// Where a dependency was met: its least line, and the file as it was first written.
pub struct DependencySite {
    pub line: usize,
    pub file: PathView,
}

/// What tells a dependency from another.
pub open spec fn dependency_key(dependency: InternalDependencyView) -> DependencyKey {
    (dependency.file, (dependency.from_module, dependency.to_module))
}

/// The dependency with the given key, met at `line`.
pub open spec fn dependency_with(key: DependencyKey, line: usize) -> InternalDependencyView {
    InternalDependencyView { file: key.0, line, from_module: key.1.0, to_module: key.1.1 }
}

/// The two modules of the dependency that a usage is, if it points to another module.
pub open spec fn usage_ends(usage: UsageView, known: Set<Seq<Seq<char>>>) -> Option<
    (Seq<char>, Seq<char>),
> {
    match resolved_module(usage, known) {
        Some(module) => if module == usage.module {
            None
        } else {
            Some((join_path(usage.module), join_path(module)))
        },
        None => None,
    }
}

/// The dependencies in `table` and the one between `ends` that was met at `line` of `file`.
pub open spec fn with_dependency(
    table: Map<DependencyKey, DependencySite>,
    file: PathView,
    line: usize,
    ends: (Seq<char>, Seq<char>),
) -> Map<DependencyKey, DependencySite> {
    let key = (path_parts(file), ends);
    if !table.dom().contains(key) {
        table.insert(key, DependencySite { line, file })
    } else if line < table[key].line {
        table.insert(key, DependencySite { line, file: table[key].file })
    } else {
        table
    }
}

/// The dependencies that `usages` are, each with its least line.
pub open spec fn dependency_table(usages: Seq<UsageView>, known: Set<Seq<Seq<char>>>) -> Map<
    DependencyKey,
    DependencySite,
>
    decreases usages.len(),
{
    if usages.len() == 0 {
        Map::empty()
    } else {
        let earlier = dependency_table(usages.drop_last(), known);
        match usage_ends(usages.last(), known) {
            Some(ends) => with_dependency(earlier, usages.last().file, usages.last().line, ends),
            None => earlier,
        }
    }
}

/// The dependencies that a table stands for.
pub open spec fn dependencies_of(table: Map<DependencyKey, DependencySite>) -> Set<
    InternalDependencyView,
> {
    Set::new(
        |dependency: InternalDependencyView|
            table.dom().contains(dependency_key(dependency)) && table[dependency_key(
                dependency,
            )].line == dependency.line,
    )
}

/// `list` holds the dependencies of `table`, ordered by file, line and modules.
pub open spec fn lists_dependencies(
    list: Seq<InternalDependencyView>,
    table: Map<DependencyKey, DependencySite>,
) -> bool {
    &&& ascending::<InternalDependency>(list)
    &&& list.to_set() == dependencies_of(table)
}

type SiteTable = OrderedMap<(FilePath, (String, String)), (usize, FilePath)>;

/// The table `held` is `table`, value for value.
spec fn shows(
    held: Map<DependencyKey, (usize, FilePath)>,
    table: Map<DependencyKey, DependencySite>,
) -> bool {
    &&& held.dom() =~= table.dom()
    &&& forall|key: DependencyKey| #[trigger]
        held.dom().contains(key) ==> held[key].0 == table[key].line && held[key].1@
            == table[key].file
}

fn note_dependency(table: &mut SiteTable, file: &FilePath, line: usize, ends: (String, String))
    requires
        old(table).well_formed(),
    ensures
        final(table).well_formed(),
        forall|shown: Map<DependencyKey, DependencySite>| #[trigger]
            shows(old(table)@, shown) ==> shows(
                final(table)@,
                with_dependency(shown, file@, line, (ends.0@, ends.1@)),
            ),
{
    let key = (file.copy(), ends);
    let ghost name = key.deep_view();
    assert(name == (path_parts(file@), (ends.0@, ends.1@)));
    let held = match table.get(&key) {
        Some(site) => Some((site.0, site.1.copy())),
        None => None,
    };
    match held {
        Some((earliest, first)) => {
            if line < earliest {
                table.put(key, (line, first));
            }
        },
        None => {
            table.put(key, (line, file.copy()));
        },
    }
}

/// The table of the dependencies that `usages` are.
fn tabulate(usages: &Vec<Usage>, module_paths: &OrderedSet<Vec<String>>) -> (table: SiteTable)
    requires
        module_paths.well_formed(),
    ensures
        table.well_formed(),
        shows(table@, dependency_table(usages.deep_view(), module_paths@)),
{
    let ghost all = usages.deep_view();
    let mut table: SiteTable = OrderedMap::new();
    let mut i: usize = 0;
    assert(all.take(0) =~= seq![]);
    while i < usages.len()
        invariant
            module_paths.well_formed(),
            all == usages.deep_view(),
            i <= usages.len(),
            table.well_formed(),
            shows(table@, dependency_table(all.take(i as int), module_paths@)),
        decreases usages.len() - i,
    {
        let usage = &usages[i];
        proof {
            assert(all.take(i + 1).drop_last() =~= all.take(i as int));
            assert(all.take(i + 1).last() == usage.deep_view());
        }
        match resolve_internal_module(usage, module_paths) {
            Some(module) => {
                if !same_texts(&usage.module, &module) {
                    let ends = (
                        module_path_to_string(&usage.module),
                        module_path_to_string(&module),
                    );
                    note_dependency(&mut table, &usage.file, usage.line, ends);
                }
            },
            None => {},
        }
        i = i + 1;
    }
    assert(all.take(i as int) =~= all);
    table
}

/// The file of each dependency is the one that its key names.
proof fn lemma_sites_fit_keys(usages: Seq<UsageView>, known: Set<Seq<Seq<char>>>)
    ensures
        forall|key: DependencyKey| #[trigger]
            dependency_table(usages, known).dom().contains(key) ==> path_parts(
                dependency_table(usages, known)[key].file,
            ) == key.0,
    decreases usages.len(),
{
    if usages.len() > 0 {
        let earlier = dependency_table(usages.drop_last(), known);
        lemma_sites_fit_keys(usages.drop_last(), known);
        assert forall|key: DependencyKey| #[trigger]
            dependency_table(usages, known).dom().contains(key) implies path_parts(
            dependency_table(usages, known)[key].file,
        ) == key.0 by {
            assert(earlier.dom().contains(key) ==> path_parts(earlier[key].file) == key.0);
        }
    }
}

/// The dependencies between modules that `usages` are, given the modules of the crate: one for
/// each file and pair of modules, with the least line, ordered by file, line and modules.
pub fn internal_dependencies(
    usages: &Vec<Usage>,
    module_paths: &OrderedSet<Vec<String>>,
) -> (dependencies: Vec<InternalDependency>)
    requires
        module_paths.well_formed(),
    ensures
        lists_dependencies(
            dependencies.deep_view(),
            dependency_table(usages.deep_view(), module_paths@),
        ),
        forall|i: int|
            0 <= i < dependencies.len() ==> (#[trigger] dependencies[i]).file@ == dependency_table(
                usages.deep_view(),
                module_paths@,
            )[dependency_key(dependencies[i].deep_view())].file,
{
    let ghost table = dependency_table(usages.deep_view(), module_paths@);
    let (mut keys, mut sites) = tabulate(usages, module_paths).into_parts();
    let ghost all_keys = keys.deep_view();
    let ghost all_sites = sites@;
    let ghost entry = |key: DependencyKey, site: (usize, FilePath)| dependency_with(key, site.0);
    let mut dependencies: Vec<InternalDependency> = Vec::new();
    proof {
        lemma_sites_fit_keys(usages.deep_view(), module_paths@);
        assert(shows(paired(all_keys, all_sites), table));
        assert(all_keys.take(all_keys.len() as int) =~= all_keys);
        assert(all_sites.take(all_sites.len() as int) =~= all_sites);
        assert(dependencies.deep_view().to_set() =~= entries_from(
            all_keys,
            all_sites,
            all_keys.len() as int,
            entry,
        ));
    }
    while keys.len() > 0
        invariant
            ascending::<(FilePath, (String, String))>(all_keys),
            all_keys.len() == all_sites.len(),
            shows(paired(all_keys, all_sites), table),
            forall|key: DependencyKey| #[trigger]
                table.dom().contains(key) ==> path_parts(table[key].file) == key.0,
            keys.len() == sites.len(),
            keys.len() <= all_keys.len(),
            keys.deep_view() == all_keys.take(keys.len() as int),
            sites@ == all_sites.take(keys.len() as int),
            ascending::<InternalDependency>(dependencies.deep_view()),
            entry == (|key: DependencyKey, site: (usize, FilePath)| dependency_with(key, site.0)),
            dependencies.deep_view().to_set() == entries_from(
                all_keys,
                all_sites,
                keys.len() as int,
                entry,
            ),
            forall|i: int|
                0 <= i < dependencies.len() ==> (#[trigger] dependencies[i]).file@
                    == table[dependency_key(dependencies[i].deep_view())].file,
        decreases keys.len(),
    {
        let ghost count = keys.len() as int;
        let ghost before = keys.deep_view();
        let key = keys.pop();
        let site = sites.pop();
        assert(keys.deep_view() =~= all_keys.take(count - 1));
        assert(sites@ =~= all_sites.take(count - 1));
        match (key, site) {
            (Some((_, (from_module, to_module))), Some((line, file))) => {
                proof {
                    assert(before[count - 1] == all_keys[count - 1]);
                    lemma_paired_at::<(FilePath, (String, String)), (usize, FilePath)>(
                        all_keys,
                        all_sites,
                        count - 1,
                    );
                }
                let dependency = InternalDependency { file, line, from_module, to_module };
                let ghost view = dependency.deep_view();
                proof {
                    assert(dependency_key(view) == all_keys[count - 1]);
                    assert(view =~= entry(all_keys[count - 1], all_sites[count - 1]));
                    if dependencies.deep_view().contains(view) {
                        assert(dependencies.deep_view().to_set().contains(view));
                        let i = choose|i: int|
                            count <= i < all_keys.len() && view == entry(
                                #[trigger] all_keys[i],
                                all_sites[i],
                            );
                        assert(dependency_key(view) == all_keys[i]);
                        lemma_ascending_distinct::<(FilePath, (String, String))>(
                            all_keys,
                            i,
                            count - 1,
                        );
                    }
                    lemma_entries_step(all_keys, all_sites, count - 1, entry);
                }
                insert_ranked(&mut dependencies, dependency);
            },
            _ => {},
        }
    }
    proof {
        assert forall|dependency: InternalDependencyView|
            dependencies.deep_view().to_set().contains(dependency) == dependencies_of(
                table,
            ).contains(dependency) by {
            let key = dependency_key(dependency);
            if dependencies_of(table).contains(dependency) {
                assert(paired(all_keys, all_sites).dom().contains(key));
                let i = all_keys.index_of(key);
                assert(all_keys[i] == key);
                assert(dependency =~= entry(all_keys[i], all_sites[i]));
            }
            if entries_from(all_keys, all_sites, 0, entry).contains(dependency) {
                let i = choose|i: int|
                    0 <= i < all_keys.len() && dependency == entry(
                        #[trigger] all_keys[i],
                        all_sites[i],
                    );
                assert(key == all_keys[i]);
                lemma_paired_at::<(FilePath, (String, String)), (usize, FilePath)>(
                    all_keys,
                    all_sites,
                    i,
                );
            }
        }
        assert(dependencies.deep_view().to_set() =~= dependencies_of(table));
    }
    dependencies
}

} // verus!
