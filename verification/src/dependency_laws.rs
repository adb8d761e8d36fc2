//! What holds of the dependencies between modules.
use crate::dependencies::{
    dependency_key, dependency_table, internal_dependencies, lists_dependencies, usage_ends,
    DependencyKey, InternalDependency, InternalDependencyView,
};
use crate::order::Ranked;
use crate::path::path_parts;
use crate::resolve::{resolved_module, Usage, UsageView};
use crate::resolve_laws::usages_resolve_to_the_longest_known_module;
use crate::table::{lemma_ascending_distinct, lemma_ascending_unique, OrderedSet};
use crate::text::{colon_free, join_path, split_undoes_join};
use vstd::prelude::*;

verus! {

/// The dependency that a usage is, if it is one.
pub open spec fn usage_key(usage: UsageView, known: Set<Seq<Seq<char>>>) -> Option<DependencyKey> {
    match usage_ends(usage, known) {
        Some(ends) => Some((path_parts(usage.file), ends)),
        None => None,
    }
}

/// The dependencies in a table are those that the usages are. The line of each is the least line
/// of a usage that is that dependency.
pub proof fn lines_are_the_least(
    usages: Seq<UsageView>,
    known: Set<Seq<Seq<char>>>,
    key: DependencyKey,
)
    ensures
        dependency_table(usages, known).dom().contains(key) <==> exists|i: int|
            0 <= i < usages.len() && usage_key(#[trigger] usages[i], known) == Some(key),
        dependency_table(usages, known).dom().contains(key) ==> {
            let line = dependency_table(usages, known)[key].line;
            &&& forall|i: int|
                0 <= i < usages.len() && usage_key(#[trigger] usages[i], known) == Some(key) ==> line
                    <= usages[i].line
            &&& exists|i: int|
                0 <= i < usages.len() && usage_key(#[trigger] usages[i], known) == Some(key)
                    && usages[i].line == line
        },
    decreases usages.len(),
{
    let table = dependency_table(usages, known);
    if usages.len() > 0 {
        let earlier = usages.drop_last();
        let before = dependency_table(earlier, known);
        lines_are_the_least(earlier, known, key);
        assert(usages[usages.len() - 1] == usages.last());
        assert forall|i: int| 0 <= i < earlier.len() implies #[trigger] earlier[i] == usages[i] by {}
        if before.dom().contains(key) {
            let i = choose|i: int|
                0 <= i < earlier.len() && usage_key(#[trigger] earlier[i], known) == Some(key)
                    && earlier[i].line == before[key].line;
            assert(usage_key(usages[i], known) == Some(key));
        }
        assert forall|i: int|
            0 <= i < usages.len() && usage_key(#[trigger] usages[i], known) == Some(
                key,
            ) implies table.dom().contains(key) && table[key].line <= usages[i].line by {
            if i < earlier.len() {
                assert(usage_key(earlier[i], known) == Some(key));
            }
        }
    }
}

/// No dependency is listed twice: the file and the two modules tell one from another.
pub proof fn dependencies_are_listed_once(
    list: Seq<InternalDependencyView>,
    usages: Seq<UsageView>,
    known: Set<Seq<Seq<char>>>,
    i: int,
    j: int,
)
    requires
        lists_dependencies(list, dependency_table(usages, known)),
        0 <= i < list.len(),
        0 <= j < list.len(),
        dependency_key(list[i]) == dependency_key(list[j]),
    ensures
        i == j,
{
    assert(list.to_set().contains(list[i]));
    assert(list.to_set().contains(list[j]));
    assert(list[i] =~= list[j]);
    if i != j {
        lemma_ascending_distinct::<InternalDependency>(list, i, j);
    }
}

/// What the usages are decides the list.
pub proof fn dependency_list_is_unique(
    left: Seq<InternalDependencyView>,
    right: Seq<InternalDependencyView>,
    usages: Seq<UsageView>,
    known: Set<Seq<Seq<char>>>,
)
    requires
        lists_dependencies(left, dependency_table(usages, known)),
        lists_dependencies(right, dependency_table(usages, known)),
    ensures
        left == right,
{
    lemma_ascending_unique::<InternalDependency>(left, right);
}

/// No name on the way to a module holds a colon, and there is at least one.
pub open spec fn plain_module(module: Seq<Seq<char>>) -> bool {
    &&& module.len() > 0
    &&& forall|i: int| 0 <= i < module.len() ==> colon_free(#[trigger] module[i])
}

/// A listed dependency leads from the module of some usage, in whose file it is listed at that
/// usage's line, to a known module, and the two modules differ.
pub proof fn dependencies_lead_to_other_known_modules(
    list: Seq<InternalDependencyView>,
    usages: Seq<UsageView>,
    known: Set<Seq<Seq<char>>>,
    at: int,
)
    requires
        lists_dependencies(list, dependency_table(usages, known)),
        0 <= at < list.len(),
        forall|i: int| 0 <= i < usages.len() ==> plain_module((#[trigger] usages[i]).module),
        forall|module: Seq<Seq<char>>| #[trigger] known.contains(module) ==> plain_module(module),
    ensures
        list[at].from_module != list[at].to_module,
        exists|i: int|
            {
                &&& 0 <= i < usages.len()
                &&& path_parts((#[trigger] usages[i]).file) == list[at].file
                &&& usages[i].line == list[at].line
                &&& join_path(usages[i].module) == list[at].from_module
                &&& resolved_module(usages[i], known) is Some
                &&& known.contains(resolved_module(usages[i], known)->0)
                &&& join_path(resolved_module(usages[i], known)->0) == list[at].to_module
            },
{
    let table = dependency_table(usages, known);
    assert(list.to_set().contains(list[at]));
    let key = dependency_key(list[at]);
    lines_are_the_least(usages, known, key);
    let i = choose|i: int|
        0 <= i < usages.len() && usage_key(#[trigger] usages[i], known) == Some(key)
            && usages[i].line == table[key].line;
    let usage = usages[i];
    usages_resolve_to_the_longest_known_module(usage, known);
    let module = resolved_module(usage, known)->0;
    assert(plain_module(usage.module));
    assert(plain_module(module));
    split_undoes_join(usage.module);
    split_undoes_join(module);
}

/// A dependency stands in the file, and between the modules, that a usage which resolves to
/// `module` tells.
pub open spec fn tells(
    usage: Usage,
    module: Seq<Seq<char>>,
    dependency: InternalDependency,
) -> bool {
    &&& path_parts(usage.file@) == path_parts(dependency.file@)
    &&& dependency.from_module@ == join_path(usage.module.deep_view())
    &&& dependency.to_module@ == join_path(module)
}

/// The usage resolves to the known module `module`, which is not its own.
pub open spec fn points_to(
    usage: Usage,
    known: OrderedSet<Vec<String>>,
    module: Seq<Seq<char>>,
) -> bool {
    &&& resolved_module(usage.deep_view(), known@) == Some(module)
    &&& module != usage.module.deep_view()
}

/// Every usage that points to another module is listed: some dependency stands in its file,
/// between the two modules, at its line or an earlier one.
pub proof fn usages_of_other_modules_are_listed(
    usages: Vec<Usage>,
    known: OrderedSet<Vec<String>>,
    list: Vec<InternalDependency>,
    at: int,
    module: Seq<Seq<char>>,
)
    requires
        call_ensures(internal_dependencies, (&usages, &known), list),
        0 <= at < usages.len(),
        points_to(usages[at], known, module),
    ensures
        exists|i: int|
            0 <= i < list.len() && tells(usages[at], module, #[trigger] list[i]) && list[i].line
                <= usages[at].line,
{
    let views = usages.deep_view();
    let shown = list.deep_view();
    let usage = usages[at];
    assert(views[at] == usage.deep_view());
    let key = usage_key(views[at], known@)->0;
    lines_are_the_least(views, known@, key);
    let table = dependency_table(views, known@);
    let dependency = InternalDependencyView {
        file: key.0,
        line: table[key].line,
        from_module: key.1.0,
        to_module: key.1.1,
    };
    assert(dependency_key(dependency) == key);
    assert(shown.to_set().contains(dependency));
    let i = shown.index_of(dependency);
    assert(shown[i] == list[i].deep_view());
    assert(tells(usage, module, list[i]));
}

/// Every listed dependency is one that a usage tells, at whose line it is listed: a usage that
/// resolves to another module than its own.
pub proof fn listed_dependencies_come_from_usages(
    usages: Vec<Usage>,
    known: OrderedSet<Vec<String>>,
    list: Vec<InternalDependency>,
    at: int,
)
    requires
        call_ensures(internal_dependencies, (&usages, &known), list),
        0 <= at < list.len(),
    ensures
        exists|i: int, module: Seq<Seq<char>>|
            0 <= i < usages.len() && #[trigger] tells(usages[i], module, list[at]) && usages[i].line
                == list[at].line && points_to(usages[i], known, module),
{
    let views = usages.deep_view();
    let shown = list.deep_view();
    let table = dependency_table(views, known@);
    assert(shown[at] == list[at].deep_view());
    assert(shown.to_set().contains(shown[at]));
    let key = dependency_key(shown[at]);
    lines_are_the_least(views, known@, key);
    let i = choose|i: int|
        0 <= i < views.len() && usage_key(#[trigger] views[i], known@) == Some(key)
            && views[i].line == table[key].line;
    assert(views[i] == usages[i].deep_view());
    let module = resolved_module(views[i], known@)->0;
    assert(tells(usages[i], module, list[at]));
}

/// The dependencies are listed in order, without two of the same file and modules.
pub proof fn dependencies_are_listed_in_order(
    usages: Vec<Usage>,
    known: OrderedSet<Vec<String>>,
    list: Vec<InternalDependency>,
    i: int,
    j: int,
)
    requires
        call_ensures(internal_dependencies, (&usages, &known), list),
        0 <= i < j < list.len(),
    ensures
        InternalDependency::precedes(list[i].deep_view(), list[j].deep_view()),
        !(path_parts(list[i].file@) == path_parts(list[j].file@) && list[i].from_module@
            == list[j].from_module@ && list[i].to_module@ == list[j].to_module@),
{
    let shown = list.deep_view();
    assert(shown[i] == list[i].deep_view() && shown[j] == list[j].deep_view());
    assert(InternalDependency::precedes(shown[i], shown[j]));
    if dependency_key(shown[i]) == dependency_key(shown[j]) {
        dependencies_are_listed_once(shown, usages.deep_view(), known@, i, j);
    }
}

proof fn lemma_first_file(
    usages: Seq<UsageView>,
    known: Set<Seq<Seq<char>>>,
    key: DependencyKey,
    first: int,
)
    requires
        0 <= first < usages.len(),
        usage_key(usages[first], known) == Some(key),
        forall|i: int| 0 <= i < first ==> usage_key(#[trigger] usages[i], known) != Some(key),
    ensures
        dependency_table(usages, known).dom().contains(key),
        dependency_table(usages, known)[key].file == usages[first].file,
    decreases usages.len(),
{
    let earlier = usages.drop_last();
    if first == usages.len() - 1 {
        lines_are_the_least(earlier, known, key);
        if dependency_table(earlier, known).dom().contains(key) {
            let i = choose|i: int|
                0 <= i < earlier.len() && usage_key(#[trigger] earlier[i], known) == Some(key);
            assert(usages[i] == earlier[i]);
        }
    } else {
        assert(earlier[first] == usages[first]);
        assert forall|i: int| 0 <= i < first implies usage_key(#[trigger] earlier[i], known)
            != Some(key) by {
            assert(earlier[i] == usages[i]);
        }
        lemma_first_file(earlier, known, key, first);
    }
}

/// Where several usages tell one dependency, its file is written as in the first of them.
pub proof fn files_are_written_as_first_met(
    usages: Vec<Usage>,
    known: OrderedSet<Vec<String>>,
    list: Vec<InternalDependency>,
    at: int,
    first: int,
    module: Seq<Seq<char>>,
)
    requires
        call_ensures(internal_dependencies, (&usages, &known), list),
        0 <= at < list.len(),
        0 <= first < usages.len(),
        points_to(usages[first], known, module),
        tells(usages[first], module, list[at]),
        forall|i: int, other: Seq<Seq<char>>|
            0 <= i < first && #[trigger] tells(usages[i], other, list[at]) ==> !points_to(
                usages[i],
                known,
                other,
            ),
    ensures
        list[at].file@ == usages[first].file@,
{
    let views = usages.deep_view();
    let shown = list.deep_view();
    assert(shown[at] == list[at].deep_view());
    let key = dependency_key(shown[at]);
    assert(views[first] == usages[first].deep_view());
    assert forall|i: int| 0 <= i < first implies usage_key(#[trigger] views[i], known@) != Some(
        key,
    ) by {
        assert(views[i] == usages[i].deep_view());
        if usage_key(views[i], known@) == Some(key) {
            let other = resolved_module(views[i], known@)->0;
            assert(tells(usages[i], other, list[at]));
        }
    }
    lemma_first_file(views, known@, key, first);
}

} // verus!
