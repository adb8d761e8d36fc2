//! What holds of the modules and the usages of a whole crate.
use crate::analyzer::{
    all_placed, explicit_file, placed, settled, start_at, wanted, with_file, ActionView,
    AnalyzerView, Findings, StageView,
};
use crate::analyzer_laws::{answered, lemma_settled_findings, run, World};
use crate::analysis_laws::lemma_with_inline_modules;
use crate::module_laws::{declared_modules_lie_in_inline_modules, modules_around};
use crate::modules::{
    child_directory, chosen_file, declared_modules, ModuleCandidateView, ModuleFileView,
};
use crate::path::{path_parts, PathView};
use crate::resolve::UsageView;
use crate::syntax::{parsed_source, SourceFileView};
use crate::visitor::{after_events, sorted_usages, usage_key};
use crate::visitor_laws::{
    entered_modules_lie_in_entered_modules, found_usages_can_be_listed,
    usages_are_listed_once_at_their_first_line,
};
use vstd::prelude::*;

verus! {

/// Both walks over a file agree on its declarations: each inline module in which the one meets the
/// declaration of a module, the other, which looks for names, enters too.
pub open spec fn walks_agree(file: SourceFileView) -> bool {
    forall|length: int|
        0 <= length < file.modules.len() && file.modules[length] is Declare && modules_around(
            #[trigger] file.modules.take(length),
        ).len() > 0 ==> after_events(file.names).inline_module_paths.contains(
            modules_around(file.modules.take(length)),
        )
}

/// Both walks agree on the file that the analyzer reads next, if it reads one that can be parsed.
pub open spec fn walks_agree_next(world: World, analyzer: AnalyzerView) -> bool {
    match wanted(analyzer) {
        ActionView::Read { path } => match (world.contents)(path) {
            Ok(source) => match parsed_source(source) {
                Ok(file) => walks_agree(file),
                Err(_) => true,
            },
            Err(_) => true,
        },
        _ => true,
    }
}

/// Both walks agree on each file that the analyzer reads within `steps` answers.
pub open spec fn all_walks_agree(world: World, analyzer: AnalyzerView, steps: nat) -> bool {
    forall|step: nat| step < steps ==> walks_agree_next(world, #[trigger] run(world, analyzer, step))
}

/// Each module around `module` is known.
spec fn outer_known(known: Set<Seq<Seq<char>>>, module: Seq<Seq<char>>) -> bool {
    forall|length: int|
        1 <= length < module.len() ==> known.contains(#[trigger] module.take(length))
}

/// Each module around a known module is known.
spec fn all_outer_known(known: Set<Seq<Seq<char>>>) -> bool {
    forall|module: Seq<Seq<char>>| #[trigger] known.contains(module) ==> outer_known(known, module)
}

spec fn files_outer_known(known: Set<Seq<Seq<char>>>, files: Seq<ModuleFileView>) -> bool {
    forall|i: int| 0 <= i < files.len() ==> outer_known(known, (#[trigger] files[i]).module)
}

spec fn candidates_outer_known(
    known: Set<Seq<Seq<char>>>,
    candidates: Seq<ModuleCandidateView>,
) -> bool {
    forall|i: int|
        0 <= i < candidates.len() ==> outer_known(known, (#[trigger] candidates[i]).module)
}

/// Each module around a module that the analyzer knows or waits for is known.
spec fn knows_outer_modules(analyzer: AnalyzerView) -> bool {
    let known = analyzer.findings.module_paths;
    &&& all_outer_known(known)
    &&& files_outer_known(known, analyzer.pending)
    &&& match analyzer.stage {
        StageView::Reading { module, .. } => known.contains(module),
        StageView::Probing { candidates, found, .. } => candidates.len() > 0
            && candidates_outer_known(known, candidates) && files_outer_known(known, found),
        _ => true,
    }
}

proof fn lemma_outer_known_grows(
    known: Set<Seq<Seq<char>>>,
    more: Set<Seq<Seq<char>>>,
    module: Seq<Seq<char>>,
)
    requires
        outer_known(known, module),
        known.subset_of(more),
    ensures
        outer_known(more, module),
{
    assert forall|length: int| 1 <= length < module.len() implies more.contains(
        #[trigger] module.take(length),
    ) by {
        assert(known.contains(module.take(length)));
    }
}

proof fn lemma_files_outer_known_grow(
    known: Set<Seq<Seq<char>>>,
    more: Set<Seq<Seq<char>>>,
    files: Seq<ModuleFileView>,
)
    requires
        files_outer_known(known, files),
        known.subset_of(more),
    ensures
        files_outer_known(more, files),
{
    assert forall|i: int| 0 <= i < files.len() implies outer_known(
        more,
        (#[trigger] files[i]).module,
    ) by {
        lemma_outer_known_grows(known, more, files[i].module);
    }
}

proof fn lemma_settled_outer_known(
    analyzer: AnalyzerView,
    candidates: Seq<ModuleCandidateView>,
    found: Seq<ModuleFileView>,
)
    requires
        all_outer_known(analyzer.findings.module_paths),
        files_outer_known(analyzer.findings.module_paths, analyzer.pending),
        candidates_outer_known(analyzer.findings.module_paths, candidates),
        files_outer_known(analyzer.findings.module_paths, found),
    ensures
        knows_outer_modules(settled(analyzer, candidates, found)),
    decreases candidates.len(),
{
    let known = analyzer.findings.module_paths;
    if candidates.len() == 0 {
        let pending = analyzer.pending + found.reverse();
        assert forall|i: int| 0 <= i < pending.len() implies outer_known(
            known,
            (#[trigger] pending[i]).module,
        ) by {
            if i >= analyzer.pending.len() {
                let j = i - analyzer.pending.len();
                assert(pending[i] == found[found.len() - 1 - j]);
            }
        }
    } else if candidates[0].explicit is Some {
        lemma_settled_outer_known(
            analyzer,
            candidates.drop_first(),
            found.push(explicit_file(candidates[0])),
        );
    }
}

/// The modules around the inline modules of a file are known once the file's are.
proof fn lemma_inline_outer_known(
    findings: Findings,
    file: SourceFileView,
    path: PathView,
    module: Seq<Seq<char>>,
    suffix: Seq<Seq<char>>,
    length: int,
)
    requires
        all_outer_known(findings.module_paths),
        findings.module_paths.contains(module),
        after_events(file.names).inline_module_paths.contains(suffix),
        1 <= length <= (module + suffix).len(),
    ensures
        with_file(findings, file, path, module).module_paths.contains(
            (module + suffix).take(length),
        ),
{
    let inline = after_events(file.names).inline_module_paths;
    let whole = module + suffix;
    lemma_with_inline_modules(findings.module_paths, inline, module);
    if length < module.len() {
        assert(whole.take(length) =~= module.take(length));
        assert(outer_known(findings.module_paths, module));
    } else if length == module.len() {
        assert(whole.take(length) =~= module);
    } else {
        let part = length - module.len();
        entered_modules_lie_in_entered_modules(file.names, suffix, part);
        let at = inline.index_of(suffix.take(part));
        assert(inline[at] == suffix.take(part));
        assert(whole.take(length) =~= module + inline[at]);
    }
}

proof fn lemma_with_file_outer_known(
    findings: Findings,
    file: SourceFileView,
    path: PathView,
    module: Seq<Seq<char>>,
)
    requires
        all_outer_known(findings.module_paths),
        findings.module_paths.contains(module),
        walks_agree(file),
    ensures
        ({
            let more = with_file(findings, file, path, module);
            &&& findings.module_paths.subset_of(more.module_paths)
            &&& all_outer_known(more.module_paths)
            &&& candidates_outer_known(
                more.module_paths,
                declared_modules(file.modules, child_directory(path), module),
            )
        }),
{
    let inline = after_events(file.names).inline_module_paths;
    let known = with_file(findings, file, path, module).module_paths;
    let declared = declared_modules(file.modules, child_directory(path), module);
    lemma_with_inline_modules(findings.module_paths, inline, module);
    assert forall|other: Seq<Seq<char>>| #[trigger] known.contains(other) implies outer_known(
        known,
        other,
    ) by {
        if findings.module_paths.contains(other) {
            lemma_outer_known_grows(findings.module_paths, known, other);
        } else {
            let i = choose|i: int| 0 <= i < inline.len() && other == module + #[trigger] inline[i];
            assert(inline.contains(inline[i]));
            assert forall|length: int| 1 <= length < other.len() implies known.contains(
                #[trigger] other.take(length),
            ) by {
                lemma_inline_outer_known(findings, file, path, module, inline[i], length);
            }
        }
    }
    assert forall|i: int| 0 <= i < declared.len() implies outer_known(
        known,
        (#[trigger] declared[i]).module,
    ) by {
        let name = declared[i].module;
        declared_modules_lie_in_inline_modules(file.modules, child_directory(path), module, i);
        let at = choose|at: int|
            0 <= at < file.modules.len() && file.modules[at] is Declare && {
                &&& name.len() > 0
                &&& name.drop_last() == module + modules_around(#[trigger] file.modules.take(at))
            };
        let suffix = modules_around(file.modules.take(at));
        assert(name.drop_last() == module + suffix);
        assert forall|length: int| 1 <= length < name.len() implies known.contains(
            #[trigger] name.take(length),
        ) by {
            assert(name.take(length) =~= name.drop_last().take(length));
            if suffix.len() > 0 {
                lemma_inline_outer_known(findings, file, path, module, suffix, length);
            } else {
                assert(module + suffix =~= module);
                if length == module.len() {
                    assert(module.take(length) =~= module);
                } else {
                    assert(outer_known(findings.module_paths, module));
                }
            }
        }
    }
}

proof fn lemma_answered_outer_known(world: World, analyzer: AnalyzerView)
    requires
        walks_agree_next(world, analyzer),
        knows_outer_modules(analyzer),
    ensures
        knows_outer_modules(answered(world, analyzer)),
{
    let known = analyzer.findings.module_paths;
    let after = answered(world, analyzer);
    match analyzer.stage {
        StageView::Next => {
            if analyzer.pending.len() > 0 {
                let next = analyzer.pending.last();
                assert(analyzer.pending[analyzer.pending.len() - 1] == next);
                let more = after.findings.module_paths;
                assert(known.subset_of(more));
                assert forall|module: Seq<Seq<char>>| #[trigger]
                    more.contains(module) implies outer_known(more, module) by {
                    assert(known.contains(module) || module == next.module);
                    lemma_outer_known_grows(known, more, module);
                }
                assert(files_outer_known(known, analyzer.pending.drop_last()));
                lemma_files_outer_known_grow(known, more, analyzer.pending.drop_last());
            }
        },
        StageView::Reading { path, module } => match (world.contents)(path) {
            Ok(source) => match parsed_source(source) {
                Ok(file) => {
                    let more = with_file(analyzer.findings, file, path, module);
                    assert(walks_agree(file));
                    lemma_with_file_outer_known(analyzer.findings, file, path, module);
                    lemma_files_outer_known_grow(known, more.module_paths, analyzer.pending);
                    lemma_settled_outer_known(
                        AnalyzerView { findings: more, ..analyzer },
                        declared_modules(file.modules, child_directory(path), module),
                        seq![],
                    );
                },
                Err(_) => {},
            },
            Err(_) => {},
        },
        StageView::Probing { candidates, flat_missing, found } => {
            let asked = if flat_missing {
                candidates[0].nested
            } else {
                candidates[0].flat
            };
            let module_file = ModuleFileView {
                file: chosen_file(candidates[0], !flat_missing, (world.is_file)(asked)),
                module: candidates[0].module,
            };
            lemma_settled_outer_known(analyzer, candidates.drop_first(), found.push(module_file));
        },
        StageView::Failed { .. } => {},
    }
}

proof fn lemma_run_outer_known(world: World, analyzer: AnalyzerView, steps: nat)
    requires
        all_walks_agree(world, analyzer, steps),
        knows_outer_modules(analyzer),
    ensures
        knows_outer_modules(run(world, analyzer, steps)),
    decreases steps,
{
    if steps > 0 {
        let next = answered(world, analyzer);
        assert(walks_agree_next(world, run(world, analyzer, 0)));
        assert forall|step: nat| step < steps - 1 implies walks_agree_next(
            world,
            #[trigger] run(world, next, step),
        ) by {
            assert(run(world, analyzer, step + 1) == run(world, next, step));
        }
        lemma_answered_outer_known(world, analyzer);
        lemma_run_outer_known(world, answered(world, analyzer), (steps - 1) as nat);
    }
}

/// At any point of a walk, each module around a known module is known, as long as in each file
/// read so far no module is declared inside an inline module that is not looked into for names.
pub proof fn modules_around_known_modules_are_known(
    world: World,
    root: PathView,
    steps: nat,
    module: Seq<Seq<char>>,
    length: int,
)
    requires
        all_walks_agree(world, start_at(root), steps),
        run(world, start_at(root), steps).findings.module_paths.contains(module),
        1 <= length <= module.len(),
    ensures
        run(world, start_at(root), steps).findings.module_paths.contains(module.take(length)),
{
    let known = run(world, start_at(root), steps).findings.module_paths;
    lemma_run_outer_known(world, start_at(root), steps);
    assert(outer_known(known, module));
    if length == module.len() {
        assert(module.take(length) =~= module);
    }
}

/// Two usages are the same use: of one symbol from one origin, in one module of one file.
pub open spec fn same_use(left: UsageView, right: UsageView) -> bool {
    &&& path_parts(left.file) == path_parts(right.file)
    &&& left.module == right.module
    &&& left.origin == right.origin
    &&& left.symbol == right.symbol
}

/// No two of `usages` are the same use.
pub open spec fn uses_differ(usages: Seq<UsageView>) -> bool {
    forall|i: int, j: int|
        0 <= i < j < usages.len() ==> !same_use(#[trigger] usages[i], #[trigger] usages[j])
}

/// Each usage is from a file that was seen, none is from the file that is being read, and no two
/// are the same use.
spec fn lists_uses_once(analyzer: AnalyzerView) -> bool {
    let findings = analyzer.findings;
    &&& uses_differ(findings.usages)
    &&& forall|i: int|
        0 <= i < findings.usages.len() ==> findings.seen_files.contains(
            path_parts((#[trigger] findings.usages[i]).file),
        )
    &&& match analyzer.stage {
        StageView::Reading { path, .. } => findings.seen_files.contains(path_parts(path))
            && forall|i: int|
            0 <= i < findings.usages.len() ==> path_parts((#[trigger] findings.usages[i]).file)
                != path_parts(path),
        _ => true,
    }
}

proof fn lemma_with_file_once(
    findings: Findings,
    file: SourceFileView,
    path: PathView,
    module: Seq<Seq<char>>,
)
    requires
        uses_differ(findings.usages),
        findings.seen_files.contains(path_parts(path)),
        forall|i: int|
            0 <= i < findings.usages.len() ==> findings.seen_files.contains(
                path_parts((#[trigger] findings.usages[i]).file),
            ),
        forall|i: int|
            0 <= i < findings.usages.len() ==> path_parts((#[trigger] findings.usages[i]).file)
                != path_parts(path),
    ensures
        ({
            let more = with_file(findings, file, path, module);
            &&& uses_differ(more.usages)
            &&& forall|i: int|
                0 <= i < more.usages.len() ==> more.seen_files.contains(
                    path_parts((#[trigger] more.usages[i]).file),
                )
        }),
{
    let more = with_file(findings, file, path, module);
    let count = findings.usages.len();
    let local = sorted_usages(after_events(file.names).usages);
    found_usages_can_be_listed(file.names);
    usages_are_listed_once_at_their_first_line(file.names, local);
    assert(more.usages == findings.usages + all_placed(local, path, module));
    assert forall|i: int| 0 <= i < more.usages.len() implies more.seen_files.contains(
        path_parts((#[trigger] more.usages[i]).file),
    ) by {
        if i < count {
            assert(more.usages[i] == findings.usages[i]);
        } else {
            assert(more.usages[i] == placed(local[i - count], path, module));
        }
    }
    assert forall|i: int, j: int| 0 <= i < j < more.usages.len() implies !same_use(
        #[trigger] more.usages[i],
        #[trigger] more.usages[j],
    ) by {
        if j < count {
            assert(more.usages[i] == findings.usages[i] && more.usages[j] == findings.usages[j]);
        } else {
            let right = local[j - count];
            assert(more.usages[j] == placed(right, path, module));
            if i < count {
                assert(more.usages[i] == findings.usages[i]);
            } else {
                let left = local[i - count];
                assert(more.usages[i] == placed(left, path, module));
                assert(usage_key(left) != usage_key(right));
                if left.module_path_suffix != right.module_path_suffix {
                    let size = module.len() as int;
                    assert((module + left.module_path_suffix).skip(size)
                        =~= left.module_path_suffix);
                    assert((module + right.module_path_suffix).skip(size)
                        =~= right.module_path_suffix);
                }
            }
        }
    }
}

proof fn lemma_answered_once(world: World, analyzer: AnalyzerView)
    requires
        lists_uses_once(analyzer),
    ensures
        lists_uses_once(answered(world, analyzer)),
{
    match analyzer.stage {
        StageView::Reading { path, module } => match (world.contents)(path) {
            Ok(source) => match parsed_source(source) {
                Ok(file) => {
                    lemma_with_file_once(analyzer.findings, file, path, module);
                    lemma_settled_findings(
                        AnalyzerView {
                            findings: with_file(analyzer.findings, file, path, module),
                            ..analyzer
                        },
                        declared_modules(file.modules, child_directory(path), module),
                        seq![],
                    );
                },
                Err(_) => {},
            },
            Err(_) => {},
        },
        StageView::Probing { candidates, flat_missing, found } => {
            let asked = if flat_missing {
                candidates[0].nested
            } else {
                candidates[0].flat
            };
            let module_file = ModuleFileView {
                file: chosen_file(candidates[0], !flat_missing, (world.is_file)(asked)),
                module: candidates[0].module,
            };
            lemma_settled_findings(analyzer, candidates.drop_first(), found.push(module_file));
        },
        _ => {},
    }
}

proof fn lemma_run_once(world: World, analyzer: AnalyzerView, steps: nat)
    requires
        lists_uses_once(analyzer),
    ensures
        lists_uses_once(run(world, analyzer, steps)),
    decreases steps,
{
    if steps > 0 {
        lemma_answered_once(world, analyzer);
        lemma_run_once(world, answered(world, analyzer), (steps - 1) as nat);
    }
}

/// At any point of a walk, no two usages are the same use.
pub proof fn no_use_is_listed_twice(world: World, root: PathView, steps: nat)
    ensures
        uses_differ(run(world, start_at(root), steps).findings.usages),
{
    lemma_run_once(world, start_at(root), steps);
}

} // verus!
