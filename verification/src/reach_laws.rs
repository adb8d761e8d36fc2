//! Which files a walk over a crate comes to.
use crate::analyzer::{
    explicit_file, normalized, settled, start_at, wanted, with_file, AnalyzerView, StageView,
};
use crate::analyzer_laws::{answered, module_files, run, World};
use crate::modules::{
    child_directory, chosen_file, declared_modules, ModuleCandidateView, ModuleFileView,
};
use crate::path::{path_parts, PathView};
use crate::syntax::parsed_source;
use vstd::prelude::*;

verus! {

/// The file has been seen, by the components of its canonical path.
pub open spec fn has_seen(world: World, analyzer: AnalyzerView, file: ModuleFileView) -> bool {
    analyzer.findings.seen_files.contains(
        path_parts(normalized(file.file, (world.canonical)(file.file))),
    )
}

/// The file was seen, is to come, or is that of a module that the analyzer looks for.
spec fn expects(world: World, analyzer: AnalyzerView, file: ModuleFileView) -> bool {
    ||| has_seen(world, analyzer, file)
    ||| analyzer.pending.contains(file)
    ||| match analyzer.stage {
        StageView::Probing { candidates, found, .. } => found.contains(file) || module_files(
            world,
            candidates,
        ).contains(file),
        _ => false,
    }
}

/// Where a flat file is noted as missing, it is not there.
spec fn answers_fit(world: World, analyzer: AnalyzerView) -> bool {
    match analyzer.stage {
        StageView::Probing { candidates, flat_missing, .. } => candidates.len() > 0
            && candidates[0].explicit is None && (flat_missing ==> !(world.is_file)(
            candidates[0].flat,
        )),
        _ => true,
    }
}

proof fn lemma_first_file(world: World, candidates: Seq<ModuleCandidateView>, file: ModuleFileView)
    requires
        candidates.len() > 0,
    ensures
        module_files(world, candidates).contains(file) <==> file == module_files(
            world,
            candidates,
        )[0] || module_files(world, candidates.drop_first()).contains(file),
{
    let all = module_files(world, candidates);
    let rest = module_files(world, candidates.drop_first());
    assert(all.drop_first() =~= rest);
    if all.contains(file) {
        let i = all.index_of(file);
        if i > 0 {
            assert(rest[i - 1] == file);
        }
    }
    if rest.contains(file) {
        let i = rest.index_of(file);
        assert(all[i + 1] == file);
    }
    assert(all[0] == all[0]);
}

proof fn lemma_push_contains(files: Seq<ModuleFileView>, last: ModuleFileView, file: ModuleFileView)
    ensures
        files.push(last).contains(file) <==> files.contains(file) || file == last,
{
    let more = files.push(last);
    if files.contains(file) {
        assert(more[files.index_of(file)] == file);
    }
    assert(more[files.len() as int] == last);
    if more.contains(file) {
        let i = more.index_of(file);
        if i < files.len() {
            assert(files[i] == file);
        }
    }
}

/// Settling makes the analyzer expect what it expected, the files found and the files of the
/// modules that are left, and nothing else.
proof fn lemma_settled_expects(
    world: World,
    base: AnalyzerView,
    candidates: Seq<ModuleCandidateView>,
    found: Seq<ModuleFileView>,
    file: ModuleFileView,
)
    ensures
        answers_fit(world, settled(base, candidates, found)),
        expects(world, settled(base, candidates, found), file) <==> has_seen(world, base, file)
            || base.pending.contains(file) || found.contains(file) || module_files(
            world,
            candidates,
        ).contains(file),
    decreases candidates.len(),
{
    let state = settled(base, candidates, found);
    if candidates.len() == 0 {
        let all = base.pending + found.reverse();
        assert(state.pending == all);
        assert(module_files(world, candidates).len() == 0);
        if base.pending.contains(file) {
            assert(all[base.pending.index_of(file)] == file);
        }
        if found.contains(file) {
            let i = found.index_of(file);
            assert(all[base.pending.len() + found.len() - 1 - i] == file);
        }
        if all.contains(file) {
            let i = all.index_of(file);
            if i < base.pending.len() {
                assert(base.pending[i] == file);
            } else {
                assert(found[found.len() - 1 - (i - base.pending.len())] == file);
            }
        }
    } else {
        lemma_first_file(world, candidates, file);
        if candidates[0].explicit is Some {
            let first = explicit_file(candidates[0]);
            lemma_settled_expects(world, base, candidates.drop_first(), found.push(first), file);
            lemma_push_contains(found, first, file);
            assert(module_files(world, candidates)[0] == first);
        }
    }
}

/// A file that is expected stays expected, whatever is answered.
proof fn lemma_expected_stays(world: World, analyzer: AnalyzerView, file: ModuleFileView)
    requires
        answers_fit(world, analyzer),
        expects(world, analyzer, file),
    ensures
        answers_fit(world, answered(world, analyzer)),
        expects(world, answered(world, analyzer), file),
{
    match analyzer.stage {
        StageView::Next => {
            if analyzer.pending.len() > 0 && analyzer.pending.contains(file) {
                let i = analyzer.pending.index_of(file);
                if i < analyzer.pending.len() - 1 {
                    assert(analyzer.pending.drop_last()[i] == file);
                }
            }
        },
        StageView::Reading { path, module } => {
            if let Ok(source) = (world.contents)(path) {
                if let Ok(parsed) = parsed_source(source) {
                    lemma_settled_expects(
                        world,
                        AnalyzerView {
                            findings: with_file(analyzer.findings, parsed, path, module),
                            ..analyzer
                        },
                        declared_modules(parsed.modules, child_directory(path), module),
                        seq![],
                        file,
                    );
                }
            }
        },
        StageView::Probing { candidates, flat_missing, found } => {
            let asked = if flat_missing {
                candidates[0].nested
            } else {
                candidates[0].flat
            };
            let is_file = (world.is_file)(asked);
            if flat_missing || is_file {
                let settled_file = ModuleFileView {
                    file: chosen_file(candidates[0], !flat_missing, is_file),
                    module: candidates[0].module,
                };
                lemma_first_file(world, candidates, file);
                assert(module_files(world, candidates)[0] == settled_file);
                lemma_push_contains(found, settled_file, file);
                lemma_settled_expects(
                    world,
                    analyzer,
                    candidates.drop_first(),
                    found.push(settled_file),
                    file,
                );
            }
        },
        StageView::Failed { .. } => {},
    }
}

proof fn lemma_answers_fit(world: World, analyzer: AnalyzerView, steps: nat)
    requires
        answers_fit(world, analyzer),
    ensures
        answers_fit(world, run(world, analyzer, steps)),
    decreases steps,
{
    if steps > 0 {
        lemma_answer_fits(world, analyzer);
        lemma_answers_fit(world, answered(world, analyzer), (steps - 1) as nat);
    }
}

proof fn lemma_answer_fits(world: World, analyzer: AnalyzerView)
    requires
        answers_fit(world, analyzer),
    ensures
        answers_fit(world, answered(world, analyzer)),
{
    let any = ModuleFileView { file: arbitrary(), module: arbitrary() };
    match analyzer.stage {
        StageView::Reading { path, module } => {
            if let Ok(source) = (world.contents)(path) {
                if let Ok(parsed) = parsed_source(source) {
                    lemma_settled_expects(
                        world,
                        AnalyzerView {
                            findings: with_file(analyzer.findings, parsed, path, module),
                            ..analyzer
                        },
                        declared_modules(parsed.modules, child_directory(path), module),
                        seq![],
                        any,
                    );
                }
            }
        },
        StageView::Probing { candidates, flat_missing, found } => {
            let asked = if flat_missing {
                candidates[0].nested
            } else {
                candidates[0].flat
            };
            lemma_settled_expects(
                world,
                analyzer,
                candidates.drop_first(),
                found.push(
                    ModuleFileView {
                        file: chosen_file(candidates[0], !flat_missing, (world.is_file)(asked)),
                        module: candidates[0].module,
                    },
                ),
                any,
            );
        },
        _ => {},
    }
}

proof fn lemma_expected_on(
    world: World,
    analyzer: AnalyzerView,
    file: ModuleFileView,
    steps: nat,
)
    requires
        answers_fit(world, analyzer),
        expects(world, analyzer, file),
    ensures
        expects(world, run(world, analyzer, steps), file),
    decreases steps,
{
    if steps > 0 {
        lemma_expected_stays(world, analyzer, file);
        lemma_expected_on(world, answered(world, analyzer), file, (steps - 1) as nat);
    }
}

proof fn lemma_run_sum(world: World, analyzer: AnalyzerView, first: nat, second: nat)
    ensures
        run(world, analyzer, first + second) == run(world, run(world, analyzer, first), second),
    decreases first,
{
    if first > 0 {
        lemma_run_sum(world, answered(world, analyzer), (first - 1) as nat, second);
    }
}

/// In this state the analyzer reads a file that can be read and parsed, and that declares the
/// module `module`, in the order of declarations the one at place `number`; the file of that module
/// is `file`.
pub open spec fn reads_declaration_of(
    world: World,
    analyzer: AnalyzerView,
    number: int,
    file: ModuleFileView,
) -> bool {
    match analyzer.stage {
        StageView::Reading { path, module } => match (world.contents)(path) {
            Ok(source) => match parsed_source(source) {
                Ok(parsed) => {
                    let declared = declared_modules(parsed.modules, child_directory(path), module);
                    &&& 0 <= number < declared.len()
                    &&& file.module == declared[number].module
                    &&& match declared[number].explicit {
                        Some(given) => file.file == given,
                        None => if (world.is_file)(declared[number].flat) || !(world.is_file)(
                            declared[number].nested,
                        ) {
                            file.file == declared[number].flat
                        } else {
                            file.file == declared[number].nested
                        },
                    }
                },
                Err(_) => false,
            },
            Err(_) => false,
        },
        _ => false,
    }
}

/// In a file system that does not change, a walk that finishes has seen the root file, and for each
/// file that it read the file of every module which that file declares.
pub proof fn finished_walks_have_seen_every_declared_module(
    world: World,
    root: PathView,
    i: nat,
    j: nat,
    number: int,
    file: ModuleFileView,
)
    requires
        i < j,
        reads_declaration_of(world, run(world, start_at(root), i), number, file),
        wanted(run(world, start_at(root), j)) is Finish,
    ensures
        has_seen(world, run(world, start_at(root), j), file),
        has_seen(
            world,
            run(world, start_at(root), j),
            ModuleFileView { file: root, module: seq!["crate"@] },
        ),
{
    let start = start_at(root);
    let reading = run(world, start, i);
    let next = run(world, start, i + 1);
    let last = run(world, start, j);
    lemma_answers_fit(world, start, i);
    lemma_run_sum(world, start, i, 1);
    assert(run(world, reading, 1) == run(world, answered(world, reading), 0));
    assert(next == answered(world, reading));
    lemma_answer_fits(world, reading);
    let path = reading.stage->Reading_path;
    let module = reading.stage->Reading_module;
    let parsed = parsed_source((world.contents)(path)->Ok_0)->Ok_0;
    let declared = declared_modules(parsed.modules, child_directory(path), module);
    assert(module_files(world, declared)[number] == file);
    lemma_settled_expects(
        world,
        AnalyzerView { findings: with_file(reading.findings, parsed, path, module), ..reading },
        declared,
        seq![],
        file,
    );
    assert(module_files(world, declared).contains(file));
    lemma_expected_on(world, next, file, (j - i - 1) as nat);
    lemma_run_sum(world, start, i + 1, (j - i - 1) as nat);
    let first = ModuleFileView { file: root, module: seq!["crate"@] };
    assert(start.pending[0] == first);
    assert(start.pending.contains(first));
    lemma_expected_on(world, start, first, j);
}

/// The file is the root, or a file read before step `steps` declares its module.
pub open spec fn declared_before(
    world: World,
    root: PathView,
    steps: nat,
    file: ModuleFileView,
) -> bool {
    ||| file == (ModuleFileView { file: root, module: seq!["crate"@] })
    ||| exists|i: nat, number: int|
        i < steps && #[trigger] reads_declaration_of(
            world,
            run(world, start_at(root), i),
            number,
            file,
        )
}

/// Each file that the analyzer expects, but has not seen, was declared before.
spec fn expects_only_declared(world: World, root: PathView, steps: nat) -> bool {
    let state = run(world, start_at(root), steps);
    &&& forall|i: int|
        0 <= i < state.pending.len() ==> declared_before(
            world,
            root,
            steps,
            #[trigger] state.pending[i],
        )
    &&& match state.stage {
        StageView::Probing { candidates, found, .. } => {
            &&& forall|i: int|
                0 <= i < found.len() ==> declared_before(world, root, steps, #[trigger] found[i])
            &&& forall|i: int|
                0 <= i < candidates.len() ==> declared_before(
                    world,
                    root,
                    steps,
                    #[trigger] module_files(world, candidates)[i],
                )
        },
        StageView::Reading { path, module } => exists|file: ModuleFileView| #[trigger]
            declared_before(world, root, steps, file) && file.module == module && path
                == normalized(file.file, (world.canonical)(file.file)),
        _ => true,
    }
}

proof fn lemma_declared_later(world: World, root: PathView, steps: nat, file: ModuleFileView)
    requires
        declared_before(world, root, steps, file),
    ensures
        declared_before(world, root, steps + 1, file),
{
    let first = ModuleFileView { file: root, module: seq!["crate"@] };
    if file != first {
        let (i, number) = choose|i: nat, number: int|
            i < steps && #[trigger] reads_declaration_of(
                world,
                run(world, start_at(root), i),
                number,
                file,
            );
        assert(i < steps + 1 && reads_declaration_of(
            world,
            run(world, start_at(root), i),
            number,
            file,
        ));
    }
}

proof fn lemma_settled_declared(
    world: World,
    root: PathView,
    steps: nat,
    base: AnalyzerView,
    candidates: Seq<ModuleCandidateView>,
    found: Seq<ModuleFileView>,
)
    requires
        forall|i: int|
            0 <= i < base.pending.len() ==> declared_before(
                world,
                root,
                steps,
                #[trigger] base.pending[i],
            ),
        forall|i: int|
            0 <= i < found.len() ==> declared_before(world, root, steps, #[trigger] found[i]),
        forall|i: int|
            0 <= i < candidates.len() ==> declared_before(
                world,
                root,
                steps,
                #[trigger] module_files(world, candidates)[i],
            ),
    ensures
        ({
            let state = settled(base, candidates, found);
            &&& forall|i: int|
                0 <= i < state.pending.len() ==> declared_before(
                    world,
                    root,
                    steps,
                    #[trigger] state.pending[i],
                )
            &&& match state.stage {
                StageView::Probing { candidates, found, .. } => {
                    &&& forall|i: int|
                        0 <= i < found.len() ==> declared_before(
                            world,
                            root,
                            steps,
                            #[trigger] found[i],
                        )
                    &&& forall|i: int|
                        0 <= i < candidates.len() ==> declared_before(
                            world,
                            root,
                            steps,
                            #[trigger] module_files(world, candidates)[i],
                        )
                },
                StageView::Reading { .. } => false,
                _ => true,
            }
        }),
    decreases candidates.len(),
{
    let state = settled(base, candidates, found);
    if candidates.len() == 0 {
        assert forall|i: int| 0 <= i < state.pending.len() implies declared_before(
            world,
            root,
            steps,
            #[trigger] state.pending[i],
        ) by {
            if i < base.pending.len() {
                assert(state.pending[i] == base.pending[i]);
            } else {
                assert(state.pending[i] == found[found.len() - 1 - (i - base.pending.len())]);
            }
        }
    } else if candidates[0].explicit is Some {
        let first = explicit_file(candidates[0]);
        let all = module_files(world, candidates);
        let rest = module_files(world, candidates.drop_first());
        assert(all[0] == first);
        assert forall|i: int| 0 <= i < rest.len() implies declared_before(
            world,
            root,
            steps,
            #[trigger] rest[i],
        ) by {
            assert(rest[i] == all[i + 1]);
        }
        assert forall|i: int| 0 <= i < found.push(first).len() implies declared_before(
            world,
            root,
            steps,
            #[trigger] found.push(first)[i],
        ) by {
            if i < found.len() {
                assert(found.push(first)[i] == found[i]);
            }
        }
        lemma_settled_declared(
            world,
            root,
            steps,
            base,
            candidates.drop_first(),
            found.push(first),
        );
    }
}

proof fn lemma_expects_only_declared(world: World, root: PathView, steps: nat)
    ensures
        expects_only_declared(world, root, steps),
    decreases steps,
{
    let start = start_at(root);
    if steps == 0 {
        assert(run(world, start, 0) == start);
    } else {
        let before = (steps - 1) as nat;
        let state = run(world, start, before);
        let next = run(world, start, steps);
        lemma_expects_only_declared(world, root, before);
        lemma_answers_fit(world, start, before);
        lemma_run_sum(world, start, before, 1);
        assert(run(world, state, 1) == run(world, answered(world, state), 0));
        assert(next == answered(world, state));
        assert forall|i: int| 0 <= i < state.pending.len() implies declared_before(
            world,
            root,
            steps,
            #[trigger] state.pending[i],
        ) by {
            lemma_declared_later(world, root, before, state.pending[i]);
        }
        match state.stage {
            StageView::Next => {
                if state.pending.len() > 0 {
                    let file = state.pending.last();
                    assert(file == state.pending[state.pending.len() - 1]);
                    assert(declared_before(world, root, steps, file));
                    assert forall|i: int| 0 <= i < next.pending.len() implies declared_before(
                        world,
                        root,
                        steps,
                        #[trigger] next.pending[i],
                    ) by {
                        assert(next.pending[i] == state.pending[i]);
                    }
                }
            },
            StageView::Reading { path, module } => {
                if let Ok(source) = (world.contents)(path) {
                    if let Ok(parsed) = parsed_source(source) {
                        let declared = declared_modules(
                            parsed.modules,
                            child_directory(path),
                            module,
                        );
                        let files = module_files(world, declared);
                        assert forall|i: int| 0 <= i < declared.len() implies declared_before(
                            world,
                            root,
                            steps,
                            #[trigger] files[i],
                        ) by {
                            assert(before < steps && reads_declaration_of(
                                world,
                                run(world, start_at(root), before),
                                i,
                                files[i],
                            ));
                        }
                        lemma_settled_declared(
                            world,
                            root,
                            steps,
                            AnalyzerView {
                                findings: with_file(state.findings, parsed, path, module),
                                ..state
                            },
                            declared,
                            seq![],
                        );
                    }
                }
            },
            StageView::Probing { candidates, flat_missing, found } => {
                let asked = if flat_missing {
                    candidates[0].nested
                } else {
                    candidates[0].flat
                };
                let is_file = (world.is_file)(asked);
                let all = module_files(world, candidates);
                assert forall|i: int| 0 <= i < found.len() implies declared_before(
                    world,
                    root,
                    steps,
                    #[trigger] found[i],
                ) by {
                    lemma_declared_later(world, root, before, found[i]);
                }
                assert forall|i: int| 0 <= i < candidates.len() implies declared_before(
                    world,
                    root,
                    steps,
                    #[trigger] all[i],
                ) by {
                    lemma_declared_later(world, root, before, all[i]);
                }
                if flat_missing || is_file {
                    let first = ModuleFileView {
                        file: chosen_file(candidates[0], !flat_missing, is_file),
                        module: candidates[0].module,
                    };
                    let rest = module_files(world, candidates.drop_first());
                    assert(all[0] == first);
                    assert forall|i: int| 0 <= i < rest.len() implies declared_before(
                        world,
                        root,
                        steps,
                        #[trigger] rest[i],
                    ) by {
                        assert(rest[i] == all[i + 1]);
                    }
                    assert forall|i: int|
                        0 <= i < found.push(first).len() implies declared_before(
                        world,
                        root,
                        steps,
                        #[trigger] found.push(first)[i],
                    ) by {
                        if i < found.len() {
                            assert(found.push(first)[i] == found[i]);
                        }
                    }
                    lemma_settled_declared(
                        world,
                        root,
                        steps,
                        state,
                        candidates.drop_first(),
                        found.push(first),
                    );
                }
            },
            StageView::Failed { .. } => {},
        }
    }
}

/// In a file system that does not change, the walk reads no file but the root and those of modules
/// that files read before declare, each by its canonical path and for the declared module.
pub proof fn walks_read_declared_modules_only(
    world: World,
    root: PathView,
    steps: nat,
    path: PathView,
    module: Seq<Seq<char>>,
)
    requires
        run(world, start_at(root), steps).stage == (StageView::Reading { path, module }),
    ensures
        exists|file: ModuleFileView| #[trigger]
            declared_before(world, root, steps, file) && file.module == module && path
                == normalized(file.file, (world.canonical)(file.file)),
{
    lemma_expects_only_declared(world, root, steps);
}

} // verus!
