//! What the walk over the files of a crate amounts to.
use crate::analyzer::{
    after_canonical, after_probe, after_read, explicit_file, lemma_settled_stage, normalized,
    settled, start_at, wanted, with_file, ActionView, AnalyzerView, Findings, StageView,
};
use crate::failure::FailureView;
use crate::modules::{
    child_directory, chosen_file, declared_modules, ModuleCandidateView, ModuleFileView,
};
use crate::path::{path_parts, PathPart, PathView};
use crate::syntax::parsed_source;
use vstd::prelude::*;

verus! {

/// A file system that does not change: the canonical form of each path that has one, what reading
/// each path gives, and which paths are those of files.
pub struct World {
    pub canonical: spec_fn(PathView) -> Option<PathView>,
    pub contents: spec_fn(PathView) -> Result<Seq<char>, Seq<char>>,
    pub is_file: spec_fn(PathView) -> bool,
}

/// The analyzer after it was given what it asked for.
pub open spec fn answered(world: World, analyzer: AnalyzerView) -> AnalyzerView {
    match wanted(analyzer) {
        ActionView::Canonicalize { path } => after_canonical(analyzer, (world.canonical)(path)),
        ActionView::Read { path } => after_read(analyzer, (world.contents)(path)),
        ActionView::Probe { path } => after_probe(analyzer, (world.is_file)(path)),
        _ => analyzer,
    }
}

/// The analyzer after `steps` answers.
pub open spec fn run(world: World, analyzer: AnalyzerView, steps: nat) -> AnalyzerView
    decreases steps,
{
    if steps == 0 {
        analyzer
    } else {
        run(world, answered(world, analyzer), (steps - 1) as nat)
    }
}

/// The files of the modules that `candidates` are.
pub open spec fn module_files(world: World, candidates: Seq<ModuleCandidateView>) -> Seq<
    ModuleFileView,
> {
    Seq::new(
        candidates.len(),
        |i: int|
            ModuleFileView {
                file: chosen_file(
                    candidates[i],
                    (world.is_file)(candidates[i].flat),
                    (world.is_file)(candidates[i].nested),
                ),
                module: candidates[i].module,
            },
    )
}

/// What a walk from some files on comes to: what has been found by then, and the failure where it
/// ended in one.
#[verifier::ext_equal]
pub struct Outcome {
    pub findings: Findings,
    pub failure: Option<FailureView>,
}

/// The findings once a file of the module `module` is to be read.
pub open spec fn with_seen(
    findings: Findings,
    path: PathView,
    module: Seq<Seq<char>>,
) -> Findings {
    Findings {
        seen_files: findings.seen_files.insert(path_parts(path)),
        module_paths: findings.module_paths.insert(module),
        usages: findings.usages,
    }
}

/// What is found from one file on: in the file itself, unless it was seen before, and then in the
/// files of the modules that it declares, in their order. The first file that cannot be read or
/// parsed ends it. Files nested more than `depth` deep give no outcome.
pub open spec fn file_outcome(
    world: World,
    findings: Findings,
    file: ModuleFileView,
    depth: nat,
) -> Option<Outcome>
    decreases depth, 0nat,
{
    let path = normalized(file.file, (world.canonical)(file.file));
    if depth == 0 {
        None
    } else if findings.seen_files.contains(path_parts(path)) {
        Some(Outcome { findings, failure: None })
    } else {
        let opened = with_seen(findings, path, file.module);
        match (world.contents)(path) {
            Err(error) => Some(
                Outcome { findings: opened, failure: Some(FailureView::Read { path, error }) },
            ),
            Ok(source) => match parsed_source(source) {
                Err(error) => Some(
                    Outcome { findings: opened, failure: Some(FailureView::Parse { path, error }) },
                ),
                Ok(parsed) => files_outcome(
                    world,
                    with_file(opened, parsed, path, file.module),
                    module_files(
                        world,
                        declared_modules(parsed.modules, child_directory(path), file.module),
                    ),
                    (depth - 1) as nat,
                ),
            },
        }
    }
}

/// What is found from several files on, one after the other.
pub open spec fn files_outcome(
    world: World,
    findings: Findings,
    files: Seq<ModuleFileView>,
    depth: nat,
) -> Option<Outcome>
    decreases depth, files.len(),
{
    if files.len() == 0 {
        Some(Outcome { findings, failure: None })
    } else {
        match file_outcome(world, findings, files[0], depth) {
            Some(first) if first.failure is None => files_outcome(
                world,
                first.findings,
                files.drop_first(),
                depth,
            ),
            ended => ended,
        }
    }
}

proof fn lemma_run_on(world: World, analyzer: AnalyzerView, first: nat, second: nat)
    ensures
        run(world, analyzer, first + second) == run(world, run(world, analyzer, first), second),
    decreases first,
{
    if first > 0 {
        lemma_run_on(world, answered(world, analyzer), (first - 1) as nat, second);
    }
}

proof fn lemma_run_step(world: World, analyzer: AnalyzerView)
    ensures
        run(world, analyzer, 1) == answered(world, analyzer),
{
    assert(run(world, answered(world, analyzer), 0) == answered(world, analyzer));
}

/// The files of the declared modules are found one by one and are pending in the end.
proof fn lemma_settled_run(
    world: World,
    base: AnalyzerView,
    candidates: Seq<ModuleCandidateView>,
    found: Seq<ModuleFileView>,
) -> (steps: nat)
    ensures
        run(world, settled(base, candidates, found), steps) == (AnalyzerView {
            findings: base.findings,
            pending: base.pending + (found + module_files(world, candidates)).reverse(),
            stage: StageView::Next,
        }),
    decreases candidates.len(),
{
    let state = settled(base, candidates, found);
    let files = module_files(world, candidates);
    if candidates.len() == 0 {
        assert(found + files =~= found);
        0
    } else {
        let rest = candidates.drop_first();
        let first = candidates[0];
        assert(files =~= seq![files[0]] + module_files(world, rest));
        if first.explicit is Some {
            assert(files[0] == explicit_file(first));
            assert(found.push(files[0]) + module_files(world, rest) =~= found + files);
            lemma_settled_run(world, base, rest, found.push(explicit_file(first)))
        } else {
            let flat = (world.is_file)(first.flat);
            assert(found.push(files[0]) + module_files(world, rest) =~= found + files);
            lemma_run_step(world, state);
            if flat {
                assert(answered(world, state) == settled(state, rest, found.push(files[0])));
                lemma_settled_stage(state, base, rest, found.push(files[0]));
                let more = lemma_settled_run(world, base, rest, found.push(files[0]));
                lemma_run_on(world, state, 1, more);
                1 + more
            } else {
                let missing = answered(world, state);
                assert(answered(world, missing) == settled(missing, rest, found.push(files[0])));
                lemma_settled_stage(missing, base, rest, found.push(files[0]));
                lemma_run_step(world, missing);
                lemma_run_on(world, state, 1, 1);
                let more = lemma_settled_run(world, base, rest, found.push(files[0]));
                lemma_run_on(world, state, 2, more);
                2 + more
            }
        }
    }
}

/// The state is the one that `outcome` tells, with the files `pending` still to come.
pub open spec fn ends_in(
    state: AnalyzerView,
    pending: Seq<ModuleFileView>,
    outcome: Outcome,
) -> bool {
    &&& state.findings == outcome.findings
    &&& match outcome.failure {
        None => state.pending == pending && state.stage == StageView::Next,
        Some(failure) => state.stage == (StageView::Failed { failure }),
    }
}

proof fn lemma_file_run(
    world: World,
    findings: Findings,
    pending: Seq<ModuleFileView>,
    file: ModuleFileView,
    depth: nat,
) -> (steps: nat)
    requires
        file_outcome(world, findings, file, depth) is Some,
    ensures
        ends_in(
            run(
                world,
                AnalyzerView { findings, pending: pending.push(file), stage: StageView::Next },
                steps,
            ),
            pending,
            file_outcome(world, findings, file, depth)->0,
        ),
    decreases depth, 0nat,
{
    let start = AnalyzerView { findings, pending: pending.push(file), stage: StageView::Next };
    let path = normalized(file.file, (world.canonical)(file.file));
    let reading = answered(world, start);
    assert(start.pending.drop_last() =~= pending);
    lemma_run_step(world, start);
    if findings.seen_files.contains(path_parts(path)) {
        1
    } else {
        assert(reading.stage == (StageView::Reading { path, module: file.module }));
        lemma_run_step(world, reading);
        lemma_run_on(world, start, 1, 1);
        match (world.contents)(path) {
            Err(_) => 2,
            Ok(source) => match parsed_source(source) {
                Err(_) => 2,
                Ok(parsed) => {
                    let base = AnalyzerView {
                        findings: with_file(reading.findings, parsed, path, file.module),
                        ..reading
                    };
                    let candidates = declared_modules(
                        parsed.modules,
                        child_directory(path),
                        file.module,
                    );
                    let none: Seq<ModuleFileView> = seq![];
                    let children = module_files(world, candidates);
                    assert(answered(world, reading) == settled(base, candidates, none));
                    let probes = lemma_settled_run(world, base, candidates, none);
                    assert(none + children =~= children);
                    lemma_run_on(world, start, 2, probes);
                    let more = lemma_files_run(
                        world,
                        base.findings,
                        pending,
                        children,
                        (depth - 1) as nat,
                    );
                    lemma_run_on(world, start, 2 + probes, more);
                    2 + probes + more
                },
            },
        }
    }
}

proof fn lemma_files_run(
    world: World,
    findings: Findings,
    pending: Seq<ModuleFileView>,
    files: Seq<ModuleFileView>,
    depth: nat,
) -> (steps: nat)
    requires
        files_outcome(world, findings, files, depth) is Some,
    ensures
        ends_in(
            run(
                world,
                AnalyzerView {
                    findings,
                    pending: pending + files.reverse(),
                    stage: StageView::Next,
                },
                steps,
            ),
            pending,
            files_outcome(world, findings, files, depth)->0,
        ),
    decreases depth, files.len(),
{
    let start = AnalyzerView {
        findings,
        pending: pending + files.reverse(),
        stage: StageView::Next,
    };
    if files.len() == 0 {
        assert(pending + files.reverse() =~= pending);
        0
    } else {
        let rest = files.drop_first();
        let waiting = pending + rest.reverse();
        assert(files.reverse() =~= rest.reverse().push(files[0]));
        assert(pending + files.reverse() =~= waiting.push(files[0]));
        let first = lemma_file_run(world, findings, waiting, files[0], depth);
        let outcome = file_outcome(world, findings, files[0], depth)->0;
        if outcome.failure is None {
            let second = lemma_files_run(world, outcome.findings, pending, rest, depth);
            lemma_run_on(world, start, first, second);
            first + second
        } else {
            first
        }
    }
}

/// In a file system that does not change, the analyzer comes from any file on to what is found
/// from that file on, with the other pending files still to come, or fails there.
pub proof fn walk_reaches_its_outcome(
    world: World,
    findings: Findings,
    pending: Seq<ModuleFileView>,
    file: ModuleFileView,
    depth: nat,
)
    requires
        file_outcome(world, findings, file, depth) is Some,
    ensures
        exists|steps: nat|
            ends_in(
                #[trigger] run(
                    world,
                    AnalyzerView { findings, pending: pending.push(file), stage: StageView::Next },
                    steps,
                ),
                pending,
                file_outcome(world, findings, file, depth)->0,
            ),
{
    let steps = lemma_file_run(world, findings, pending, file, depth);
    assert(ends_in(
        run(
            world,
            AnalyzerView { findings, pending: pending.push(file), stage: StageView::Next },
            steps,
        ),
        pending,
        file_outcome(world, findings, file, depth)->0,
    ));
}

/// In a file system that does not change, the analyzer walks over the files depth first: it
/// finishes with what is found from the root file on, or fails with the first error met there.
pub proof fn walk_is_depth_first(world: World, root: PathView, depth: nat)
    requires
        file_outcome(
            world,
            start_at(root).findings,
            ModuleFileView { file: root, module: seq!["crate"@] },
            depth,
        ) is Some,
    ensures
        exists|steps: nat| {
            let last = #[trigger] run(world, start_at(root), steps);
            let outcome = file_outcome(
                world,
                start_at(root).findings,
                ModuleFileView { file: root, module: seq!["crate"@] },
                depth,
            )->0;
            &&& last.findings == outcome.findings
            &&& wanted(last) == match outcome.failure {
                None => ActionView::Finish,
                Some(failure) => ActionView::Fail { failure },
            }
        },
{
    let file = ModuleFileView { file: root, module: seq!["crate"@] };
    let start = start_at(root);
    let none: Seq<ModuleFileView> = seq![];
    assert(start.pending =~= none.push(file));
    let steps = lemma_file_run(world, start.findings, none, file, depth);
    let last = run(world, start, steps);
    assert(start == (AnalyzerView {
        findings: start.findings,
        pending: none.push(file),
        stage: StageView::Next,
    }));
}

/// A file that is being read counts as seen.
spec fn reads_seen_file(analyzer: AnalyzerView) -> bool {
    match analyzer.stage {
        StageView::Reading { path, .. } => analyzer.findings.seen_files.contains(path_parts(path)),
        _ => true,
    }
}

/// Settling finds no usages and no modules, and reads no file.
pub proof fn lemma_settled_findings(
    analyzer: AnalyzerView,
    candidates: Seq<ModuleCandidateView>,
    found: Seq<ModuleFileView>,
)
    ensures
        settled(analyzer, candidates, found).findings == analyzer.findings,
        !(settled(analyzer, candidates, found).stage is Reading),
    decreases candidates.len(),
{
    if candidates.len() > 0 && candidates[0].explicit is Some {
        lemma_settled_findings(
            analyzer,
            candidates.drop_first(),
            found.push(explicit_file(candidates[0])),
        );
    }
}

/// One answer keeps the files seen, and starts to read only a file not seen before.
proof fn lemma_answered(world: World, analyzer: AnalyzerView)
    ensures
        analyzer.findings.seen_files.subset_of(answered(world, analyzer).findings.seen_files),
        reads_seen_file(analyzer) ==> reads_seen_file(answered(world, analyzer)),
        answered(world, analyzer).stage matches StageView::Reading { path, .. }
            ==> analyzer.stage is Next && !analyzer.findings.seen_files.contains(path_parts(path)),
{
    match analyzer.stage {
        StageView::Reading { path, module } => match (world.contents)(path) {
            Ok(source) => match parsed_source(source) {
                Ok(file) => {
                    lemma_settled_findings(
                        AnalyzerView {
                            findings: with_file(analyzer.findings, file, path, module),
                            ..analyzer
                        },
                        declared_modules(file.modules, child_directory(path), module),
                        seq![],
                    );
                },
                Err(_) => {},
            },
            Err(_) => {},
        },
        StageView::Probing { candidates, flat_missing, found } => {
            let asked = if flat_missing {
                candidates[0].nested
            } else {
                candidates[0].flat
            };
            let module_file = ModuleFileView {
                file: chosen_file(candidates[0], !flat_missing, (world.is_file)(asked)),
                module: candidates[0].module,
            };
            lemma_settled_findings(analyzer, candidates.drop_first(), found.push(module_file));
        },
        _ => {},
    }
}

proof fn lemma_run_seen(world: World, analyzer: AnalyzerView, steps: nat)
    requires
        reads_seen_file(analyzer),
    ensures
        analyzer.findings.seen_files.subset_of(run(world, analyzer, steps).findings.seen_files),
        reads_seen_file(run(world, analyzer, steps)),
    decreases steps,
{
    if steps > 0 {
        lemma_answered(world, analyzer);
        lemma_run_seen(world, answered(world, analyzer), (steps - 1) as nat);
    }
}

/// No file is read twice.
pub proof fn no_file_is_read_twice(world: World, root: PathView, i: nat, j: nat)
    requires
        i < j,
        wanted(run(world, start_at(root), i)) is Read,
        wanted(run(world, start_at(root), j)) is Read,
    ensures
        path_parts(wanted(run(world, start_at(root), i))->Read_path) != path_parts(
            wanted(run(world, start_at(root), j))->Read_path,
        ),
{
    let start = start_at(root);
    let earlier = run(world, start, i);
    let before = run(world, start, (j - 1) as nat);
    let later = run(world, start, j);
    lemma_run_on(world, start, (j - 1) as nat, 1);
    lemma_run_step(world, before);
    assert(later == answered(world, before));
    lemma_answered(world, before);
    lemma_run_seen(world, start, i);
    lemma_run_on(world, start, i, (j - 1 - i) as nat);
    lemma_run_seen(world, earlier, (j - 1 - i) as nat);
}

/// Reading succeeds only for paths with components among `readable`.
pub open spec fn reads_only(world: World, readable: Set<Seq<PathPart>>) -> bool {
    forall|path: PathView|
        #[trigger] (world.contents)(path) is Ok ==> readable.contains(path_parts(path))
}

proof fn lemma_file_depth(
    world: World,
    readable: Set<Seq<PathPart>>,
    findings: Findings,
    file: ModuleFileView,
    depth: nat,
)
    requires
        readable.finite(),
        reads_only(world, readable),
        depth > readable.difference(findings.seen_files).len(),
    ensures
        file_outcome(world, findings, file, depth) is Some,
        findings.seen_files.subset_of(
            (file_outcome(world, findings, file, depth)->0).findings.seen_files,
        ),
    decreases depth, 0nat,
{
    let path = normalized(file.file, (world.canonical)(file.file));
    if !findings.seen_files.contains(path_parts(path)) && (world.contents)(path) is Ok {
        let source = (world.contents)(path)->Ok_0;
        if let Ok(parsed) = parsed_source(source) {
            let seen_files = findings.seen_files.insert(path_parts(path));
            let next = with_file(
                with_seen(findings, path, file.module),
                parsed,
                path,
                file.module,
            );
            assert(readable.contains(path_parts(path)));
            assert(readable.difference(seen_files) =~= readable.difference(
                findings.seen_files,
            ).remove(path_parts(path)));
            let files = module_files(
                world,
                declared_modules(parsed.modules, child_directory(path), file.module),
            );
            lemma_files_depth(world, readable, next, files, (depth - 1) as nat);
        }
    }
}

proof fn lemma_files_depth(
    world: World,
    readable: Set<Seq<PathPart>>,
    findings: Findings,
    files: Seq<ModuleFileView>,
    depth: nat,
)
    requires
        readable.finite(),
        reads_only(world, readable),
        files.len() > 0 ==> depth > readable.difference(findings.seen_files).len(),
    ensures
        files_outcome(world, findings, files, depth) is Some,
        findings.seen_files.subset_of(
            (files_outcome(world, findings, files, depth)->0).findings.seen_files,
        ),
    decreases depth, files.len(),
{
    if files.len() > 0 {
        lemma_file_depth(world, readable, findings, files[0], depth);
        let first = file_outcome(world, findings, files[0], depth)->0;
        if first.failure is None {
            let more = first.findings;
            assert(readable.difference(more.seen_files).subset_of(
                readable.difference(findings.seen_files),
            ));
            vstd::set_lib::lemma_len_subset(
                readable.difference(more.seen_files),
                readable.difference(findings.seen_files),
            );
            lemma_files_depth(world, readable, more, files.drop_first(), depth);
        }
    }
}

/// In a file system with finitely many readable files that does not change, the walk ends.
pub proof fn walk_ends(world: World, readable: Set<Seq<PathPart>>, root: PathView)
    requires
        readable.finite(),
        reads_only(world, readable),
    ensures
        exists|steps: nat| {
            let last = wanted(#[trigger] run(world, start_at(root), steps));
            last is Finish || last is Fail
        },
{
    let file = ModuleFileView { file: root, module: seq!["crate"@] };
    let findings = start_at(root).findings;
    assert(readable.difference(findings.seen_files) =~= readable);
    let depth = readable.len() + 1;
    lemma_file_depth(world, readable, findings, file, depth);
    walk_is_depth_first(world, root, depth);
}

} // verus!
