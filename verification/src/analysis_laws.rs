//! What holds of the findings of a walk over a crate.
use crate::analyzer::{
    explicit_file, normalized, placed, settled, start_at, with_file, with_inline_modules,
    AnalyzerView, Findings, StageView,
};
use crate::analyzer_laws::{
    answered, ends_in, file_outcome, files_outcome, lemma_settled_findings, module_files, run,
    walk_reaches_its_outcome, with_seen, World,
};
use crate::module_laws::{declared_modules_lie_in_inline_modules, modules_around};
use crate::modules::{
    child_directory, chosen_file, declared_modules, walk_start, walk_steps, ModuleCandidateView,
    ModuleFileView, ModuleWalkView,
};
use crate::path::{path_parts, PathView};
use crate::syntax::{parsed_source, ModuleEventView, SourceFileView};
use crate::visitor::{after_events, sorted_usages, usage_key};
use crate::visitor_laws::{found_usages_can_be_listed, usages_lie_in_entered_modules};
use vstd::prelude::*;

verus! {

/// Each usage lies in a known module, and so does the file that is being read.
spec fn uses_from_known_modules(analyzer: AnalyzerView) -> bool {
    let findings = analyzer.findings;
    &&& forall|i: int|
        0 <= i < findings.usages.len() ==> findings.module_paths.contains(
            (#[trigger] findings.usages[i]).module,
        )
    &&& analyzer.stage matches StageView::Reading { module, .. } ==> findings.module_paths.contains(
        module,
    )
}

/// The inline modules of a file are added to the known ones, and nothing else is.
pub proof fn lemma_with_inline_modules(
    known: Set<Seq<Seq<char>>>,
    inline: Seq<Seq<Seq<char>>>,
    module: Seq<Seq<char>>,
)
    ensures
        known.subset_of(with_inline_modules(known, inline, module)),
        forall|i: int|
            0 <= i < inline.len() ==> with_inline_modules(known, inline, module).contains(
                module + #[trigger] inline[i],
            ),
        forall|other: Seq<Seq<char>>| #[trigger]
            with_inline_modules(known, inline, module).contains(other) ==> known.contains(other)
                || exists|i: int| 0 <= i < inline.len() && other == module + #[trigger] inline[i],
    decreases inline.len(),
{
    if inline.len() > 0 {
        let earlier = inline.drop_last();
        lemma_with_inline_modules(known, earlier, module);
        assert forall|i: int| 0 <= i < inline.len() implies with_inline_modules(
            known,
            inline,
            module,
        ).contains(module + #[trigger] inline[i]) by {
            if i < earlier.len() {
                assert(earlier[i] == inline[i]);
            }
        }
        assert forall|other: Seq<Seq<char>>| #[trigger]
            with_inline_modules(known, inline, module).contains(other) implies known.contains(other)
            || exists|i: int| 0 <= i < inline.len() && other == module + #[trigger] inline[i] by {
            if with_inline_modules(known, earlier, module).contains(other) {
                if !known.contains(other) {
                    let i = choose|i: int|
                        0 <= i < earlier.len() && other == module + #[trigger] earlier[i];
                    assert(other == module + inline[i]);
                }
            } else {
                assert(other == module + inline[inline.len() - 1]);
            }
        }
    }
}

proof fn lemma_with_file(
    findings: Findings,
    file: SourceFileView,
    path: PathView,
    module: Seq<Seq<char>>,
)
    requires
        findings.module_paths.contains(module),
    ensures
        ({
            let more = with_file(findings, file, path, module);
            forall|i: int|
                findings.usages.len() <= i < more.usages.len() ==> more.module_paths.contains(
                    (#[trigger] more.usages[i]).module,
                )
        }),
{
    let found = after_events(file.names);
    let more = with_file(findings, file, path, module);
    let local = sorted_usages(found.usages);
    lemma_with_inline_modules(findings.module_paths, found.inline_module_paths, module);
    usages_lie_in_entered_modules(file.names);
    found_usages_can_be_listed(file.names);
    assert forall|i: int| findings.usages.len() <= i < more.usages.len() implies
        more.module_paths.contains((#[trigger] more.usages[i]).module) by {
        let usage = local[i - findings.usages.len()];
        assert(more.usages[i].module == module + usage.module_path_suffix);
        assert(local.to_set().contains(usage));
        assert(found.usages.dom().contains(usage_key(usage)));
        if usage.module_path_suffix.len() == 0 {
            assert(module + usage.module_path_suffix =~= module);
        } else {
            let at = found.inline_module_paths.index_of(usage.module_path_suffix);
            assert(found.inline_module_paths[at] == usage.module_path_suffix);
        }
    }
}

proof fn lemma_answered_modules(world: World, analyzer: AnalyzerView)
    requires
        uses_from_known_modules(analyzer),
    ensures
        uses_from_known_modules(answered(world, analyzer)),
        analyzer.findings.module_paths.subset_of(answered(world, analyzer).findings.module_paths),
{
    match analyzer.stage {
        StageView::Reading { path, module } => match (world.contents)(path) {
            Ok(source) => match parsed_source(source) {
                Ok(file) => {
                    let more = with_file(analyzer.findings, file, path, module);
                    lemma_with_file(analyzer.findings, file, path, module);
                    lemma_with_inline_modules(
                        analyzer.findings.module_paths,
                        after_events(file.names).inline_module_paths,
                        module,
                    );
                    assert forall|i: int| 0 <= i < more.usages.len() implies
                        more.module_paths.contains((#[trigger] more.usages[i]).module) by {
                        if i < analyzer.findings.usages.len() {
                            assert(more.usages[i] == analyzer.findings.usages[i]);
                        }
                    }
                    lemma_settled_findings(
                        AnalyzerView {
                            findings: with_file(analyzer.findings, file, path, module),
                            ..analyzer
                        },
                        declared_modules(file.modules, child_directory(path), module),
                        seq![],
                    );
                },
                Err(_) => {},
            },
            Err(_) => {},
        },
        StageView::Probing { candidates, flat_missing, found } => {
            let asked = if flat_missing {
                candidates[0].nested
            } else {
                candidates[0].flat
            };
            let module_file = ModuleFileView {
                file: chosen_file(candidates[0], !flat_missing, (world.is_file)(asked)),
                module: candidates[0].module,
            };
            lemma_settled_findings(analyzer, candidates.drop_first(), found.push(module_file));
        },
        _ => {},
    }
}

proof fn lemma_run_modules(world: World, analyzer: AnalyzerView, steps: nat)
    requires
        uses_from_known_modules(analyzer),
    ensures
        uses_from_known_modules(run(world, analyzer, steps)),
    decreases steps,
{
    if steps > 0 {
        lemma_answered_modules(world, analyzer);
        lemma_run_modules(world, answered(world, analyzer), (steps - 1) as nat);
    }
}

/// At any point of a walk, each usage found so far lies in a module that is known by then.
pub proof fn usages_lie_in_known_modules(world: World, root: PathView, steps: nat, at: int)
    requires
        0 <= at < run(world, start_at(root), steps).findings.usages.len(),
    ensures
        ({
            let findings = run(world, start_at(root), steps).findings;
            findings.module_paths.contains(findings.usages[at].module)
        }),
{
    lemma_run_modules(world, start_at(root), steps);
}

/// The module lies at or below the root of the crate.
pub open spec fn below_root(module: Seq<Seq<char>>) -> bool {
    module.len() > 0 && module[0] == "crate"@
}

spec fn all_below_root(files: Seq<ModuleFileView>) -> bool {
    forall|i: int| 0 <= i < files.len() ==> below_root((#[trigger] files[i]).module)
}

spec fn candidates_below_root(candidates: Seq<ModuleCandidateView>) -> bool {
    forall|i: int| 0 <= i < candidates.len() ==> below_root((#[trigger] candidates[i]).module)
}

/// All modules that the analyzer knows or waits for lie at or below the root.
spec fn stays_below_root(analyzer: AnalyzerView) -> bool {
    &&& forall|module: Seq<Seq<char>>| #[trigger]
        analyzer.findings.module_paths.contains(module) ==> below_root(module)
    &&& all_below_root(analyzer.pending)
    &&& match analyzer.stage {
        StageView::Reading { module, .. } => below_root(module),
        StageView::Probing { candidates, found, .. } => candidates.len() > 0
            && candidates_below_root(candidates) && all_below_root(found),
        _ => true,
    }
}

proof fn lemma_walk_below_root(start: ModuleWalkView, events: Seq<ModuleEventView>)
    requires
        below_root(start.module),
        start.outer_directories.len() == 0,
        start.candidates.len() == 0,
    ensures
        ({
            let walk = walk_steps(start, events);
            &&& below_root(walk.module)
            &&& walk.module.len() == start.module.len() + walk.outer_directories.len()
            &&& candidates_below_root(walk.candidates)
        }),
    decreases events.len(),
{
    if events.len() > 0 {
        lemma_walk_below_root(start, events.drop_last());
    }
}

proof fn lemma_settled_below_root(
    analyzer: AnalyzerView,
    candidates: Seq<ModuleCandidateView>,
    found: Seq<ModuleFileView>,
)
    requires
        forall|module: Seq<Seq<char>>| #[trigger]
            analyzer.findings.module_paths.contains(module) ==> below_root(module),
        all_below_root(analyzer.pending),
        candidates_below_root(candidates),
        all_below_root(found),
    ensures
        stays_below_root(settled(analyzer, candidates, found)),
    decreases candidates.len(),
{
    if candidates.len() == 0 {
        let pending = analyzer.pending + found.reverse();
        assert forall|i: int| 0 <= i < pending.len() implies below_root(
            (#[trigger] pending[i]).module,
        ) by {
            if i >= analyzer.pending.len() {
                let j = i - analyzer.pending.len();
                assert(pending[i] == found[found.len() - 1 - j]);
            }
        }
    } else if candidates[0].explicit is Some {
        lemma_settled_below_root(
            analyzer,
            candidates.drop_first(),
            found.push(explicit_file(candidates[0])),
        );
    }
}

proof fn lemma_inline_below_root(
    known: Set<Seq<Seq<char>>>,
    inline: Seq<Seq<Seq<char>>>,
    module: Seq<Seq<char>>,
)
    requires
        below_root(module),
        forall|other: Seq<Seq<char>>| #[trigger] known.contains(other) ==> below_root(other),
    ensures
        forall|other: Seq<Seq<char>>| #[trigger]
            with_inline_modules(known, inline, module).contains(other) ==> below_root(other),
    decreases inline.len(),
{
    if inline.len() > 0 {
        let earlier = with_inline_modules(known, inline.drop_last(), module);
        lemma_inline_below_root(known, inline.drop_last(), module);
        assert(below_root(module + inline.last()));
        assert forall|other: Seq<Seq<char>>| #[trigger]
            with_inline_modules(known, inline, module).contains(other) implies below_root(
            other,
        ) by {
            assert(earlier.contains(other) || other == module + inline.last());
        }
    }
}

proof fn lemma_answered_below_root(world: World, analyzer: AnalyzerView)
    requires
        stays_below_root(analyzer),
    ensures
        stays_below_root(answered(world, analyzer)),
{
    match analyzer.stage {
        StageView::Next => {
            if analyzer.pending.len() > 0 {
                let next = analyzer.pending.last();
                assert(analyzer.pending[analyzer.pending.len() - 1] == next);
                let after = answered(world, analyzer);
                assert forall|module: Seq<Seq<char>>| #[trigger]
                    after.findings.module_paths.contains(module) implies below_root(module) by {
                    assert(analyzer.findings.module_paths.contains(module) || module
                        == next.module);
                }
            }
        },
        StageView::Reading { path, module } => match (world.contents)(path) {
            Ok(source) => match parsed_source(source) {
                Ok(file) => {
                    lemma_inline_below_root(
                        analyzer.findings.module_paths,
                        after_events(file.names).inline_module_paths,
                        module,
                    );
                    lemma_walk_below_root(
                        walk_start(child_directory(path), module),
                        file.modules,
                    );
                    lemma_settled_below_root(
                        AnalyzerView {
                            findings: with_file(analyzer.findings, file, path, module),
                            ..analyzer
                        },
                        declared_modules(file.modules, child_directory(path), module),
                        seq![],
                    );
                },
                Err(_) => {},
            },
            Err(_) => {},
        },
        StageView::Probing { candidates, flat_missing, found } => {
            let asked = if flat_missing {
                candidates[0].nested
            } else {
                candidates[0].flat
            };
            let module_file = ModuleFileView {
                file: chosen_file(candidates[0], !flat_missing, (world.is_file)(asked)),
                module: candidates[0].module,
            };
            lemma_settled_below_root(analyzer, candidates.drop_first(), found.push(module_file));
        },
        StageView::Failed { .. } => {},
    }
}

proof fn lemma_run_below_root(world: World, analyzer: AnalyzerView, steps: nat)
    requires
        stays_below_root(analyzer),
    ensures
        stays_below_root(run(world, analyzer, steps)),
    decreases steps,
{
    if steps > 0 {
        lemma_answered_below_root(world, analyzer);
        lemma_run_below_root(world, answered(world, analyzer), (steps - 1) as nat);
    }
}

/// At any point of a walk, the path of each known module starts at the root of the crate.
pub proof fn known_modules_start_at_the_root(
    world: World,
    root: PathView,
    steps: nat,
    module: Seq<Seq<char>>,
)
    requires
        run(world, start_at(root), steps).findings.module_paths.contains(module),
    ensures
        below_root(module),
{
    lemma_run_below_root(world, start_at(root), steps);
}

/// The module is `outer` or lies in it.
pub open spec fn lies_in(module: Seq<Seq<char>>, outer: Seq<Seq<char>>) -> bool {
    outer.len() <= module.len() && module.take(outer.len() as int) == outer
}

/// Nothing that was found before is lost.
pub open spec fn keeps(before: Findings, after: Findings) -> bool {
    &&& before.seen_files.subset_of(after.seen_files)
    &&& before.module_paths.subset_of(after.module_paths)
    &&& before.usages.len() <= after.usages.len()
    &&& after.usages.take(before.usages.len() as int) == before.usages
}

/// Nothing that was found before is lost, and what was found since lies in `module`: each module,
/// and each usage, whose own module is known.
pub open spec fn adds_in(before: Findings, after: Findings, module: Seq<Seq<char>>) -> bool {
    &&& keeps(before, after)
    &&& forall|other: Seq<Seq<char>>| #[trigger]
        after.module_paths.contains(other) ==> before.module_paths.contains(other) || lies_in(
            other,
            module,
        )
    &&& forall|i: int|
        before.usages.len() <= i < after.usages.len() ==> lies_in(
            (#[trigger] after.usages[i]).module,
            module,
        ) && after.module_paths.contains(after.usages[i].module)
}

proof fn lemma_lies_in(module: Seq<Seq<char>>, middle: Seq<Seq<char>>, outer: Seq<Seq<char>>)
    requires
        lies_in(module, middle),
        lies_in(middle, outer),
    ensures
        lies_in(module, outer),
{
    assert(module.take(outer.len() as int) =~= middle.take(outer.len() as int));
}

proof fn lemma_keeps_on(first: Findings, second: Findings, third: Findings)
    requires
        keeps(first, second),
        keeps(second, third),
    ensures
        keeps(first, third),
{
    assert(third.usages.take(first.usages.len() as int) =~= second.usages.take(
        first.usages.len() as int,
    ));
}

proof fn lemma_adds_on(
    first: Findings,
    second: Findings,
    third: Findings,
    inner: Seq<Seq<char>>,
    module: Seq<Seq<char>>,
)
    requires
        adds_in(first, second, module),
        adds_in(second, third, inner),
        lies_in(inner, module),
    ensures
        adds_in(first, third, module),
{
    lemma_keeps_on(first, second, third);
    assert forall|other: Seq<Seq<char>>| #[trigger]
        third.module_paths.contains(other) implies first.module_paths.contains(other) || lies_in(
        other,
        module,
    ) by {
        if !second.module_paths.contains(other) {
            lemma_lies_in(other, inner, module);
        }
    }
    assert forall|i: int| first.usages.len() <= i < third.usages.len() implies lies_in(
        (#[trigger] third.usages[i]).module,
        module,
    ) && third.module_paths.contains(third.usages[i].module) by {
        if i < second.usages.len() {
            assert(third.usages.take(second.usages.len() as int)[i] == second.usages[i]);
        } else {
            lemma_lies_in(third.usages[i].module, inner, module);
        }
    }
}

/// What a file adds lies in the file's module.
proof fn lemma_file_adds_itself(
    findings: Findings,
    file: SourceFileView,
    path: PathView,
    module: Seq<Seq<char>>,
)
    ensures
        adds_in(findings, with_seen(findings, path, module), module),
        adds_in(
            findings,
            with_file(with_seen(findings, path, module), file, path, module),
            module,
        ),
{
    let opened = with_seen(findings, path, module);
    let more = with_file(opened, file, path, module);
    let found = after_events(file.names);
    assert(module.take(module.len() as int) =~= module);
    assert(opened.usages.take(findings.usages.len() as int) =~= findings.usages);
    assert(more.usages.take(findings.usages.len() as int) =~= findings.usages);
    lemma_with_inline_modules(opened.module_paths, found.inline_module_paths, module);
    lemma_with_file(opened, file, path, module);
    assert forall|other: Seq<Seq<char>>| #[trigger]
        more.module_paths.contains(other) implies findings.module_paths.contains(other) || lies_in(
        other,
        module,
    ) by {
        if !opened.module_paths.contains(other) {
            let i = choose|i: int|
                0 <= i < found.inline_module_paths.len() && other == module
                    + #[trigger] found.inline_module_paths[i];
            assert(other.take(module.len() as int) =~= module);
        }
    }
    assert forall|i: int| findings.usages.len() <= i < more.usages.len() implies lies_in(
        (#[trigger] more.usages[i]).module,
        module,
    ) && more.module_paths.contains(more.usages[i].module) by {
        let usage = sorted_usages(found.usages)[i - findings.usages.len()];
        assert(more.usages[i] == placed(usage, path, module));
        assert(more.usages[i].module.take(module.len() as int) =~= module);
    }
}

/// Each of the files is that of a module in `module`.
spec fn all_lie_in(files: Seq<ModuleFileView>, module: Seq<Seq<char>>) -> bool {
    forall|i: int| 0 <= i < files.len() ==> lies_in((#[trigger] files[i]).module, module)
}

proof fn lemma_declared_lie_in(
    events: Seq<ModuleEventView>,
    directory: PathView,
    module: Seq<Seq<char>>,
    at: int,
)
    requires
        0 <= at < declared_modules(events, directory, module).len(),
    ensures
        lies_in(declared_modules(events, directory, module)[at].module, module),
{
    let declared = declared_modules(events, directory, module)[at].module;
    declared_modules_lie_in_inline_modules(events, directory, module, at);
    let length = choose|length: int|
        0 <= length < events.len() && events[length] is Declare && {
            &&& declared.len() > 0
            &&& declared.drop_last() == module + modules_around(#[trigger] events.take(length))
        };
    let around = module + modules_around(events.take(length));
    assert(declared.drop_last() == around);
    assert(declared.len() == around.len() + 1);
    assert(declared.take(module.len() as int) =~= declared.drop_last().take(module.len() as int));
    assert(around.take(module.len() as int) =~= module);
}

proof fn lemma_file_adds(world: World, findings: Findings, file: ModuleFileView, depth: nat)
    requires
        file_outcome(world, findings, file, depth) is Some,
    ensures
        ({
            let path = normalized(file.file, (world.canonical)(file.file));
            let after = (file_outcome(world, findings, file, depth)->0).findings;
            &&& adds_in(findings, after, file.module)
            &&& after.seen_files.contains(path_parts(path))
        }),
    decreases depth, 0nat,
{
    let path = normalized(file.file, (world.canonical)(file.file));
    let module = file.module;
    assert(findings.usages.take(findings.usages.len() as int) =~= findings.usages);
    if !findings.seen_files.contains(path_parts(path)) {
        let opened = with_seen(findings, path, module);
        match (world.contents)(path) {
            Ok(source) => match parsed_source(source) {
                Ok(parsed) => {
                    let more = with_file(opened, parsed, path, module);
                    let declared = declared_modules(
                        parsed.modules,
                        child_directory(path),
                        module,
                    );
                    let files = module_files(world, declared);
                    lemma_file_adds_itself(findings, parsed, path, module);
                    assert forall|i: int| 0 <= i < files.len() implies lies_in(
                        (#[trigger] files[i]).module,
                        module,
                    ) by {
                        lemma_declared_lie_in(parsed.modules, child_directory(path), module, i);
                    }
                    lemma_files_add(world, more, files, module, (depth - 1) as nat);
                    let after = (files_outcome(world, more, files, (depth - 1) as nat)->0).findings;
                    assert(module.take(module.len() as int) =~= module);
                    lemma_adds_on(findings, more, after, module, module);
                },
                Err(_) => {
                    lemma_opening_adds(findings, path, module);
                },
            },
            Err(_) => {
                lemma_opening_adds(findings, path, module);
            },
        }
    }
}

proof fn lemma_opening_adds(findings: Findings, path: PathView, module: Seq<Seq<char>>)
    ensures
        adds_in(findings, with_seen(findings, path, module), module),
{
    let nothing = SourceFileView { names: seq![], modules: seq![] };
    lemma_file_adds_itself(findings, nothing, path, module);
}

proof fn lemma_files_add(
    world: World,
    findings: Findings,
    files: Seq<ModuleFileView>,
    module: Seq<Seq<char>>,
    depth: nat,
)
    requires
        files_outcome(world, findings, files, depth) is Some,
        all_lie_in(files, module),
    ensures
        adds_in(
            findings,
            (files_outcome(world, findings, files, depth)->0).findings,
            module,
        ),
    decreases depth, files.len(),
{
    assert(findings.usages.take(findings.usages.len() as int) =~= findings.usages);
    if files.len() > 0 {
        let first = file_outcome(world, findings, files[0], depth)->0;
        lemma_file_adds(world, findings, files[0], depth);
        assert(lies_in(files[0].module, module));
        assert(lies_in(module, module)) by {
            assert(module.take(module.len() as int) =~= module);
        }
        assert(adds_in(findings, findings, module));
        lemma_adds_on(findings, findings, first.findings, files[0].module, module);
        if first.failure is None {
            let rest = files.drop_first();
            assert(all_lie_in(rest, module)) by {
                assert forall|i: int| 0 <= i < rest.len() implies lies_in(
                    (#[trigger] rest[i]).module,
                    module,
                ) by {
                    assert(rest[i] == files[i + 1]);
                }
            }
            lemma_files_add(world, first.findings, rest, module, depth);
            let after = (files_outcome(world, first.findings, rest, depth)->0).findings;
            lemma_adds_on(findings, first.findings, after, module, module);
        }
    }
}

/// Whether or not it ends in a failure, a walk from any file on loses nothing that was found
/// before, counts the file as seen, and adds only modules in the file's module and usages in
/// known modules there.
pub proof fn walk_adds_in_its_module(
    world: World,
    findings: Findings,
    file: ModuleFileView,
    depth: nat,
)
    requires
        file_outcome(world, findings, file, depth) is Some,
    ensures
        ({
            let path = normalized(file.file, (world.canonical)(file.file));
            let after = (file_outcome(world, findings, file, depth)->0).findings;
            &&& adds_in(findings, after, file.module)
            &&& after.seen_files.contains(path_parts(path))
        }),
{
    lemma_file_adds(world, findings, file, depth);
}

/// The analyzer, in a file system that does not change, comes from any file on to findings that
/// add only what lies in that file's module, with the other pending files still to come, or fails
/// with such findings.
pub proof fn analyzer_adds_in_the_module_of_a_file(
    world: World,
    findings: Findings,
    pending: Seq<ModuleFileView>,
    file: ModuleFileView,
    depth: nat,
)
    requires
        file_outcome(world, findings, file, depth) is Some,
    ensures
        exists|steps: nat| {
            let path = normalized(file.file, (world.canonical)(file.file));
            let last = #[trigger] run(
                world,
                AnalyzerView { findings, pending: pending.push(file), stage: StageView::Next },
                steps,
            );
            &&& adds_in(findings, last.findings, file.module)
            &&& last.findings.seen_files.contains(path_parts(path))
            &&& last.stage is Failed || last.stage is Next && last.pending == pending
        },
{
    let start = AnalyzerView { findings, pending: pending.push(file), stage: StageView::Next };
    let outcome = file_outcome(world, findings, file, depth)->0;
    walk_reaches_its_outcome(world, findings, pending, file, depth);
    lemma_file_adds(world, findings, file, depth);
    let steps = choose|steps: nat|
        ends_in(#[trigger] run(world, start, steps), pending, outcome);
    assert(adds_in(findings, run(world, start, steps).findings, file.module));
}

proof fn lemma_answered_keeps(world: World, analyzer: AnalyzerView)
    ensures
        keeps(analyzer.findings, answered(world, analyzer).findings),
{
    let findings = analyzer.findings;
    let after = answered(world, analyzer).findings;
    match analyzer.stage {
        StageView::Reading { path, module } => match (world.contents)(path) {
            Ok(source) => match parsed_source(source) {
                Ok(file) => {
                    lemma_with_inline_modules(
                        findings.module_paths,
                        after_events(file.names).inline_module_paths,
                        module,
                    );
                    lemma_settled_findings(
                        AnalyzerView {
                            findings: with_file(findings, file, path, module),
                            ..analyzer
                        },
                        declared_modules(file.modules, child_directory(path), module),
                        seq![],
                    );
                },
                Err(_) => {},
            },
            Err(_) => {},
        },
        StageView::Probing { candidates, flat_missing, found } => {
            let asked = if flat_missing {
                candidates[0].nested
            } else {
                candidates[0].flat
            };
            let module_file = ModuleFileView {
                file: chosen_file(candidates[0], !flat_missing, (world.is_file)(asked)),
                module: candidates[0].module,
            };
            lemma_settled_findings(analyzer, candidates.drop_first(), found.push(module_file));
        },
        _ => {},
    }
    assert(after.usages.take(findings.usages.len() as int) =~= findings.usages);
}

/// From any point of a walk on, in success and in failure, nothing that was found is lost.
pub proof fn nothing_found_is_lost(world: World, analyzer: AnalyzerView, steps: nat)
    ensures
        keeps(analyzer.findings, run(world, analyzer, steps).findings),
    decreases steps,
{
    let findings = analyzer.findings;
    assert(findings.usages.take(findings.usages.len() as int) =~= findings.usages);
    if steps > 0 {
        let next = answered(world, analyzer);
        lemma_answered_keeps(world, analyzer);
        nothing_found_is_lost(world, next, (steps - 1) as nat);
        lemma_keeps_on(
            findings,
            next.findings,
            run(world, next, (steps - 1) as nat).findings,
        );
    }
}

/// Once the first question has been answered, the root of the crate is a known module.
pub proof fn the_root_is_known(world: World, root: PathView, steps: nat)
    requires
        steps > 0,
    ensures
        run(world, start_at(root), steps).findings.module_paths.contains(seq!["crate"@]),
{
    let start = start_at(root);
    let next = answered(world, start);
    assert(next.findings.module_paths.contains(start.pending.last().module));
    nothing_found_is_lost(world, next, (steps - 1) as nat);
}

} // verus!
