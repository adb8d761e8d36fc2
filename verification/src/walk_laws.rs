//! What each step of the walk over the files of a crate does.
use crate::analysis_laws::lemma_with_inline_modules;
use crate::analyzer::{
    all_placed, analyze_project, dependency_usages_for_file, normalize_path, settled, wanted,
    with_file, Action, ActionView, Analysis, Analyzer, AnalyzerView, Findings, StageView,
};
use crate::analyzer_laws::lemma_settled_findings;
use crate::failure::{Failure, FailureView};
use crate::modules::{child_directory, declared_modules, ModuleFileView};
use crate::path::{path_parts, FilePath, PathView};
use crate::resolve::{Usage, UsageView};
use crate::syntax::{parsed_source, SourceFile, SourceFileView};
use crate::usage::FileLocalUsageView;
use crate::visitor::{after_events, lists_usages, usage_list_is_unique};
use vstd::prelude::*;

verus! {

/// A walk starts with nothing found, and with the root file, which is of the module `crate`, as the
/// only one to come.
pub proof fn walks_start_at_the_root(path: FilePath, analyzer: Analyzer)
    requires
        call_ensures(analyze_project, (path,), analyzer),
    ensures
        ({
            let start = analyzer.deep_view();
            &&& analyzer.well_formed()
            &&& start.findings.usages.len() == 0
            &&& forall|module: Seq<Seq<char>>|
                !#[trigger] start.findings.module_paths.contains(module)
            &&& forall|file: Seq<crate::path::PathPart>|
                !#[trigger] start.findings.seen_files.contains(file)
            &&& start.pending.len() == 1
            &&& start.pending[0].file == path@
            &&& start.pending[0].module == seq!["crate"@]
            &&& wanted(start) == (ActionView::Canonicalize { path: path@ })
        }),
{
}

/// A path is taken in its canonical form where it has one, and as it is otherwise.
pub proof fn canonical_paths_take_the_place_of_others(
    path: FilePath,
    canonical: Option<FilePath>,
    normal: FilePath,
)
    requires
        call_ensures(normalize_path, (path, canonical), normal),
    ensures
        canonical matches Some(canonical) ==> normal@ == canonical@,
        canonical is None ==> normal@ == path@,
{
}

/// What a call of `next_action` asks for: the canonical path of the file that comes next, the text
/// of the file that is being read, whether a file of the module that is looked for is there, or,
/// once no file is left or one has failed, nothing.
pub proof fn actions_ask_for_what_comes_next(analyzer: Analyzer, action: Action)
    requires
        call_ensures(Analyzer::next_action, (&analyzer,), action),
    ensures
        ({
            let state = analyzer.deep_view();
            match state.stage {
                StageView::Next => if state.pending.len() == 0 {
                    action is Finish
                } else {
                    action matches Action::Canonicalize { path } && path@
                        == state.pending.last().file
                },
                StageView::Reading { path: asked, .. } => action matches Action::Read { path }
                    && path@ == asked,
                StageView::Probing { candidates, flat_missing, .. } => action matches Action::Probe {
                    path,
                } && path@ == if flat_missing {
                    candidates[0].nested
                } else {
                    candidates[0].flat
                },
                StageView::Failed { failure: told } => action matches Action::Fail { failure }
                    && failure.deep_view() == told,
            }
        }),
{
}

/// The file that comes next is taken off those to come. If it was seen before, by its components,
/// nothing else changes; otherwise it and its module are noted, and it is read.
pub proof fn files_seen_before_are_passed_over(
    analyzer: &mut Analyzer,
    canonical: Option<FilePath>,
)
    requires
        old(analyzer).well_formed(),
        wanted(old(analyzer).deep_view()) is Canonicalize,
        call_ensures(Analyzer::canonicalized, (analyzer, canonical), ()),
    ensures
        ({
            let before = old(analyzer).deep_view();
            let after = final(analyzer).deep_view();
            let next = before.pending.last();
            let path = match canonical {
                Some(canonical) => canonical@,
                None => next.file,
            };
            let seen = before.findings.seen_files.contains(path_parts(path));
            &&& final(analyzer).well_formed()
            &&& after.pending == before.pending.drop_last()
            &&& after.findings.usages == before.findings.usages
            &&& seen ==> after.findings == before.findings && after.stage == before.stage
            &&& !seen ==> after.stage == (StageView::Reading { path, module: next.module })
            &&& !seen ==> after.findings.seen_files == before.findings.seen_files.insert(
                path_parts(path),
            )
            &&& !seen ==> after.findings.module_paths == before.findings.module_paths.insert(
                next.module,
            )
        }),
{
}

/// A file that cannot be read ends the walk with a failure that tells the file and the error, and
/// so does one that cannot be parsed. What was found stays as it was.
pub proof fn files_that_fail_end_the_walk(
    analyzer: &mut Analyzer,
    contents: Result<String, String>,
)
    requires
        old(analyzer).well_formed(),
        wanted(old(analyzer).deep_view()) is Read,
        call_ensures(Analyzer::contents_read, (analyzer, contents), ()),
    ensures
        ({
            let before = old(analyzer).deep_view();
            let after = final(analyzer).deep_view();
            let path = wanted(before)->Read_path;
            &&& final(analyzer).well_formed()
            &&& contents matches Err(error) ==> after.findings == before.findings && wanted(after)
                == (ActionView::Fail { failure: FailureView::Read { path, error: error@ } })
            &&& contents matches Ok(source) ==> parsed_source(source@) is Err ==> after.findings
                == before.findings && wanted(after) == (ActionView::Fail {
                failure: FailureView::Parse { path, error: parsed_source(source@)->Err_0 },
            })
        }),
{
}

/// The usages `usages` are those of `list`, in its order, placed in the file `path` of the module
/// `module`: each lies in the inline modules around it, below that module.
pub open spec fn places(
    usages: Seq<UsageView>,
    list: Seq<FileLocalUsageView>,
    path: PathView,
    module: Seq<Seq<char>>,
) -> bool {
    &&& usages.len() == list.len()
    &&& forall|i: int|
        0 <= i < usages.len() ==> {
            let usage = #[trigger] usages[i];
            &&& usage.file == path
            &&& usage.module == module + list[i].module_path_suffix
            &&& usage.line == list[i].line
            &&& usage.origin == list[i].origin
            &&& usage.symbol == list[i].symbol
        }
}

/// From `before` on, `after` has found what the file `file` at `path`, of the module `module`,
/// holds: its usages behind those found before, and its inline modules, below its own module.
pub open spec fn finds(
    before: Findings,
    file: SourceFileView,
    path: PathView,
    module: Seq<Seq<char>>,
    list: Seq<FileLocalUsageView>,
    after: Findings,
) -> bool {
    let inline = after_events(file.names).inline_module_paths;
    let count = before.usages.len() as int;
    &&& after.seen_files == before.seen_files
    &&& after.usages.len() >= count
    &&& after.usages.take(count) == before.usages
    &&& places(after.usages.skip(count), list, path, module)
    &&& forall|other: Seq<Seq<char>>| #[trigger]
        after.module_paths.contains(other) <==> before.module_paths.contains(other) || exists|i: int|
            0 <= i < inline.len() && other == module + #[trigger] inline[i]
}

proof fn lemma_finds(
    before: Findings,
    file: SourceFileView,
    path: PathView,
    module: Seq<Seq<char>>,
    list: Seq<FileLocalUsageView>,
)
    requires
        lists_usages(list, after_events(file.names).usages),
    ensures
        finds(before, file, path, module, list, with_file(before, file, path, module)),
{
    let after = with_file(before, file, path, module);
    let found = after_events(file.names);
    let inline = found.inline_module_paths;
    let count = before.usages.len() as int;
    usage_list_is_unique(list, found.usages);
    assert(after.usages.take(count) =~= before.usages);
    assert(after.usages.skip(count) =~= all_placed(list, path, module));
    lemma_with_inline_modules(before.module_paths, inline, module);
    assert forall|other: Seq<Seq<char>>| #[trigger]
        after.module_paths.contains(other) <==> before.module_paths.contains(other) || exists|i: int|
            0 <= i < inline.len() && other == module + #[trigger] inline[i] by {
        if exists|i: int| 0 <= i < inline.len() && other == module + #[trigger] inline[i] {
            let i = choose|i: int| 0 <= i < inline.len() && other == module + #[trigger] inline[i];
            assert(after.module_paths.contains(module + inline[i]));
        }
    }
}

/// A file that was read and parsed adds its usages behind those found before, each below the
/// file's module, and its inline modules below that same module.
pub proof fn parsed_files_add_their_usages_and_inline_modules(
    analyzer: &mut Analyzer,
    contents: Result<String, String>,
    list: Seq<FileLocalUsageView>,
)
    requires
        old(analyzer).well_formed(),
        old(analyzer).deep_view().stage is Reading,
        call_ensures(Analyzer::contents_read, (analyzer, contents), ()),
        contents is Ok,
        parsed_source(contents->Ok_0@) is Ok,
        lists_usages(list, after_events((parsed_source(contents->Ok_0@)->Ok_0).names).usages),
    ensures
        ({
            let stage = old(analyzer).deep_view().stage;
            finds(
                old(analyzer).deep_view().findings,
                parsed_source(contents->Ok_0@)->Ok_0,
                stage->Reading_path,
                stage->Reading_module,
                list,
                final(analyzer).deep_view().findings,
            )
        }),
{
    let before = old(analyzer).deep_view();
    let file = parsed_source(contents->Ok_0@)->Ok_0;
    let path = before.stage->Reading_path;
    let module = before.stage->Reading_module;
    lemma_finds(before.findings, file, path, module, list);
    lemma_settled_findings(
        AnalyzerView { findings: with_file(before.findings, file, path, module), ..before },
        declared_modules(file.modules, child_directory(path), module),
        seq![],
    );
}

/// Being handed a parsed file, or the error that it was refused with, does what reading a text that
/// parses so does.
pub proof fn accepted_files_are_those_that_were_read(
    reader: &mut Analyzer,
    taker: &mut Analyzer,
    source: String,
    parsed: Result<SourceFile, String>,
)
    requires
        old(reader).well_formed(),
        old(taker).deep_view() == old(reader).deep_view(),
        wanted(old(reader).deep_view()) is Read,
        call_ensures(Analyzer::contents_read, (reader, Ok::<String, String>(source)), ()),
        call_ensures(Analyzer::accept_source, (taker, parsed), ()),
        parsed_source(source@) == (match parsed {
            Ok(file) => Ok::<SourceFileView, Seq<char>>(file.deep_view()),
            Err(error) => Err::<SourceFileView, Seq<char>>(error@),
        }),
    ensures
        final(taker).deep_view() == final(reader).deep_view(),
{
}

/// The answer that a flat file is missing makes the walk ask for the nested one and changes nothing
/// else. Any other answer finds nothing new and reads nothing: it settles where the module is.
pub proof fn probes_change_no_findings(analyzer: &mut Analyzer, is_file: bool)
    requires
        old(analyzer).well_formed(),
        old(analyzer).deep_view().stage is Probing,
        call_ensures(Analyzer::probed, (analyzer, is_file), ()),
    ensures
        ({
            let before = old(analyzer).deep_view();
            let after = final(analyzer).deep_view();
            let candidates = before.stage->candidates;
            let asks_nested = !before.stage->flat_missing && !is_file;
            &&& final(analyzer).well_formed()
            &&& after.findings == before.findings
            &&& !(after.stage is Reading)
            &&& asks_nested ==> after.pending == before.pending && wanted(after)
                == (ActionView::Probe { path: candidates[0].nested })
        }),
{
    let before = old(analyzer).deep_view();
    let candidates = before.stage->candidates;
    let found = before.stage->found;
    let flat_missing = before.stage->flat_missing;
    lemma_settled_findings(
        before,
        candidates.drop_first(),
        found.push(
            ModuleFileView {
                file: crate::modules::chosen_file(candidates[0], !flat_missing, is_file),
                module: candidates[0].module,
            },
        ),
    );
}

/// A module whose file is settled goes behind those settled before it, in the order of their
/// declarations: the flat file if that is there, else the nested one if that is there, else the
/// flat one. Once no module is left to settle, their files come next, the first declared first.
pub proof fn settled_modules_keep_their_order(analyzer: &mut Analyzer, is_file: bool)
    requires
        old(analyzer).well_formed(),
        old(analyzer).deep_view().stage is Probing,
        old(analyzer).deep_view().stage->candidates.len() == 1,
        old(analyzer).deep_view().stage->candidates[0].explicit is None,
        old(analyzer).deep_view().stage->flat_missing || is_file,
        call_ensures(Analyzer::probed, (analyzer, is_file), ()),
    ensures
        ({
            let before = old(analyzer).deep_view();
            let after = final(analyzer).deep_view();
            let candidate = before.stage->candidates[0];
            let found = before.stage->found;
            let count = before.pending.len() as int;
            let number = found.len() as int;
            &&& after.stage is Next
            &&& after.pending.len() == count + number + 1
            &&& after.pending.take(count) == before.pending
            &&& forall|i: int|
                0 <= i < number ==> after.pending[count + number - i] == #[trigger] found[i]
            &&& after.pending[count].module == candidate.module
            &&& after.pending[count].file == if before.stage->flat_missing && is_file {
                candidate.nested
            } else {
                candidate.flat
            }
        }),
{
    let before = old(analyzer).deep_view();
    let after = final(analyzer).deep_view();
    let candidate = before.stage->candidates[0];
    let found = before.stage->found;
    let flat_missing = before.stage->flat_missing;
    let last = ModuleFileView {
        file: crate::modules::chosen_file(candidate, !flat_missing, is_file),
        module: candidate.module,
    };
    let files = found.push(last);
    let rest = before.stage->candidates.drop_first();
    assert(rest.len() == 0);
    assert(after == settled(before, rest, files));
    assert(after.pending == before.pending + files.reverse());
    let count = before.pending.len() as int;
    let number = found.len() as int;
    assert(after.pending.take(count) =~= before.pending);
    assert(after.pending[count] == files.reverse()[0]);
    assert forall|i: int| 0 <= i < number implies after.pending[count + number - i]
        == #[trigger] found[i] by {
        assert(after.pending[count + number - i] == files.reverse()[number - i]);
        assert(files.reverse()[number - i] == files[i]);
    }
}

/// What a walk ends with is what it has found: its usages in their order, and its modules.
pub proof fn walks_end_with_what_they_found(analyzer: Analyzer, analysis: Analysis)
    requires
        call_ensures(Analyzer::into_analysis, (analyzer,), analysis),
    ensures
        analysis.usages.deep_view() == analyzer.deep_view().findings.usages,
        analysis.module_paths@ == analyzer.deep_view().findings.module_paths,
        analysis.module_paths.well_formed(),
{
}

/// The usages of a walk that has ended are those of its analysis, or else the failure that it ended
/// in.
pub proof fn ended_walks_give_usages_or_their_failure(
    analyzer: Analyzer,
    usages: Result<Vec<Usage>, Failure>,
    analysis: Analysis,
)
    requires
        call_ensures(dependency_usages_for_file, (analyzer,), usages),
        call_ensures(Analyzer::into_analysis, (analyzer,), analysis),
    ensures
        analyzer.deep_view().stage matches StageView::Failed { failure } ==> usages is Err
            && usages->Err_0.deep_view() == failure,
        !(analyzer.deep_view().stage is Failed) ==> usages is Ok && usages->Ok_0.deep_view()
            == analysis.usages.deep_view(),
{
}

} // verus!
