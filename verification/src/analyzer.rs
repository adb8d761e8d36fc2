//! Walks over the files of a crate. The files themselves are read elsewhere: the analyzer asks for
//! one thing at a time and goes on with the answer.
use crate::failure::{Failure, FailureView};
use crate::modules::{
    child_directory, chosen_file, declared_modules, module_dir_for_child_modules, module_file_for,
    module_files_referenced_by, ModuleCandidate, ModuleCandidateView, ModuleFile, ModuleFileView,
};
use crate::path::{path_parts, FilePath, PathPart, PathView};
use crate::resolve::{Usage, UsageView};
use crate::syntax::{parse_file, parsed_source, SourceFile, SourceFileView, LONGEST_SOURCE};
use crate::table::OrderedSet;
use crate::text::{append_texts, copy_texts};
use crate::usage::{FileLocalUsage, FileLocalUsageView};
use crate::visitor::{after_events, file_analysis_from_file, sorted_usages, usage_list_is_unique};
use vstd::prelude::*;

verus! {

/// What was found in a crate: its usages, file by file, and its modules.
#[derive(Debug)]
pub struct Analysis {
    pub usages: Vec<Usage>,
    pub module_paths: OrderedSet<Vec<String>>,
}

/// What the analyzer waits for.
#[derive(Debug)]
enum Stage {
    /// The canonical path of the next file, if there is one left.
    Next,
    /// The text of a file.
    Reading { path: FilePath, module: Vec<String> },
    /// Which files the declared modules have. The first of them has a flat and a nested one to
    /// try; `flat_missing` tells that the flat one is not there.
    Probing { candidates: Vec<ModuleCandidate>, flat_missing: bool, found: Vec<ModuleFile> },
    /// Nothing more: a file could not be read or parsed.
    Failed { failure: Failure },
}

/// The mathematical value of what the analyzer waits for.
pub enum StageView {
    Next,
    Reading { path: PathView, module: Seq<Seq<char>> },
    Probing {
        candidates: Seq<ModuleCandidateView>,
        flat_missing: bool,
        found: Seq<ModuleFileView>,
    },
    Failed { failure: FailureView },
}

impl DeepView for Stage {
    type V = StageView;

    closed spec fn deep_view(&self) -> StageView {
        match self {
            Stage::Next => StageView::Next,
            Stage::Reading { path, module } => StageView::Reading {
                path: path@,
                module: module.deep_view(),
            },
            Stage::Probing { candidates, flat_missing, found } => StageView::Probing {
                candidates: candidates.deep_view(),
                flat_missing: *flat_missing,
                found: found.deep_view(),
            },
            Stage::Failed { failure } => StageView::Failed { failure: failure.deep_view() },
        }
    }
}

/// What has been found so far: the files seen, by their components, the modules and the usages.
#[verifier::ext_equal]
pub struct Findings {
    pub seen_files: Set<Seq<PathPart>>,
    pub module_paths: Set<Seq<Seq<char>>>,
    pub usages: Seq<UsageView>,
}

/// The mathematical value of an [`Analyzer`]. The last of the pending files is the next one.
#[verifier::ext_equal]
pub struct AnalyzerView {
    pub findings: Findings,
    pub pending: Seq<ModuleFileView>,
    pub stage: StageView,
}

/// A walk over the files of a crate.
#[derive(Debug)]
pub struct Analyzer {
    seen_files: OrderedSet<FilePath>,
    module_paths: OrderedSet<Vec<String>>,
    usages: Vec<Usage>,
    pending: Vec<ModuleFile>,
    stage: Stage,
}

impl DeepView for Analyzer {
    type V = AnalyzerView;

    closed spec fn deep_view(&self) -> AnalyzerView {
        AnalyzerView {
            findings: Findings {
                seen_files: self.seen_files@,
                module_paths: self.module_paths@,
                usages: self.usages.deep_view(),
            },
            pending: self.pending.deep_view(),
            stage: self.stage.deep_view(),
        }
    }
}

/// What the analyzer asks for.
#[derive(Debug)]
pub enum Action {
    /// The canonical form of a path.
    Canonicalize { path: FilePath },
    /// The text of a file.
    Read { path: FilePath },
    /// Whether a path is that of a file.
    Probe { path: FilePath },
    /// Nothing: all files have been walked over.
    Finish,
    /// Nothing: a file could not be read or parsed.
    Fail { failure: Failure },
}

/// The mathematical value of an [`Action`].
pub enum ActionView {
    Canonicalize { path: PathView },
    Read { path: PathView },
    Probe { path: PathView },
    Finish,
    Fail { failure: FailureView },
}

impl DeepView for Action {
    type V = ActionView;

    open spec fn deep_view(&self) -> ActionView {
        match self {
            Action::Canonicalize { path } => ActionView::Canonicalize { path: path@ },
            Action::Read { path } => ActionView::Read { path: path@ },
            Action::Probe { path } => ActionView::Probe { path: path@ },
            Action::Finish => ActionView::Finish,
            Action::Fail { failure } => ActionView::Fail { failure: failure.deep_view() },
        }
    }
}

/// A module is waited for by its first candidate, which no attribute settles.
pub open spec fn waits_for_probe(stage: StageView) -> bool {
    match stage {
        StageView::Probing { candidates, .. } => candidates.len() > 0
            && candidates[0].explicit is None,
        _ => true,
    }
}

/// What an analyzer asks for.
pub open spec fn wanted(analyzer: AnalyzerView) -> ActionView {
    match analyzer.stage {
        StageView::Next => if analyzer.pending.len() == 0 {
            ActionView::Finish
        } else {
            ActionView::Canonicalize { path: analyzer.pending.last().file }
        },
        StageView::Reading { path, .. } => ActionView::Read { path },
        StageView::Probing { candidates, flat_missing, .. } => ActionView::Probe {
            path: if flat_missing {
                candidates[0].nested
            } else {
                candidates[0].flat
            },
        },
        StageView::Failed { failure } => ActionView::Fail { failure },
    }
}

/// The start of a walk from the file `root` of the crate's root module.
pub open spec fn start_at(root: PathView) -> AnalyzerView {
    AnalyzerView {
        findings: Findings {
            seen_files: Set::empty(),
            module_paths: Set::empty(),
            usages: seq![],
        },
        pending: seq![ModuleFileView { file: root, module: seq!["crate"@] }],
        stage: StageView::Next,
    }
}

/// A path in its canonical form, where it has one.
pub open spec fn normalized(path: PathView, canonical: Option<PathView>) -> PathView {
    match canonical {
        Some(canonical) => canonical,
        None => path,
    }
}

/// The canonical form of `path`, where there is one, and otherwise the path as it is.
pub fn normalize_path(path: FilePath, canonical: Option<FilePath>) -> (normal: FilePath)
    ensures
        normal@ == normalized(
            path@,
            match canonical {
                Some(canonical) => Some(canonical@),
                None => None,
            },
        ),
{
    match canonical {
        Some(canonical) => canonical,
        None => path,
    }
}

/// The analyzer after the canonical path of the next file is known: a file seen before is passed
/// over, and any other is read next.
pub open spec fn after_canonical(
    analyzer: AnalyzerView,
    canonical: Option<PathView>,
) -> AnalyzerView {
    let next = analyzer.pending.last();
    let path = normalized(next.file, canonical);
    if analyzer.findings.seen_files.contains(path_parts(path)) {
        AnalyzerView { pending: analyzer.pending.drop_last(), ..analyzer }
    } else {
        AnalyzerView {
            findings: Findings {
                seen_files: analyzer.findings.seen_files.insert(path_parts(path)),
                module_paths: analyzer.findings.module_paths.insert(next.module),
                usages: analyzer.findings.usages,
            },
            pending: analyzer.pending.drop_last(),
            stage: StageView::Reading { path, module: next.module },
        }
    }
}

/// A usage of a file, in the crate: the inline modules around it lie in the file's module.
pub open spec fn placed(
    usage: FileLocalUsageView,
    path: PathView,
    module: Seq<Seq<char>>,
) -> UsageView {
    UsageView {
        file: path,
        module: module + usage.module_path_suffix,
        line: usage.line,
        origin: usage.origin,
        symbol: usage.symbol,
    }
}

/// The usages of a file, in the crate.
pub open spec fn all_placed(
    usages: Seq<FileLocalUsageView>,
    path: PathView,
    module: Seq<Seq<char>>,
) -> Seq<UsageView> {
    Seq::new(usages.len(), |i: int| placed(usages[i], path, module))
}

/// The modules `known` and the inline modules of a file, which lie in the file's module.
pub open spec fn with_inline_modules(
    known: Set<Seq<Seq<char>>>,
    inline: Seq<Seq<Seq<char>>>,
    module: Seq<Seq<char>>,
) -> Set<Seq<Seq<char>>>
    decreases inline.len(),
{
    if inline.len() == 0 {
        known
    } else {
        with_inline_modules(known, inline.drop_last(), module).insert(module + inline.last())
    }
}

/// The findings after a file has been parsed.
pub open spec fn with_file(
    findings: Findings,
    file: SourceFileView,
    path: PathView,
    module: Seq<Seq<char>>,
) -> Findings {
    let found = after_events(file.names);
    Findings {
        seen_files: findings.seen_files,
        module_paths: with_inline_modules(
            findings.module_paths,
            found.inline_module_paths,
            module,
        ),
        usages: findings.usages + all_placed(sorted_usages(found.usages), path, module),
    }
}

/// The file that a candidate's attribute gives its module.
pub open spec fn explicit_file(candidate: ModuleCandidateView) -> ModuleFileView {
    ModuleFileView { file: candidate.explicit->0, module: candidate.module }
}

/// The analyzer once it knows the files `found` of the first declared modules of a file. Those
/// whose file an attribute gives need no answer, and when none is left the files found are
/// pending, the first of them next.
pub open spec fn settled(
    analyzer: AnalyzerView,
    candidates: Seq<ModuleCandidateView>,
    found: Seq<ModuleFileView>,
) -> AnalyzerView
    decreases candidates.len(),
{
    if candidates.len() == 0 {
        AnalyzerView {
            findings: analyzer.findings,
            pending: analyzer.pending + found.reverse(),
            stage: StageView::Next,
        }
    } else if candidates[0].explicit is Some {
        settled(analyzer, candidates.drop_first(), found.push(explicit_file(candidates[0])))
    } else {
        AnalyzerView {
            stage: StageView::Probing { candidates, flat_missing: false, found },
            ..analyzer
        }
    }
}

/// The analyzer after the file that it reads was parsed or refused.
pub open spec fn after_parse(
    analyzer: AnalyzerView,
    parsed: Result<SourceFileView, Seq<char>>,
) -> AnalyzerView {
    match analyzer.stage {
        StageView::Reading { path, module } => match parsed {
            Ok(file) => settled(
                AnalyzerView {
                    findings: with_file(analyzer.findings, file, path, module),
                    ..analyzer
                },
                declared_modules(file.modules, child_directory(path), module),
                seq![],
            ),
            Err(error) => AnalyzerView {
                stage: StageView::Failed { failure: FailureView::Parse { path, error } },
                ..analyzer
            },
        },
        _ => analyzer,
    }
}

/// The analyzer after the file that it asked for was read.
pub open spec fn after_read(
    analyzer: AnalyzerView,
    contents: Result<Seq<char>, Seq<char>>,
) -> AnalyzerView {
    match analyzer.stage {
        StageView::Reading { path, .. } => match contents {
            Ok(source) => after_parse(analyzer, parsed_source(source)),
            Err(error) => AnalyzerView {
                stage: StageView::Failed { failure: FailureView::Read { path, error } },
                ..analyzer
            },
        },
        _ => analyzer,
    }
}

/// The analyzer after it is known whether a path is that of a file.
pub open spec fn after_probe(analyzer: AnalyzerView, is_file: bool) -> AnalyzerView {
    match analyzer.stage {
        StageView::Probing { candidates, flat_missing, found } => if !flat_missing && !is_file {
            AnalyzerView {
                stage: StageView::Probing { candidates, flat_missing: true, found },
                ..analyzer
            }
        } else {
            let module_file = ModuleFileView {
                file: chosen_file(candidates[0], !flat_missing, is_file),
                module: candidates[0].module,
            };
            settled(analyzer, candidates.drop_first(), found.push(module_file))
        },
        _ => analyzer,
    }
}

/// Starts a walk over the crate whose root module is in the file `path`.
pub fn analyze_project(path: FilePath) -> (analyzer: Analyzer)
    ensures
        analyzer.well_formed(),
        analyzer.deep_view() == start_at(path@),
{
    let mut module: Vec<String> = Vec::new();
    module.push("crate".to_owned());
    assert(module.deep_view() =~= seq!["crate"@]);
    let mut pending: Vec<ModuleFile> = Vec::new();
    pending.push(ModuleFile { file: path, module });
    let analyzer = Analyzer {
        seen_files: OrderedSet::new(),
        module_paths: OrderedSet::new(),
        usages: Vec::new(),
        pending,
        stage: Stage::Next,
    };
    assert(analyzer.deep_view() =~= start_at(path@)) by {
        assert(analyzer.pending.deep_view() =~= start_at(path@).pending);
        assert(analyzer.usages.deep_view() =~= seq![]);
    }
    analyzer
}

impl Analyzer {
    /// The sets are in order, and a module is probed for only where no attribute gives its file.
    pub closed spec fn well_formed(&self) -> bool {
        &&& self.seen_files.well_formed()
        &&& self.module_paths.well_formed()
        &&& waits_for_probe(self.stage.deep_view())
    }

    /// What the analyzer asks for.
    pub fn next_action(&self) -> (action: Action)
        requires
            self.well_formed(),
        ensures
            action.deep_view() == wanted(self.deep_view()),
    {
        match &self.stage {
            Stage::Next => {
                if self.pending.len() == 0 {
                    Action::Finish
                } else {
                    let last: usize = self.pending.len() - 1;
                    assert(self.pending.deep_view().last() == self.pending[last as int].deep_view());
                    Action::Canonicalize { path: self.pending[last].file.copy() }
                }
            },
            Stage::Reading { path, .. } => Action::Read { path: path.copy() },
            Stage::Probing { candidates, flat_missing, .. } => {
                assert(candidates.deep_view()[0] == candidates[0].deep_view());
                if *flat_missing {
                    Action::Probe { path: candidates[0].nested.copy() }
                } else {
                    Action::Probe { path: candidates[0].flat.copy() }
                }
            },
            Stage::Failed { failure } => Action::Fail { failure: failure.copy() },
        }
    }

    /// Goes on with the canonical path of the next file, or with the path as it is.
    pub fn canonicalized(&mut self, canonical: Option<FilePath>)
        requires
            old(self).well_formed(),
            wanted(old(self).deep_view()) is Canonicalize,
        ensures
            final(self).well_formed(),
            final(self).deep_view() == after_canonical(
                old(self).deep_view(),
                match canonical {
                    Some(canonical) => Some(canonical@),
                    None => None,
                },
            ),
    {
        let ghost before = self.deep_view();
        match self.pending.pop() {
            Some(next) => {
                assert(before.pending.last() == next.deep_view());
                assert(self.pending.deep_view() =~= before.pending.drop_last());
                let path = normalize_path(next.file, canonical);
                if self.seen_files.insert(path.copy()) {
                    self.module_paths.insert(copy_texts(&next.module));
                    self.stage = Stage::Reading { path, module: next.module };
                } else {
                    assert(self.seen_files@ =~= before.findings.seen_files);
                }
            },
            None => {},
        }
    }

    /// Goes on with the files of the modules that a file declares.
    fn settle(&mut self, candidates: Vec<ModuleCandidate>, found: Vec<ModuleFile>)
        requires
            old(self).seen_files.well_formed(),
            old(self).module_paths.well_formed(),
        ensures
            final(self).well_formed(),
            final(self).deep_view() == settled(
                old(self).deep_view(),
                candidates.deep_view(),
                found.deep_view(),
            ),
    {
        let (rest, found) = take_explicit(candidates, found);
        assert(rest.deep_view().len() == rest.len());
        if rest.len() == 0 {
            self.stage = Stage::Next;
            push_reversed(&mut self.pending, found);
        } else {
            self.stage = Stage::Probing { candidates: rest, flat_missing: false, found };
        }
    }

    /// Goes on with the parsed file, or fails with the error that it was refused with.
    pub fn accept_source(&mut self, parsed: Result<SourceFile, String>)
        requires
            old(self).well_formed(),
            wanted(old(self).deep_view()) is Read,
        ensures
            final(self).well_formed(),
            final(self).deep_view() == after_parse(
                old(self).deep_view(),
                match parsed {
                    Ok(file) => Ok(file.deep_view()),
                    Err(error) => Err(error@),
                },
            ),
    {
        let ghost before = self.deep_view();
        let mut stage = Stage::Next;
        std::mem::swap(&mut stage, &mut self.stage);
        match stage {
            Stage::Reading { path, module } => {
                match parsed {
                    Ok(file) => {
                        self.add_file(&file, &path, &module);
                        let directory = module_dir_for_child_modules(&path);
                        let candidates = module_files_referenced_by(&file, directory, &module);
                        let found: Vec<ModuleFile> = Vec::new();
                        assert(found.deep_view() =~= seq![]);
                        let ghost at = self.deep_view();
                        self.settle(candidates, found);
                        proof {
                            lemma_settled_stage(
                                at,
                                AnalyzerView {
                                    findings: with_file(
                                        before.findings,
                                        file.deep_view(),
                                        path@,
                                        module.deep_view(),
                                    ),
                                    ..before
                                },
                                candidates.deep_view(),
                                found.deep_view(),
                            );
                        }
                    },
                    Err(error) => {
                        self.stage = Stage::Failed {
                            failure: Failure::Parse { path, error },
                        };
                    },
                }
            },
            _ => {},
        }
    }

    /// Adds what was found in a file.
    fn add_file(&mut self, file: &SourceFile, path: &FilePath, module: &Vec<String>)
        requires
            old(self).well_formed(),
        ensures
            final(self).well_formed(),
            final(self).deep_view() == (AnalyzerView {
                findings: with_file(
                    old(self).deep_view().findings,
                    file.deep_view(),
                    path@,
                    module.deep_view(),
                ),
                ..old(self).deep_view()
            }),
    {
        let analysis = file_analysis_from_file(file);
        proof {
            usage_list_is_unique(
                analysis.usages.deep_view(),
                after_events(file.deep_view().names).usages,
            );
        }
        add_inline_modules(&mut self.module_paths, &analysis.inline_module_paths, module);
        place_usages(&mut self.usages, analysis.usages, path, module);
    }

    /// Goes on with the text of the file that was asked for, or fails with the error that it
    /// could not be read with.
    pub fn contents_read(&mut self, contents: Result<String, String>)
        requires
            old(self).well_formed(),
            wanted(old(self).deep_view()) is Read,
            contents matches Ok(source) ==> source@.len() <= LONGEST_SOURCE,
        ensures
            final(self).well_formed(),
            final(self).deep_view() == after_read(
                old(self).deep_view(),
                match contents {
                    Ok(source) => Ok(source@),
                    Err(error) => Err(error@),
                },
            ),
    {
        match contents {
            Ok(source) => {
                let parsed = parse_file(source.as_str());
                self.accept_source(parsed);
            },
            Err(error) => {
                let mut stage = Stage::Next;
                std::mem::swap(&mut stage, &mut self.stage);
                match stage {
                    Stage::Reading { path, .. } => {
                        self.stage = Stage::Failed {
                            failure: Failure::Read { path, error },
                        };
                    },
                    _ => {},
                }
            },
        }
    }

    /// Goes on with whether the path that was asked for is that of a file.
    pub fn probed(&mut self, is_file: bool)
        requires
            old(self).well_formed(),
            wanted(old(self).deep_view()) is Probe,
        ensures
            final(self).well_formed(),
            final(self).deep_view() == after_probe(old(self).deep_view(), is_file),
    {
        let ghost before = self.deep_view();
        let mut stage = Stage::Next;
        std::mem::swap(&mut stage, &mut self.stage);
        match stage {
            Stage::Probing { mut candidates, flat_missing, mut found } => {
                if !flat_missing && !is_file {
                    self.stage = Stage::Probing { candidates, flat_missing: true, found };
                } else {
                    let ghost all = candidates.deep_view();
                    let ghost files = found.deep_view();
                    assert(all[0] == candidates[0].deep_view());
                    let candidate = candidates.remove(0);
                    assert(candidates.deep_view() =~= all.drop_first());
                    let module_file = module_file_for(candidate, !flat_missing, is_file);
                    let ghost view = module_file.deep_view();
                    found.push(module_file);
                    assert(found.deep_view() =~= files.push(view));
                    let ghost at = self.deep_view();
                    self.settle(candidates, found);
                    proof {
                        lemma_settled_stage(at, before, all.drop_first(), files.push(view));
                    }
                }
            },
            _ => {},
        }
    }

    /// What was found.
    pub fn into_analysis(self) -> (analysis: Analysis)
        requires
            self.well_formed(),
        ensures
            analysis.module_paths.well_formed(),
            analysis.module_paths@ == self.deep_view().findings.module_paths,
            analysis.usages.deep_view() == self.deep_view().findings.usages,
    {
        Analysis { usages: self.usages, module_paths: self.module_paths }
    }
}

/// The usages that a walk has found, once it has ended, or the failure that it ended in.
pub fn dependency_usages_for_file(analyzer: Analyzer) -> (usages: Result<Vec<Usage>, Failure>)
    requires
        analyzer.well_formed(),
        wanted(analyzer.deep_view()) is Finish || wanted(analyzer.deep_view()) is Fail,
    ensures
        match wanted(analyzer.deep_view()) {
            ActionView::Fail { failure } => usages is Err && usages->Err_0.deep_view() == failure,
            _ => usages is Ok && usages->Ok_0.deep_view() == analyzer.deep_view().findings.usages,
        },
{
    match analyzer.next_action() {
        Action::Fail { failure } => Err(failure),
        _ => Ok(analyzer.into_analysis().usages),
    }
}

/// Settling does not depend on what was waited for before.
pub proof fn lemma_settled_stage(
    a: AnalyzerView,
    b: AnalyzerView,
    candidates: Seq<ModuleCandidateView>,
    found: Seq<ModuleFileView>,
)
    requires
        a.findings == b.findings,
        a.pending == b.pending,
    ensures
        settled(a, candidates, found) == settled(b, candidates, found),
    decreases candidates.len(),
{
    if candidates.len() > 0 && candidates[0].explicit is Some {
        lemma_settled_stage(
            a,
            b,
            candidates.drop_first(),
            found.push(explicit_file(candidates[0])),
        );
    }
}

/// Moves the modules whose file an attribute gives from the front of `candidates` to the end of
/// `found`.
fn take_explicit(candidates: Vec<ModuleCandidate>, found: Vec<ModuleFile>) -> (rest: (
    Vec<ModuleCandidate>,
    Vec<ModuleFile>,
))
    ensures
        forall|analyzer: AnalyzerView| #[trigger]
            settled(analyzer, candidates.deep_view(), found.deep_view()) == settled(
                analyzer,
                rest.0.deep_view(),
                rest.1.deep_view(),
            ),
        rest.0.len() > 0 ==> rest.0.deep_view()[0].explicit is None,
{
    let ghost first = candidates.deep_view();
    let ghost known = found.deep_view();
    let mut candidates = candidates;
    let mut found = found;
    while candidates.len() > 0 && candidates[0].explicit.is_some()
        invariant
            forall|analyzer: AnalyzerView| #[trigger]
                settled(analyzer, first, known) == settled(
                    analyzer,
                    candidates.deep_view(),
                    found.deep_view(),
                ),
        decreases candidates.len(),
    {
        let ghost all = candidates.deep_view();
        let ghost files = found.deep_view();
        assert(all[0] == candidates[0].deep_view());
        let candidate = candidates.remove(0);
        assert(candidates.deep_view() =~= all.drop_first());
        found.push(module_file_for(candidate, false, false));
        assert(found.deep_view() =~= files.push(explicit_file(all[0])));
    }
    assert(candidates.len() > 0 ==> candidates.deep_view()[0] == candidates[0].deep_view());
    (candidates, found)
}

/// Puts `files` on the stack `pending`, so that the first of them is on top.
fn push_reversed(pending: &mut Vec<ModuleFile>, files: Vec<ModuleFile>)
    ensures
        final(pending).deep_view() == old(pending).deep_view() + files.deep_view().reverse(),
{
    let ghost kept = pending.deep_view();
    let ghost all = files.deep_view();
    let mut files = files;
    assert(pending.deep_view() =~= kept + all.skip(all.len() as int).reverse());
    assert(files.deep_view() =~= all.take(all.len() as int));
    while files.len() > 0
        invariant
            files.len() <= all.len(),
            files.deep_view() == all.take(files.len() as int),
            pending.deep_view() == kept + all.skip(files.len() as int).reverse(),
        decreases files.len(),
    {
        let ghost count = files.len() as int;
        let ghost before = files.deep_view();
        let ghost held = pending.deep_view();
        match files.pop() {
            Some(file) => {
                assert(file.deep_view() == before[count - 1]);
                assert(files.deep_view() =~= all.take(count - 1));
                pending.push(file);
                assert(pending.deep_view() =~= held.push(all[count - 1]));
                assert(held.push(all[count - 1]) =~= kept + all.skip(count - 1).reverse());
            },
            None => {},
        }
    }
    assert(all.skip(0) =~= all);
}

/// Adds the inline modules of a file, which lie in the file's module.
fn add_inline_modules(
    known: &mut OrderedSet<Vec<String>>,
    inline: &Vec<Vec<String>>,
    module: &Vec<String>,
)
    requires
        old(known).well_formed(),
    ensures
        final(known).well_formed(),
        final(known)@ == with_inline_modules(old(known)@, inline.deep_view(), module.deep_view()),
{
    let ghost before = known@;
    let ghost all = inline.deep_view();
    let mut i: usize = 0;
    assert(all.take(0) =~= seq![]);
    while i < inline.len()
        invariant
            all == inline.deep_view(),
            i <= inline.len(),
            known.well_formed(),
            known@ == with_inline_modules(before, all.take(i as int), module.deep_view()),
        decreases inline.len() - i,
    {
        proof {
            assert(all.take(i + 1).drop_last() =~= all.take(i as int));
            assert(all.take(i + 1).last() == inline[i as int].deep_view());
        }
        let mut path = copy_texts(module);
        append_texts(&mut path, &inline[i], 0);
        assert(inline[i as int].deep_view().skip(0) =~= inline[i as int].deep_view());
        known.insert(path);
        i = i + 1;
    }
    assert(all.take(i as int) =~= all);
}

/// Adds the usages of a file.
fn place_usages(
    placed_usages: &mut Vec<Usage>,
    usages: Vec<FileLocalUsage>,
    path: &FilePath,
    module: &Vec<String>,
)
    ensures
        final(placed_usages).deep_view() == old(placed_usages).deep_view() + all_placed(
            usages.deep_view(),
            path@,
            module.deep_view(),
        ),
{
    let ghost before = placed_usages.deep_view();
    let ghost all = all_placed(usages.deep_view(), path@, module.deep_view());
    let mut i: usize = 0;
    assert(placed_usages.deep_view() =~= before + all.take(0));
    while i < usages.len()
        invariant
            all == all_placed(usages.deep_view(), path@, module.deep_view()),
            i <= usages.len(),
            placed_usages.deep_view() == before + all.take(i as int),
        decreases usages.len() - i,
    {
        let ghost held = placed_usages.deep_view();
        let mut place = copy_texts(module);
        append_texts(&mut place, &usages[i].module_path_suffix, 0);
        let ghost suffix = usages[i as int].module_path_suffix.deep_view();
        assert(suffix.skip(0) =~= suffix);
        let usage = Usage {
            file: path.copy(),
            module: place,
            line: usages[i].line,
            origin: usages[i].origin.clone(),
            symbol: usages[i].symbol.clone(),
        };
        let ghost view = usage.deep_view();
        placed_usages.push(usage);
        assert(placed_usages.deep_view() =~= held.push(view));
        assert(view =~= all[i as int]);
        assert(all.take(i + 1) =~= all.take(i as int).push(all[i as int]));
        i = i + 1;
    }
    assert(all.take(i as int) =~= all);
}

} // verus!
