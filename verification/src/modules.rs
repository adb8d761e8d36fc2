//! Where the modules that a file declares have their own files.
use crate::path::{
    bytes_of, joined, name_part, name_stem, parent_path, path_parts, same_bytes, FilePath, PathView,
};
use crate::syntax::{
    ModuleEvent, ModuleEventView, SourceFile, WrittenAttribute, WrittenAttributeView,
};
use crate::text::copy_texts;
use crate::usage::text_is;
use crate::visitor::{bare, ident_to_string};
use vstd::prelude::*;
use vstd::utf8::encode_utf8;

verus! {

/// The file names whose modules lie beside them.
pub open spec fn directory_owner(name: Seq<u8>) -> bool {
    name == encode_utf8("lib.rs"@) || name == encode_utf8("main.rs"@) || name == encode_utf8(
        "mod.rs"@,
    )
}

/// The directory that holds a file, written `.` where the path tells none.
pub open spec fn holding_directory(path: PathView) -> PathView {
    match parent_path(path) {
        Some(parent) => parent,
        None => PathView { style: path.style, bytes: encode_utf8("."@) },
    }
}

/// The directory for the modules that a file declares: that of the file itself where the file
/// stands for its directory, and otherwise the one beside it that is named as the file is.
pub open spec fn child_directory(path: PathView) -> PathView {
    match name_part(path_parts(path)) {
        Some(name) => if directory_owner(name) {
            holding_directory(path)
        } else {
            joined(holding_directory(path), name_stem(name))
        },
        None => joined(holding_directory(path), seq![]),
    }
}

/// The directory for the modules that the file at `path` declares.
pub fn module_dir_for_child_modules(path: &FilePath) -> (directory: FilePath)
    ensures
        directory@ == child_directory(path@),
{
    let parent = match path.parent() {
        Some(parent) => parent,
        None => FilePath::of_text(path.style(), "."),
    };
    let owner = match path.file_name() {
        Some(name) => same_bytes(&name, &bytes_of("lib.rs")) || same_bytes(
            &name,
            &bytes_of("main.rs"),
        ) || same_bytes(&name, &bytes_of("mod.rs")),
        None => false,
    };
    if owner {
        parent
    } else {
        let stem = match path.file_stem() {
            Some(stem) => stem,
            None => Vec::new(),
        };
        assert(name_part(path.deep_view()) is None ==> stem@ =~= seq![]);
        parent.join(&stem)
    }
}

/// A module with a file of its own: the full path of the module and of its file.
#[derive(Debug)]
pub struct ModuleFile {
    pub file: FilePath,
    pub module: Vec<String>,
}

/// The mathematical value of a [`ModuleFile`].
pub struct ModuleFileView {
    pub file: PathView,
    pub module: Seq<Seq<char>>,
}

impl DeepView for ModuleFile {
    type V = ModuleFileView;

    open spec fn deep_view(&self) -> ModuleFileView {
        ModuleFileView { file: self.file@, module: self.module.deep_view() }
    }
}

/// A declared module and the files that it can be in: the one that an attribute gives, if one
/// does, and otherwise the flat or the nested one.
#[derive(Debug)]
pub struct ModuleCandidate {
    pub module: Vec<String>,
    pub explicit: Option<FilePath>,
    pub flat: FilePath,
    pub nested: FilePath,
}

/// The mathematical value of a [`ModuleCandidate`].
#[verifier::ext_equal]
pub struct ModuleCandidateView {
    pub module: Seq<Seq<char>>,
    pub explicit: Option<PathView>,
    pub flat: PathView,
    pub nested: PathView,
}

impl DeepView for ModuleCandidate {
    type V = ModuleCandidateView;

    open spec fn deep_view(&self) -> ModuleCandidateView {
        ModuleCandidateView {
            module: self.module.deep_view(),
            explicit: match self.explicit {
                Some(path) => Some(path@),
                None => None,
            },
            flat: self.flat@,
            nested: self.nested@,
        }
    }
}

/// The argument of the first attribute `path` that has one.
pub open spec fn path_argument(attributes: Seq<WrittenAttributeView>) -> Option<Seq<char>>
    decreases attributes.len(),
{
    if attributes.len() == 0 {
        None
    } else if attributes[0].name == Some("path"@) && attributes[0].argument is Some {
        attributes[0].argument
    } else {
        path_argument(attributes.drop_first())
    }
}

/// The argument of the first attribute `path` that has one.
pub fn path_attribute(attributes: &Vec<WrittenAttribute>) -> (argument: Option<String>)
    ensures
        argument.deep_view() == path_argument(attributes.deep_view()),
{
    let ghost all = attributes.deep_view();
    let mut i: usize = 0;
    assert(all.skip(0) =~= all);
    while i < attributes.len()
        invariant
            all == attributes.deep_view(),
            i <= attributes.len(),
            path_argument(all) == path_argument(all.skip(i as int)),
        decreases attributes.len() - i,
    {
        assert(all.skip(i as int)[0] == attributes[i as int].deep_view());
        assert(all.skip(i as int).drop_first() =~= all.skip(i + 1));
        match (&attributes[i].name, &attributes[i].argument) {
            (Some(name), Some(argument)) => {
                if text_is(name.as_str(), "path") {
                    return Some(argument.clone());
                }
            },
            _ => {},
        }
        i = i + 1;
    }
    None
}

/// The files that a module declared in `directory` can be in.
pub open spec fn candidate_for(
    directory: PathView,
    module: Seq<Seq<char>>,
    ident: Seq<char>,
    attributes: Seq<WrittenAttributeView>,
) -> ModuleCandidateView {
    ModuleCandidateView {
        module: module.push(bare(ident)),
        explicit: match path_argument(attributes) {
            Some(argument) => Some(joined(directory, encode_utf8(argument))),
            None => None,
        },
        flat: joined(directory, encode_utf8(bare(ident) + ".rs"@)),
        nested: joined(joined(directory, encode_utf8(bare(ident))), encode_utf8("mod.rs"@)),
    }
}

/// Where a walk over the modules of a file has come to.
#[verifier::ext_equal]
pub struct ModuleWalkView {
    pub directory: PathView,
    pub outer_directories: Seq<PathView>,
    pub module: Seq<Seq<char>>,
    pub candidates: Seq<ModuleCandidateView>,
}

/// The start of a walk over a file of the module `module`, whose modules lie in `directory`.
pub open spec fn walk_start(directory: PathView, module: Seq<Seq<char>>) -> ModuleWalkView {
    ModuleWalkView { directory, outer_directories: seq![], module, candidates: seq![] }
}

/// Where the walk is after one more step: an inline module has a directory of its own.
pub open spec fn walk_step(walk: ModuleWalkView, event: ModuleEventView) -> ModuleWalkView {
    match event {
        ModuleEventView::Enter { ident } => ModuleWalkView {
            directory: joined(walk.directory, encode_utf8(bare(ident))),
            outer_directories: walk.outer_directories.push(walk.directory),
            module: walk.module.push(bare(ident)),
            candidates: walk.candidates,
        },
        ModuleEventView::Leave => if walk.outer_directories.len() > 0 && walk.module.len() > 0 {
            ModuleWalkView {
                directory: walk.outer_directories.last(),
                outer_directories: walk.outer_directories.drop_last(),
                module: walk.module.drop_last(),
                candidates: walk.candidates,
            }
        } else {
            walk
        },
        ModuleEventView::Declare { ident, attributes } => ModuleWalkView {
            candidates: walk.candidates.push(
                candidate_for(walk.directory, walk.module, ident, attributes),
            ),
            ..walk
        },
    }
}

/// Where the walk is after all of `events`.
pub open spec fn walk_steps(start: ModuleWalkView, events: Seq<ModuleEventView>) -> ModuleWalkView
    decreases events.len(),
{
    if events.len() == 0 {
        start
    } else {
        walk_step(walk_steps(start, events.drop_last()), events.last())
    }
}

/// The modules with files of their own that a file declares, in the order of their declarations.
pub open spec fn declared_modules(
    events: Seq<ModuleEventView>,
    directory: PathView,
    module: Seq<Seq<char>>,
) -> Seq<ModuleCandidateView> {
    walk_steps(walk_start(directory, module), events).candidates
}

struct ModuleFileVisitor {
    directory: FilePath,
    outer_directories: Vec<FilePath>,
    module: Vec<String>,
    candidates: Vec<ModuleCandidate>,
}

/// The paths as they were written.
spec fn path_views(paths: Seq<FilePath>) -> Seq<PathView> {
    Seq::new(paths.len(), |i: int| paths[i]@)
}

impl DeepView for ModuleFileVisitor {
    type V = ModuleWalkView;

    closed spec fn deep_view(&self) -> ModuleWalkView {
        ModuleWalkView {
            directory: self.directory@,
            outer_directories: path_views(self.outer_directories@),
            module: self.module.deep_view(),
            candidates: self.candidates.deep_view(),
        }
    }
}

impl ModuleFileVisitor {
    fn visit_item_mod(&mut self, event: &ModuleEvent)
        ensures
            final(self).deep_view() == walk_step(old(self).deep_view(), event.deep_view()),
    {
        match event {
            ModuleEvent::Enter { ident } => {
                let name = ident_to_string(ident.as_str());
                let ghost outer = path_views(self.outer_directories@);
                self.outer_directories.push(self.directory.copy());
                assert(path_views(self.outer_directories@) =~= outer.push(self.directory@));
                self.directory = self.directory.join(&bytes_of(name.as_str()));
                let ghost module = self.module.deep_view();
                let ghost view = name@;
                self.module.push(name);
                assert(self.module.deep_view() =~= module.push(view));
            },
            ModuleEvent::Leave => {
                if self.module.len() > 0 {
                    let ghost outer = self.outer_directories@;
                    let ghost module = self.module.deep_view();
                    match self.outer_directories.pop() {
                        Some(directory) => {
                            self.directory = directory;
                            self.module.pop();
                            assert(self.module.deep_view() =~= module.drop_last());
                            assert(path_views(self.outer_directories@) =~= path_views(
                                outer,
                            ).drop_last());
                        },
                        None => {},
                    }
                }
            },
            ModuleEvent::Declare { ident, attributes } => {
                let candidate = self.candidate(ident.as_str(), attributes);
                let ghost candidates = self.candidates.deep_view();
                let ghost view = candidate.deep_view();
                self.candidates.push(candidate);
                assert(self.candidates.deep_view() =~= candidates.push(view));
            },
        }
        assert(self.deep_view() =~= walk_step(old(self).deep_view(), event.deep_view()));
    }

    fn candidate(&self, ident: &str, attributes: &Vec<WrittenAttribute>) -> (candidate:
        ModuleCandidate)
        ensures
            candidate.deep_view() == candidate_for(
                self.deep_view().directory,
                self.deep_view().module,
                ident@,
                attributes.deep_view(),
            ),
    {
        let name = ident_to_string(ident);
        let explicit = match path_attribute(attributes) {
            Some(argument) => Some(self.directory.join(&bytes_of(argument.as_str()))),
            None => None,
        };
        let mut flat_name = name.clone();
        flat_name.append(".rs");
        let flat = self.directory.join(&bytes_of(flat_name.as_str()));
        let nested = self.directory.join(&bytes_of(name.as_str())).join(&bytes_of("mod.rs"));
        let mut module = copy_texts(&self.module);
        module.push(name);
        let candidate = ModuleCandidate { module, explicit, flat, nested };
        assert(candidate.deep_view() =~= candidate_for(
            self.deep_view().directory,
            self.deep_view().module,
            ident@,
            attributes.deep_view(),
        ));
        candidate
    }
}

/// The modules with files of their own that `file` declares. The file belongs to the module
/// `module`, and `directory` is where its modules lie.
pub fn module_files_referenced_by(
    file: &SourceFile,
    directory: FilePath,
    module: &Vec<String>,
) -> (candidates: Vec<ModuleCandidate>)
    ensures
        candidates.deep_view() == declared_modules(
            file.deep_view().modules,
            directory@,
            module.deep_view(),
        ),
{
    let ghost start = walk_start(directory@, module.deep_view());
    let ghost events = file.modules.deep_view();
    let mut visitor = ModuleFileVisitor {
        directory,
        outer_directories: Vec::new(),
        module: copy_texts(module),
        candidates: Vec::new(),
    };
    assert(visitor.deep_view() =~= start);
    assert(events.take(0) =~= seq![]);
    let mut i: usize = 0;
    while i < file.modules.len()
        invariant
            events == file.modules.deep_view(),
            i <= file.modules.len(),
            visitor.deep_view() == walk_steps(start, events.take(i as int)),
        decreases file.modules.len() - i,
    {
        proof {
            assert(events.take(i + 1).drop_last() =~= events.take(i as int));
            assert(events.take(i + 1).last() == file.modules[i as int].deep_view());
        }
        visitor.visit_item_mod(&file.modules[i]);
        i = i + 1;
    }
    assert(events.take(i as int) =~= events);
    visitor.candidates
}

/// The file of a module: the one that its attribute gives; without such an attribute the flat
/// one, unless only the nested one is there.
pub open spec fn chosen_file(
    candidate: ModuleCandidateView,
    flat_is_file: bool,
    nested_is_file: bool,
) -> PathView {
    match candidate.explicit {
        Some(path) => path,
        None => if !flat_is_file && nested_is_file {
            candidate.nested
        } else {
            candidate.flat
        },
    }
}

/// Settles on the file of a module, given which of its files are there.
pub fn module_file_for(
    candidate: ModuleCandidate,
    flat_is_file: bool,
    nested_is_file: bool,
) -> (module_file: ModuleFile)
    ensures
        module_file.deep_view() == (ModuleFileView {
            file: chosen_file(candidate.deep_view(), flat_is_file, nested_is_file),
            module: candidate.deep_view().module,
        }),
{
    let file = match candidate.explicit {
        Some(path) => path,
        None => if flat_is_file {
            candidate.flat
        } else if nested_is_file {
            candidate.nested
        } else {
            candidate.flat
        },
    };
    ModuleFile { file, module: candidate.module }
}

} // verus!
