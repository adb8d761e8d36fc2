//! Where the modules that a file declares lie.
use crate::modules::{
    candidate_for, child_directory, declared_modules, directory_owner, holding_directory,
    module_dir_for_child_modules, module_file_for, module_files_referenced_by, path_argument,
    path_attribute, walk_start, walk_step, walk_steps, ModuleCandidate, ModuleCandidateView,
    ModuleFile, ModuleWalkView,
};
use crate::path::{
    all_followed, joined, name_part, name_stem, parent_path, path_parts, path_prefix, strict,
    style_separators, FilePath, PathPart, PathView,
};
use crate::path_laws::{
    joining_behind_verbatim_prefixes_follows_components, joining_paths_joins_components,
    names_are_paths, parent_has_the_other_components, proper_name,
    verbatim_prefixes_are_followed_by_a_root,
};
use crate::syntax::{ModuleEventView, SourceFile, WrittenAttribute, WrittenAttributeView};
use crate::visitor::bare;
use vstd::prelude::*;
use vstd::utf8::encode_utf8;

verus! {

/// How many of the inline modules that `events` enter they do not leave again.
pub open spec fn open_modules(events: Seq<ModuleEventView>) -> int
    decreases events.len(),
{
    if events.len() == 0 {
        0
    } else {
        open_modules(events.drop_last()) + match events.last() {
            ModuleEventView::Enter { .. } => 1int,
            ModuleEventView::Leave => -1int,
            ModuleEventView::Declare { .. } => 0int,
        }
    }
}

/// No module is left before it was entered.
pub open spec fn well_nested(events: Seq<ModuleEventView>) -> bool {
    forall|length: int| 0 <= length <= events.len() ==> open_modules(#[trigger] events.take(length)) >= 0
}

/// The directories around the place that a walk has come to, and the one it is in.
spec fn directories(walk: ModuleWalkView) -> Seq<PathView> {
    walk.outer_directories.push(walk.directory)
}

proof fn lemma_walk_depth(start: ModuleWalkView, events: Seq<ModuleEventView>)
    requires
        well_nested(events),
    ensures
        ({
            let walk = walk_steps(start, events);
            &&& walk.module.len() == start.module.len() + open_modules(events)
            &&& walk.module.take(start.module.len() as int) == start.module
            &&& directories(walk).len() == directories(start).len() + open_modules(events)
            &&& directories(walk).take(directories(start).len() as int) == directories(start)
        }),
    decreases events.len(),
{
    if events.len() == 0 {
        assert(start.module.take(start.module.len() as int) =~= start.module);
        assert(directories(start).take(directories(start).len() as int) =~= directories(start));
    } else {
        let earlier = events.drop_last();
        assert(well_nested(earlier)) by {
            assert forall|length: int| 0 <= length <= earlier.len() implies open_modules(
                #[trigger] earlier.take(length),
            ) >= 0 by {
                assert(earlier.take(length) =~= events.take(length));
            }
        }
        lemma_walk_depth(start, earlier);
        assert(events.take(events.len() as int) =~= events);
        assert(open_modules(events) >= 0);
        let before = walk_steps(start, earlier);
        let walk = walk_steps(start, events);
        match events.last() {
            ModuleEventView::Enter { .. } => {
                assert(directories(walk) =~= directories(before).push(walk.directory));
            },
            ModuleEventView::Leave => {
                assert(directories(walk) =~= directories(before).drop_last());
            },
            ModuleEventView::Declare { .. } => {},
        }
        assert(walk.module.take(start.module.len() as int) =~= before.module.take(
            start.module.len() as int,
        ));
        assert(directories(walk).take(directories(start).len() as int) =~= directories(before).take(
            directories(start).len() as int,
        ));
    }
}

/// Whatever stands inside inline modules, once they are all left the walk is back in the module
/// and the directory that it started in.
pub proof fn inline_modules_are_left_again(start: ModuleWalkView, events: Seq<ModuleEventView>)
    requires
        well_nested(events),
        open_modules(events) == 0,
    ensures
        walk_steps(start, events).module == start.module,
        walk_steps(start, events).directory == start.directory,
        walk_steps(start, events).outer_directories == start.outer_directories,
{
    lemma_walk_depth(start, events);
    let walk = walk_steps(start, events);
    assert(walk.module.take(start.module.len() as int) =~= walk.module);
    assert(directories(walk).take(directories(start).len() as int) =~= directories(walk));
    assert(directories(walk).last() == walk.directory);
    assert(directories(start).last() == start.directory);
    assert(walk.outer_directories =~= directories(walk).drop_last());
    assert(start.outer_directories =~= directories(start).drop_last());
}

/// A step of the walk never forgets a module declared before it.
pub proof fn declared_modules_are_kept(walk: ModuleWalkView, event: ModuleEventView)
    ensures
        walk_step(walk, event).candidates.take(walk.candidates.len() as int) == walk.candidates,
        walk_step(walk, event).candidates.len() == walk.candidates.len() + (
        if event is Declare {
            1int
        } else {
            0int
        }),
{
    assert(walk.candidates.take(walk.candidates.len() as int) =~= walk.candidates);
    assert(walk_step(walk, event).candidates.take(walk.candidates.len() as int)
        =~= walk.candidates);
}

/// The modules that `lib.rs`, `main.rs` and `mod.rs` declare lie beside the file, and those of
/// any other file lie in the directory beside it that is named as the file is, without its
/// extension. Left out are files whose name without its extension is no name, or starts with a
/// drive, and those whose directory, with that name behind it, would be read with another prefix.
pub proof fn child_modules_lie_beside_or_below(path: PathView)
    requires
        name_part(path_parts(path)) matches Some(name) && proper_name(
            name_stem(name),
            style_separators(path.style),
        ) && path_prefix(PathView { style: path.style, bytes: name_stem(name) }) is None,
        path_prefix(child_directory(path)) == path_prefix(path),
    ensures
        ({
            let parts = path_parts(path);
            let name = name_part(parts)->0;
            path_parts(child_directory(path)) == if directory_owner(name) {
                parts.drop_last()
            } else {
                parts.drop_last().push(PathPart::Name(name_stem(name)))
            }
        }),
{
    let parts = path_parts(path);
    let name = name_part(parts)->0;
    let stem = PathView { style: path.style, bytes: name_stem(name) };
    let holder = holding_directory(path);
    assert(parent_path(path) is Some);
    parent_has_the_other_components(path);
    if !directory_owner(name) {
        assert(child_directory(path) == joined(holder, stem.bytes));
        names_are_paths(stem);
        if strict(path) {
            verbatim_prefixes_are_followed_by_a_root(path);
            joining_behind_verbatim_prefixes_follows_components(holder, stem);
            reveal_with_fuel(all_followed, 2);
            assert(path_parts(stem).drop_last() =~= seq![]);
        } else {
            joining_paths_joins_components(holder, stem);
        }
        assert(path_parts(child_directory(path)) =~= parts.drop_last().push(
            PathPart::Name(stem.bytes),
        ));
    }
}

/// The inline modules around the place that a walk over `events` has come to.
pub open spec fn modules_around(events: Seq<ModuleEventView>) -> Seq<Seq<char>>
    decreases events.len(),
{
    if events.len() == 0 {
        seq![]
    } else {
        let around = modules_around(events.drop_last());
        match events.last() {
            ModuleEventView::Enter { ident } => around.push(bare(ident)),
            ModuleEventView::Leave => if around.len() > 0 {
                around.drop_last()
            } else {
                around
            },
            ModuleEventView::Declare { .. } => around,
        }
    }
}

proof fn lemma_modules_around(
    directory: PathView,
    module: Seq<Seq<char>>,
    events: Seq<ModuleEventView>,
)
    ensures
        ({
            let walk = walk_steps(walk_start(directory, module), events);
            &&& walk.module == module + modules_around(events)
            &&& walk.outer_directories.len() == modules_around(events).len()
        }),
    decreases events.len(),
{
    let walk = walk_steps(walk_start(directory, module), events);
    if events.len() > 0 {
        lemma_modules_around(directory, module, events.drop_last());
    }
    assert(walk.module =~= module + modules_around(events));
}

/// Each module that a file declares lies directly in the file's module or in an inline module of
/// the file: in the one that the walk is in where it meets the declaration.
pub proof fn declared_modules_lie_in_inline_modules(
    events: Seq<ModuleEventView>,
    directory: PathView,
    module: Seq<Seq<char>>,
    at: int,
)
    requires
        0 <= at < declared_modules(events, directory, module).len(),
    ensures
        exists|length: int|
            0 <= length < events.len() && events[length] is Declare && {
                let declared = declared_modules(events, directory, module)[at].module;
                &&& declared.len() > 0
                &&& declared.drop_last() == module + modules_around(#[trigger] events.take(length))
            },
    decreases events.len(),
{
    let start = walk_start(directory, module);
    if events.len() > 0 {
        let earlier = events.drop_last();
        let declared = declared_modules(events, directory, module);
        let before = declared_modules(earlier, directory, module);
        if at < before.len() {
            declared_modules_lie_in_inline_modules(earlier, directory, module, at);
            let length = choose|length: int|
                0 <= length < earlier.len() && earlier[length] is Declare && {
                    &&& before[at].module.len() > 0
                    &&& before[at].module.drop_last() == module + modules_around(
                        #[trigger] earlier.take(length),
                    )
                };
            assert(earlier.take(length) =~= events.take(length));
            assert(events[length] == earlier[length]);
            assert(declared[at] == before[at]);
            assert(declared[at].module.drop_last() == module + modules_around(
                events.take(length),
            ));
        } else {
            lemma_modules_around(directory, module, earlier);
            assert(events.take(events.len() - 1) =~= earlier);
            assert(events[events.len() - 1] == events.last());
            assert(declared[at].module.drop_last() =~= walk_steps(start, earlier).module);
        }
    }
}

/// The directory `directory`, joined with each of `names` in order.
pub open spec fn directory_below(directory: PathView, names: Seq<Seq<char>>) -> PathView
    decreases names.len(),
{
    if names.len() == 0 {
        directory
    } else {
        joined(directory_below(directory, names.drop_last()), encode_utf8(names.last()))
    }
}

proof fn lemma_directories_below(
    directory: PathView,
    module: Seq<Seq<char>>,
    events: Seq<ModuleEventView>,
)
    ensures
        ({
            let walk = walk_steps(walk_start(directory, module), events);
            let around = modules_around(events);
            &&& walk.directory == directory_below(directory, around)
            &&& walk.outer_directories.len() == around.len()
            &&& forall|i: int|
                0 <= i < around.len() ==> #[trigger] walk.outer_directories[i] == directory_below(
                    directory,
                    around.take(i),
                )
        }),
    decreases events.len(),
{
    let start = walk_start(directory, module);
    let walk = walk_steps(start, events);
    let around = modules_around(events);
    if events.len() > 0 {
        let earlier = events.drop_last();
        let before = walk_steps(start, earlier);
        let held = modules_around(earlier);
        lemma_directories_below(directory, module, earlier);
        lemma_modules_around(directory, module, earlier);
        match events.last() {
            ModuleEventView::Enter { ident } => {
                assert(around.drop_last() =~= held);
                assert forall|i: int| 0 <= i < around.len() implies
                    #[trigger] walk.outer_directories[i] == directory_below(
                    directory,
                    around.take(i),
                ) by {
                    if i < held.len() {
                        assert(around.take(i) =~= held.take(i));
                        assert(walk.outer_directories[i] == before.outer_directories[i]);
                    } else {
                        assert(around.take(i) =~= held);
                    }
                }
            },
            ModuleEventView::Leave => {
                if held.len() > 0 {
                    assert(before.outer_directories.last() == before.outer_directories[held.len()
                        - 1]);
                    assert(held.take(held.len() - 1) =~= around);
                    assert forall|i: int| 0 <= i < around.len() implies
                        #[trigger] walk.outer_directories[i] == directory_below(
                        directory,
                        around.take(i),
                    ) by {
                        assert(around.take(i) =~= held.take(i));
                        assert(walk.outer_directories[i] == before.outer_directories[i]);
                    }
                }
            },
            ModuleEventView::Declare { .. } => {},
        }
    }
}

/// How many modules with files of their own `events` declare.
pub open spec fn declarations(events: Seq<ModuleEventView>) -> int
    decreases events.len(),
{
    if events.len() == 0 {
        0
    } else {
        declarations(events.drop_last()) + if events.last() is Declare {
            1int
        } else {
            0int
        }
    }
}

proof fn lemma_declared_at(
    events: Seq<ModuleEventView>,
    directory: PathView,
    module: Seq<Seq<char>>,
    at: int,
)
    requires
        0 <= at < events.len(),
        events[at] is Declare,
    ensures
        ({
            let declared = declared_modules(events, directory, module);
            let number = declarations(events.take(at));
            let walk = walk_steps(walk_start(directory, module), events.take(at));
            &&& declared.len() == declarations(events)
            &&& 0 <= number < declared.len()
            &&& declared[number] == candidate_for(
                walk.directory,
                walk.module,
                events[at]->Declare_ident,
                events[at]->Declare_attributes,
            )
        }),
    decreases events.len(),
{
    let start = walk_start(directory, module);
    let earlier = events.drop_last();
    lemma_declared_count(earlier, directory, module);
    lemma_declared_count(events, directory, module);
    if at == events.len() - 1 {
        assert(events.take(at) =~= earlier);
    } else {
        lemma_declared_at(earlier, directory, module, at);
        assert(earlier.take(at) =~= events.take(at));
        assert(earlier[at] == events[at]);
        let number = declarations(events.take(at));
        declared_modules_are_kept(walk_steps(start, earlier), events.last());
        let before = declared_modules(earlier, directory, module);
        let after = declared_modules(events, directory, module);
        assert(after.take(before.len() as int)[number] == before[number]);
    }
}

proof fn lemma_declared_count(
    events: Seq<ModuleEventView>,
    directory: PathView,
    module: Seq<Seq<char>>,
)
    ensures
        declared_modules(events, directory, module).len() == declarations(events),
        declarations(events) >= 0,
    decreases events.len(),
{
    if events.len() > 0 {
        lemma_declared_count(events.drop_last(), directory, module);
    }
}

/// A module that a file declares inside the inline modules m1 to mk lies, whatever was declared
/// before it, in the file's module, m1 to mk, and can be in two files: `name.rs` and `name/mod.rs`
/// in the directory of the file's modules joined with m1 to mk. Where an attribute gives a file, it
/// is taken from that same directory. The modules come in the order of their declarations.
pub proof fn declared_modules_have_files_below_their_inline_modules(
    file: SourceFile,
    directory: FilePath,
    module: Vec<String>,
    candidates: Vec<ModuleCandidate>,
    at: int,
)
    requires
        call_ensures(module_files_referenced_by, (&file, directory, &module), candidates),
        0 <= at < file.modules.len(),
        file.modules[at] is Declare,
    ensures
        ({
            let events = file.modules.deep_view();
            let around = modules_around(events.take(at));
            let name = bare(events[at]->Declare_ident);
            let place = directory_below(directory@, around);
            let number = declarations(events.take(at));
            let candidate = candidates[number];
            &&& candidates.len() == declarations(events)
            &&& 0 <= number < candidates.len()
            &&& candidate.module.deep_view() == module.deep_view() + around + seq![name]
            &&& candidate.flat@ == joined(place, encode_utf8(name + ".rs"@))
            &&& candidate.nested@ == joined(
                joined(place, encode_utf8(name)),
                encode_utf8("mod.rs"@),
            )
            &&& match candidate.explicit {
                Some(path) => exists|argument: Seq<char>|
                    given_by_attribute(events[at]->Declare_attributes, argument) && path@
                        == #[trigger] joined(place, encode_utf8(argument)),
                None => forall|argument: Seq<char>|
                    !#[trigger] given_by_attribute(events[at]->Declare_attributes, argument),
            }
        }),
{
    let events = file.modules.deep_view();
    assert(events[at] == file.modules[at].deep_view());
    let around = modules_around(events.take(at));
    let number = declarations(events.take(at));
    lemma_declared_at(events, directory@, module.deep_view(), at);
    lemma_directories_below(directory@, module.deep_view(), events.take(at));
    lemma_modules_around(directory@, module.deep_view(), events.take(at));
    let views = candidates.deep_view();
    assert(views[number] == candidates[number].deep_view());
    let attributes = events[at]->Declare_attributes;
    lemma_path_argument(attributes);
    let name = bare(events[at]->Declare_ident);
    assert((module.deep_view() + around).push(name) =~= module.deep_view() + around + seq![name]);
    if path_argument(attributes) is Some {
        let argument = path_argument(attributes)->0;
        assert(given_by_attribute(attributes, argument));
    }
}

/// The argument of the first attribute `path` that has one is `argument`.
pub open spec fn given_by_attribute(
    attributes: Seq<WrittenAttributeView>,
    argument: Seq<char>,
) -> bool {
    exists|i: int|
        {
            &&& 0 <= i < attributes.len()
            &&& (#[trigger] attributes[i]).name == Some("path"@)
            &&& attributes[i].argument == Some(argument)
            &&& forall|j: int|
                0 <= j < i ==> (#[trigger] attributes[j]).name != Some("path"@)
                    || attributes[j].argument is None
        }
}

proof fn lemma_path_argument(attributes: Seq<WrittenAttributeView>)
    ensures
        path_argument(attributes) matches Some(argument) ==> given_by_attribute(
            attributes,
            argument,
        ),
        path_argument(attributes) is None ==> forall|i: int|
            0 <= i < attributes.len() ==> (#[trigger] attributes[i]).name != Some("path"@)
                || attributes[i].argument is None,
    decreases attributes.len(),
{
    if attributes.len() > 0 && !(attributes[0].name == Some("path"@)
        && attributes[0].argument is Some) {
        let rest = attributes.drop_first();
        lemma_path_argument(rest);
        if let Some(argument) = path_argument(rest) {
            let i = choose|i: int|
                {
                    &&& 0 <= i < rest.len()
                    &&& (#[trigger] rest[i]).name == Some("path"@)
                    &&& rest[i].argument == Some(argument)
                    &&& forall|j: int|
                        0 <= j < i ==> (#[trigger] rest[j]).name != Some("path"@)
                            || rest[j].argument is None
                };
            assert(attributes[i + 1] == rest[i]);
            assert forall|j: int| 0 <= j < i + 1 implies (#[trigger] attributes[j]).name != Some(
                "path"@,
            ) || attributes[j].argument is None by {
                if j > 0 {
                    assert(attributes[j] == rest[j - 1]);
                }
            }
        } else {
            assert forall|i: int| 0 <= i < attributes.len() implies (
            #[trigger] attributes[i]).name != Some("path"@) || attributes[i].argument is None by {
                if i > 0 {
                    assert(attributes[i] == rest[i - 1]);
                }
            }
        }
    }
}

/// What a call of `path_attribute` gives is the argument of the first attribute `path` that has
/// one, and nothing if none has.
pub proof fn the_first_path_attribute_gives_the_file(
    attributes: Vec<WrittenAttribute>,
    argument: Option<String>,
)
    requires
        call_ensures(path_attribute, (&attributes,), argument),
    ensures
        argument matches Some(text) ==> given_by_attribute(attributes.deep_view(), text@),
        argument is None ==> forall|other: Seq<char>|
            !#[trigger] given_by_attribute(attributes.deep_view(), other),
{
    lemma_path_argument(attributes.deep_view());
}

proof fn lemma_walk_on(
    start: ModuleWalkView,
    first: Seq<ModuleEventView>,
    second: Seq<ModuleEventView>,
)
    ensures
        walk_steps(start, first + second) == walk_steps(walk_steps(start, first), second),
    decreases second.len(),
{
    if second.len() == 0 {
        assert(first + second =~= first);
    } else {
        assert((first + second).drop_last() =~= first + second.drop_last());
        lemma_walk_on(start, first, second.drop_last());
    }
}

proof fn lemma_well_nested_earlier(events: Seq<ModuleEventView>)
    requires
        events.len() > 0,
        well_nested(events),
    ensures
        well_nested(events.drop_last()),
        open_modules(events) >= 0,
{
    let earlier = events.drop_last();
    assert forall|length: int| 0 <= length <= earlier.len() implies open_modules(
        #[trigger] earlier.take(length),
    ) >= 0 by {
        assert(earlier.take(length) =~= events.take(length));
    }
    assert(events.take(events.len() as int) =~= events);
}

/// The walk `walk` is where `fresh` is, inside more directories and after more declarations.
spec fn stands_with(
    walk: ModuleWalkView,
    fresh: ModuleWalkView,
    outer: Seq<PathView>,
    candidates: Seq<ModuleCandidateView>,
) -> bool {
    &&& walk.directory == fresh.directory
    &&& walk.module == fresh.module
    &&& walk.outer_directories == outer + fresh.outer_directories
    &&& walk.candidates == candidates + fresh.candidates
}

proof fn lemma_step_afresh(
    walk: ModuleWalkView,
    fresh: ModuleWalkView,
    outer: Seq<PathView>,
    candidates: Seq<ModuleCandidateView>,
    event: ModuleEventView,
)
    requires
        stands_with(walk, fresh, outer, candidates),
        event is Leave ==> fresh.outer_directories.len() > 0 && fresh.module.len() > 0,
    ensures
        stands_with(walk_step(walk, event), walk_step(fresh, event), outer, candidates),
{
    let after = walk_step(walk, event);
    let fresh_after = walk_step(fresh, event);
    assert(after.outer_directories =~= outer + fresh_after.outer_directories);
    assert(after.candidates =~= candidates + fresh_after.candidates);
}

/// What a walk over well-nested events does depends on nothing but where it starts.
proof fn lemma_walk_afresh(start: ModuleWalkView, events: Seq<ModuleEventView>)
    requires
        well_nested(events),
    ensures
        stands_with(
            walk_steps(start, events),
            walk_steps(walk_start(start.directory, start.module), events),
            start.outer_directories,
            start.candidates,
        ),
    decreases events.len(),
{
    let fresh_start = walk_start(start.directory, start.module);
    if events.len() == 0 {
        assert(start.outer_directories + fresh_start.outer_directories
            =~= start.outer_directories);
        assert(start.candidates + fresh_start.candidates =~= start.candidates);
    } else {
        let earlier = events.drop_last();
        lemma_well_nested_earlier(events);
        lemma_walk_afresh(start, earlier);
        let fresh = walk_steps(fresh_start, earlier);
        if events.last() is Leave {
            lemma_walk_depth(fresh_start, earlier);
            assert(directories(fresh).len() >= 2);
        }
        lemma_step_afresh(
            walk_steps(start, earlier),
            fresh,
            start.outer_directories,
            start.candidates,
            events.last(),
        );
    }
}

/// The modules declared in an inline module are those that its contents, taken by themselves,
/// declare in a directory and a module below; what follows the inline module declares what it
/// would without it. Nothing declares nothing.
pub proof fn inline_modules_are_walked_by_themselves(
    ident: Seq<char>,
    contents: Seq<ModuleEventView>,
    rest: Seq<ModuleEventView>,
    directory: PathView,
    module: Seq<Seq<char>>,
)
    requires
        well_nested(contents),
        open_modules(contents) == 0,
        well_nested(rest),
    ensures
        declared_modules(
            seq![ModuleEventView::Enter { ident }] + contents + seq![ModuleEventView::Leave]
                + rest,
            directory,
            module,
        ) == declared_modules(
            contents,
            joined(directory, encode_utf8(bare(ident))),
            module.push(bare(ident)),
        ) + declared_modules(rest, directory, module),
        declared_modules(Seq::<ModuleEventView>::empty(), directory, module) == Seq::<
            ModuleCandidateView,
        >::empty(),
{
    let start = walk_start(directory, module);
    let enter = seq![ModuleEventView::Enter { ident }];
    let leave = seq![ModuleEventView::Leave];
    assert(enter.drop_last() =~= seq![]);
    assert(leave.drop_last() =~= seq![]);
    let inside = walk_steps(start, enter);
    assert(inside == walk_step(walk_steps(start, enter.drop_last()), enter.last()));
    lemma_walk_on(start, enter, contents);
    lemma_walk_on(start, enter + contents, leave);
    lemma_walk_on(start, enter + contents + leave, rest);
    lemma_walk_afresh(inside, contents);
    inline_modules_are_left_again(inside, contents);
    let there = walk_steps(inside, contents);
    let back = walk_steps(there, leave);
    assert(back == walk_step(walk_steps(there, leave.drop_last()), leave.last()));
    assert(there.outer_directories =~= seq![directory]);
    assert(back.directory == directory);
    assert(back.module =~= module);
    lemma_walk_afresh(back, rest);
    let below = walk_steps(walk_start(inside.directory, inside.module), contents);
    assert(inside.candidates + below.candidates =~= below.candidates);
    assert(back.candidates == below.candidates);
}

/// A declaration declares one module, with its files in the directory that the walk is in, and
/// what follows declares what it would without it.
pub proof fn declarations_stand_for_themselves(
    ident: Seq<char>,
    attributes: Seq<WrittenAttributeView>,
    rest: Seq<ModuleEventView>,
    directory: PathView,
    module: Seq<Seq<char>>,
)
    requires
        well_nested(rest),
    ensures
        ({
            let all = declared_modules(
                seq![ModuleEventView::Declare { ident, attributes }] + rest,
                directory,
                module,
            );
            &&& all.len() == 1 + declared_modules(rest, directory, module).len()
            &&& all.drop_first() == declared_modules(rest, directory, module)
            &&& all[0].module == module + seq![bare(ident)]
            &&& all[0].flat == joined(directory, encode_utf8(bare(ident) + ".rs"@))
            &&& all[0].nested == joined(
                joined(directory, encode_utf8(bare(ident))),
                encode_utf8("mod.rs"@),
            )
        }),
{
    let start = walk_start(directory, module);
    let declare = seq![ModuleEventView::Declare { ident, attributes }];
    assert(declare.drop_last() =~= seq![]);
    let next = walk_steps(start, declare);
    assert(next == walk_step(walk_steps(start, declare.drop_last()), declare.last()));
    lemma_walk_on(start, declare, rest);
    lemma_walk_afresh(next, rest);
    let all = declared_modules(declare + rest, directory, module);
    let more = declared_modules(rest, directory, module);
    assert(next.candidates.len() == 1);
    assert(all == next.candidates + more);
    assert(all.drop_first() =~= more);
    assert(module.push(bare(ident)) =~= module + seq![bare(ident)]);
}

/// The file of a module is the one that its attribute gives; without such an attribute the flat
/// one if that is there, else the nested one if that is there, else the flat one. The module stays
/// the same.
pub proof fn the_flat_file_comes_first(
    candidate: ModuleCandidate,
    flat_is_file: bool,
    nested_is_file: bool,
    found: ModuleFile,
)
    requires
        call_ensures(module_file_for, (candidate, flat_is_file, nested_is_file), found),
    ensures
        found.module.deep_view() == candidate.module.deep_view(),
        candidate.explicit matches Some(path) ==> found.file@ == path@,
        candidate.explicit is None && flat_is_file ==> found.file@ == candidate.flat@,
        candidate.explicit is None && !flat_is_file && nested_is_file ==> found.file@
            == candidate.nested@,
        candidate.explicit is None && !flat_is_file && !nested_is_file ==> found.file@
            == candidate.flat@,
{
    assert(found.deep_view().file == found.file@);
    assert(found.deep_view().module == found.module.deep_view());
}

/// What a call of `module_dir_for_child_modules` gives: for a file named `lib.rs`, `main.rs` or
/// `mod.rs` the directory that holds it, and for any other file the directory of the same name
/// without its extension in there. A path without a parent is held by `.`, and one without a name
/// leads to what holds it, joined with nothing.
pub proof fn child_directories_are_beside_the_file_or_the_one_that_holds_it(
    path: FilePath,
    directory: FilePath,
)
    requires
        call_ensures(module_dir_for_child_modules, (&path,), directory),
    ensures
        ({
            let holder = match parent_path(path@) {
                Some(parent) => parent,
                None => PathView { style: path@.style, bytes: encode_utf8("."@) },
            };
            match name_part(path_parts(path@)) {
                Some(name) => if seq![
                    encode_utf8("lib.rs"@),
                    encode_utf8("main.rs"@),
                    encode_utf8("mod.rs"@),
                ].contains(name) {
                    directory@ == holder
                } else {
                    directory@ == joined(holder, name_stem(name))
                },
                None => directory@ == joined(holder, Seq::<u8>::empty()),
            }
        }),
{
    if let Some(name) = name_part(path_parts(path@)) {
        let owners = seq![
            encode_utf8("lib.rs"@),
            encode_utf8("main.rs"@),
            encode_utf8("mod.rs"@),
        ];
        assert(owners[0] == encode_utf8("lib.rs"@) && owners[1] == encode_utf8("main.rs"@)
            && owners[2] == encode_utf8("mod.rs"@));
        if owners.contains(name) {
            assert(owners[owners.index_of(name)] == name);
        }
        assert(owners.contains(name) <==> directory_owner(name));
    }
}

} // verus!
