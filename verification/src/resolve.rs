//! Which modules of the crate a usage points to, and the dependencies between modules that follow.
use crate::path::{FilePath, PathView};
use crate::table::OrderedSet;
use crate::text::{append_texts, copy_texts, join, join_path, split, split_path};
use crate::usage::text_is;
use vstd::prelude::*;

verus! {

/// A use of `symbol` from `origin`, at a line of `file`, in the module `module`.
#[derive(Debug, PartialEq, Eq)]
pub struct Usage {
    pub file: FilePath,
    pub module: Vec<String>,
    pub line: usize,
    pub origin: String,
    pub symbol: String,
}

/// The mathematical value of a [`Usage`].
#[verifier::ext_equal]
pub struct UsageView {
    pub file: PathView,
    pub module: Seq<Seq<char>>,
    pub line: usize,
    pub origin: Seq<char>,
    pub symbol: Seq<char>,
}

impl DeepView for Usage {
    type V = UsageView;

    open spec fn deep_view(&self) -> UsageView {
        UsageView {
            file: self.file@,
            module: self.module.deep_view(),
            line: self.line,
            origin: self.origin@,
            symbol: self.symbol@,
        }
    }
}

/// A path segment that names something: not empty and not a glob.
pub open spec fn naming(segment: Seq<char>) -> bool {
    segment.len() > 0 && segment != "*"@
}

/// The segments of the path to a symbol, without empty ones and globs.
pub open spec fn path_segments(origin: Seq<char>, symbol: Seq<char>) -> Seq<Seq<char>> {
    (split_path(origin) + split_path(symbol)).filter(|segment: Seq<char>| naming(segment))
}

/// The segments of the path to the symbol of a usage.
pub fn usage_path_segments(usage: &Usage) -> (segments: Vec<String>)
    ensures
        segments.deep_view() == path_segments(usage.deep_view().origin, usage.deep_view().symbol),
{
    let mut pieces = split(usage.origin.as_str());
    let symbol_pieces = split(usage.symbol.as_str());
    append_texts(&mut pieces, &symbol_pieces, 0);
    let ghost all = pieces.deep_view();
    let ghost pred = |segment: Seq<char>| naming(segment);
    assert(symbol_pieces.deep_view().skip(0) =~= symbol_pieces.deep_view());
    let mut segments: Vec<String> = Vec::new();
    let mut i: usize = 0;
    proof {
        reveal(Seq::filter);
        assert(segments.deep_view() =~= all.take(0).filter(pred));
    }
    while i < pieces.len()
        invariant
            all == pieces.deep_view(),
            pred == (|segment: Seq<char>| naming(segment)),
            i <= pieces.len(),
            segments.deep_view() == all.take(i as int).filter(pred),
        decreases pieces.len() - i,
    {
        let ghost held = segments.deep_view();
        proof {
            reveal(Seq::filter);
            assert(all.take(i + 1).drop_last() =~= all.take(i as int));
            assert(all.take(i + 1).last() == pieces[i as int]@);
        }
        if !pieces[i].as_str().is_empty() && !text_is(pieces[i].as_str(), "*") {
            segments.push(pieces[i].clone());
            assert(segments.deep_view() =~= held.push(pieces[i as int]@));
        }
        i = i + 1;
    }
    assert(all.take(i as int) =~= all);
    segments
}

/// Some part of `path` from its start on is a known module.
pub open spec fn known_prefix(path: Seq<Seq<char>>, known: Set<Seq<Seq<char>>>) -> bool {
    exists|length: int| 1 <= length <= path.len() && known.contains(#[trigger] path.take(length))
}

/// The longest part of `path`, of at most `length` segments from its start on, that is a known
/// module.
pub open spec fn longest_known(
    path: Seq<Seq<char>>,
    length: int,
    known: Set<Seq<Seq<char>>>,
) -> Option<Seq<Seq<char>>>
    decreases length,
{
    if length <= 0 {
        None
    } else if known.contains(path.take(length)) {
        Some(path.take(length))
    } else {
        longest_known(path, length - 1, known)
    }
}

/// What the longest known module is: known, and no longer start of the path is.
pub proof fn lemma_longest_known(path: Seq<Seq<char>>, length: int, known: Set<Seq<Seq<char>>>)
    requires
        0 <= length <= path.len(),
    ensures
        match longest_known(path, length, known) {
            Some(module) => {
                &&& 1 <= module.len() <= length
                &&& module == path.take(module.len() as int)
                &&& known.contains(module)
                &&& forall|longer: int|
                    module.len() < longer <= length ==> !known.contains(
                        #[trigger] path.take(longer),
                    )
            },
            None => forall|any: int| 1 <= any <= length ==> !known.contains(#[trigger] path.take(any)),
        },
    decreases length,
{
    if length > 0 && !known.contains(path.take(length)) {
        lemma_longest_known(path, length - 1, known);
    }
}

/// The longest known module at the start of `path`.
fn find_known(path: Vec<String>, known: &OrderedSet<Vec<String>>) -> (found: Option<Vec<String>>)
    requires
        known.well_formed(),
    ensures
        found.deep_view() == longest_known(path.deep_view(), path.len() as int, known@),
{
    let ghost whole = path.deep_view();
    let mut candidate = path;
    assert(candidate.deep_view() =~= whole.take(whole.len() as int));
    while candidate.len() > 0
        invariant
            known.well_formed(),
            whole == path.deep_view(),
            candidate.len() <= whole.len(),
            candidate.deep_view() == whole.take(candidate.len() as int),
            longest_known(whole, whole.len() as int, known@) == longest_known(
                whole,
                candidate.len() as int,
                known@,
            ),
        decreases candidate.len(),
    {
        if known.contains(&candidate) {
            return Some(candidate);
        }
        candidate.pop();
        assert(candidate.deep_view() =~= whole.take(candidate.len() as int));
    }
    None
}

/// Whether some part of `path` from its start on is a known module.
pub fn has_module_prefix(path: &Vec<String>, module_paths: &OrderedSet<Vec<String>>) -> (has: bool)
    requires
        module_paths.well_formed(),
    ensures
        has == known_prefix(path.deep_view(), module_paths@),
{
    proof {
        lemma_longest_known(path.deep_view(), path.len() as int, module_paths@);
    }
    let whole = copy_texts(path);
    assert(whole.deep_view().len() == path.deep_view().len());
    let found = find_known(whole, module_paths);
    match found {
        Some(module) => {
            assert(module_paths@.contains(path.deep_view().take(module.len() as int)));
            true
        },
        None => false,
    }
}

/// A path as seen from the root of the crate. A path from `crate` is one already; `self` stands
/// for the module `from` and `super` for the one around it; any other path is taken from `from`
/// or else from the root, wherever it meets a known module.
pub open spec fn absolute_path(
    from: Seq<Seq<char>>,
    path: Seq<Seq<char>>,
    known: Set<Seq<Seq<char>>>,
) -> Option<Seq<Seq<char>>> {
    if path.len() == 0 {
        None
    } else if path[0] == "crate"@ {
        Some(path)
    } else if path[0] == "self"@ {
        Some(from + path.skip(1))
    } else if path[0] == "super"@ {
        Some(enclosing(from) + path.skip(1))
    } else if known_prefix(from + path, known) {
        Some(from + path)
    } else if known_prefix(seq!["crate"@] + path, known) {
        Some(seq!["crate"@] + path)
    } else {
        None
    }
}

/// The module around `module`; the empty path has none and stays.
pub open spec fn enclosing(module: Seq<Seq<char>>) -> Seq<Seq<char>> {
    if module.len() == 0 {
        module
    } else {
        module.drop_last()
    }
}

/// The path as seen from the root, if it can be told, for a path written in `from_module`.
pub fn absolute_module_candidate(
    from_module: &Vec<String>,
    path: &Vec<String>,
    module_paths: &OrderedSet<Vec<String>>,
) -> (absolute: Option<Vec<String>>)
    requires
        module_paths.well_formed(),
    ensures
        absolute.deep_view() == absolute_path(
            from_module.deep_view(),
            path.deep_view(),
            module_paths@,
        ),
{
    let ghost segments = path.deep_view();
    let ghost from = from_module.deep_view();
    if path.len() == 0 {
        return None;
    }
    assert(segments[0] == path[0]@);
    if text_is(path[0].as_str(), "crate") {
        return Some(copy_texts(path));
    }
    if text_is(path[0].as_str(), "self") {
        let mut absolute = copy_texts(from_module);
        append_texts(&mut absolute, path, 1);
        return Some(absolute);
    }
    if text_is(path[0].as_str(), "super") {
        let mut absolute = copy_texts(from_module);
        absolute.pop();
        assert(absolute.deep_view() =~= enclosing(from));
        append_texts(&mut absolute, path, 1);
        return Some(absolute);
    }
    assert(segments.skip(0) =~= segments);
    let mut relative = copy_texts(from_module);
    append_texts(&mut relative, path, 0);
    if has_module_prefix(&relative, module_paths) {
        return Some(relative);
    }
    let mut crate_absolute: Vec<String> = Vec::new();
    crate_absolute.push("crate".to_owned());
    assert(crate_absolute.deep_view() =~= seq!["crate"@]);
    append_texts(&mut crate_absolute, path, 0);
    if has_module_prefix(&crate_absolute, module_paths) {
        return Some(crate_absolute);
    }
    None
}

/// The module of the crate that a usage points to: the longest known module at the start of its
/// path, as seen from the root.
pub open spec fn resolved_module(usage: UsageView, known: Set<Seq<Seq<char>>>) -> Option<
    Seq<Seq<char>>,
> {
    match absolute_path(usage.module, path_segments(usage.origin, usage.symbol), known) {
        Some(path) => longest_known(path, path.len() as int, known),
        None => None,
    }
}

/// The module of the crate that a usage points to, if it points to one.
pub fn resolve_internal_module(usage: &Usage, module_paths: &OrderedSet<Vec<String>>) -> (module:
    Option<Vec<String>>)
    requires
        module_paths.well_formed(),
    ensures
        module.deep_view() == resolved_module(usage.deep_view(), module_paths@),
{
    let path = usage_path_segments(usage);
    match absolute_module_candidate(&usage.module, &path, module_paths) {
        Some(absolute) => find_known(absolute, module_paths),
        None => None,
    }
}

/// The names on the way to a module, with `::` between them.
pub fn module_path_to_string(module: &Vec<String>) -> (text: String)
    ensures
        text@ == join_path(module.deep_view()),
{
    assert(module.deep_view().subrange(0, module.len() as int) =~= module.deep_view());
    join(module, 0, module.len())
}

} // verus!
