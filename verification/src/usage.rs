//! What counts as the use of a name from elsewhere, and how a written path is recorded as one.
use crate::order::{lemma_order_laws, Rank, Ranked};
use crate::text::{join, join_path, split, split_path};
use vstd::prelude::*;

verus! {

/// How the symbol at the end of a path was used.
#[derive(Clone, Copy, Debug, PartialEq, Eq, Structural)]
pub enum SymbolStyle {
    Plain,
    Macro,
}

/// A use of `symbol` from `origin`, at a line of some file, inside the inline modules
/// `module_path_suffix` of that file.
#[derive(Debug, PartialEq, Eq)]
pub struct FileLocalUsage {
    pub module_path_suffix: Vec<String>,
    pub line: usize,
    pub origin: String,
    pub symbol: String,
}

/// The mathematical value of a [`FileLocalUsage`].
#[verifier::ext_equal]
pub struct FileLocalUsageView {
    pub module_path_suffix: Seq<Seq<char>>,
    pub line: usize,
    pub origin: Seq<char>,
    pub symbol: Seq<char>,
}

impl DeepView for FileLocalUsage {
    type V = FileLocalUsageView;

    open spec fn deep_view(&self) -> FileLocalUsageView {
        FileLocalUsageView {
            module_path_suffix: self.module_path_suffix.deep_view(),
            line: self.line,
            origin: self.origin@,
            symbol: self.symbol@,
        }
    }
}

/// What decides the order of usages: the line, then the origin, then the symbol, and the inline
/// modules last.
pub open spec fn usage_position(usage: FileLocalUsageView) -> (
    usize,
    (Seq<char>, (Seq<char>, Seq<Seq<char>>)),
) {
    (usage.line, (usage.origin, (usage.symbol, usage.module_path_suffix)))
}

impl Ranked for FileLocalUsage {
    open spec fn precedes(a: FileLocalUsageView, b: FileLocalUsageView) -> bool {
        <(usize, (String, (String, Vec<String>))) as Ranked>::precedes(
            usage_position(a),
            usage_position(b),
        )
    }

    proof fn order_laws() {
        lemma_order_laws::<(usize, (String, (String, Vec<String>)))>();
        let less = |a: FileLocalUsageView, b: FileLocalUsageView| Self::precedes(a, b);
        assert forall|a: FileLocalUsageView, b: FileLocalUsageView| #[trigger]
            less(a, b) || a == b || less(b, a) by {
            if usage_position(a) == usage_position(b) {
                assert(a =~= b);
            }
        }
    }

    fn rank(&self, other: &FileLocalUsage) -> (rank: Rank) {
        proof {
            Self::order_laws();
            lemma_order_laws::<usize>();
            lemma_order_laws::<String>();
            lemma_order_laws::<Vec<String>>();
        }
        let rank = match self.line.rank(&other.line) {
            Rank::Same => match self.origin.rank(&other.origin) {
                Rank::Same => match self.symbol.rank(&other.symbol) {
                    Rank::Same => self.module_path_suffix.rank(&other.module_path_suffix),
                    decided => decided,
                },
                decided => decided,
            },
            decided => decided,
        };
        assert(rank == Rank::Same ==> self.deep_view() =~= other.deep_view());
        rank
    }
}

/// Whether two texts are the same.
pub fn text_is(left: &str, right: &str) -> (same: bool)
    ensures
        same == (left@ == right@),
{
    match crate::order::rank_text(left, right) {
        crate::order::Rank::Same => true,
        _ => false,
    }
}

/// An ASCII letter.
pub open spec fn ascii_letter(c: char) -> bool {
    ('a' <= c && c <= 'z') || ('A' <= c && c <= 'Z')
}

/// An ASCII letter or an underscore.
pub open spec fn identifier_start(c: char) -> bool {
    c == '_' || ascii_letter(c)
}

/// An ASCII letter, an ASCII digit or an underscore.
pub open spec fn identifier_continue(c: char) -> bool {
    c == '_' || ascii_letter(c) || ('0' <= c && c <= '9')
}

/// A non-empty text of ASCII letters, digits and underscores that does not start with a digit.
pub open spec fn identifier(text: Seq<char>) -> bool {
    &&& text.len() > 0
    &&& identifier_start(text[0])
    &&& forall|i: int| 1 <= i < text.len() ==> identifier_continue(#[trigger] text[i])
}

/// Whether an identifier can start with this byte.
pub fn is_identifier_start(byte: u8) -> (starts: bool)
    ensures
        starts == identifier_start(byte as char),
{
    let c = byte as char;
    c == '_' || ('a' <= c && c <= 'z') || ('A' <= c && c <= 'Z')
}

/// Whether an identifier can go on with this byte.
pub fn is_identifier_continue(byte: u8) -> (continues: bool)
    ensures
        continues == identifier_continue(byte as char),
{
    let c = byte as char;
    is_identifier_start(byte) || ('0' <= c && c <= '9')
}

/// The byte that encodes `c`, for an ASCII character.
fn ascii_byte(c: char) -> (byte: Option<u8>)
    ensures
        byte is Some ==> byte->0 as char == c,
        byte is None ==> c > '\u{7f}',
{
    if c > '\u{7f}' {
        None
    } else {
        Some(c as u8)
    }
}

/// Whether `candidate` is an identifier made of ASCII characters.
pub fn is_identifier(candidate: &str) -> (is: bool)
    ensures
        is == identifier(candidate@),
{
    let mut first: bool = true;
    for c in rest: candidate.chars()
        invariant
            rest.seq() == candidate@,
            first == (rest.index() == 0),
            rest.index() > 0 ==> identifier_start(candidate@[0]),
            forall|i: int|
                1 <= i < rest.index() ==> identifier_continue(#[trigger] candidate@[i]),
    {
        assert(c == candidate@[rest.index() as int]);
        let fits = match ascii_byte(c) {
            Some(byte) => if first {
                is_identifier_start(byte)
            } else {
                is_identifier_continue(byte)
            },
            None => false,
        };
        if !fits {
            return false;
        }
        first = false;
    }
    !first
}

/// The roots of paths that stay inside the crate.
pub open spec fn local_root(name: Seq<char>) -> bool {
    name == "self"@ || name == "super"@ || name == "crate"@
}

/// Whether a path with this root stays inside the crate.
pub fn is_local_root(candidate: &str) -> (is: bool)
    ensures
        is == local_root(candidate@),
{
    text_is(candidate, "self") || text_is(candidate, "super") || text_is(candidate, "crate")
}

/// The roots of paths into the language itself, its standard crates and its prelude.
pub open spec fn builtin_or_prelude_root(name: Seq<char>) -> bool {
    ||| name == "_"@
    ||| name == "Self"@
    ||| name == "std"@
    ||| name == "core"@
    ||| name == "alloc"@
    ||| name == "bool"@
    ||| name == "char"@
    ||| name == "str"@
    ||| name == "i8"@
    ||| name == "i16"@
    ||| name == "i32"@
    ||| name == "i64"@
    ||| name == "i128"@
    ||| name == "isize"@
    ||| name == "u8"@
    ||| name == "u16"@
    ||| name == "u32"@
    ||| name == "u64"@
    ||| name == "u128"@
    ||| name == "usize"@
    ||| name == "f32"@
    ||| name == "f64"@
    ||| name == "Option"@
    ||| name == "Some"@
    ||| name == "None"@
    ||| name == "Result"@
    ||| name == "Ok"@
    ||| name == "Err"@
    ||| name == "Vec"@
    ||| name == "String"@
    ||| name == "Box"@
    ||| name == "ToString"@
    ||| name == "From"@
    ||| name == "Into"@
    ||| name == "AsRef"@
    ||| name == "AsMut"@
    ||| name == "Default"@
    ||| name == "Clone"@
    ||| name == "Copy"@
    ||| name == "Drop"@
    ||| name == "Debug"@
    ||| name == "Display"@
    ||| name == "Iterator"@
    ||| name == "IntoIterator"@
    ||| name == "Send"@
    ||| name == "Sync"@
    ||| name == "Sized"@
}

/// Whether a path with this root leads into the language itself.
pub fn is_builtin_or_prelude_root(candidate: &str) -> (is: bool)
    ensures
        is == builtin_or_prelude_root(candidate@),
{
    text_is(candidate, "_") || text_is(candidate, "Self") || text_is(candidate, "std") || text_is(
        candidate,
        "core",
    ) || text_is(candidate, "alloc") || is_primitive_type(candidate) || is_prelude_name(candidate)
}

/// The primitive types, by name.
fn is_primitive_type(candidate: &str) -> (is: bool)
    ensures
        is == (candidate@ == "bool"@ || candidate@ == "char"@ || candidate@ == "str"@ || candidate@
            == "i8"@ || candidate@ == "i16"@ || candidate@ == "i32"@ || candidate@ == "i64"@
            || candidate@ == "i128"@ || candidate@ == "isize"@ || candidate@ == "u8"@ || candidate@
            == "u16"@ || candidate@ == "u32"@ || candidate@ == "u64"@ || candidate@ == "u128"@
            || candidate@ == "usize"@ || candidate@ == "f32"@ || candidate@ == "f64"@),
{
    text_is(candidate, "bool") || text_is(candidate, "char") || text_is(candidate, "str")
        || text_is(candidate, "i8") || text_is(candidate, "i16") || text_is(candidate, "i32")
        || text_is(candidate, "i64") || text_is(candidate, "i128") || text_is(candidate, "isize")
        || text_is(candidate, "u8") || text_is(candidate, "u16") || text_is(candidate, "u32")
        || text_is(candidate, "u64") || text_is(candidate, "u128") || text_is(candidate, "usize")
        || text_is(candidate, "f32") || text_is(candidate, "f64")
}

/// The types, variants and traits of the prelude, by name.
fn is_prelude_name(candidate: &str) -> (is: bool)
    ensures
        is == (candidate@ == "Option"@ || candidate@ == "Some"@ || candidate@ == "None"@
            || candidate@ == "Result"@ || candidate@ == "Ok"@ || candidate@ == "Err"@ || candidate@
            == "Vec"@ || candidate@ == "String"@ || candidate@ == "Box"@ || candidate@
            == "ToString"@ || candidate@ == "From"@ || candidate@ == "Into"@ || candidate@
            == "AsRef"@ || candidate@ == "AsMut"@ || candidate@ == "Default"@ || candidate@
            == "Clone"@ || candidate@ == "Copy"@ || candidate@ == "Drop"@ || candidate@ == "Debug"@
            || candidate@ == "Display"@ || candidate@ == "Iterator"@ || candidate@
            == "IntoIterator"@ || candidate@ == "Send"@ || candidate@ == "Sync"@ || candidate@
            == "Sized"@),
{
    text_is(candidate, "Option") || text_is(candidate, "Some") || text_is(candidate, "None")
        || text_is(candidate, "Result") || text_is(candidate, "Ok") || text_is(candidate, "Err")
        || text_is(candidate, "Vec") || text_is(candidate, "String") || text_is(candidate, "Box")
        || text_is(candidate, "ToString") || text_is(candidate, "From") || text_is(
        candidate,
        "Into",
    ) || text_is(candidate, "AsRef") || text_is(candidate, "AsMut") || text_is(
        candidate,
        "Default",
    ) || text_is(candidate, "Clone") || text_is(candidate, "Copy") || text_is(candidate, "Drop")
        || text_is(candidate, "Debug") || text_is(candidate, "Display") || text_is(
        candidate,
        "Iterator",
    ) || text_is(candidate, "IntoIterator") || text_is(candidate, "Send") || text_is(
        candidate,
        "Sync",
    ) || text_is(candidate, "Sized")
}

/// The roots of the paths that are worth reporting.
pub open spec fn reportable_origin_root(name: Seq<char>) -> bool {
    identifier(name) && !builtin_or_prelude_root(name)
}

/// Whether a path with this root is worth reporting.
pub fn is_reportable_origin_root(candidate: &str) -> (is: bool)
    ensures
        is == reportable_origin_root(candidate@),
{
    is_identifier(candidate) && !is_builtin_or_prelude_root(candidate)
}

/// How many segments of a path name where the symbol comes from: two where the path starts inside
/// the crate, and all but the last one otherwise.
pub open spec fn origin_length(segments: Seq<Seq<char>>) -> int {
    if local_root(segments[0]) {
        2
    } else {
        segments.len() - 1
    }
}

/// Each piece of a symbol is an identifier.
pub open spec fn proper_symbol(symbol: Seq<char>) -> bool {
    forall|i: int| 0 <= i < split_path(symbol).len() ==> identifier(#[trigger] split_path(symbol)[i])
}

/// The usage that a path records, if it records one: its root is reportable, something is left
/// for the symbol after the origin, and the symbol is `*` or made of identifiers. A macro's symbol
/// ends in `!`.
pub open spec fn path_usage(
    segments: Seq<Seq<char>>,
    line: usize,
    style: SymbolStyle,
) -> Option<FileLocalUsageView> {
    if segments.len() == 0 || !reportable_origin_root(segments[0]) {
        None
    } else if origin_length(segments) < 1 || segments.len() <= origin_length(segments) {
        None
    } else {
        let origin = join_path(segments.take(origin_length(segments)));
        let symbol = join_path(segments.skip(origin_length(segments)));
        if symbol == "*"@ {
            Some(FileLocalUsageView { module_path_suffix: seq![], line, origin, symbol })
        } else if !proper_symbol(symbol) {
            None
        } else {
            let shown = match style {
                SymbolStyle::Plain => symbol,
                SymbolStyle::Macro => symbol.push('!'),
            };
            Some(FileLocalUsageView { module_path_suffix: seq![], line, origin, symbol: shown })
        }
    }
}

fn is_proper_symbol(symbol: &str) -> (proper: bool)
    ensures
        proper == proper_symbol(symbol@),
{
    let pieces = split(symbol);
    let mut i: usize = 0;
    while i < pieces.len()
        invariant
            pieces.deep_view() == split_path(symbol@),
            i <= pieces.len(),
            forall|j: int| 0 <= j < i ==> identifier(#[trigger] split_path(symbol@)[j]),
        decreases pieces.len() - i,
    {
        assert(pieces.deep_view()[i as int] == pieces[i as int]@);
        if !is_identifier(pieces[i].as_str()) {
            return false;
        }
        i = i + 1;
    }
    true
}

/// Records the path `segments`, written at `line`, as a usage.
pub fn usage_from_segments(segments: &Vec<String>, line: usize, style: SymbolStyle) -> (usage:
    Option<FileLocalUsage>)
    ensures
        usage.deep_view() == path_usage(segments.deep_view(), line, style),
{
    let ghost path = segments.deep_view();
    if segments.len() == 0 {
        return None;
    }
    assert(path[0] == segments[0]@);
    if !is_reportable_origin_root(segments[0].as_str()) {
        return None;
    }
    let length: usize = if is_local_root(segments[0].as_str()) {
        2
    } else {
        segments.len() - 1
    };
    if length < 1 || segments.len() <= length {
        return None;
    }
    let origin = join(segments, 0, length);
    let mut symbol = join(segments, length, segments.len());
    proof {
        assert(path.subrange(0, length as int) =~= path.take(length as int));
        assert(path.subrange(length as int, path.len() as int) =~= path.skip(length as int));
    }
    let module_path_suffix: Vec<String> = Vec::new();
    assert(module_path_suffix.deep_view() =~= seq![]);
    if text_is(symbol.as_str(), "*") {
        return Some(FileLocalUsage { module_path_suffix, line, origin, symbol });
    }
    if !is_proper_symbol(symbol.as_str()) {
        return None;
    }
    match style {
        SymbolStyle::Plain => {},
        SymbolStyle::Macro => {
            symbol.push('!');
        },
    }
    Some(FileLocalUsage { module_path_suffix, line, origin, symbol })
}

} // verus!
