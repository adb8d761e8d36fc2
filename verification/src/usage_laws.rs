//! What recording a path as a usage keeps of the path.
use crate::resolve::{naming, path_segments};
use crate::text::{colon_free, join_path, split_path, split_undoes_join};
use crate::usage::{
    builtin_or_prelude_root, identifier, identifier_continue, is_builtin_or_prelude_root,
    is_identifier, is_identifier_continue, is_identifier_start, is_local_root,
    is_reportable_origin_root, local_root, origin_length, path_usage, proper_symbol,
    reportable_origin_root, usage_from_segments, FileLocalUsage, SymbolStyle,
};
use vstd::prelude::*;

verus! {

/// Each of `segments` is an identifier.
pub open spec fn all_identifiers(segments: Seq<Seq<char>>) -> bool {
    forall|i: int| 0 <= i < segments.len() ==> identifier(#[trigger] segments[i])
}

/// Each of `segments` names something and holds no colon.
pub open spec fn plain_segments(segments: Seq<Seq<char>>) -> bool {
    forall|i: int|
        0 <= i < segments.len() ==> colon_free(#[trigger] segments[i]) && naming(segments[i])
}

proof fn lemma_identifier(text: Seq<char>)
    requires
        identifier(text),
    ensures
        colon_free(text),
        naming(text),
{
    reveal_strlit("*");
    if text.contains(':') {
        let i = text.index_of(':');
        assert(text[i] == ':');
    }
}

proof fn lemma_star()
    ensures
        colon_free("*"@),
        !identifier("*"@),
        !naming("*"@),
{
    reveal_strlit("*");
    if "*"@.contains(':') {
        let i = "*"@.index_of(':');
        assert("*"@[i] == ':');
    }
}

proof fn lemma_all_naming(segments: Seq<Seq<char>>)
    requires
        forall|i: int| 0 <= i < segments.len() ==> naming(#[trigger] segments[i]),
    ensures
        segments.filter(|segment: Seq<char>| naming(segment)) == segments,
    decreases segments.len(),
{
    reveal(Seq::filter);
    if segments.len() > 0 {
        lemma_all_naming(segments.drop_last());
        assert(naming(segments[segments.len() - 1]));
        assert(segments.drop_last().push(segments.last()) =~= segments);
    } else {
        assert(segments.filter(|segment: Seq<char>| naming(segment)) =~= segments);
    }
}

/// The pieces of the origin and of the symbol are the segments that they were made of.
proof fn lemma_pieces(segments: Seq<Seq<char>>, cut: int)
    requires
        0 < cut < segments.len(),
        forall|i: int| 0 <= i < segments.len() ==> colon_free(#[trigger] segments[i]),
    ensures
        split_path(join_path(segments.take(cut))) == segments.take(cut),
        split_path(join_path(segments.skip(cut))) == segments.skip(cut),
{
    let front = segments.take(cut);
    let back = segments.skip(cut);
    assert forall|i: int| 0 <= i < front.len() implies colon_free(#[trigger] front[i]) by {
        assert(front[i] == segments[i]);
    }
    assert forall|i: int| 0 <= i < back.len() implies colon_free(#[trigger] back[i]) by {
        assert(back[i] == segments[cut + i]);
    }
    split_undoes_join(front);
    split_undoes_join(back);
}

/// A path of identifiers is recorded exactly if its root is not built in and something is left
/// for the symbol: at least one segment after the root, or two after `self`, `super` or `crate`.
pub proof fn identifier_paths_are_recorded(
    segments: Seq<Seq<char>>,
    line: usize,
    style: SymbolStyle,
)
    requires
        segments.len() > 0,
        all_identifiers(segments),
    ensures
        path_usage(segments, line, style) is Some <==> !builtin_or_prelude_root(segments[0])
            && segments.len() >= (if local_root(segments[0]) {
            3int
        } else {
            2int
        }),
{
    assert(identifier(segments[0]));
    let cut = origin_length(segments);
    if 0 < cut < segments.len() {
        assert forall|i: int| 0 <= i < segments.len() implies colon_free(#[trigger] segments[i]) by {
            lemma_identifier(segments[i]);
        }
        lemma_pieces(segments, cut);
        let symbol = join_path(segments.skip(cut));
        assert(proper_symbol(symbol)) by {
            assert forall|i: int| 0 <= i < split_path(symbol).len() implies identifier(
                #[trigger] split_path(symbol)[i],
            ) by {
                assert(split_path(symbol)[i] == segments[cut + i]);
            }
        }
    }
}

/// A path of names can be read back from the usage that it is recorded as.
pub proof fn usage_names_its_path(segments: Seq<Seq<char>>, line: usize)
    requires
        plain_segments(segments),
        path_usage(segments, line, SymbolStyle::Plain) is Some,
    ensures
        ({
            let usage = path_usage(segments, line, SymbolStyle::Plain)->0;
            &&& usage.line == line
            &&& path_segments(usage.origin, usage.symbol) == segments
        }),
{
    let usage = path_usage(segments, line, SymbolStyle::Plain)->0;
    let cut = origin_length(segments);
    lemma_pieces(segments, cut);
    assert(segments.take(cut) + segments.skip(cut) =~= segments);
    lemma_all_naming(segments);
}

/// A path of names to a macro, where it is recorded, is recorded as the same path with `!` after
/// its last segment.
pub proof fn macro_usage_ends_in_bang(segments: Seq<Seq<char>>, line: usize)
    requires
        plain_segments(segments),
        path_usage(segments, line, SymbolStyle::Macro) is Some,
    ensures
        ({
            let usage = path_usage(segments, line, SymbolStyle::Macro)->0;
            path_segments(usage.origin, usage.symbol) == segments.drop_last().push(
                segments.last().push('!'),
            )
        }),
{
    let usage = path_usage(segments, line, SymbolStyle::Macro)->0;
    let cut = origin_length(segments);
    let marked = segments.drop_last().push(segments.last().push('!'));
    let last = segments.last();
    assert(segments[segments.len() - 1] == last);
    assert(colon_free(last.push('!'))) by {
        if last.push('!').contains(':') {
            let i = last.push('!').index_of(':');
            assert(last[i] == ':');
            assert(last.contains(':'));
        }
    }
    assert(naming(last.push('!'))) by {
        reveal_strlit("*");
    }
    assert forall|i: int| 0 <= i < marked.len() implies colon_free(#[trigger] marked[i]) && naming(
        marked[i],
    ) by {
        if i < segments.len() - 1 {
            assert(marked[i] == segments[i]);
        }
    }
    lemma_pieces(segments, cut);
    lemma_pieces(marked, cut);
    let symbol = join_path(segments.skip(cut));
    assert(symbol != "*"@) by {
        lemma_star();
        split_undoes_join(seq!["*"@]);
        assert(join_path(seq!["*"@]) == "*"@);
        if symbol == "*"@ {
            assert(segments.skip(cut)[0] == "*"@);
            assert(segments[cut] == "*"@);
        }
    }
    assert(join_path(marked.skip(cut)) == symbol.push('!')) by {
        let plain = segments.skip(cut);
        let shown = marked.skip(cut);
        assert(shown.len() == plain.len());
        assert(shown.last() == plain.last().push('!'));
        assert(shown.drop_last() =~= plain.drop_last());
        assert(join_path(shown) =~= join_path(plain).push('!'));
    }
    assert(marked.take(cut) =~= segments.take(cut));
    assert(marked.take(cut) + marked.skip(cut) =~= marked);
    lemma_all_naming(marked);
}

/// A glob import of a path of names, where it is recorded, names that path.
pub proof fn glob_usage_names_its_module(
    segments: Seq<Seq<char>>,
    line: usize,
    style: SymbolStyle,
)
    requires
        plain_segments(segments),
        path_usage(segments.push("*"@), line, style) is Some,
    ensures
        ({
            let usage = path_usage(segments.push("*"@), line, style)->0;
            &&& usage.symbol == "*"@
            &&& path_segments(usage.origin, usage.symbol) == segments
        }),
{
    let whole = segments.push("*"@);
    let cut = origin_length(whole);
    lemma_star();
    assert forall|i: int| 0 <= i < whole.len() implies colon_free(#[trigger] whole[i]) by {
        if i < segments.len() {
            assert(whole[i] == segments[i]);
        }
    }
    lemma_pieces(whole, cut);
    let symbol = join_path(whole.skip(cut));
    let last = whole.len() - cut - 1;
    assert(whole.skip(cut)[last] == "*"@);
    if symbol != "*"@ {
        assert(!identifier(split_path(symbol)[last]));
        assert(false);
    }
    split_undoes_join(seq!["*"@]);
    assert(join_path(seq!["*"@]) == "*"@);
    assert(whole.skip(cut) == seq!["*"@]);
    assert(cut == segments.len());
    assert(whole.take(cut) =~= segments);
    lemma_all_naming(segments);
    reveal(Seq::filter);
    let pieces = segments.push("*"@);
    assert(segments + seq!["*"@] =~= pieces);
    assert(pieces.drop_last() =~= segments);
    assert(pieces.last() == "*"@);
}

/// No usage of a path has a built-in root or one from the prelude: the origin starts with a
/// segment that is reportable.
pub proof fn recorded_roots_are_reportable(
    segments: Seq<Seq<char>>,
    line: usize,
    style: SymbolStyle,
)
    requires
        path_usage(segments, line, style) is Some,
        forall|i: int| 0 <= i < segments.len() ==> colon_free(#[trigger] segments[i]),
    ensures
        reportable_origin_root(split_path((path_usage(segments, line, style)->0).origin)[0]),
{
    lemma_pieces(segments, origin_length(segments));
}

/// The roots of paths inside the crate, by name.
pub open spec fn inner_root(name: Seq<char>) -> bool {
    seq!["self"@, "super"@, "crate"@].contains(name)
}

/// The integer and floating-point types are named after their kind and their width.
pub open spec fn numeric_type(name: Seq<char>) -> bool {
    ||| exists|width: Seq<char>|
        #![trigger seq!['i'] + width]
        seq!["8"@, "16"@, "32"@, "64"@, "128"@, "size"@].contains(width) && (name == seq!['i']
            + width || name == seq!['u'] + width)
    ||| exists|width: Seq<char>|
        #![trigger seq!['f'] + width]
        seq!["32"@, "64"@].contains(width) && name == seq!['f'] + width
}

/// What stands for itself in every module: the crates of the language, the other primitive types,
/// the current type, and the names of the prelude.
pub open spec fn names_of_the_language() -> Seq<Seq<char>> {
    seq!["_"@, "Self"@] + seq!["std"@, "core"@, "alloc"@] + seq!["bool"@, "char"@, "str"@] + seq![
        "Option"@,
        "Some"@,
        "None"@,
        "Result"@,
        "Ok"@,
        "Err"@,
    ] + seq!["Vec"@, "String"@, "Box"@, "ToString"@] + seq![
        "From"@,
        "Into"@,
        "AsRef"@,
        "AsMut"@,
        "Default"@,
        "Clone"@,
        "Copy"@,
        "Drop"@,
        "Debug"@,
        "Display"@,
        "Iterator"@,
        "IntoIterator"@,
        "Send"@,
        "Sync"@,
        "Sized"@,
    ]
}

proof fn lemma_numeric_names()
    ensures
        seq!['i'] + "8"@ == "i8"@,
        seq!['i'] + "16"@ == "i16"@,
        seq!['i'] + "32"@ == "i32"@,
        seq!['i'] + "64"@ == "i64"@,
        seq!['i'] + "128"@ == "i128"@,
        seq!['i'] + "size"@ == "isize"@,
        seq!['u'] + "8"@ == "u8"@,
        seq!['u'] + "16"@ == "u16"@,
        seq!['u'] + "32"@ == "u32"@,
        seq!['u'] + "64"@ == "u64"@,
        seq!['u'] + "128"@ == "u128"@,
        seq!['u'] + "size"@ == "usize"@,
        seq!['f'] + "32"@ == "f32"@,
        seq!['f'] + "64"@ == "f64"@,
{
    reveal_strlit("8");
    reveal_strlit("16");
    reveal_strlit("32");
    reveal_strlit("64");
    reveal_strlit("128");
    reveal_strlit("size");
    reveal_strlit("i8");
    reveal_strlit("i16");
    reveal_strlit("i32");
    reveal_strlit("i64");
    reveal_strlit("i128");
    reveal_strlit("isize");
    reveal_strlit("u8");
    reveal_strlit("u16");
    reveal_strlit("u32");
    reveal_strlit("u64");
    reveal_strlit("u128");
    reveal_strlit("usize");
    reveal_strlit("f32");
    reveal_strlit("f64");
    assert(seq!['i'] + "8"@ =~= "i8"@);
    assert(seq!['i'] + "16"@ =~= "i16"@);
    assert(seq!['i'] + "32"@ =~= "i32"@);
    assert(seq!['i'] + "64"@ =~= "i64"@);
    assert(seq!['i'] + "128"@ =~= "i128"@);
    assert(seq!['i'] + "size"@ =~= "isize"@);
    assert(seq!['u'] + "8"@ =~= "u8"@);
    assert(seq!['u'] + "16"@ =~= "u16"@);
    assert(seq!['u'] + "32"@ =~= "u32"@);
    assert(seq!['u'] + "64"@ =~= "u64"@);
    assert(seq!['u'] + "128"@ =~= "u128"@);
    assert(seq!['u'] + "size"@ =~= "usize"@);
    assert(seq!['f'] + "32"@ =~= "f32"@);
    assert(seq!['f'] + "64"@ =~= "f64"@);
}

proof fn lemma_numeric_type(name: Seq<char>)
    ensures
        numeric_type(name) <==> (name == "i8"@ || name == "i16"@ || name == "i32"@ || name
            == "i64"@ || name == "i128"@ || name == "isize"@ || name == "u8"@ || name == "u16"@
            || name == "u32"@ || name == "u64"@ || name == "u128"@ || name == "usize"@ || name
            == "f32"@ || name == "f64"@),
{
    lemma_numeric_names();
    let widths = seq!["8"@, "16"@, "32"@, "64"@, "128"@, "size"@];
    assert(widths[0] == "8"@ && widths[1] == "16"@ && widths[2] == "32"@);
    assert(widths[3] == "64"@ && widths[4] == "128"@ && widths[5] == "size"@);
    assert(widths.contains("8"@) && widths.contains("16"@) && widths.contains("32"@));
    assert(widths.contains("64"@) && widths.contains("128"@) && widths.contains("size"@));
    let short = seq!["32"@, "64"@];
    assert(short[0] == "32"@ && short[1] == "64"@);
    assert(short.contains("32"@) && short.contains("64"@));
    if exists|width: Seq<char>|
        #![trigger seq!['i'] + width]
        widths.contains(width) && (name == seq!['i'] + width || name == seq!['u'] + width) {
        let width = choose|width: Seq<char>|
            #![trigger seq!['i'] + width]
            widths.contains(width) && (name == seq!['i'] + width || name == seq!['u'] + width);
        let i = widths.index_of(width);
        assert(widths[i] == width);
    }
    if exists|width: Seq<char>|
        #![trigger seq!['f'] + width]
        short.contains(width) && name == seq!['f'] + width {
        let width = choose|width: Seq<char>|
            #![trigger seq!['f'] + width]
            short.contains(width) && name == seq!['f'] + width;
        let i = short.index_of(width);
        assert(short[i] == width);
    }
    assert(seq!['f'] + "32"@ == "f32"@);
}

/// Built in are the numeric types and the names of the language, and nothing else.
pub proof fn built_in_roots_belong_to_the_language(name: Seq<char>)
    ensures
        builtin_or_prelude_root(name) <==> numeric_type(name) || names_of_the_language().contains(
            name,
        ),
{
    lemma_numeric_type(name);
    let names = names_of_the_language();
    assert(names.len() == 33);
    assert(names[0] == "_"@ && names[1] == "Self"@ && names[2] == "std"@);
    assert(names[3] == "core"@ && names[4] == "alloc"@ && names[5] == "bool"@);
    assert(names[6] == "char"@ && names[7] == "str"@ && names[8] == "Option"@);
    assert(names[9] == "Some"@ && names[10] == "None"@ && names[11] == "Result"@);
    assert(names[12] == "Ok"@ && names[13] == "Err"@ && names[14] == "Vec"@);
    assert(names[15] == "String"@ && names[16] == "Box"@ && names[17] == "ToString"@);
    assert(names[18] == "From"@ && names[19] == "Into"@ && names[20] == "AsRef"@);
    assert(names[21] == "AsMut"@ && names[22] == "Default"@ && names[23] == "Clone"@);
    assert(names[24] == "Copy"@ && names[25] == "Drop"@ && names[26] == "Debug"@);
    assert(names[27] == "Display"@ && names[28] == "Iterator"@);
    assert(names[29] == "IntoIterator"@ && names[30] == "Send"@);
    assert(names[31] == "Sync"@ && names[32] == "Sized"@);
    if names.contains(name) {
        let i = names.index_of(name);
        assert(names[i] == name);
    }
}

/// An identifier is a letter or an underscore, or an identifier followed by a letter, a digit or
/// an underscore. Letters and digits are those of ASCII.
pub proof fn identifiers_grow_by_one(text: Seq<char>, c: char)
    ensures
        !identifier(Seq::<char>::empty()),
        identifier(seq![c]) <==> 'a' <= c <= 'z' || 'A' <= c <= 'Z' || c == '_',
        text.len() > 0 ==> (identifier(text.push(c)) <==> identifier(text) && ('a' <= c <= 'z'
            || 'A' <= c <= 'Z' || c == '_' || '0' <= c <= '9')),
{
    let longer = text.push(c);
    if text.len() > 0 {
        assert(longer[0] == text[0]);
        if identifier(longer) {
            assert(identifier_continue(longer[text.len() as int]));
            assert forall|i: int| 1 <= i < text.len() implies identifier_continue(
                #[trigger] text[i],
            ) by {
                assert(identifier_continue(longer[i]));
            }
        }
        if identifier(text) && ('a' <= c <= 'z' || 'A' <= c <= 'Z' || c == '_' || '0' <= c
            <= '9') {
            assert forall|i: int| 1 <= i < longer.len() implies identifier_continue(
                #[trigger] longer[i],
            ) by {
                if i < text.len() {
                    assert(identifier_continue(text[i]));
                }
            }
        }
    }
}

/// What the functions that look at one root tell.
pub proof fn roots_are_told_apart(
    name: &str,
    is_name: bool,
    is_local: bool,
    is_built_in: bool,
    is_reportable: bool,
)
    requires
        call_ensures(is_identifier, (name,), is_name),
        call_ensures(is_local_root, (name,), is_local),
        call_ensures(is_builtin_or_prelude_root, (name,), is_built_in),
        call_ensures(is_reportable_origin_root, (name,), is_reportable),
    ensures
        is_name <==> identifier(name@),
        is_local <==> inner_root(name@),
        is_built_in <==> numeric_type(name@) || names_of_the_language().contains(name@),
        is_reportable <==> is_name && !is_built_in,
{
    built_in_roots_belong_to_the_language(name@);
    lemma_inner_root(name@);
}

/// What the functions that look at one byte tell.
pub proof fn bytes_of_identifiers(byte: u8, starts: bool, continues: bool)
    requires
        call_ensures(is_identifier_start, (byte,), starts),
        call_ensures(is_identifier_continue, (byte,), continues),
    ensures
        starts <==> 65 <= byte <= 90 || 97 <= byte <= 122 || byte == 95,
        continues <==> starts || 48 <= byte <= 57,
{
}

proof fn lemma_inner_root(name: Seq<char>)
    ensures
        inner_root(name) <==> local_root(name),
{
    let roots = seq!["self"@, "super"@, "crate"@];
    assert(roots[0] == "self"@ && roots[1] == "super"@ && roots[2] == "crate"@);
    if roots.contains(name) {
        assert(roots[roots.index_of(name)] == name);
    }
}

/// How many segments of a path tell where its symbol comes from: two inside the crate, all but
/// the last elsewhere.
pub open spec fn segments_of_origin(segments: Seq<Seq<char>>) -> int {
    if inner_root(segments[0]) {
        2
    } else {
        segments.len() - 1
    }
}

/// The symbol is the star of a glob: one segment, which is `*`.
pub open spec fn ends_in_glob(segments: Seq<Seq<char>>) -> bool {
    segments.skip(segments_of_origin(segments)) == seq!["*"@]
}

proof fn lemma_star_symbol(segments: Seq<Seq<char>>, cut: int)
    requires
        0 < cut < segments.len(),
        forall|i: int| 0 <= i < segments.len() ==> colon_free(#[trigger] segments[i]),
    ensures
        join_path(segments.skip(cut)) == "*"@ <==> segments.skip(cut) == seq!["*"@],
{
    lemma_star();
    lemma_pieces(segments, cut);
    split_undoes_join(seq!["*"@]);
    assert(join_path(seq!["*"@]) == "*"@);
}

/// A path is recorded exactly if its root is an identifier that is not built in, enough segments
/// follow, two behind a root inside the crate and one behind any other, and those behind the
/// origin are all identifiers, or else one `*` alone. This holds of every path whose segments hold
/// no colon.
pub proof fn recorded_paths(
    segments: Vec<String>,
    line: usize,
    style: SymbolStyle,
    usage: Option<FileLocalUsage>,
)
    requires
        call_ensures(usage_from_segments, (&segments, line, style), usage),
        forall|i: int| 0 <= i < segments.len() ==> colon_free((#[trigger] segments[i])@),
    ensures
        usage is Some <==> {
            let path = segments.deep_view();
            &&& path.len() >= 2
            &&& identifier(path[0])
            &&& !numeric_type(path[0])
            &&& !names_of_the_language().contains(path[0])
            &&& inner_root(path[0]) ==> path.len() >= 3
            &&& ends_in_glob(path) || all_identifiers(path.skip(segments_of_origin(path)))
        },
{
    let path = segments.deep_view();
    assert forall|i: int| 0 <= i < path.len() implies colon_free(#[trigger] path[i]) by {
        assert(path[i] == segments[i]@);
    }
    if path.len() > 0 {
        built_in_roots_belong_to_the_language(path[0]);
        lemma_inner_root(path[0]);
        let cut = origin_length(path);
        if 0 < cut < path.len() {
            lemma_star_symbol(path, cut);
            lemma_pieces(path, cut);
            let symbol = join_path(path.skip(cut));
            assert(split_path(symbol) == path.skip(cut));
            if all_identifiers(path.skip(cut)) {
                assert(proper_symbol(symbol));
            }
            if proper_symbol(symbol) {
                assert forall|i: int| 0 <= i < path.skip(cut).len() implies identifier(
                    #[trigger] path.skip(cut)[i],
                ) by {
                    assert(identifier(split_path(symbol)[i]));
                }
            }
        }
    }
}

/// A recorded usage spells its path: the segments of the origin, joined, are its origin, and the
/// other ones its symbol, behind which a macro, but not a glob, has a `!`. It has the line it was
/// given and lies in no inline module yet.
pub proof fn recorded_usages_spell_their_paths(
    segments: Vec<String>,
    line: usize,
    style: SymbolStyle,
    usage: FileLocalUsage,
)
    requires
        call_ensures(usage_from_segments, (&segments, line, style), Some(usage)),
    ensures
        ({
            let path = segments.deep_view();
            let cut = segments_of_origin(path);
            let rest = join_path(path.skip(cut));
            &&& 0 < cut < path.len()
            &&& usage.line == line
            &&& usage.module_path_suffix.len() == 0
            &&& usage.origin@ == join_path(path.take(cut))
            &&& usage.symbol@ == if style == SymbolStyle::Macro && rest != "*"@ {
                rest + seq!['!']
            } else {
                rest
            }
        }),
{
    let path = segments.deep_view();
    let view = Some(usage).deep_view()->0;
    assert(view == usage.deep_view());
    assert(usage.module_path_suffix.deep_view() == view.module_path_suffix);
    assert(usage.module_path_suffix.deep_view().len() == usage.module_path_suffix.len());
    lemma_inner_root(path[0]);
    let cut = origin_length(path);
    assert(segments_of_origin(path) == cut);
    let rest = join_path(path.skip(cut));
    assert(rest.push('!') =~= rest + seq!['!']);
}

/// A path of identifiers followed by `*` is recorded exactly if its root is not built in and the
/// star is all that is left behind the origin: two identifiers where the path stays inside the
/// crate, one or more elsewhere. Its origin is the path without the star.
pub proof fn globs_of_identifiers_are_recorded(
    segments: Vec<String>,
    line: usize,
    style: SymbolStyle,
    usage: Option<FileLocalUsage>,
)
    requires
        call_ensures(usage_from_segments, (&segments, line, style), usage),
        segments.len() >= 2,
        segments[segments.len() - 1]@ == "*"@,
        all_identifiers(segments.deep_view().drop_last()),
    ensures
        ({
            let path = segments.deep_view();
            &&& usage is Some <==> !numeric_type(path[0]) && !names_of_the_language().contains(
                path[0],
            ) && (inner_root(path[0]) ==> path.len() == 3)
            &&& usage matches Some(usage) ==> usage.symbol@ == "*"@ && usage.origin@ == join_path(
                path.drop_last(),
            ) && usage.line == line
        }),
{
    let path = segments.deep_view();
    let names = path.drop_last();
    lemma_star();
    assert(path.last() == "*"@);
    assert forall|i: int| 0 <= i < segments.len() implies colon_free(
        (#[trigger] segments[i])@,
    ) by {
        if i < names.len() {
            lemma_identifier(names[i]);
            assert(names[i] == segments[i]@);
        }
    }
    assert(identifier(names[0]));
    assert(path[0] == names[0]);
    recorded_paths(segments, line, style, usage);
    let cut = segments_of_origin(path);
    if 0 < cut < path.len() {
        let rest = path.skip(cut);
        assert(rest.last() == "*"@);
        assert(rest[rest.len() - 1] == "*"@);
        assert(!all_identifiers(rest));
        if rest == seq!["*"@] {
            assert(rest.len() == 1);
        }
        if cut == path.len() - 1 {
            assert(rest =~= seq!["*"@]);
            assert(path.take(cut) =~= names);
        }
    }
    if let Some(usage) = usage {
        recorded_usages_spell_their_paths(segments, line, style, usage);
        assert(join_path(seq!["*"@]) == "*"@);
    }
}

} // verus!
