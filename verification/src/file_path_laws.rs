//! What the operations on file paths do to the bytes and the components of a path.
use crate::order::{sequence_less, Rank, Ranked};
use crate::path::{
    body_separators, joined, kept_length, last_dot, name_stem, parts_from, path_parts, prefix_size,
    rooted, start_length, start_of, strict, FilePath, PathComponent, PathPart, PathView,
};
use crate::path_laws::{
    lemma_body_start, lemma_parts_concat, lemma_parts_skip, parent_has_the_other_components,
};
use crate::prefix::{
    behind_piece, lemma_next_break_unique, letter, piece_at, separates, starts_device,
    starts_verbatim, windows_prefix, PathStyle, PrefixKind, PrefixPart, Separators, BACKSLASH,
    COLON, DOT, QUESTION, SLASH,
};
use vstd::prelude::*;
use vstd::utf8::encode_utf8;

verus! {

/// A path in the style of Unix.
pub open spec fn unix(bytes: Seq<u8>) -> PathView {
    PathView { style: PathStyle::Unix, bytes }
}

/// Paths are made of what they are given, and give it back.
pub proof fn paths_keep_their_bytes(
    style: PathStyle,
    bytes: Vec<u8>,
    text: &str,
    path: FilePath,
    of_text: FilePath,
    again: FilePath,
    held: &Vec<u8>,
    held_style: PathStyle,
)
    requires
        call_ensures(FilePath::new, (style, bytes), path),
        call_ensures(FilePath::of_text, (style, text), of_text),
        call_ensures(FilePath::copy, (&path,), again),
        call_ensures(FilePath::bytes, (&path,), held),
        call_ensures(FilePath::style, (&path,), held_style),
    ensures
        path@.bytes == bytes@,
        path@.style == style,
        of_text@.bytes == encode_utf8(text@),
        of_text@.style == style,
        again@ == path@,
        held@ == bytes@,
        held_style == style,
{
}

/// Two paths are the same exactly if their components are, and one comes before another as its
/// components come before those of the other in a dictionary.
pub proof fn paths_are_told_apart_by_their_components(
    left: FilePath,
    right: FilePath,
    same: bool,
    rank: Rank,
)
    requires
        call_ensures(<FilePath as PartialEq>::eq, (&left, &right), same),
        call_ensures(<FilePath as Ranked>::rank, (&left, &right), rank),
    ensures
        same <==> path_parts(left@) == path_parts(right@),
        rank == Rank::Same <==> path_parts(left@) == path_parts(right@),
        rank == Rank::Before <==> sequence_less::<PathComponent>(
            path_parts(left@),
            path_parts(right@),
        ),
        rank == Rank::After <==> sequence_less::<PathComponent>(
            path_parts(right@),
            path_parts(left@),
        ),
{
}

/// In the style of Unix a path from the root replaces the directory it is joined to. Any other
/// path follows it behind one slash, which is not written twice, nor behind nothing.
pub proof fn unix_paths_are_joined_by_a_slash(path: FilePath, rest: Vec<u8>, whole: FilePath)
    requires
        call_ensures(FilePath::join, (&path, &rest), whole),
        path@.style == PathStyle::Unix,
    ensures
        whole@.style == PathStyle::Unix,
        ({
            let (front, back) = (path@.bytes, rest@);
            if back.len() > 0 && back[0] == SLASH {
                whole@.bytes == back
            } else if front.len() == 0 || front.last() == SLASH {
                whole@.bytes == front + back
            } else {
                whole@.bytes == front + seq![SLASH] + back
            }
        }),
{
    let (front, back) = (path@.bytes, rest@);
    assert(front.push(SLASH) + back =~= front + seq![SLASH] + back);
}

/// In the style of Windows, away from verbatim prefixes, a path with a prefix replaces the
/// directory it is joined to, and one from the root keeps the directory's prefix alone. Any other
/// path follows behind one separator, which is not written twice, nor behind nothing or a drive.
pub proof fn windows_paths_are_joined_by_a_backslash(
    path: FilePath,
    rest: Vec<u8>,
    whole: FilePath,
)
    requires
        call_ensures(FilePath::join, (&path, &rest), whole),
        path@.style == PathStyle::Windows,
        !strict(path@),
    ensures
        whole@.style == PathStyle::Windows,
        ({
            let (front, back) = (path@.bytes, rest@);
            if windows_prefix(back) is Some {
                whole@.bytes == back
            } else if back.len() > 0 && (back[0] == SLASH || back[0] == BACKSLASH) {
                whole@.bytes == front.take(prefix_size(path@)) + back
            } else if front.len() == 0 || front.last() == SLASH || front.last() == BACKSLASH
                || front.len() == 2 && letter(front[0]) && front[1] == COLON {
                whole@.bytes == front + back
            } else {
                whole@.bytes == front + seq![BACKSLASH] + back
            }
        }),
{
    let (front, back) = (path@.bytes, rest@);
    assert(front.push(BACKSLASH) + back =~= front + seq![BACKSLASH] + back);
    lemma_body_start(path@);
}

/// What a piece without separators stands for behind others: nothing for an empty one and for `.`,
/// the parent for `..`, and else its name.
pub open spec fn piece_component(piece: Seq<u8>) -> Seq<PathPart> {
    if piece.len() == 0 || piece == seq![DOT] {
        seq![]
    } else if piece == seq![DOT, DOT] {
        seq![PathPart::Parent]
    } else {
        seq![PathPart::Name(piece)]
    }
}

proof fn lemma_dots()
    ensures
        seq![DOT] != seq![DOT, DOT],
{
    assert(seq![DOT].len() != seq![DOT, DOT].len());
}

/// In the style of Unix, a path without slashes is one component, or none where it is empty: the
/// current directory for `.`, the parent for `..`, and else its name. With a slash in front of it,
/// it is the root and what it stands for behind others.
pub proof fn unix_pieces_are_components(piece: Seq<u8>)
    requires
        forall|i: int| 0 <= i < piece.len() ==> #[trigger] piece[i] != SLASH,
    ensures
        path_parts(unix(piece)) == (if piece == seq![DOT] {
            seq![PathPart::Current]
        } else {
            piece_component(piece)
        }),
        path_parts(unix(seq![SLASH] + piece)) == seq![PathPart::Root] + piece_component(piece),
{
    lemma_dots();
    let separators = Separators::Slash;
    lemma_next_break_unique(piece, 0, piece.len() as int, separators);
    assert(piece.subrange(0, piece.len() as int) =~= piece);
    let parts = parts_from(piece, 0, true, false, separators);
    assert(path_parts(unix(piece)) =~= parts);
    let whole = seq![SLASH] + piece;
    assert(whole.skip(1) =~= piece);
    lemma_parts_skip(whole, 1, 0, false, false, separators);
    assert(rooted(unix(whole)));
    assert(path_parts(unix(whole)) =~= seq![PathPart::Root] + piece_component(piece));
}

/// In the style of Unix, what stands behind a slash adds its components to those before the slash,
/// as it would behind the root.
pub proof fn unix_components_follow_each_other(front: Seq<u8>, back: Seq<u8>)
    requires
        front.len() > 0,
    ensures
        path_parts(unix(front + seq![SLASH] + back)) == path_parts(unix(front)) + path_parts(
            unix(seq![SLASH] + back),
        ).drop_first(),
        path_parts(unix(seq![SLASH] + back))[0] == PathPart::Root,
{
    let separators = Separators::Slash;
    let whole = front + seq![SLASH] + back;
    let behind = seq![SLASH] + back;
    assert(whole =~= front.push(SLASH) + back);
    assert(whole[0] == front[0]);
    assert(rooted(unix(whole)) == rooted(unix(front)));
    let from: int = if rooted(unix(front)) {
        1
    } else {
        0
    };
    lemma_parts_concat(front, SLASH, back, from, from == 0, false, separators);
    assert(behind.skip(1) =~= back);
    lemma_parts_skip(behind, 1, 0, false, false, separators);
    assert(rooted(unix(behind)));
    let rest = parts_from(back, 0, false, false, separators);
    assert(path_parts(unix(behind)) =~= seq![PathPart::Root] + rest);
    assert(path_parts(unix(behind)).drop_first() =~= rest);
    assert(path_parts(unix(whole)) =~= path_parts(unix(front)) + rest);
}

/// What calls on a path tell of its components: all of them, the last one where it is a name, and
/// that name without its extension.
pub proof fn components_and_names_of_a_path(
    path: FilePath,
    components: Vec<PathComponent>,
    name: Option<Vec<u8>>,
    stem: Option<Vec<u8>>,
)
    requires
        call_ensures(FilePath::components, (&path,), components),
        call_ensures(FilePath::file_name, (&path,), name),
        call_ensures(FilePath::file_stem, (&path,), stem),
    ensures
        components.deep_view() == path_parts(path@),
        name matches Some(bytes) ==> components.len() > 0 && path_parts(path@).last()
            == PathPart::Name(bytes@),
        name is None ==> components.len() == 0 || !(path_parts(path@).last() is Name),
        stem is Some <==> name is Some,
        name is Some ==> stem->0@ == name_stem(name->0@),
{
    assert(components.deep_view().len() == components.len());
}

proof fn lemma_last_dot(name: Seq<u8>, at: int)
    requires
        -1 <= at < name.len(),
        at >= 0 ==> name[at] == DOT,
        forall|i: int| at < i < name.len() ==> #[trigger] name[i] != DOT,
    ensures
        last_dot(name) == at,
    decreases name.len(),
{
    if name.len() > 0 && at < name.len() - 1 {
        assert(name[name.len() - 1] != DOT);
        let shorter = name.drop_last();
        assert forall|i: int| at < i < shorter.len() implies #[trigger] shorter[i] != DOT by {
            assert(name[i] != DOT);
        }
        lemma_last_dot(shorter, at);
    }
}

/// The extension of a name is what stands behind its last dot: without it and the dot the name is
/// its stem. A name without a dot, or with none but its first byte, is its own stem.
pub proof fn stems_are_names_without_their_extension(stem: Seq<u8>, extension: Seq<u8>)
    requires
        forall|i: int| 0 <= i < extension.len() ==> #[trigger] extension[i] != DOT,
    ensures
        stem.len() > 0 ==> name_stem(stem + seq![DOT] + extension) == stem,
        name_stem(seq![DOT] + extension) == seq![DOT] + extension,
        name_stem(extension) == extension,
{
    let name = stem + seq![DOT] + extension;
    let at = stem.len() as int;
    assert(name[at] == DOT);
    assert forall|i: int| at < i < name.len() implies #[trigger] name[i] != DOT by {
        assert(name[i] == extension[i - at - 1]);
    }
    lemma_last_dot(name, at);
    assert(name.take(at) =~= stem);
    let hidden = seq![DOT] + extension;
    assert(hidden[0] == DOT);
    assert forall|i: int| 0 < i < hidden.len() implies #[trigger] hidden[i] != DOT by {
        assert(hidden[i] == extension[i - 1]);
    }
    lemma_last_dot(hidden, 0);
    lemma_last_dot(extension, -1);
}

/// From which length on the starts of a path are looked at.
pub open spec fn least_start(path: PathView) -> int {
    match path.style {
        PathStyle::Unix => if path.bytes.len() > 0 && path.bytes[0] == SLASH {
            1
        } else {
            0
        },
        PathStyle::Windows => prefix_size(path) + 2,
    }
}

/// A path has a parent unless it has no components or ends in a root or a prefix. The parent is
/// a start of the path that has all components but the last. In the style of Unix no shorter start,
/// unless the root is missing from it, has those, and elsewhere none that is two bytes longer than
/// the prefix.
pub proof fn parents_are_the_shortest_starts_with_the_other_components(
    path: FilePath,
    parent: Option<FilePath>,
)
    requires
        call_ensures(FilePath::parent, (&path,), parent),
    ensures
        ({
            let parts = path_parts(path@);
            &&& parent is None <==> parts.len() == 0 || parts.last() is Root || parts.last() is Prefix
            &&& parent matches Some(parent) ==> {
                let length = parent@.bytes.len() as int;
                &&& parent@.style == path@.style
                &&& length <= path@.bytes.len()
                &&& parent@.bytes == path@.bytes.take(length)
                &&& path_parts(parent@) == parts.drop_last()
                &&& forall|shorter: int|
                    least_start(path@) <= shorter < length ==> path_parts(
                        #[trigger] start_of(path@, shorter),
                    ) != parts.drop_last()
            }
        }),
{
    let parts = path_parts(path@);
    if let Some(parent) = parent {
        parent_has_the_other_components(path@);
        lemma_body_start(path@);
        lemma_kept_length(path@);
        let from = kept_length(path@);
        let length = start_length(path@, parts.drop_last(), from);
        lemma_start_bounds(path@, parts.drop_last(), from);
        assert(parent@ == start_of(path@, length));
        assert(parent@.bytes.len() == length);
        assert forall|shorter: int| least_start(path@) <= shorter < length implies path_parts(
            #[trigger] start_of(path@, shorter),
        ) != parts.drop_last() by {
            assert(from <= shorter);
        }
    }
}

proof fn lemma_kept_length(path: PathView)
    ensures
        prefix_size(path) <= kept_length(path) <= prefix_size(path) + 1,
        kept_length(path) <= path.bytes.len(),
{
    lemma_body_start(path);
    if prefix_size(path) <= path.bytes.len() {
        crate::prefix::lemma_next_break(path.bytes, prefix_size(path), body_separators(path));
    }
}

proof fn lemma_start_bounds(path: PathView, parts: Seq<PathPart>, from: int)
    requires
        0 <= from <= path.bytes.len(),
    ensures
        from <= start_length(path, parts, from) <= path.bytes.len(),
        forall|shorter: int|
            from <= shorter < start_length(path, parts, from) ==> path_parts(
                #[trigger] start_of(path, shorter),
            ) != parts,
    decreases path.bytes.len() - from,
{
    if from < path.bytes.len() && path_parts(start_of(path, from)) != parts {
        lemma_start_bounds(path, parts, from + 1);
    }
}

/// A byte that is written between components on Windows.
pub open spec fn slash_or_backslash(byte: u8) -> bool {
    byte == SLASH || byte == BACKSLASH
}

/// A letter and a colon at the start of a path in the style of Windows are a drive, by whichever
/// case of the letter, and a path that starts neither so nor with two separators has no prefix.
pub proof fn drives_start_paths_on_windows(bytes: Seq<u8>, drive: u8, lower: u8, rest: Seq<u8>)
    requires
        65 <= drive <= 90,
        lower == drive + 32,
    ensures
        windows_prefix(seq![drive, COLON] + rest) == Some(
            PrefixPart { kind: PrefixKind::Disk, first: seq![drive], second: seq![] },
        ),
        windows_prefix(seq![lower, COLON] + rest) == windows_prefix(seq![drive, COLON] + rest),
        bytes.len() < 2 ==> windows_prefix(bytes) is None,
        bytes.len() >= 2 && !(slash_or_backslash(bytes[0]) && slash_or_backslash(bytes[1])) && !((65
            <= bytes[0] <= 90 || 97 <= bytes[0] <= 122) && bytes[1] == COLON) ==> windows_prefix(
            bytes,
        ) is None,
{
    let other = seq![lower, COLON] + rest;
    assert(other[0] == lower && other[1] == COLON);
    let whole = seq![drive, COLON] + rest;
    assert(whole[0] == drive && whole[1] == COLON);
}

/// A server and a share behind two separators are a prefix, unless what starts there is one of the
/// other prefixes with two separators in front.
pub proof fn shares_start_paths_on_windows(server: Seq<u8>, share: Seq<u8>)
    requires
        server.len() > 0,
        share.len() > 0,
        server != seq![DOT],
        server != seq![QUESTION],
        forall|i: int| 0 <= i < server.len() ==> !slash_or_backslash(#[trigger] server[i]),
        forall|i: int| 0 <= i < share.len() ==> !slash_or_backslash(#[trigger] share[i]),
    ensures
        windows_prefix(seq![BACKSLASH, BACKSLASH] + server + seq![BACKSLASH] + share) == Some(
            PrefixPart { kind: PrefixKind::Unc, first: server, second: share },
        ),
{
    let bytes = seq![BACKSLASH, BACKSLASH] + server + seq![BACKSLASH] + share;
    let cut = 2 + server.len() as int;
    assert(bytes[0] == BACKSLASH && bytes[1] == BACKSLASH);
    assert(bytes[2] == server[0]);
    assert(bytes[cut] == BACKSLASH);
    assert forall|i: int| 2 <= i < cut implies !separates(
        Separators::Both,
        #[trigger] bytes[i],
    ) by {
        assert(bytes[i] == server[i - 2]);
    }
    lemma_next_break_unique(bytes, 2, cut, Separators::Both);
    assert(piece_at(bytes, 2, Separators::Both) =~= server);
    assert(behind_piece(bytes, 2, Separators::Both) == cut + 1);
    assert forall|i: int| cut + 1 <= i < bytes.len() implies !separates(
        Separators::Both,
        #[trigger] bytes[i],
    ) by {
        assert(bytes[i] == share[i - cut - 1]);
    }
    lemma_next_break_unique(bytes, cut + 1, bytes.len() as int, Separators::Both);
    assert(piece_at(bytes, cut + 1, Separators::Both) =~= share);
    if starts_verbatim(bytes) || starts_device(bytes) {
        assert(separates(Separators::Both, bytes[3]));
        assert(server.len() == 1) by {
            if server.len() > 1 {
                assert(bytes[3] == server[1]);
            }
        }
        assert(server =~= seq![server[0]]);
    }
}

/// A name behind `\\.\` is that of a device.
pub proof fn devices_start_paths_on_windows(name: Seq<u8>)
    requires
        forall|i: int| 0 <= i < name.len() ==> !slash_or_backslash(#[trigger] name[i]),
    ensures
        windows_prefix(seq![BACKSLASH, BACKSLASH, DOT, BACKSLASH] + name) == Some(
            PrefixPart { kind: PrefixKind::Device, first: name, second: seq![] },
        ),
{
    let bytes = seq![BACKSLASH, BACKSLASH, DOT, BACKSLASH] + name;
    assert(bytes[0] == BACKSLASH && bytes[1] == BACKSLASH && bytes[2] == DOT && bytes[3]
        == BACKSLASH);
    assert forall|i: int| 4 <= i < bytes.len() implies !separates(
        Separators::Both,
        #[trigger] bytes[i],
    ) by {
        assert(bytes[i] == name[i - 4]);
    }
    lemma_next_break_unique(bytes, 4, bytes.len() as int, Separators::Both);
    assert(piece_at(bytes, 4, Separators::Both) =~= name);
}

/// A drive behind `\\?\` is a verbatim prefix.
pub proof fn verbatim_drives_start_paths_on_windows(drive: u8, rest: Seq<u8>)
    requires
        65 <= drive <= 90,
        rest.len() == 0 || rest[0] == BACKSLASH,
    ensures
        windows_prefix(
            seq![BACKSLASH, BACKSLASH, QUESTION, BACKSLASH, drive, COLON] + rest,
        ) == Some(
            PrefixPart {
                kind: PrefixKind::VerbatimDisk,
                first: seq![drive],
                second: seq![],
            },
        ),
{
    let bytes = seq![BACKSLASH, BACKSLASH, QUESTION, BACKSLASH, drive, COLON] + rest;
    assert(bytes[0] == BACKSLASH && bytes[1] == BACKSLASH && bytes[2] == QUESTION);
    assert(bytes[3] == BACKSLASH && bytes[4] == drive && bytes[5] == COLON);
    if rest.len() > 0 {
        assert(bytes[6] == BACKSLASH);
    }
}

} // verus!
