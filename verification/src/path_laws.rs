//! How the bytes of a path and its components fit together.
use crate::path::{
    all_followed, body_parts, body_separators, body_start, head_parts, joined, kept_length, leading,
    main_separator, parent_path, part_bytes, parts_from, path_parts, path_prefix, piece_parts,
    prefix_size, rooted, start_length, start_of, strict, style_separators, wants_separator, written,
    PathPart, PathView,
};
use crate::prefix::{
    behind_piece, lemma_next_break, lemma_next_break_unique, lemma_prefix_fits, next_break,
    piece_at, separates, share_length, starts_device, starts_verbatim, windows_prefix, PathStyle,
    Separators, BACKSLASH, DOT,
};
use vstd::prelude::*;

verus! {

/// Cutting off the first `cut` bytes does not change the components of the rest.
pub proof fn lemma_parts_skip(
    bytes: Seq<u8>,
    cut: int,
    from: int,
    leading: bool,
    strict: bool,
    separators: Separators,
)
    requires
        0 <= cut,
        0 <= from,
        cut + from <= bytes.len(),
    ensures
        parts_from(bytes, cut + from, leading, strict, separators) == parts_from(
            bytes.skip(cut),
            from,
            leading,
            strict,
            separators,
        ),
    decreases bytes.len() - from,
{
    let rest = bytes.skip(cut);
    let end = next_break(rest, from, separators);
    lemma_next_break(rest, from, separators);
    assert forall|i: int| cut + from <= i < cut + end implies !separates(
        separators,
        #[trigger] bytes[i],
    ) by {
        assert(!separates(separators, rest[i - cut]));
    }
    if end < rest.len() {
        assert(separates(separators, rest[end]));
    }
    lemma_next_break_unique(bytes, cut + from, cut + end, separators);
    if end < rest.len() {
        lemma_parts_skip(bytes, cut, end + 1, false, strict, separators);
        assert(bytes.subrange(cut + from, cut + end) =~= rest.subrange(from, end));
    } else {
        assert(bytes.subrange(cut + from, bytes.len() as int) =~= rest.subrange(
            from,
            rest.len() as int,
        ));
    }
}

/// A separator between two paths puts the components of the second after those of the first.
pub proof fn lemma_parts_concat(
    a: Seq<u8>,
    byte: u8,
    b: Seq<u8>,
    from: int,
    leading: bool,
    strict: bool,
    separators: Separators,
)
    requires
        0 <= from <= a.len(),
        separates(separators, byte),
    ensures
        parts_from(a.push(byte) + b, from, leading, strict, separators) == parts_from(
            a,
            from,
            leading,
            strict,
            separators,
        ) + parts_from(b, 0, false, strict, separators),
    decreases a.len() - from,
{
    let whole = a.push(byte) + b;
    let end = next_break(a, from, separators);
    lemma_next_break(a, from, separators);
    assert forall|i: int| from <= i < end implies !separates(separators, #[trigger] whole[i]) by {
        assert(!separates(separators, a[i]));
    }
    lemma_next_break_unique(whole, from, end, separators);
    assert(whole.subrange(from, end) =~= a.subrange(from, end));
    if end < a.len() {
        lemma_parts_concat(a, byte, b, end + 1, false, strict, separators);
        assert(parts_from(whole, from, leading, strict, separators) =~= parts_from(
            a,
            from,
            leading,
            strict,
            separators,
        ) + parts_from(b, 0, false, strict, separators));
    } else {
        lemma_parts_skip(whole, a.len() as int + 1, 0, false, strict, separators);
        assert(whole.skip(a.len() as int + 1) =~= b);
        assert(a.subrange(from, a.len() as int) =~= a.subrange(from, end));
    }
}

proof fn lemma_no_parts(bytes: Seq<u8>, leading: bool, strict: bool, separators: Separators)
    ensures
        parts_from(bytes, bytes.len() as int, leading, strict, separators) == Seq::<
            PathPart,
        >::empty(),
{
    assert(bytes.subrange(bytes.len() as int, bytes.len() as int) =~= seq![]);
}

/// Bytes that can be the name of a file.
pub open spec fn proper_name(name: Seq<u8>, separators: Separators) -> bool {
    &&& name.len() > 0
    &&& forall|i: int| 0 <= i < name.len() ==> !separates(separators, #[trigger] name[i])
    &&& name != seq![DOT]
    &&& name != seq![DOT, DOT]
}

/// The component can stand at place `at`: a prefix only at the start, a root only there or behind
/// the prefix, and a `.` only at the start, unless the path is read strictly. Names are proper.
pub open spec fn proper_part(path: PathView, at: int) -> bool {
    match path_parts(path)[at] {
        PathPart::Prefix(_) => at == 0,
        PathPart::Root => at == 0 || at == 1 && path_parts(path)[0] is Prefix,
        PathPart::Current => at == 0 || strict(path),
        PathPart::Parent => true,
        PathPart::Name(name) => proper_name(name, body_separators(path)),
    }
}

spec fn body_part(part: PathPart, strict: bool, separators: Separators) -> bool {
    match part {
        PathPart::Prefix(_) => false,
        PathPart::Root => false,
        PathPart::Current => strict,
        PathPart::Parent => true,
        PathPart::Name(name) => proper_name(name, separators),
    }
}

proof fn lemma_parts_from_proper(
    bytes: Seq<u8>,
    from: int,
    leading: bool,
    strict: bool,
    separators: Separators,
)
    requires
        0 <= from <= bytes.len(),
    ensures
        forall|i: int|
            0 <= i < parts_from(bytes, from, leading, strict, separators).len() && (i > 0
                || !leading) ==> body_part(
                #[trigger] parts_from(bytes, from, leading, strict, separators)[i],
                strict,
                separators,
            ),
        leading && parts_from(bytes, from, leading, strict, separators).len() > 0 ==> body_part(
            parts_from(bytes, from, leading, strict, separators)[0],
            true,
            separators,
        ),
    decreases bytes.len() - from,
{
    lemma_next_break(bytes, from, separators);
    let end = next_break(bytes, from, separators);
    let piece = bytes.subrange(from, end);
    let parts = piece_parts(piece, leading, strict);
    assert forall|i: int| 0 <= i < piece.len() implies !separates(
        separators,
        #[trigger] piece[i],
    ) by {
        assert(!separates(separators, bytes[from + i]));
    }
    if end < bytes.len() {
        lemma_parts_from_proper(bytes, end + 1, false, strict, separators);
        let rest = parts_from(bytes, end + 1, false, strict, separators);
        let all = parts_from(bytes, from, leading, strict, separators);
        assert(all == parts + rest);
        assert forall|i: int| 0 <= i < all.len() && (i > 0 || !leading) implies body_part(
            #[trigger] all[i],
            strict,
            separators,
        ) by {
            if i >= parts.len() {
                assert(all[i] == rest[i - parts.len()]);
            }
        }
        if leading && all.len() > 0 && parts.len() == 0 {
            assert(all[0] == rest[0]);
        }
    }
}

/// The prefix and the root lie within the path.
pub proof fn lemma_body_start(path: PathView)
    ensures
        0 <= prefix_size(path) <= body_start(path) <= path.bytes.len(),
        path_prefix(path) is Some ==> prefix_size(path) >= 2,
{
    if path.style == PathStyle::Windows {
        lemma_prefix_fits(path.bytes);
    }
}

/// Every component of a path is proper.
pub proof fn components_are_proper(path: PathView)
    ensures
        forall|at: int| 0 <= at < path_parts(path).len() ==> #[trigger] proper_part(path, at),
{
    lemma_body_start(path);
    lemma_parts_from_proper(
        path.bytes,
        body_start(path),
        leading(path),
        strict(path),
        body_separators(path),
    );
    let head = head_parts(path);
    let body = body_parts(path);
    assert forall|at: int| 0 <= at < path_parts(path).len() implies #[trigger] proper_part(
        path,
        at,
    ) by {
        if at >= head.len() {
            assert(path_parts(path)[at] == body[at - head.len()]);
            assert(leading(path) ==> head.len() == 0);
        }
    }
}

/// The components without a leading `.`.
pub open spec fn trimmed(parts: Seq<PathPart>) -> Seq<PathPart> {
    if parts.len() > 0 && parts[0] == PathPart::Current {
        parts.drop_first()
    } else {
        parts
    }
}

/// The components of a path taken from a directory: one with a prefix replaces the directory, one
/// from the root keeps the directory's prefix, and any other follows, without its leading `.`.
pub open spec fn join_parts(parts: Seq<PathPart>, rest: Seq<PathPart>) -> Seq<PathPart> {
    if rest.len() > 0 && rest[0] is Prefix {
        rest
    } else if rest.len() > 0 && rest[0] == PathPart::Root {
        if parts.len() > 0 && parts[0] is Prefix {
            parts.take(1) + rest
        } else {
            rest
        }
    } else if parts.len() == 0 {
        rest
    } else {
        parts + trimmed(rest)
    }
}

proof fn lemma_not_leading(path: PathView)
    requires
        leading(path),
    ensures
        parts_from(path.bytes, 0, false, strict(path), body_separators(path)) == trimmed(
            path_parts(path),
        ),
        path.bytes.len() > 0 ==> path_parts(path).len() > 0,
        path.bytes.len() == 0 ==> path_parts(path).len() == 0,
        path_parts(path).len() > 0 ==> !(path_parts(path)[0] is Prefix) && path_parts(path)[0]
            != PathPart::Root,
{
    let bytes = path.bytes;
    let separators = body_separators(path);
    lemma_next_break(bytes, 0, separators);
    lemma_parts_from_proper(bytes, 0, true, false, separators);
    let end = next_break(bytes, 0, separators);
    let piece = bytes.subrange(0, end);
    let parts = parts_from(bytes, 0, true, false, separators);
    assert(path_parts(path) =~= parts);
    if bytes.len() > 0 {
        assert(end > 0);
        assert(piece.len() > 0);
        let first = piece_parts(piece, true, false);
        if end < bytes.len() {
            let rest = parts_from(bytes, end + 1, false, false, separators);
            assert(parts == first + rest);
            assert((first + rest)[0] == first[0]);
            if piece == seq![DOT] {
                assert((first + rest).drop_first() =~= rest);
                assert(seq![] + rest =~= rest);
            }
        } else {
            assert(parts == first);
            if piece == seq![DOT] {
                assert(first.drop_first() =~= seq![]);
            }
        }
    } else {
        assert(piece =~= seq![]);
    }
}

/// Joining puts the components of a path without prefix and root behind those of the directory.
proof fn lemma_join_relative(path: PathView, rest: Seq<u8>)
    requires
        !strict(path),
        leading(PathView { style: path.style, bytes: rest }),
        path_prefix(joined(path, rest)) == path_prefix(path),
        path.bytes.len() > 0,
    ensures
        path_parts(joined(path, rest)) == path_parts(path) + parts_from(
            rest,
            0,
            false,
            false,
            style_separators(path.style),
        ),
{
    let whole = joined(path, rest);
    let bytes = path.bytes;
    let size = prefix_size(path);
    let separators = style_separators(path.style);
    let tail = parts_from(rest, 0, false, false, separators);
    lemma_body_start(path);
    lemma_body_start(whole);
    if size < bytes.len() && body_start(path) < bytes.len() {
        let start = body_start(path);
        assert(whole.bytes[size] == bytes[size]);
        if wants_separator(path) {
            let byte = main_separator(path.style);
            lemma_parts_concat(bytes, byte, rest, start, leading(path), false, separators);
        } else {
            let shorter = bytes.drop_last();
            let byte = bytes.last();
            assert(bytes =~= shorter.push(byte));
            assert(whole.bytes =~= shorter.push(byte) + rest);
            lemma_parts_concat(shorter, byte, rest, start, leading(path), false, separators);
            let empty: Seq<u8> = seq![];
            assert(bytes =~= shorter.push(byte) + empty);
            lemma_parts_concat(shorter, byte, empty, start, leading(path), false, separators);
            lemma_no_parts(empty, false, false, separators);
        }
        assert(path_parts(whole) =~= path_parts(path) + tail);
    } else {
        lemma_no_parts(bytes, leading(path), false, separators);
        let start = whole.bytes.len() - rest.len();
        assert(whole.bytes.skip(start) =~= rest);
        lemma_parts_skip(whole.bytes, start, 0, false, false, separators);
        if size < bytes.len() {
            assert(whole.bytes[size] == bytes[size]);
        } else if wants_separator(path) {
            assert(rooted(whole));
        } else if rest.len() > 0 {
            assert(whole.bytes[size] == rest[0]);
        }
        assert(head_parts(whole) == head_parts(path));
        assert(body_start(whole) == start);
        assert(path_parts(whole) =~= path_parts(path) + tail);
    }
}

/// Joining paths joins their components. Unless the second path has a prefix, this leaves out
/// directories with a verbatim prefix, and those that are read with another prefix once something
/// was added.
pub proof fn joining_paths_joins_components(path: PathView, rest: PathView)
    requires
        path.style == rest.style,
        path_prefix(rest) is Some || !strict(path) && path_prefix(joined(path, rest.bytes))
            == path_prefix(path),
    ensures
        path_parts(joined(path, rest.bytes)) == join_parts(path_parts(path), path_parts(rest)),
{
    let whole = joined(path, rest.bytes);
    assert(rest =~= PathView { style: path.style, bytes: rest.bytes });
    lemma_body_start(path);
    lemma_body_start(rest);
    if path_prefix(rest) is Some {
        assert(whole =~= rest);
        assert(path_parts(rest)[0] is Prefix);
    } else if rooted(rest) {
        assert(path_parts(rest)[0] == PathPart::Root);
        let size = prefix_size(path);
        assert(whole.bytes =~= path.bytes.take(size) + rest.bytes);
        assert(whole.bytes[size] == rest.bytes[0]);
        assert(rooted(whole));
        let separators = style_separators(path.style);
        assert(whole.bytes.skip(size) =~= rest.bytes);
        lemma_parts_skip(whole.bytes, size, 1, false, false, separators);
        assert(body_parts(whole) == body_parts(rest));
        if path_prefix(path) is Some {
            assert(path_parts(path)[0] is Prefix);
            assert(path_parts(path).take(1) =~= seq![path_parts(path)[0]]);
            assert(path_parts(whole) =~= path_parts(path).take(1) + path_parts(rest));
        } else {
            components_are_proper(path);
            if path_parts(path).len() > 0 {
                assert(proper_part(path, 0));
                lemma_no_prefix_part(path);
            }
            assert(path_parts(whole) =~= path_parts(rest));
        }
    } else {
        lemma_not_leading(rest);
        if path.bytes.len() == 0 {
            assert(whole.bytes =~= rest.bytes);
            assert(whole =~= rest);
            lemma_not_leading(path);
        } else {
            if leading(path) {
                lemma_not_leading(path);
            }
            lemma_join_relative(path, rest.bytes);
        }
    }
}

/// Without a prefix no component is one.
proof fn lemma_no_prefix_part(path: PathView)
    requires
        path_prefix(path) is None,
        path_parts(path).len() > 0,
    ensures
        !(path_parts(path)[0] is Prefix),
{
    if leading(path) {
        lemma_not_leading(path);
    } else {
        assert(path_parts(path)[0] == PathPart::Root);
    }
}

/// Components as a path with a verbatim prefix and a root has them.
spec fn strict_parts(parts: Seq<PathPart>) -> bool {
    &&& parts.len() >= 2
    &&& parts[0] is Prefix
    &&& parts[1] == PathPart::Root
    &&& forall|i: int|
        2 <= i < parts.len() ==> body_part(#[trigger] parts[i], true, Separators::Backslash)
}

/// A component is written as itself.
proof fn lemma_part_bytes(part: PathPart)
    requires
        body_part(part, true, Separators::Backslash),
    ensures
        parts_from(part_bytes(part), 0, false, true, Separators::Backslash) == seq![part],
{
    let bytes = part_bytes(part);
    lemma_next_break_unique(bytes, 0, bytes.len() as int, Separators::Backslash);
    assert(bytes.subrange(0, bytes.len() as int) =~= bytes);
    assert(bytes.len() > 0);
    if let PathPart::Parent = part {
        assert(seq![DOT, DOT].len() != seq![DOT].len());
    }
}

/// Written components are read again.
proof fn lemma_written(prefix: Seq<u8>, parts: Seq<PathPart>)
    requires
        strict_parts(parts),
    ensures
        ({
            let bytes = written(prefix, parts);
            &&& bytes.len() > prefix.len()
            &&& bytes.take(prefix.len() as int) == prefix
            &&& bytes[prefix.len() as int] == BACKSLASH
            &&& parts_from(bytes, prefix.len() as int + 1, false, true, Separators::Backslash)
                == parts.skip(2)
        }),
    decreases parts.len(),
{
    let bytes = written(prefix, parts);
    let start = prefix.len() as int + 1;
    if parts.len() == 2 {
        reveal_with_fuel(written, 2);
        assert(bytes =~= prefix + seq![BACKSLASH]);
        assert(bytes.take(prefix.len() as int) =~= prefix);
        lemma_no_parts(bytes, false, true, Separators::Backslash);
        assert(parts.skip(2) =~= seq![]);
    } else {
        let front = parts.drop_last();
        let last = parts.last();
        let before = written(prefix, front);
        let added = part_bytes(last);
        assert(body_part(parts[parts.len() - 1], true, Separators::Backslash));
        lemma_written(prefix, front);
        lemma_part_bytes(last);
        if parts.len() == 3 {
            reveal_with_fuel(written, 3);
            assert(before =~= prefix + seq![BACKSLASH]);
            assert(bytes == before + added);
            assert(bytes.skip(start) =~= added);
            lemma_parts_skip(bytes, start, 0, false, true, Separators::Backslash);
            assert(parts.skip(2) =~= seq![last]);
        } else {
            assert(body_part(parts[parts.len() - 2], true, Separators::Backslash));
            assert(bytes == before.push(BACKSLASH) + added);
            lemma_parts_concat(
                before,
                BACKSLASH,
                added,
                start,
                false,
                true,
                Separators::Backslash,
            );
            assert(parts.skip(2) =~= front.skip(2) + seq![last]);
        }
        assert(bytes.take(prefix.len() as int) =~= before.take(prefix.len() as int));
    }
}

proof fn lemma_all_followed(parts: Seq<PathPart>, more: Seq<PathPart>)
    requires
        parts.len() > 0,
        parts[0] is Prefix,
        strict_parts(parts) || more.len() > 0 && more[0] == PathPart::Root,
        forall|i: int|
            0 <= i < more.len() ==> (#[trigger] more[i] == PathPart::Root || body_part(
                more[i],
                true,
                Separators::Backslash,
            )),
    ensures
        more.len() > 0 || strict_parts(parts) ==> strict_parts(all_followed(parts, more)),
        all_followed(parts, more).len() > 0,
        all_followed(parts, more)[0] == parts[0],
    decreases more.len(),
{
    if more.len() > 0 {
        let earlier = more.drop_last();
        if earlier.len() > 0 || strict_parts(parts) {
            lemma_all_followed(parts, earlier);
        } else {
            assert(all_followed(parts, earlier) == parts);
        }
        assert(more[more.len() - 1] == more.last());
    }
}

/// A path with a verbatim prefix has a root, or nothing but the prefix.
pub proof fn verbatim_prefixes_are_followed_by_a_root(path: PathView)
    requires
        strict(path),
    ensures
        rooted(path) || path_parts(path) == head_parts(path),
        rooted(path) || prefix_size(path) == path.bytes.len(),
{
    let bytes = path.bytes;
    lemma_body_start(path);
    if bytes.len() >= 8 {
        lemma_next_break(bytes, 8, Separators::Backslash);
        lemma_next_break(
            bytes,
            behind_piece(bytes, 8, Separators::Backslash),
            Separators::Backslash,
        );
    }
    lemma_next_break(bytes, 4, Separators::Backslash);
    lemma_no_parts(bytes, false, true, Separators::Backslash);
    if !rooted(path) {
        assert(path_parts(path) =~= head_parts(path));
    }
}

/// Behind a verbatim prefix and a root, joining follows the components of a path one by one. This
/// leaves out directories that are read with another prefix once something was added.
pub proof fn joining_behind_verbatim_prefixes_follows_components(path: PathView, rest: PathView)
    requires
        rest.style == PathStyle::Windows,
        path.style == PathStyle::Windows,
        strict(path),
        rest.bytes.len() > 0,
        path_prefix(rest) is None,
        rooted(path) || rooted(rest),
        path_prefix(joined(path, rest.bytes)) == path_prefix(path),
    ensures
        path_parts(joined(path, rest.bytes)) == all_followed(path_parts(path), path_parts(rest)),
{
    let whole = joined(path, rest.bytes);
    let parts = path_parts(path);
    let more = path_parts(rest);
    assert(rest =~= PathView { style: path.style, bytes: rest.bytes });
    lemma_body_start(path);
    verbatim_prefixes_are_followed_by_a_root(path);
    components_are_proper(path);
    components_are_proper(rest);
    if rooted(path) {
        assert(strict_parts(parts)) by {
            assert forall|i: int| 2 <= i < parts.len() implies body_part(
                #[trigger] parts[i],
                true,
                Separators::Backslash,
            ) by {
                assert(proper_part(path, i));
            }
        }
    }
    assert forall|i: int| 0 <= i < more.len() implies (#[trigger] more[i] == PathPart::Root
        || body_part(more[i], true, Separators::Backslash)) by {
        assert(proper_part(rest, i));
        lemma_no_prefix_part(rest);
    }
    if rooted(rest) {
        assert(more[0] == PathPart::Root);
    } else {
        lemma_not_leading(rest);
    }
    lemma_all_followed(parts, more);
    let result = all_followed(parts, more);
    let prefix = path.bytes.take(prefix_size(path));
    lemma_written(prefix, result);
    assert(rooted(whole));
    assert(path_parts(whole) =~= result);
}

/// Bytes that can be a name, and do not start with a drive, are a path with that name as its only
/// component.
pub proof fn names_are_paths(path: PathView)
    requires
        proper_name(path.bytes, style_separators(path.style)),
        path_prefix(path) is None,
    ensures
        path_parts(path) == seq![PathPart::Name(path.bytes)],
{
    let name = path.bytes;
    assert(!separates(style_separators(path.style), name[0]));
    lemma_next_break_unique(name, 0, name.len() as int, body_separators(path));
    assert(name.subrange(0, name.len() as int) =~= name);
    assert(path_parts(path) =~= seq![PathPart::Name(name)]);
}

proof fn lemma_next_break_take(bytes: Seq<u8>, length: int, from: int, separators: Separators)
    requires
        0 <= from <= length <= bytes.len(),
    ensures
        next_break(bytes.take(length), from, separators) == (if next_break(bytes, from, separators)
            < length {
            next_break(bytes, from, separators)
        } else {
            length
        }),
{
    let at = next_break(bytes, from, separators);
    lemma_next_break(bytes, from, separators);
    let found = if at < length {
        at
    } else {
        length
    };
    assert forall|i: int| from <= i < found implies !separates(
        separators,
        #[trigger] bytes.take(length)[i],
    ) by {
        assert(!separates(separators, bytes[i]));
    }
    lemma_next_break_unique(bytes.take(length), from, found, separators);
}

/// A start of `bytes` has the two pieces from `from` on where it reaches behind them, and where it
/// has two pieces `bytes` has two as well.
proof fn lemma_two_pieces(bytes: Seq<u8>, length: int, from: int, separators: Separators)
    requires
        0 <= from <= length <= bytes.len(),
    ensures
        ({
            let start = bytes.take(length);
            let first = piece_at(bytes, from, separators);
            let second = piece_at(bytes, behind_piece(bytes, from, separators), separators);
            let start_first = piece_at(start, from, separators);
            let start_second = piece_at(start, behind_piece(start, from, separators), separators);
            &&& from + first.len() + share_length(second) <= length ==> start_first == first
                && start_second == second
            &&& start_first.len() > 0 && start_second.len() > 0 ==> first.len() > 0 && second.len()
                > 0
        }),
{
    let start = bytes.take(length);
    let at = next_break(bytes, from, separators);
    lemma_next_break(bytes, from, separators);
    lemma_next_break_take(bytes, length, from, separators);
    lemma_next_break(bytes, behind_piece(bytes, from, separators), separators);
    assert(at <= length ==> piece_at(start, from, separators) =~= piece_at(
        bytes,
        from,
        separators,
    ));
    if at < length {
        lemma_next_break_take(bytes, length, at + 1, separators);
        let end = next_break(bytes, at + 1, separators);
        assert(end <= length ==> piece_at(start, at + 1, separators) =~= piece_at(
            bytes,
            at + 1,
            separators,
        ));
    } else {
        let behind = behind_piece(start, from, separators);
        assert(behind == length);
        assert(piece_at(start, behind, separators) =~= seq![]);
        let second = piece_at(bytes, behind_piece(bytes, from, separators), separators);
        assert(second.len() == 0 ==> second =~= seq![]);
    }
}

/// A start of a path that holds the whole prefix has the same prefix.
proof fn lemma_prefix_of_start(path: PathView, length: int)
    requires
        prefix_size(path) <= length <= path.bytes.len(),
    ensures
        path_prefix(start_of(path, length)) == path_prefix(path),
{
    if path.style == PathStyle::Windows {
        let bytes = path.bytes;
        let start = bytes.take(length);
        lemma_prefix_fits(bytes);
        if starts_verbatim(bytes) {
            assert(starts_verbatim(start));
            if length >= 8 {
                lemma_two_pieces(bytes, length, 8, Separators::Backslash);
            }
            lemma_next_break_take(bytes, length, 4, Separators::Backslash);
            lemma_next_break(bytes, 4, Separators::Backslash);
            assert(piece_at(start, 4, Separators::Backslash) =~= piece_at(
                bytes,
                4,
                Separators::Backslash,
            ) || length < 4 + piece_at(bytes, 4, Separators::Backslash).len());
            assert(windows_prefix(start) =~= windows_prefix(bytes));
        } else if starts_device(bytes) {
            assert(starts_device(start));
            lemma_next_break_take(bytes, length, 4, Separators::Both);
            lemma_next_break(bytes, 4, Separators::Both);
            assert(piece_at(start, 4, Separators::Both) =~= piece_at(bytes, 4, Separators::Both));
        } else if length >= 2 {
            lemma_two_pieces(bytes, length, 2, Separators::Both);
        }
    }
}

/// A start of a path that holds the prefix and the root has them too, and the components of the
/// bytes that follow.
proof fn lemma_parts_of_start(path: PathView, length: int)
    requires
        body_start(path) <= length <= path.bytes.len(),
    ensures
        path_prefix(start_of(path, length)) == path_prefix(path),
        rooted(start_of(path, length)) == rooted(path),
        path_parts(start_of(path, length)) == head_parts(path) + parts_from(
            path.bytes.take(length),
            body_start(path),
            leading(path),
            strict(path),
            body_separators(path),
        ),
{
    lemma_body_start(path);
    lemma_prefix_of_start(path, length);
    let start = start_of(path, length);
    assert(rooted(start) == rooted(path)) by {
        if prefix_size(path) < length {
            assert(start.bytes[prefix_size(path)] == path.bytes[prefix_size(path)]);
        }
    }
}

/// The last place from `from` on that parts components, or the place before `from` without any.
spec fn last_break(bytes: Seq<u8>, from: int, separators: Separators) -> int
    decreases bytes.len(),
{
    if bytes.len() == 0 || bytes.len() <= from {
        from - 1
    } else if separates(separators, bytes.last()) {
        bytes.len() - 1
    } else {
        last_break(bytes.drop_last(), from, separators)
    }
}

proof fn lemma_last_break(bytes: Seq<u8>, from: int, separators: Separators)
    requires
        0 <= from <= bytes.len(),
    ensures
        from - 1 <= last_break(bytes, from, separators) < bytes.len(),
        last_break(bytes, from, separators) >= from ==> separates(
            separators,
            bytes[last_break(bytes, from, separators)],
        ),
        forall|i: int|
            last_break(bytes, from, separators) < i < bytes.len() ==> !separates(
                separators,
                #[trigger] bytes[i],
            ),
    decreases bytes.len(),
{
    if bytes.len() > from && !separates(separators, bytes.last()) {
        lemma_last_break(bytes.drop_last(), from, separators);
        assert forall|i: int| last_break(bytes, from, separators) < i < bytes.len() implies
            !separates(separators, #[trigger] bytes[i]) by {
            if i < bytes.len() - 1 {
                assert(!separates(separators, bytes.drop_last()[i]));
            }
        }
    }
}

/// A piece names at most one component.
proof fn lemma_last_piece(
    bytes: Seq<u8>,
    from: int,
    leading: bool,
    strict: bool,
    separators: Separators,
)
    requires
        0 <= from <= bytes.len(),
        forall|i: int| from <= i < bytes.len() ==> !separates(separators, #[trigger] bytes[i]),
    ensures
        parts_from(bytes, from, leading, strict, separators).len() <= 1,
        from == bytes.len() ==> parts_from(bytes, from, leading, strict, separators).len() == 0,
{
    lemma_next_break_unique(bytes, from, bytes.len() as int, separators);
}

/// The length of a start of the bytes that has all components behind `from` but the last.
proof fn lemma_parent_exists(
    bytes: Seq<u8>,
    length: int,
    from: int,
    leading: bool,
    strict: bool,
    separators: Separators,
) -> (k: int)
    requires
        0 <= from <= length <= bytes.len(),
        parts_from(bytes.take(length), from, leading, strict, separators).len() > 0,
    ensures
        from <= k < length,
        parts_from(bytes.take(k), from, leading, strict, separators) == parts_from(
            bytes.take(length),
            from,
            leading,
            strict,
            separators,
        ).drop_last(),
    decreases length,
{
    let start = bytes.take(length);
    let parts = parts_from(start, from, leading, strict, separators);
    let cut = last_break(start, from, separators);
    lemma_last_break(start, from, separators);
    if cut < from {
        lemma_last_piece(start, from, leading, strict, separators);
        lemma_no_parts(bytes.take(from), leading, strict, separators);
        assert(parts.drop_last() =~= Seq::<PathPart>::empty());
        from
    } else {
        let front = bytes.take(cut);
        let back = start.skip(cut + 1);
        assert(start =~= front.push(start[cut]) + back);
        lemma_last_piece(start, cut + 1, false, strict, separators);
        lemma_parts_skip(start, cut + 1, 0, false, strict, separators);
        lemma_parts_concat(front, start[cut], back, from, leading, strict, separators);
        let last = parts_from(back, 0, false, strict, separators);
        let front_parts = parts_from(front, from, leading, strict, separators);
        assert(parts == front_parts + last);
        if last.len() > 0 {
            assert(parts.drop_last() =~= front_parts);
            cut
        } else {
            assert(parts =~= front_parts);
            lemma_parent_exists(bytes, cut, from, leading, strict, separators)
        }
    }
}

proof fn lemma_start_length(path: PathView, parts: Seq<PathPart>, from: int, witness: int)
    requires
        0 <= from <= witness <= path.bytes.len(),
        path_parts(start_of(path, witness)) == parts,
    ensures
        from <= start_length(path, parts, from) <= witness,
        path_parts(start_of(path, start_length(path, parts, from))) == parts,
    decreases path.bytes.len() - from,
{
    if from < witness && path_parts(start_of(path, from)) != parts {
        lemma_start_length(path, parts, from + 1, witness);
    }
}

/// The parent of a path has all its components but the last, and its prefix and root.
pub proof fn parent_has_the_other_components(path: PathView)
    requires
        parent_path(path) is Some,
    ensures
        path_parts(parent_path(path)->0) == path_parts(path).drop_last(),
        path_prefix(parent_path(path)->0) == path_prefix(path),
        rooted(parent_path(path)->0) == rooted(path),
{
    let bytes = path.bytes;
    let length = bytes.len() as int;
    let from = body_start(path);
    let separators = body_separators(path);
    lemma_body_start(path);
    assert(bytes.take(length) =~= bytes);
    if body_parts(path).len() == 0 {
        assert(path_parts(path) =~= head_parts(path));
        assert(false);
    }
    let k = lemma_parent_exists(bytes, length, from, leading(path), strict(path), separators);
    let witness = if k < kept_length(path) {
        lemma_no_parts(bytes.take(from), false, false, separators);
        let start = bytes.take(from + 1);
        lemma_next_break_take(bytes, from + 1, from, separators);
        assert(start.subrange(from, from + 1) =~= seq![DOT]);
        kept_length(path)
    } else {
        k
    };
    lemma_parts_of_start(path, witness);
    assert(path_parts(start_of(path, witness)) =~= path_parts(path).drop_last());
    lemma_start_length(path, path_parts(path).drop_last(), kept_length(path), witness);
    lemma_parts_of_start(
        path,
        start_length(path, path_parts(path).drop_last(), kept_length(path)),
    );
}

} // verus!
