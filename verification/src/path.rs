//! File paths as a host writes them, byte by byte, read as lists of components. The bytes are those
//! that the host encodes a path in; what text is in them is in UTF-8.
use crate::order::{lemma_order_laws, sequence_less, Rank, Ranked};
use crate::prefix::{
    bytes_between, find_break, find_windows_prefix, is_separator, next_break, prefix_length,
    separates, verbatim, windows_prefix, PathPrefix, PathStyle, PrefixKind, PrefixPart, Separators,
    BACKSLASH, DOT, SLASH,
};
use vstd::prelude::*;
use vstd::utf8::encode_utf8;

verus! {

/// One component of a path.
#[derive(Debug)]
pub enum PathComponent {
    Prefix(PathPrefix),
    Root,
    Current,
    Parent,
    Name(Vec<u8>),
}

/// The mathematical value of a [`PathComponent`].
pub enum PathPart {
    Prefix(PrefixPart),
    Root,
    Current,
    Parent,
    Name(Seq<u8>),
}

impl DeepView for PathComponent {
    type V = PathPart;

    open spec fn deep_view(&self) -> PathPart {
        match self {
            PathComponent::Prefix(prefix) => PathPart::Prefix(prefix.deep_view()),
            PathComponent::Root => PathPart::Root,
            PathComponent::Current => PathPart::Current,
            PathComponent::Parent => PathPart::Parent,
            PathComponent::Name(name) => PathPart::Name(name@),
        }
    }
}

/// The place of a kind of prefixes among the kinds of components.
pub open spec fn prefix_place(kind: PrefixKind) -> usize {
    match kind {
        PrefixKind::Verbatim => 0,
        PrefixKind::VerbatimUnc => 1,
        PrefixKind::VerbatimDisk => 2,
        PrefixKind::Device => 3,
        PrefixKind::Unc => 4,
        PrefixKind::Disk => 5,
    }
}

/// What decides the order of components: their kind, and then the bytes in them.
pub open spec fn part_position(part: PathPart) -> (usize, (Seq<u8>, Seq<u8>)) {
    match part {
        PathPart::Prefix(prefix) => (prefix_place(prefix.kind), (prefix.first, prefix.second)),
        PathPart::Root => (6, (seq![], seq![])),
        PathPart::Current => (7, (seq![], seq![])),
        PathPart::Parent => (8, (seq![], seq![])),
        PathPart::Name(name) => (9, (name, seq![])),
    }
}

impl PathComponent {
    fn position(&self) -> (position: (usize, (Vec<u8>, Vec<u8>)))
        ensures
            position.deep_view() == part_position(self.deep_view()),
    {
        let none: Vec<u8> = Vec::new();
        let (place, first, second): (usize, Vec<u8>, Vec<u8>) = match self {
            PathComponent::Prefix(prefix) => {
                let place: usize = match prefix.kind {
                    PrefixKind::Verbatim => 0,
                    PrefixKind::VerbatimUnc => 1,
                    PrefixKind::VerbatimDisk => 2,
                    PrefixKind::Device => 3,
                    PrefixKind::Unc => 4,
                    PrefixKind::Disk => 5,
                };
                (place, copy_bytes(&prefix.first), copy_bytes(&prefix.second))
            },
            PathComponent::Root => (6, Vec::new(), none),
            PathComponent::Current => (7, Vec::new(), none),
            PathComponent::Parent => (8, Vec::new(), none),
            PathComponent::Name(name) => (9, copy_bytes(name), none),
        };
        assert(first.deep_view() =~= first@);
        assert(second.deep_view() =~= second@);
        assert(part_position(self.deep_view()).1.0 =~= first@);
        assert(part_position(self.deep_view()).1.1 =~= second@);
        (place, (first, second))
    }
}

impl Ranked for PathComponent {
    open spec fn precedes(a: PathPart, b: PathPart) -> bool {
        <(usize, (Vec<u8>, Vec<u8>)) as Ranked>::precedes(part_position(a), part_position(b))
    }

    proof fn order_laws() {
        lemma_order_laws::<(usize, (Vec<u8>, Vec<u8>))>();
        let less = |a: PathPart, b: PathPart| Self::precedes(a, b);
        assert forall|a: PathPart, b: PathPart| #[trigger] less(a, b) || a == b || less(b, a) by {
            if part_position(a) == part_position(b) {
                if let (PathPart::Prefix(x), PathPart::Prefix(y)) = (a, b) {
                    assert(x =~= y);
                }
                assert(a == b);
            }
        }
    }

    fn rank(&self, other: &PathComponent) -> (rank: Rank) {
        proof {
            Self::order_laws();
            lemma_order_laws::<(usize, (Vec<u8>, Vec<u8>))>();
            let (a, b) = (self.deep_view(), other.deep_view());
            if part_position(a) == part_position(b) {
                if let (PathPart::Prefix(x), PathPart::Prefix(y)) = (a, b) {
                    assert(x =~= y);
                }
                assert(a == b);
            }
        }
        self.position().rank(&other.position())
    }
}

/// A copy of the bytes.
pub fn copy_bytes(bytes: &Vec<u8>) -> (copy: Vec<u8>)
    ensures
        copy@ == bytes@,
{
    let copy = bytes_between(bytes, 0, bytes.len());
    assert(bytes@.subrange(0, bytes@.len() as int) =~= bytes@);
    copy
}

fn append_bytes(list: &mut Vec<u8>, bytes: &Vec<u8>, from: usize, to: usize)
    requires
        from <= to <= bytes.len(),
    ensures
        final(list)@ == old(list)@ + bytes@.subrange(from as int, to as int),
{
    let ghost before = list@;
    let mut i: usize = from;
    assert(list@ =~= before + bytes@.subrange(from as int, from as int));
    while i < to
        invariant
            from <= i <= to <= bytes.len(),
            list@ == before + bytes@.subrange(from as int, i as int),
        decreases to - i,
    {
        list.push(bytes[i]);
        assert(list@ =~= before + bytes@.subrange(from as int, i + 1));
        i = i + 1;
    }
}

/// Whether two lists hold the same bytes.
pub fn same_bytes(left: &Vec<u8>, right: &Vec<u8>) -> (same: bool)
    ensures
        same == (left@ == right@),
{
    assert(left.deep_view() =~= left@);
    assert(right.deep_view() =~= right@);
    match left.rank(right) {
        Rank::Same => true,
        _ => false,
    }
}

/// The bytes of a text.
pub fn bytes_of(text: &str) -> (bytes: Vec<u8>)
    ensures
        bytes@ == encode_utf8(text@),
{
    let slice = text.as_bytes();
    let mut bytes: Vec<u8> = Vec::new();
    let mut i: usize = 0;
    while i < slice.len()
        invariant
            i <= slice@.len(),
            bytes@ == slice@.take(i as int),
        decreases slice@.len() - i,
    {
        bytes.push(slice[i]);
        assert(slice@.take(i + 1) =~= slice@.take(i as int).push(slice@[i as int]));
        i = i + 1;
    }
    assert(slice@.take(i as int) =~= slice@);
    bytes
}

/// A path as it was written: the bytes, and the style they are to be read in.
#[verifier::ext_equal]
pub struct PathView {
    pub style: PathStyle,
    pub bytes: Seq<u8>,
}

/// What stands between two separators.
pub open spec fn piece_parts(piece: Seq<u8>, leading: bool, strict: bool) -> Seq<PathPart> {
    if piece.len() == 0 {
        seq![]
    } else if piece == seq![DOT] {
        if leading || strict {
            seq![PathPart::Current]
        } else {
            seq![]
        }
    } else if piece == seq![DOT, DOT] {
        seq![PathPart::Parent]
    } else {
        seq![PathPart::Name(piece)]
    }
}

/// The components that `bytes` name from place `from` on: nothing where a piece is empty, and
/// nothing where it is a `.`, unless that leads the path or the path is read strictly.
pub open spec fn parts_from(
    bytes: Seq<u8>,
    from: int,
    leading: bool,
    strict: bool,
    separators: Separators,
) -> Seq<PathPart>
    decreases bytes.len() - from,
{
    let end = next_break(bytes, from, separators);
    if 0 <= from && from <= end && end < bytes.len() {
        piece_parts(bytes.subrange(from, end), leading, strict) + parts_from(
            bytes,
            end + 1,
            false,
            strict,
            separators,
        )
    } else {
        piece_parts(bytes.subrange(from, bytes.len() as int), leading, strict)
    }
}

/// The bytes that part components in a style.
pub open spec fn style_separators(style: PathStyle) -> Separators {
    match style {
        PathStyle::Unix => Separators::Slash,
        PathStyle::Windows => Separators::Both,
    }
}

/// The prefix of a path, which it can have in the style of Windows alone.
pub open spec fn path_prefix(path: PathView) -> Option<PrefixPart> {
    match path.style {
        PathStyle::Unix => None,
        PathStyle::Windows => windows_prefix(path.bytes),
    }
}

/// How many bytes the prefix of a path takes.
pub open spec fn prefix_size(path: PathView) -> int {
    match path_prefix(path) {
        Some(prefix) => prefix_length(prefix),
        None => 0,
    }
}

/// The path is read strictly: its prefix is a verbatim one.
pub open spec fn strict(path: PathView) -> bool {
    match path_prefix(path) {
        Some(prefix) => verbatim(prefix.kind),
        None => false,
    }
}

/// The path has a separator at its start or directly behind its prefix.
pub open spec fn rooted(path: PathView) -> bool {
    prefix_size(path) < path.bytes.len() && separates(
        style_separators(path.style),
        path.bytes[prefix_size(path)],
    )
}

/// The components before the names: the prefix, and the root, which some prefixes stand for.
pub open spec fn head_parts(path: PathView) -> Seq<PathPart> {
    match path_prefix(path) {
        Some(prefix) => if rooted(path) || !verbatim(prefix.kind) && prefix.kind
            != PrefixKind::Disk {
            seq![PathPart::Prefix(prefix), PathPart::Root]
        } else {
            seq![PathPart::Prefix(prefix)]
        },
        None => if rooted(path) {
            seq![PathPart::Root]
        } else {
            seq![]
        },
    }
}

/// Where the components behind the prefix and the root start.
pub open spec fn body_start(path: PathView) -> int {
    if rooted(path) {
        prefix_size(path) + 1
    } else {
        prefix_size(path)
    }
}

/// A `.` at the start is a component.
pub open spec fn leading(path: PathView) -> bool {
    path_prefix(path) is None && !rooted(path)
}

/// The bytes that part the components of a path behind its prefix.
pub open spec fn body_separators(path: PathView) -> Separators {
    if strict(path) {
        Separators::Backslash
    } else {
        style_separators(path.style)
    }
}

/// The components behind the prefix and the root.
pub open spec fn body_parts(path: PathView) -> Seq<PathPart> {
    parts_from(path.bytes, body_start(path), leading(path), strict(path), body_separators(path))
}

/// The components of a path.
pub open spec fn path_parts(path: PathView) -> Seq<PathPart> {
    head_parts(path) + body_parts(path)
}

/// The byte that is written between components.
pub open spec fn main_separator(style: PathStyle) -> u8 {
    match style {
        PathStyle::Unix => SLASH,
        PathStyle::Windows => BACKSLASH,
    }
}

/// A separator is needed before what is added to the path: it ends in none, and is not empty or
/// a drive alone.
pub open spec fn wants_separator(path: PathView) -> bool {
    &&& path.bytes.len() > 0
    &&& !separates(style_separators(path.style), path.bytes.last())
    &&& !(prefix_size(path) == path.bytes.len() && path_prefix(path) is Some && (path_prefix(
        path,
    )->0).kind == PrefixKind::Disk)
}

/// The components `parts` once `part` was followed: the root leaves the prefix alone, and a
/// parent takes back a name.
pub open spec fn followed(parts: Seq<PathPart>, part: PathPart) -> Seq<PathPart> {
    match part {
        PathPart::Root => parts.take(1).push(PathPart::Root),
        PathPart::Current => parts,
        PathPart::Parent => if parts.last() is Name {
            parts.drop_last()
        } else {
            parts
        },
        _ => parts.push(part),
    }
}

/// The components `parts` once each of `more` was followed.
pub open spec fn all_followed(parts: Seq<PathPart>, more: Seq<PathPart>) -> Seq<PathPart>
    decreases more.len(),
{
    if more.len() == 0 {
        parts
    } else {
        followed(all_followed(parts, more.drop_last()), more.last())
    }
}

/// The bytes of a component that is no prefix.
pub open spec fn part_bytes(part: PathPart) -> Seq<u8> {
    match part {
        PathPart::Prefix(_) => seq![],
        PathPart::Root => seq![BACKSLASH],
        PathPart::Current => seq![DOT],
        PathPart::Parent => seq![DOT, DOT],
        PathPart::Name(name) => name,
    }
}

/// The bytes of the path with the components `parts`, the first of which is a prefix written as
/// `prefix`.
pub open spec fn written(prefix: Seq<u8>, parts: Seq<PathPart>) -> Seq<u8>
    decreases parts.len(),
{
    if parts.len() <= 1 {
        prefix
    } else if parts.last() == PathPart::Root || parts[parts.len() - 2] == PathPart::Root {
        written(prefix, parts.drop_last()) + part_bytes(parts.last())
    } else {
        written(prefix, parts.drop_last()).push(BACKSLASH) + part_bytes(parts.last())
    }
}

/// The bytes of the path `rest`, taken from the directory `path`.
pub open spec fn joined_bytes(path: PathView, rest: Seq<u8>) -> Seq<u8> {
    let other = PathView { style: path.style, bytes: rest };
    if path_prefix(other) is Some || path.style == PathStyle::Unix && rooted(other) {
        rest
    } else if strict(path) && rest.len() > 0 {
        written(
            path.bytes.take(prefix_size(path)),
            all_followed(path_parts(path), path_parts(other)),
        )
    } else if rooted(other) {
        path.bytes.take(prefix_size(path)) + rest
    } else if wants_separator(path) {
        path.bytes.push(main_separator(path.style)) + rest
    } else {
        path.bytes + rest
    }
}

/// The path `rest`, taken from the directory `path`. A path with a prefix, or in the style of Unix
/// one from the root, replaces the directory. In the style of Windows a path from the root keeps
/// the prefix, and behind a verbatim prefix each `.` and `..` of `rest` is followed.
pub open spec fn joined(path: PathView, rest: Seq<u8>) -> PathView {
    PathView { style: path.style, bytes: joined_bytes(path, rest) }
}

/// The length of what stays of a path in any parent: its prefix and its root, or in place of the
/// root a `.` directly behind a drive.
pub open spec fn kept_length(path: PathView) -> int {
    let start = body_start(path);
    if path_prefix(path) is Some && (path_prefix(path)->0).kind == PrefixKind::Disk && !rooted(path)
        && next_break(path.bytes, start, body_separators(path)) == start + 1 && path.bytes[start]
        == DOT {
        start + 1
    } else {
        start
    }
}

/// The length of the shortest start of a path, of at least `from` bytes, that has the components
/// `parts`, or the length of the path if none has.
pub open spec fn start_length(path: PathView, parts: Seq<PathPart>, from: int) -> int
    decreases path.bytes.len() - from,
{
    if from >= path.bytes.len() || path_parts(start_of(path, from)) == parts {
        from
    } else {
        start_length(path, parts, from + 1)
    }
}

/// The first `length` bytes of a path.
pub open spec fn start_of(path: PathView, length: int) -> PathView {
    PathView { style: path.style, bytes: path.bytes.take(length) }
}

/// The parent: the shortest start of the path, with all that stays, that has all components but the
/// last. A path without components has no parent, and neither has one that ends in a root
/// or a prefix.
pub open spec fn parent_path(path: PathView) -> Option<PathView> {
    let parts = path_parts(path);
    if parts.len() == 0 || parts.last() == PathPart::Root || parts.last() is Prefix {
        None
    } else {
        Some(start_of(path, start_length(path, parts.drop_last(), kept_length(path))))
    }
}

/// A file path. Two paths are the same where their components are.
#[derive(Debug)]
pub struct FilePath {
    style: PathStyle,
    bytes: Vec<u8>,
}

impl View for FilePath {
    type V = PathView;

    closed spec fn view(&self) -> PathView {
        PathView { style: self.style, bytes: self.bytes@ }
    }
}

impl DeepView for FilePath {
    type V = Seq<PathPart>;

    open spec fn deep_view(&self) -> Seq<PathPart> {
        path_parts(self@)
    }
}

impl Ranked for FilePath {
    open spec fn precedes(a: Seq<PathPart>, b: Seq<PathPart>) -> bool {
        sequence_less::<PathComponent>(a, b)
    }

    proof fn order_laws() {
        <Vec<PathComponent> as Ranked>::order_laws();
        assert((|a: Seq<PathPart>, b: Seq<PathPart>| Self::precedes(a, b)) =~= (|
            a: Seq<PathPart>,
            b: Seq<PathPart>,
        | <Vec<PathComponent> as Ranked>::precedes(a, b)));
    }

    fn rank(&self, other: &FilePath) -> (rank: Rank) {
        self.components().rank(&other.components())
    }
}

/// What the prefix of a path and its root amount to.
struct Head {
    prefix: Option<PathPrefix>,
    size: usize,
    strict: bool,
    rooted: bool,
}

fn separators_of(style: PathStyle) -> (separators: Separators)
    ensures
        separators == style_separators(style),
{
    match style {
        PathStyle::Unix => Separators::Slash,
        PathStyle::Windows => Separators::Both,
    }
}

impl FilePath {
    /// The path that `bytes` write in the given style.
    pub fn new(style: PathStyle, bytes: Vec<u8>) -> (path: FilePath)
        ensures
            path@ == (PathView { style, bytes: bytes@ }),
    {
        FilePath { style, bytes }
    }

    /// The path that `text` writes in the given style.
    pub fn of_text(style: PathStyle, text: &str) -> (path: FilePath)
        ensures
            path@ == (PathView { style, bytes: encode_utf8(text@) }),
    {
        FilePath { style, bytes: bytes_of(text) }
    }

    /// The style that the path is read in.
    pub fn style(&self) -> (style: PathStyle)
        ensures
            style == self@.style,
    {
        self.style
    }

    /// The path as it was written.
    pub fn bytes(&self) -> (bytes: &Vec<u8>)
        ensures
            bytes@ == self@.bytes,
    {
        &self.bytes
    }

    /// The same path once more.
    pub fn copy(&self) -> (copy: FilePath)
        ensures
            copy@ == self@,
    {
        FilePath { style: self.style, bytes: copy_bytes(&self.bytes) }
    }

    fn head(&self) -> (head: Head)
        ensures
            head.prefix.deep_view() == path_prefix(self@),
            head.size == prefix_size(self@),
            head.size <= self@.bytes.len(),
            head.strict == strict(self@),
            head.rooted == rooted(self@),
            head.rooted ==> head.size < self@.bytes.len(),
    {
        let prefix = match self.style {
            PathStyle::Unix => None,
            PathStyle::Windows => find_windows_prefix(&self.bytes),
        };
        let (size, strict): (usize, bool) = match &prefix {
            Some(prefix) => (prefix.length(&self.bytes), prefix.is_verbatim()),
            None => (0, false),
        };
        let rooted = size < self.bytes.len() && is_separator(
            separators_of(self.style),
            self.bytes[size],
        );
        Head { prefix, size, strict, rooted }
    }

    /// The components of the path.
    pub fn components(&self) -> (components: Vec<PathComponent>)
        ensures
            components.deep_view() == self.deep_view(),
    {
        let ghost path = self@;
        let head = self.head();
        let separators = if head.strict {
            Separators::Backslash
        } else {
            separators_of(self.style)
        };
        let strict = head.strict;
        assert(path.bytes.len() == self.bytes.len());
        let mut from: usize = if head.rooted {
            head.size + 1
        } else {
            head.size
        };
        let mut leading: bool = head.prefix.is_none() && !head.rooted;
        let mut components: Vec<PathComponent> = Vec::new();
        match head.prefix {
            Some(prefix) => {
                let whole = head.rooted || !prefix.is_verbatim() && prefix.kind
                    != PrefixKind::Disk;
                components.push(PathComponent::Prefix(prefix));
                if whole {
                    components.push(PathComponent::Root);
                }
            },
            None => {
                if head.rooted {
                    components.push(PathComponent::Root);
                }
            },
        }
        assert(components.deep_view() =~= head_parts(path));
        let ghost bytes = path.bytes;
        assert(components.deep_view() + parts_from(bytes, from as int, leading, strict, separators)
            =~= path_parts(path));
        loop
            invariant_except_break
                components.deep_view() + parts_from(
                    bytes,
                    from as int,
                    leading,
                    strict,
                    separators,
                ) == path_parts(path),
            invariant
                bytes == self.bytes@,
                from <= self.bytes.len(),
            ensures
                components.deep_view() == path_parts(path),
            decreases self.bytes.len() - from,
        {
            let end = find_break(&self.bytes, from, separators);
            let ghost held = components.deep_view();
            push_piece(&mut components, bytes_between(&self.bytes, from, end), leading, strict);
            if end == self.bytes.len() {
                assert(components.deep_view() =~= held + parts_from(
                    bytes,
                    from as int,
                    leading,
                    strict,
                    separators,
                ));
                break;
            }
            assert(components.deep_view() + parts_from(bytes, end + 1, false, strict, separators)
                =~= held + parts_from(bytes, from as int, leading, strict, separators));
            from = end + 1;
            leading = false;
        }
        components
    }

    /// The path `rest`, taken from the directory that this path names.
    pub fn join(&self, rest: &Vec<u8>) -> (path: FilePath)
        ensures
            path@ == joined(self@, rest@),
    {
        let other = FilePath { style: self.style, bytes: copy_bytes(rest) };
        let head = self.head();
        let other_head = other.head();
        let unix = match self.style {
            PathStyle::Unix => true,
            PathStyle::Windows => false,
        };
        if other_head.prefix.is_some() || unix && other_head.rooted {
            return other;
        }
        if head.strict && rest.len() > 0 {
            return self.join_strictly(&other);
        }
        let mut bytes: Vec<u8> = Vec::new();
        assert(bytes@ =~= seq![]);
        if other_head.rooted {
            append_bytes(&mut bytes, &self.bytes, 0, head.size);
            assert(bytes@ =~= self@.bytes.take(prefix_size(self@)));
        } else {
            append_bytes(&mut bytes, &self.bytes, 0, self.bytes.len());
            assert(bytes@ =~= self@.bytes);
            let drive = match &head.prefix {
                Some(prefix) => prefix.kind == PrefixKind::Disk,
                None => false,
            };
            let alone = drive && head.size == self.bytes.len();
            if self.bytes.len() > 0 && !is_separator(
                separators_of(self.style),
                self.bytes[self.bytes.len() - 1],
            ) && !alone {
                if unix {
                    bytes.push(SLASH);
                } else {
                    bytes.push(BACKSLASH);
                }
            }
        }
        append_bytes(&mut bytes, rest, 0, rest.len());
        assert(rest@.subrange(0, rest@.len() as int) =~= rest@);
        let path = FilePath { style: self.style, bytes };
        assert(path@ =~= joined(self@, rest@));
        path
    }

    /// Joins behind a verbatim prefix.
    fn join_strictly(&self, other: &FilePath) -> (path: FilePath)
        requires
            strict(self@),
        ensures
            path@.style == self@.style,
            path@.bytes == written(
                self@.bytes.take(prefix_size(self@)),
                all_followed(path_parts(self@), path_parts(other@)),
            ),
    {
        let head = self.head();
        let mut parts = self.components();
        let more = other.components();
        let ghost start = path_parts(self@);
        let ghost steps = path_parts(other@);
        assert(parts.len() == start.len());
        assert(start[0] is Prefix);
        let mut i: usize = 0;
        assert(steps.take(0) =~= seq![]);
        while i < more.len()
            invariant
                steps == more.deep_view(),
                i <= more.len(),
                parts.deep_view() == all_followed(start, steps.take(i as int)),
                parts.len() > 0,
                parts.deep_view()[0] is Prefix,
            decreases more.len() - i,
        {
            proof {
                assert(steps.take(i + 1).drop_last() =~= steps.take(i as int));
                assert(steps.take(i + 1).last() == more[i as int].deep_view());
            }
            follow(&mut parts, &more[i]);
            i = i + 1;
        }
        assert(steps.take(i as int) =~= steps);
        let prefix = bytes_between(&self.bytes, 0, head.size);
        assert(prefix@ =~= self@.bytes.take(prefix_size(self@)));
        FilePath { style: self.style, bytes: write_parts(prefix, &parts) }
    }

    /// The path without its last component. A path without components has no parent, and neither
    /// has one that ends in a root or a prefix.
    pub fn parent(&self) -> (parent: Option<FilePath>)
        ensures
            parent is Some <==> parent_path(self@) is Some,
            parent matches Some(path) ==> Some(path@) == parent_path(self@),
    {
        let mut components = self.components();
        let ghost parts = self.deep_view();
        assert(parts.len() == components.len());
        match components.pop() {
            None => None,
            Some(PathComponent::Root) => {
                assert(parts.last() == PathPart::Root);
                None
            },
            Some(PathComponent::Prefix(prefix)) => {
                assert(parts.last() == PathPart::Prefix(prefix.deep_view()));
                None
            },
            Some(last) => {
                assert(parts.last() == last.deep_view());
                assert(components.deep_view() =~= parts.drop_last());
                Some(self.shortest_start(&components))
            },
        }
    }

    /// The shortest start of the path, with all that stays, that has the given components.
    fn shortest_start(&self, components: &Vec<PathComponent>) -> (start: FilePath)
        ensures
            start@ == start_of(
                self@,
                start_length(self@, components.deep_view(), kept_length(self@)),
            ),
    {
        let ghost parts = components.deep_view();
        let head = self.head();
        assert(self@.bytes.len() == self.bytes.len());
        let drive = match &head.prefix {
            Some(prefix) => prefix.kind == PrefixKind::Disk,
            None => false,
        };
        let mut length: usize = head.size;
        if head.rooted {
            length = length + 1;
        } else if drive && length < self.bytes.len() && self.bytes[length] == DOT {
            let end = find_break(&self.bytes, length, separators_of(self.style));
            if end == length + 1 {
                length = end;
            }
        }
        assert(length == kept_length(self@));
        while length < self.bytes.len()
            invariant
                parts == components.deep_view(),
                length <= self.bytes.len(),
                start_length(self@, parts, kept_length(self@)) == start_length(
                    self@,
                    parts,
                    length as int,
                ),
            decreases self.bytes.len() - length,
        {
            let start = FilePath {
                style: self.style,
                bytes: bytes_between(&self.bytes, 0, length),
            };
            assert(start@ =~= start_of(self@, length as int));
            match start.components().rank(components) {
                Rank::Same => {
                    return start;
                },
                _ => {},
            }
            length = length + 1;
        }
        let whole = self.copy();
        assert(whole@ =~= start_of(self@, length as int));
        whole
    }

    /// The last component, where it is a name.
    pub fn file_name(&self) -> (name: Option<Vec<u8>>)
        ensures
            name is Some <==> name_part(self.deep_view()) is Some,
            name matches Some(bytes) ==> name_part(self.deep_view()) == Some(bytes@),
    {
        let mut components = self.components();
        let ghost parts = self.deep_view();
        assert(parts.len() == components.len());
        match components.pop() {
            Some(PathComponent::Name(name)) => {
                assert(parts.last() == PathPart::Name(name@));
                Some(name)
            },
            Some(other) => {
                assert(parts.last() == other.deep_view());
                None
            },
            None => None,
        }
    }

    /// The file name without its extension: without its last dot and what follows, unless that
    /// dot is the first byte.
    pub fn file_stem(&self) -> (stem: Option<Vec<u8>>)
        ensures
            stem is Some <==> name_part(self.deep_view()) is Some,
            stem matches Some(bytes) ==> bytes@ == name_stem(name_part(self.deep_view())->0),
    {
        match self.file_name() {
            None => None,
            Some(name) => {
                let mut end: usize = name.len();
                assert(name@.take(end as int) =~= name@);
                while end > 0 && name[end - 1] != DOT
                    invariant
                        end <= name.len(),
                        last_dot(name@) == last_dot(name@.take(end as int)),
                    decreases end,
                {
                    assert(name@.take(end as int).drop_last() =~= name@.take(end - 1));
                    end = end - 1;
                }
                if end <= 1 {
                    Some(name)
                } else {
                    let stem = bytes_between(&name, 0, end - 1);
                    assert(stem@ =~= name@.take(end - 1));
                    Some(stem)
                }
            },
        }
    }
}

/// The last component, where it is a name.
pub open spec fn name_part(parts: Seq<PathPart>) -> Option<Seq<u8>> {
    if parts.len() == 0 {
        None
    } else {
        match parts.last() {
            PathPart::Name(name) => Some(name),
            _ => None,
        }
    }
}

/// The place of the last dot, or -1 without any.
pub open spec fn last_dot(name: Seq<u8>) -> int
    decreases name.len(),
{
    if name.len() == 0 {
        -1
    } else if name.last() == DOT {
        name.len() - 1
    } else {
        last_dot(name.drop_last())
    }
}

/// A file name without its extension.
pub open spec fn name_stem(name: Seq<u8>) -> Seq<u8> {
    if last_dot(name) <= 0 {
        name
    } else {
        name.take(last_dot(name))
    }
}

impl PartialEq for FilePath {
    fn eq(&self, other: &FilePath) -> (same: bool) {
        match self.rank(other) {
            Rank::Same => true,
            _ => false,
        }
    }
}

impl vstd::std_specs::cmp::PartialEqSpecImpl for FilePath {
    open spec fn obeys_eq_spec() -> bool {
        true
    }

    open spec fn eq_spec(&self, other: &FilePath) -> bool {
        self.deep_view() == other.deep_view()
    }
}

impl Eq for FilePath {

}

/// Appends what `piece` stands for.
fn push_piece(components: &mut Vec<PathComponent>, piece: Vec<u8>, leading: bool, strict: bool)
    ensures
        final(components).deep_view() == old(components).deep_view() + piece_parts(
            piece@,
            leading,
            strict,
        ),
{
    let ghost held = components.deep_view();
    let ghost bytes = piece@;
    if piece.len() == 1 && piece[0] == DOT {
        assert(bytes =~= seq![DOT]);
        if leading || strict {
            components.push(PathComponent::Current);
        }
    } else if piece.len() == 2 && piece[0] == DOT && piece[1] == DOT {
        assert(bytes =~= seq![DOT, DOT]);
        components.push(PathComponent::Parent);
    } else if piece.len() > 0 {
        components.push(PathComponent::Name(piece));
        assert(components.deep_view() =~= held + seq![PathPart::Name(bytes)]);
    }
    assert(components.deep_view() =~= held + piece_parts(bytes, leading, strict));
}

/// Follows one component from the path with the components `parts`.
fn follow(parts: &mut Vec<PathComponent>, part: &PathComponent)
    requires
        old(parts).len() > 0,
        old(parts).deep_view()[0] is Prefix,
    ensures
        final(parts).deep_view() == followed(old(parts).deep_view(), part.deep_view()),
        final(parts).len() > 0,
        final(parts).deep_view()[0] is Prefix,
{
    let ghost before = parts.deep_view();
    match part {
        PathComponent::Root => {
            parts.truncate(1);
            assert(parts.deep_view() =~= before.take(1));
            parts.push(PathComponent::Root);
            assert(parts.deep_view() =~= before.take(1).push(PathPart::Root));
        },
        PathComponent::Current => {},
        PathComponent::Parent => {
            let last: usize = parts.len() - 1;
            assert(before.last() == parts[last as int].deep_view());
            let name = match &parts[last] {
                PathComponent::Name(_) => true,
                _ => false,
            };
            if name {
                parts.pop();
                assert(parts.deep_view() =~= before.drop_last());
            }
        },
        PathComponent::Prefix(prefix) => {
            let copy = PathPrefix {
                kind: prefix.kind,
                first: copy_bytes(&prefix.first),
                second: copy_bytes(&prefix.second),
            };
            assert(copy.deep_view() =~= prefix.deep_view());
            parts.push(PathComponent::Prefix(copy));
            assert(parts.deep_view() =~= before.push(part.deep_view()));
        },
        PathComponent::Name(name) => {
            parts.push(PathComponent::Name(copy_bytes(name)));
            assert(parts.deep_view() =~= before.push(part.deep_view()));
        },
    }
}

/// Writes the path with the components `parts` behind a prefix.
fn write_parts(prefix: Vec<u8>, parts: &Vec<PathComponent>) -> (bytes: Vec<u8>)
    ensures
        bytes@ == written(prefix@, parts.deep_view()),
{
    let ghost all = parts.deep_view();
    let ghost start = prefix@;
    let mut bytes = prefix;
    let mut i: usize = 1;
    if parts.len() == 0 {
        return bytes;
    }
    while i < parts.len()
        invariant
            all == parts.deep_view(),
            1 <= i <= parts.len(),
            bytes@ == written(start, all.take(i as int)),
        decreases parts.len() - i,
    {
        let ghost more = all.take(i + 1);
        let ghost held = bytes@;
        proof {
            assert(more.drop_last() =~= all.take(i as int));
            assert(more.last() == parts[i as int].deep_view());
            assert(more[more.len() - 2] == parts[i - 1].deep_view());
        }
        let after_root = match &parts[i - 1] {
            PathComponent::Root => true,
            _ => false,
        };
        let is_root = match &parts[i] {
            PathComponent::Root => true,
            _ => false,
        };
        if !is_root && !after_root {
            bytes.push(BACKSLASH);
        }
        let ghost led = bytes@;
        match &parts[i] {
            PathComponent::Prefix(_) => {},
            PathComponent::Root => {
                bytes.push(BACKSLASH);
            },
            PathComponent::Current => {
                bytes.push(DOT);
            },
            PathComponent::Parent => {
                bytes.push(DOT);
                bytes.push(DOT);
            },
            PathComponent::Name(name) => {
                append_bytes(&mut bytes, name, 0, name.len());
                assert(name@.subrange(0, name@.len() as int) =~= name@);
            },
        }
        assert(bytes@ =~= led + part_bytes(more.last()));
        i = i + 1;
    }
    assert(all.take(i as int) =~= all);
    bytes
}

} // verus!
