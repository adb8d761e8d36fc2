//! The two styles of file paths, and the prefixes that Windows puts before a path.
use vstd::prelude::*;

verus! {

/// How a host writes paths.
#[derive(Clone, Copy, Debug, PartialEq, Eq, Structural)]
pub enum PathStyle {
    Unix,
    Windows,
}

/// Which bytes part the components of a path.
#[derive(Clone, Copy, Debug, PartialEq, Eq, Structural)]
pub enum Separators {
    Slash,
    Backslash,
    Both,
}

/// The byte `/`.
pub const SLASH: u8 = 47;

/// The byte `\`.
pub const BACKSLASH: u8 = 92;

/// The byte `.`.
pub const DOT: u8 = 46;

/// The byte `:`.
pub const COLON: u8 = 58;

/// The byte `?`.
pub const QUESTION: u8 = 63;

/// The byte parts components.
pub open spec fn separates(separators: Separators, byte: u8) -> bool {
    match separators {
        Separators::Slash => byte == SLASH,
        Separators::Backslash => byte == BACKSLASH,
        Separators::Both => byte == SLASH || byte == BACKSLASH,
    }
}

/// Whether the byte parts components.
pub fn is_separator(separators: Separators, byte: u8) -> (is: bool)
    ensures
        is == separates(separators, byte),
{
    match separators {
        Separators::Slash => byte == SLASH,
        Separators::Backslash => byte == BACKSLASH,
        Separators::Both => byte == SLASH || byte == BACKSLASH,
    }
}

/// The first place from `from` on that parts components, or the length of `bytes` if none does.
pub open spec fn next_break(bytes: Seq<u8>, from: int, separators: Separators) -> int
    decreases bytes.len() - from,
{
    if from < 0 || from >= bytes.len() {
        bytes.len() as int
    } else if separates(separators, bytes[from]) {
        from
    } else {
        next_break(bytes, from + 1, separators)
    }
}

/// Finds the next place that parts components.
pub fn find_break(bytes: &Vec<u8>, from: usize, separators: Separators) -> (at: usize)
    requires
        from <= bytes.len(),
    ensures
        at == next_break(bytes@, from as int, separators),
        from <= at <= bytes.len(),
        at < bytes.len() ==> separates(separators, bytes[at as int]),
{
    let mut at: usize = from;
    while at < bytes.len() && !is_separator(separators, bytes[at])
        invariant
            from <= at <= bytes.len(),
            next_break(bytes@, from as int, separators) == next_break(
                bytes@,
                at as int,
                separators,
            ),
        decreases bytes.len() - at,
    {
        at = at + 1;
    }
    at
}

/// Copies the bytes from `from` up to `to`.
pub fn bytes_between(bytes: &Vec<u8>, from: usize, to: usize) -> (copy: Vec<u8>)
    requires
        from <= to <= bytes.len(),
    ensures
        copy@ == bytes@.subrange(from as int, to as int),
{
    let mut copy: Vec<u8> = Vec::new();
    let mut i: usize = from;
    while i < to
        invariant
            from <= i <= to <= bytes.len(),
            copy@ == bytes@.subrange(from as int, i as int),
        decreases to - i,
    {
        copy.push(bytes[i]);
        assert(bytes@.subrange(from as int, i + 1) =~= bytes@.subrange(
            from as int,
            i as int,
        ).push(bytes[i as int]));
        i = i + 1;
    }
    copy
}

/// The kinds of prefixes.
#[derive(Clone, Copy, Debug, PartialEq, Eq, Structural)]
pub enum PrefixKind {
    /// `\\?\name`
    Verbatim,
    /// `\\?\UNC\server\share`
    VerbatimUnc,
    /// `\\?\C:`
    VerbatimDisk,
    /// `\\.\name`
    Device,
    /// `\\server\share`
    Unc,
    /// `C:`
    Disk,
}

/// A prefix: the name or the server in it, or the letter of its drive as a capital, and the share.
#[derive(Debug)]
pub struct PathPrefix {
    pub kind: PrefixKind,
    pub first: Vec<u8>,
    pub second: Vec<u8>,
}

/// The mathematical value of a [`PathPrefix`].
#[verifier::ext_equal]
pub struct PrefixPart {
    pub kind: PrefixKind,
    pub first: Seq<u8>,
    pub second: Seq<u8>,
}

impl DeepView for PathPrefix {
    type V = PrefixPart;

    open spec fn deep_view(&self) -> PrefixPart {
        PrefixPart { kind: self.kind, first: self.first@, second: self.second@ }
    }
}

/// Behind such a prefix only a backslash parts components, and `.` is a component.
pub open spec fn verbatim(kind: PrefixKind) -> bool {
    kind == PrefixKind::Verbatim || kind == PrefixKind::VerbatimUnc || kind
        == PrefixKind::VerbatimDisk
}

/// The bytes from `from` up to the next separator.
pub open spec fn piece_at(bytes: Seq<u8>, from: int, separators: Separators) -> Seq<u8> {
    bytes.subrange(from, next_break(bytes, from, separators))
}

/// The place behind the next separator from `from` on.
pub open spec fn behind_piece(bytes: Seq<u8>, from: int, separators: Separators) -> int {
    let end = next_break(bytes, from, separators);
    if end < bytes.len() {
        end + 1
    } else {
        bytes.len() as int
    }
}

/// An ASCII letter.
pub open spec fn letter(byte: u8) -> bool {
    65 <= byte <= 90 || 97 <= byte <= 122
}

/// The capital of an ASCII letter.
pub open spec fn capital(byte: u8) -> u8 {
    if 97 <= byte <= 122 {
        (byte - 32) as u8
    } else {
        byte
    }
}

/// A drive such as `C:` stands at place `at`.
pub open spec fn drive_at(bytes: Seq<u8>, at: int) -> bool {
    at + 1 < bytes.len() && letter(bytes[at]) && bytes[at + 1] == COLON
}

/// The prefix of a path that starts with `\\?\`.
pub open spec fn verbatim_prefix(bytes: Seq<u8>) -> PrefixPart {
    if bytes.len() >= 8 && bytes[4] == 85 && bytes[5] == 78 && bytes[6] == 67 && separates(
        Separators::Both,
        bytes[7],
    ) {
        PrefixPart {
            kind: PrefixKind::VerbatimUnc,
            first: piece_at(bytes, 8, Separators::Backslash),
            second: piece_at(
                bytes,
                behind_piece(bytes, 8, Separators::Backslash),
                Separators::Backslash,
            ),
        }
    } else if drive_at(bytes, 4) && (bytes.len() == 6 || separates(Separators::Both, bytes[6])) {
        PrefixPart {
            kind: PrefixKind::VerbatimDisk,
            first: seq![capital(bytes[4])],
            second: seq![],
        }
    } else {
        PrefixPart {
            kind: PrefixKind::Verbatim,
            first: piece_at(bytes, 4, Separators::Backslash),
            second: seq![],
        }
    }
}

/// The path starts with `\\?\`, written with backslashes alone.
pub open spec fn starts_verbatim(bytes: Seq<u8>) -> bool {
    bytes.len() >= 4 && bytes[0] == BACKSLASH && bytes[1] == BACKSLASH && bytes[2] == QUESTION
        && bytes[3] == BACKSLASH
}

/// The path starts with `\\.\`.
pub open spec fn starts_device(bytes: Seq<u8>) -> bool {
    bytes.len() >= 4 && separates(Separators::Both, bytes[0]) && separates(
        Separators::Both,
        bytes[1],
    ) && bytes[2] == DOT && separates(Separators::Both, bytes[3])
}

/// The prefix of a path in the style of Windows, if it has one.
pub open spec fn windows_prefix(bytes: Seq<u8>) -> Option<PrefixPart> {
    if starts_verbatim(bytes) {
        Some(verbatim_prefix(bytes))
    } else if starts_device(bytes) {
        Some(
            PrefixPart {
                kind: PrefixKind::Device,
                first: piece_at(bytes, 4, Separators::Both),
                second: seq![],
            },
        )
    } else if bytes.len() >= 2 && separates(Separators::Both, bytes[0]) && separates(
        Separators::Both,
        bytes[1],
    ) {
        let server = piece_at(bytes, 2, Separators::Both);
        let share = piece_at(bytes, behind_piece(bytes, 2, Separators::Both), Separators::Both);
        if server.len() > 0 && share.len() > 0 {
            Some(PrefixPart { kind: PrefixKind::Unc, first: server, second: share })
        } else {
            None
        }
    } else if drive_at(bytes, 0) {
        Some(
            PrefixPart { kind: PrefixKind::Disk, first: seq![capital(bytes[0])], second: seq![] },
        )
    } else {
        None
    }
}

/// How many bytes a share takes, with the separator before it.
pub open spec fn share_length(share: Seq<u8>) -> int {
    if share.len() > 0 {
        1 + share.len() as int
    } else {
        0
    }
}

/// How many bytes a prefix takes.
pub open spec fn prefix_length(prefix: PrefixPart) -> int {
    match prefix.kind {
        PrefixKind::Verbatim => 4 + prefix.first.len() as int,
        PrefixKind::VerbatimUnc => 8 + prefix.first.len() + share_length(prefix.second),
        PrefixKind::VerbatimDisk => 6,
        PrefixKind::Device => 4 + prefix.first.len() as int,
        PrefixKind::Unc => 2 + prefix.first.len() + share_length(prefix.second),
        PrefixKind::Disk => 2,
    }
}

/// Where the next separator is: one stands there, and none before.
pub proof fn lemma_next_break(bytes: Seq<u8>, from: int, separators: Separators)
    requires
        0 <= from <= bytes.len(),
    ensures
        from <= next_break(bytes, from, separators) <= bytes.len(),
        next_break(bytes, from, separators) < bytes.len() ==> separates(
            separators,
            bytes[next_break(bytes, from, separators)],
        ),
        forall|i: int|
            from <= i < next_break(bytes, from, separators) ==> !separates(
                separators,
                #[trigger] bytes[i],
            ),
    decreases bytes.len() - from,
{
    if from < bytes.len() && !separates(separators, bytes[from]) {
        lemma_next_break(bytes, from + 1, separators);
    }
}

/// A place with a separator and none before it is the next one.
pub proof fn lemma_next_break_unique(bytes: Seq<u8>, from: int, at: int, separators: Separators)
    requires
        0 <= from <= at <= bytes.len(),
        at < bytes.len() ==> separates(separators, bytes[at]),
        forall|i: int| from <= i < at ==> !separates(separators, #[trigger] bytes[i]),
    ensures
        next_break(bytes, from, separators) == at,
{
    lemma_next_break(bytes, from, separators);
    let found = next_break(bytes, from, separators);
    if found < at {
        assert(!separates(separators, bytes[found]));
    } else if at < found {
        assert(!separates(separators, bytes[at]));
    }
}

/// A prefix does not take more bytes than there are.
pub proof fn lemma_prefix_fits(bytes: Seq<u8>)
    ensures
        windows_prefix(bytes) matches Some(prefix) ==> 2 <= prefix_length(prefix) <= bytes.len(),
{
    if bytes.len() >= 8 {
        lemma_next_break(bytes, 8, Separators::Backslash);
        lemma_next_break(
            bytes,
            behind_piece(bytes, 8, Separators::Backslash),
            Separators::Backslash,
        );
    }
    if bytes.len() >= 4 {
        lemma_next_break(bytes, 4, Separators::Backslash);
        lemma_next_break(bytes, 4, Separators::Both);
    }
    if bytes.len() >= 2 {
        lemma_next_break(bytes, 2, Separators::Both);
        lemma_next_break(bytes, behind_piece(bytes, 2, Separators::Both), Separators::Both);
    }
}

fn has_drive(bytes: &Vec<u8>, at: usize) -> (has: bool)
    requires
        at <= bytes.len(),
    ensures
        has == drive_at(bytes@, at as int),
{
    bytes.len() - at >= 2 && (65 <= bytes[at] && bytes[at] <= 90 || 97 <= bytes[at] && bytes[at]
        <= 122) && bytes[at + 1] == COLON
}

fn drive_letter(byte: u8) -> (letter: Vec<u8>)
    ensures
        letter@ == seq![capital(byte)],
{
    let mut letter: Vec<u8> = Vec::new();
    if 97 <= byte && byte <= 122 {
        letter.push(byte - 32);
    } else {
        letter.push(byte);
    }
    assert(letter@ =~= seq![capital(byte)]);
    letter
}

/// The bytes from `from` up to the next separator, and the place behind that.
fn take_piece(bytes: &Vec<u8>, from: usize, separators: Separators) -> (taken: (Vec<u8>, usize))
    requires
        from <= bytes.len(),
    ensures
        taken.0@ == piece_at(bytes@, from as int, separators),
        taken.1 == behind_piece(bytes@, from as int, separators),
        taken.1 <= bytes.len(),
{
    let end = find_break(bytes, from, separators);
    let piece = bytes_between(bytes, from, end);
    if end < bytes.len() {
        (piece, end + 1)
    } else {
        (piece, end)
    }
}

fn find_verbatim_prefix(bytes: &Vec<u8>) -> (prefix: PathPrefix)
    requires
        bytes.len() >= 4,
    ensures
        prefix.deep_view() == verbatim_prefix(bytes@),
{
    let none: Vec<u8> = Vec::new();
    assert(none@ =~= seq![]);
    if bytes.len() >= 8 && bytes[4] == 85 && bytes[5] == 78 && bytes[6] == 67 && is_separator(
        Separators::Both,
        bytes[7],
    ) {
        let (server, behind) = take_piece(bytes, 8, Separators::Backslash);
        let (share, _) = take_piece(bytes, behind, Separators::Backslash);
        PathPrefix { kind: PrefixKind::VerbatimUnc, first: server, second: share }
    } else if has_drive(bytes, 4) && (bytes.len() == 6 || is_separator(
        Separators::Both,
        bytes[6],
    )) {
        PathPrefix {
            kind: PrefixKind::VerbatimDisk,
            first: drive_letter(bytes[4]),
            second: none,
        }
    } else {
        let (name, _) = take_piece(bytes, 4, Separators::Backslash);
        PathPrefix { kind: PrefixKind::Verbatim, first: name, second: none }
    }
}

/// Finds the prefix of a path in the style of Windows.
pub fn find_windows_prefix(bytes: &Vec<u8>) -> (prefix: Option<PathPrefix>)
    ensures
        prefix.deep_view() == windows_prefix(bytes@),
{
    let none: Vec<u8> = Vec::new();
    assert(none@ =~= seq![]);
    let doubled = bytes.len() >= 2 && is_separator(Separators::Both, bytes[0]) && is_separator(
        Separators::Both,
        bytes[1],
    );
    if doubled {
        if bytes.len() >= 4 && bytes[0] == BACKSLASH && bytes[1] == BACKSLASH && bytes[2]
            == QUESTION && bytes[3] == BACKSLASH {
            return Some(find_verbatim_prefix(bytes));
        }
        if bytes.len() >= 4 && bytes[2] == DOT && is_separator(Separators::Both, bytes[3]) {
            let (name, _) = take_piece(bytes, 4, Separators::Both);
            return Some(PathPrefix { kind: PrefixKind::Device, first: name, second: none });
        }
        let (server, behind) = take_piece(bytes, 2, Separators::Both);
        let (share, _) = take_piece(bytes, behind, Separators::Both);
        if server.len() > 0 && share.len() > 0 {
            Some(PathPrefix { kind: PrefixKind::Unc, first: server, second: share })
        } else {
            None
        }
    } else if has_drive(bytes, 0) {
        Some(
            PathPrefix {
                kind: PrefixKind::Disk,
                first: drive_letter(bytes[0]),
                second: none,
            },
        )
    } else {
        None
    }
}

impl PathPrefix {
    /// How many bytes the prefix takes, for one that was found in `bytes`.
    pub fn length(&self, bytes: &Vec<u8>) -> (length: usize)
        requires
            windows_prefix(bytes@) == Some(self.deep_view()),
        ensures
            length == prefix_length(self.deep_view()),
            2 <= length <= bytes.len(),
    {
        proof {
            lemma_prefix_fits(bytes@);
        }
        assert(prefix_length(self.deep_view()) <= bytes.len());
        assert(self.deep_view().first == self.first@ && self.deep_view().second == self.second@);
        match self.kind {
            PrefixKind::Verbatim => 4 + self.first.len(),
            PrefixKind::VerbatimUnc => if self.second.len() > 0 {
                8 + self.first.len() + 1 + self.second.len()
            } else {
                8 + self.first.len()
            },
            PrefixKind::VerbatimDisk => 6,
            PrefixKind::Device => 4 + self.first.len(),
            PrefixKind::Unc => if self.second.len() > 0 {
                2 + self.first.len() + 1 + self.second.len()
            } else {
                2 + self.first.len()
            },
            PrefixKind::Disk => 2,
        }
    }

    /// Whether only a backslash parts components behind the prefix.
    pub fn is_verbatim(&self) -> (is: bool)
        ensures
            is == verbatim(self.kind),
    {
        match self.kind {
            PrefixKind::Verbatim | PrefixKind::VerbatimUnc | PrefixKind::VerbatimDisk => true,
            _ => false,
        }
    }
}

} // verus!
