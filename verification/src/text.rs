//! Operations on text: building it, splitting and joining `::` paths, and decimal numbers.
use vstd::prelude::*;

verus! {

/// `String::push` appends the character to the end of the text.
pub assume_specification[ String::push ](text: &mut String, c: char)
    ensures
        final(text)@ == old(text)@.push(c),
;

/// The characters of `text`.
pub fn chars_of(text: &str) -> (chars: Vec<char>)
    ensures
        chars@ == text@,
{
    let mut chars: Vec<char> = Vec::new();
    for c in rest: text.chars()
        invariant
            rest.seq() == text@,
            chars@ == text@.take(rest.index() as int),
    {
        assert(text@.take(rest.index() + 1) =~= text@.take(rest.index() as int).push(c));
        chars.push(c);
    }
    assert(text@.take(text@.len() as int) =~= text@);
    chars
}

/// The text of the characters from `from` up to `to`.
pub fn text_of(chars: &Vec<char>, from: usize, to: usize) -> (text: String)
    requires
        from <= to <= chars.len(),
    ensures
        text@ == chars@.subrange(from as int, to as int),
{
    let mut text = String::new();
    let mut i: usize = from;
    while i < to
        invariant
            from <= i <= to <= chars.len(),
            text@ == chars@.subrange(from as int, i as int),
        decreases to - i,
    {
        text.push(chars[i]);
        assert(chars@.subrange(from as int, i + 1) =~= chars@.subrange(from as int, i as int).push(
            chars[i as int],
        ));
        i = i + 1;
    }
    text
}

/// Copies a list of texts.
pub fn copy_texts(texts: &Vec<String>) -> (copy: Vec<String>)
    ensures
        copy.deep_view() == texts.deep_view(),
{
    let mut copy: Vec<String> = Vec::new();
    append_texts(&mut copy, texts, 0);
    assert(copy.deep_view() =~= texts.deep_view());
    copy
}

/// Appends copies of `texts`, from place `from` on, to `list`.
pub fn append_texts(list: &mut Vec<String>, texts: &Vec<String>, from: usize)
    requires
        from <= texts.len(),
    ensures
        final(list).deep_view() == old(list).deep_view() + texts.deep_view().skip(from as int),
{
    let ghost before = list.deep_view();
    let mut i: usize = from;
    assert(list.deep_view() =~= before + texts.deep_view().subrange(from as int, i as int));
    while i < texts.len()
        invariant
            from <= i <= texts.len(),
            list.deep_view() == before + texts.deep_view().subrange(from as int, i as int),
        decreases texts.len() - i,
    {
        let ghost held = list.deep_view();
        list.push(texts[i].clone());
        assert(list.deep_view() =~= held.push(texts.deep_view()[i as int]));
        assert(before + texts.deep_view().subrange(from as int, i + 1) =~= (before
            + texts.deep_view().subrange(from as int, i as int)).push(
            texts.deep_view()[i as int],
        ));
        i = i + 1;
    }
    assert(texts.deep_view().subrange(from as int, i as int) =~= texts.deep_view().skip(
        from as int,
    ));
}

/// Whether two lists of texts hold the same texts in the same order.
pub fn same_texts(left: &Vec<String>, right: &Vec<String>) -> (same: bool)
    ensures
        same == (left.deep_view() == right.deep_view()),
{
    match crate::order::Ranked::rank(left, right) {
        crate::order::Rank::Same => true,
        _ => false,
    }
}

/// A `::` starts at place `at` of `text`.
pub open spec fn separator_at(text: Seq<char>, at: int) -> bool {
    0 <= at && at + 1 < text.len() && text[at] == ':' && text[at + 1] == ':'
}

/// The first place from `from` on where a `::` starts, or the length of `text` if there is none.
pub open spec fn next_separator(text: Seq<char>, from: int) -> int
    decreases text.len() - from,
{
    if from < 0 || from >= text.len() {
        text.len() as int
    } else if separator_at(text, from) {
        from
    } else {
        next_separator(text, from + 1)
    }
}

/// The pieces that the separators `::` cut `text` into, from place `from` on. Separators do not
/// overlap and are found from the left.
pub open spec fn split_from(text: Seq<char>, from: int) -> Seq<Seq<char>>
    decreases text.len() - from,
{
    let at = next_separator(text, from);
    if from <= at && at + 1 < text.len() {
        seq![text.subrange(from, at)] + split_from(text, at + 2)
    } else {
        seq![text.subrange(from, text.len() as int)]
    }
}

/// The pieces that the separators `::` cut `text` into; one piece, `text` itself, without any.
pub open spec fn split_path(text: Seq<char>) -> Seq<Seq<char>> {
    split_from(text, 0)
}

/// The texts of `parts` in order, with `::` between one and the next.
pub open spec fn join_path(parts: Seq<Seq<char>>) -> Seq<char>
    decreases parts.len(),
{
    if parts.len() == 0 {
        seq![]
    } else if parts.len() == 1 {
        parts[0]
    } else {
        join_path(parts.drop_last()) + seq![':', ':'] + parts.last()
    }
}

/// Where the next separator is: one starts there, and none before.
pub proof fn lemma_next_separator(text: Seq<char>, from: int)
    requires
        0 <= from <= text.len(),
    ensures
        from <= next_separator(text, from) <= text.len(),
        next_separator(text, from) < text.len() ==> separator_at(
            text,
            next_separator(text, from),
        ),
        forall|i: int| from <= i < next_separator(text, from) ==> !#[trigger] separator_at(text, i),
    decreases text.len() - from,
{
    if from < text.len() && !separator_at(text, from) {
        lemma_next_separator(text, from + 1);
    }
}

/// Splits `text` at each `::`.
pub fn split(text: &str) -> (pieces: Vec<String>)
    ensures
        pieces.deep_view() == split_path(text@),
{
    let chars = chars_of(text);
    let mut pieces: Vec<String> = Vec::new();
    let mut start: usize = 0;
    let mut i: usize = 0;
    assert(pieces.deep_view() + split_from(text@, 0) =~= split_path(text@));
    while i < chars.len()
        invariant
            chars@ == text@,
            start <= i <= chars.len(),
            next_separator(text@, start as int) == next_separator(text@, i as int),
            pieces.deep_view() + split_from(text@, start as int) == split_path(text@),
        decreases chars.len() - i,
    {
        if chars[i] == ':' && i + 1 < chars.len() && chars[i + 1] == ':' {
            let ghost held = pieces.deep_view();
            pieces.push(text_of(&chars, start, i));
            proof {
                let piece = text@.subrange(start as int, i as int);
                assert(pieces.deep_view() =~= held.push(piece));
                assert(split_from(text@, start as int) == seq![piece] + split_from(text@, i + 2));
                assert(held.push(piece) + split_from(text@, i + 2) =~= held + (seq![piece]
                    + split_from(text@, i + 2)));
            }
            start = i + 2;
            i = i + 2;
        } else {
            i = i + 1;
        }
    }
    let ghost held = pieces.deep_view();
    pieces.push(text_of(&chars, start, chars.len()));
    assert(pieces.deep_view() =~= held + seq![
        text@.subrange(start as int, text@.len() as int),
    ]);
    pieces
}

/// Joins the texts from place `from` up to place `to` with `::` between one and the next.
pub fn join(parts: &Vec<String>, from: usize, to: usize) -> (text: String)
    requires
        from <= to <= parts.len(),
    ensures
        text@ == join_path(parts.deep_view().subrange(from as int, to as int)),
{
    let ghost all = parts.deep_view();
    let mut text = String::new();
    let mut i: usize = from;
    while i < to
        invariant
            all == parts.deep_view(),
            from <= i <= to <= parts.len(),
            text@ == join_path(all.subrange(from as int, i as int)),
        decreases to - i,
    {
        let ghost longer = all.subrange(from as int, i + 1);
        proof {
            assert(longer.drop_last() =~= all.subrange(from as int, i as int));
            assert(longer.last() == parts[i as int]@);
        }
        if i > from {
            text.push(':');
            text.push(':');
            assert(text@ =~= join_path(longer.drop_last()) + seq![':', ':']);
        }
        text.append(parts[i].as_str());
        assert(text@ =~= join_path(longer));
        i = i + 1;
    }
    text
}

/// The decimal digit for a number below ten.
pub open spec fn digit(value: int) -> char {
    ((48 + value) as u8) as char
}

/// The decimal numeral of `value`, without leading zeros.
pub open spec fn decimal(value: nat) -> Seq<char>
    decreases value,
{
    if value < 10 {
        seq![digit(value as int)]
    } else {
        decimal(value / 10).push(digit((value % 10) as int))
    }
}

/// Writes `value` as a decimal numeral.
pub fn decimal_text(value: u128) -> (text: String)
    ensures
        text@ == decimal(value as nat),
    decreases value,
{
    let mut text = if value < 10 {
        String::new()
    } else {
        decimal_text(value / 10)
    };
    let last: u8 = 48u8 + (value % 10) as u8;
    text.push(last as char);
    assert(text@ =~= decimal(value as nat));
    text
}

/// A numeral has at least one character, and all of them are digits.
pub proof fn lemma_decimal_digits(value: nat)
    ensures
        decimal(value).len() > 0,
        value >= 10 ==> decimal(value).len() > 1,
        forall|i: int|
            0 <= i < decimal(value).len() ==> '0' <= #[trigger] decimal(value)[i] && decimal(
                value,
            )[i] <= '9',
    decreases value,
{
    if value >= 10 {
        lemma_decimal_digits(value / 10);
    }
}

/// Different numbers have different numerals.
pub proof fn numerals_tell_numbers_apart(left: nat, right: nat)
    requires
        decimal(left) == decimal(right),
    ensures
        left == right,
    decreases left,
{
    lemma_decimal_digits(left);
    lemma_decimal_digits(right);
    assert(decimal(left).last() == decimal(right).last());
    assert(decimal(left).last() == digit((left % 10) as int));
    assert(decimal(right).last() == digit((right % 10) as int));
    if left >= 10 {
        assert(decimal(left).drop_last() =~= decimal(left / 10));
        assert(decimal(right).drop_last() =~= decimal(right / 10));
        numerals_tell_numbers_apart(left / 10, right / 10);
    }
}

/// A text that holds no colon.
pub open spec fn colon_free(text: Seq<char>) -> bool {
    !text.contains(':')
}

proof fn lemma_next_separator_unique(text: Seq<char>, from: int, at: int)
    requires
        0 <= from <= at <= text.len(),
        at < text.len() ==> separator_at(text, at),
        forall|i: int| from <= i < at ==> !#[trigger] separator_at(text, i),
    ensures
        next_separator(text, from) == at,
{
    lemma_next_separator(text, from);
    let found = next_separator(text, from);
    if found < at {
        assert(!separator_at(text, found));
    } else if at < found {
        assert(!separator_at(text, at));
    }
}

/// Cutting off the first `cut` characters does not change how the rest is split.
proof fn lemma_split_skip(text: Seq<char>, cut: int, from: int)
    requires
        0 <= cut,
        0 <= from,
        cut + from <= text.len(),
    ensures
        split_from(text, cut + from) == split_from(text.skip(cut), from),
    decreases text.len() - from,
{
    let rest = text.skip(cut);
    let at = next_separator(rest, from);
    lemma_next_separator(rest, from);
    assert forall|i: int| cut + from <= i < cut + at implies !#[trigger] separator_at(text, i) by {
        assert(!separator_at(rest, i - cut));
    }
    if at < rest.len() {
        assert(separator_at(rest, at));
        assert(separator_at(text, cut + at));
    }
    lemma_next_separator_unique(text, cut + from, cut + at);
    if at < rest.len() {
        lemma_split_skip(text, cut, at + 2);
        assert(text.subrange(cut + from, cut + at) =~= rest.subrange(from, at));
        assert(split_from(text, cut + from) == seq![text.subrange(cut + from, cut + at)]
            + split_from(text, cut + at + 2));
    } else {
        assert(text.subrange(cut + from, text.len() as int) =~= rest.subrange(
            from,
            rest.len() as int,
        ));
    }
}

proof fn lemma_join_front(parts: Seq<Seq<char>>)
    requires
        parts.len() >= 2,
    ensures
        join_path(parts) == parts[0] + seq![':', ':'] + join_path(parts.drop_first()),
    decreases parts.len(),
{
    let rest = parts.drop_first();
    if parts.len() == 2 {
        assert(parts.drop_last() =~= seq![parts[0]]);
        assert(rest =~= seq![parts[1]]);
        assert(join_path(seq![parts[0]]) == parts[0]);
        assert(join_path(rest) == parts[1]);
    } else {
        lemma_join_front(parts.drop_last());
        assert(parts.drop_last().drop_first() =~= rest.drop_last());
        assert(join_path(parts) =~= parts[0] + seq![':', ':'] + join_path(rest));
    }
}

/// Splitting a joined path gives back its parts, as long as no part holds a colon.
pub proof fn split_undoes_join(parts: Seq<Seq<char>>)
    requires
        parts.len() > 0,
        forall|i: int| 0 <= i < parts.len() ==> colon_free(#[trigger] parts[i]),
    ensures
        split_path(join_path(parts)) == parts,
    decreases parts.len(),
{
    let first = parts[0];
    let joined = join_path(parts);
    assert(colon_free(first));
    if parts.len() == 1 {
        assert forall|i: int| 0 <= i < joined.len() implies !#[trigger] separator_at(joined, i) by {
            if separator_at(joined, i) {
                assert(first.contains(first[i]));
            }
        }
        lemma_next_separator_unique(joined, 0, joined.len() as int);
        assert(joined.subrange(0, joined.len() as int) =~= first);
        assert(split_path(joined) =~= parts);
    } else {
        let rest = parts.drop_first();
        let cut = first.len() as int + 2;
        lemma_join_front(parts);
        split_undoes_join(rest);
        assert forall|i: int| 0 <= i < first.len() implies !#[trigger] separator_at(joined, i) by {
            if separator_at(joined, i) {
                assert(first.contains(first[i]));
            }
        }
        assert(separator_at(joined, first.len() as int));
        lemma_next_separator_unique(joined, 0, first.len() as int);
        assert(joined.skip(cut) =~= join_path(rest));
        lemma_split_skip(joined, cut, 0);
        assert(joined.subrange(0, first.len() as int) =~= first);
        assert(split_path(joined) =~= seq![first] + rest);
        assert(seq![first] + rest =~= parts);
    }
}

/// Joining the pieces of a split text gives the text back.
pub proof fn join_undoes_split(text: Seq<char>)
    ensures
        join_path(split_path(text)) == text,
{
    lemma_join_split_from(text, 0);
    assert(text.skip(0) =~= text);
}

proof fn lemma_join_split_from(text: Seq<char>, from: int)
    requires
        0 <= from <= text.len(),
    ensures
        split_from(text, from).len() > 0,
        join_path(split_from(text, from)) == text.skip(from),
    decreases text.len() - from,
{
    lemma_next_separator(text, from);
    let at = next_separator(text, from);
    let pieces = split_from(text, from);
    if at < text.len() {
        lemma_join_split_from(text, at + 2);
        lemma_join_front(pieces);
        assert(pieces.drop_first() =~= split_from(text, at + 2));
        assert(join_path(pieces) =~= text.skip(from));
    } else {
        assert(pieces[0] =~= text.skip(from));
    }
}

} // verus!
