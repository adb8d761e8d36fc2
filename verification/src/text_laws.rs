//! What splitting, joining and writing numerals amount to.
use crate::text::{
    decimal, decimal_text, digit, join, join_path, lemma_decimal_digits, lemma_next_separator,
    next_separator, separator_at, split, split_from, split_path,
};
use crate::visitor::{bare, ident_to_string};
use vstd::prelude::*;

verus! {

/// Joining nothing gives nothing, joining one text gives that text, and one more text follows the
/// others behind two colons.
pub proof fn joined_texts_grow_by_one(parts: Seq<Seq<char>>, more: Seq<char>)
    ensures
        join_path(Seq::<Seq<char>>::empty()) == Seq::<char>::empty(),
        join_path(seq![more]) == more,
        parts.len() > 0 ==> join_path(parts.push(more)) == join_path(parts) + seq![':', ':'] + more,
{
    assert(parts.push(more).drop_last() =~= parts);
}

/// What a call of `join` gives for one more text is what it gave before, two colons and that text.
pub proof fn join_appends_behind_colons(
    parts: Vec<String>,
    from: usize,
    to: usize,
    longer_to: usize,
    shorter: String,
    longer: String,
)
    requires
        from <= to < parts.len(),
        longer_to == to + 1,
        call_ensures(join, (&parts, from, to), shorter),
        call_ensures(join, (&parts, from, longer_to), longer),
    ensures
        from == to ==> shorter@.len() == 0 && longer@ == parts[to as int]@,
        from < to ==> longer@ == shorter@ + seq![':', ':'] + parts[to as int]@,
{
    let all = parts.deep_view();
    let more = all.subrange(from as int, to + 1);
    assert(more.drop_last() =~= all.subrange(from as int, to as int));
    assert(more.last() == parts[to as int]@);
}

/// Two colons stand somewhere in `text`.
pub open spec fn holds_two_colons(text: Seq<char>) -> bool {
    exists|at: int|
        0 <= at && at + 1 < text.len() && #[trigger] text[at] == ':' && text[at + 1] == ':'
}

/// A piece that was cut off at the first two colons of a text: it holds no two colons, and does
/// not end in one.
pub open spec fn cut_at_first_colons(piece: Seq<char>) -> bool {
    &&& !holds_two_colons(piece)
    &&& piece.len() > 0 ==> piece.last() != ':'
}

proof fn lemma_pieces_are_cut(text: Seq<char>, from: int)
    requires
        0 <= from <= text.len(),
    ensures
        split_from(text, from).len() > 0,
        !holds_two_colons(split_from(text, from).last()),
        forall|i: int|
            0 <= i < split_from(text, from).len() - 1 ==> cut_at_first_colons(
                #[trigger] split_from(text, from)[i],
            ),
    decreases text.len() - from,
{
    lemma_next_separator(text, from);
    let at = next_separator(text, from);
    let pieces = split_from(text, from);
    let first = pieces[0];
    assert(first =~= text.subrange(from, at));
    if holds_two_colons(first) {
        let i = choose|i: int|
            0 <= i && i + 1 < first.len() && #[trigger] first[i] == ':' && first[i + 1] == ':';
        assert(separator_at(text, from + i));
    }
    if at < text.len() {
        lemma_pieces_are_cut(text, at + 2);
        let rest = split_from(text, at + 2);
        if first.len() > 0 && first.last() == ':' {
            assert(separator_at(text, at - 1));
        }
        assert(pieces == seq![first] + rest);
        assert(pieces.last() == rest.last());
        assert forall|i: int| 0 <= i < pieces.len() - 1 implies cut_at_first_colons(
            #[trigger] pieces[i],
        ) by {
            if i > 0 {
                assert(pieces[i] == rest[i - 1]);
            }
        }
    }
}

/// A text is cut at every two colons, from the left: no piece holds two colons, and none but the
/// last ends in one.
pub proof fn split_cuts_at_every_two_colons(text: Seq<char>)
    ensures
        split_path(text).len() > 0,
        !holds_two_colons(split_path(text).last()),
        forall|i: int|
            0 <= i < split_path(text).len() - 1 ==> cut_at_first_colons(
                #[trigger] split_path(text)[i],
            ),
{
    lemma_pieces_are_cut(text, 0);
}

/// What a call of `split` gives: joined again it is the text, and every two colons were cut at.
pub proof fn split_pieces_make_up_the_text(text: &str, pieces: Vec<String>)
    requires
        call_ensures(split, (text,), pieces),
    ensures
        pieces.len() > 0,
        join_path(pieces.deep_view()) == text@,
        !holds_two_colons(pieces[pieces.len() - 1]@),
        forall|i: int|
            0 <= i < pieces.len() - 1 ==> cut_at_first_colons((#[trigger] pieces[i])@),
{
    crate::text::join_undoes_split(text@);
    split_cuts_at_every_two_colons(text@);
    let views = pieces.deep_view();
    assert(views.last() == pieces[pieces.len() - 1]@);
    assert forall|i: int| 0 <= i < pieces.len() - 1 implies cut_at_first_colons(
        (#[trigger] pieces[i])@,
    ) by {
        assert(views[i] == pieces[i]@);
    }
}

/// The number that a text of digits stands for.
pub open spec fn numeral_value(text: Seq<char>) -> int
    decreases text.len(),
{
    if text.len() == 0 {
        0
    } else {
        10 * numeral_value(text.drop_last()) + (text.last() as int - '0' as int)
    }
}

/// A numeral is made of digits, has no zero in front of others, and stands for its number.
pub proof fn numerals_stand_for_their_numbers(value: nat)
    ensures
        numeral_value(decimal(value)) == value,
        decimal(value).len() > 1 ==> decimal(value)[0] != '0',
        forall|i: int|
            0 <= i < decimal(value).len() ==> '0' <= #[trigger] decimal(value)[i] && decimal(
                value,
            )[i] <= '9',
    decreases value,
{
    lemma_decimal_digits(value);
    let text = decimal(value);
    if value < 10 {
        assert(text.drop_last() =~= seq![]);
        assert(text.last() == digit(value as int));
        assert(numeral_value(text.drop_last()) == 0);
    } else {
        numerals_stand_for_their_numbers(value / 10);
        lemma_decimal_digits(value / 10);
        assert(text.drop_last() =~= decimal(value / 10));
        assert(text.last() == digit((value % 10) as int));
        assert(text[0] == decimal(value / 10)[0]);
        if value / 10 < 10 {
            assert(decimal(value / 10) == seq![digit((value / 10) as int)]);
        }
    }
}

/// What a call of `decimal_text` gives stands for the number, without leading zeros.
pub proof fn decimal_text_stands_for_its_number(value: u128, text: String)
    requires
        call_ensures(decimal_text, (value,), text),
    ensures
        text@.len() > 0,
        numeral_value(text@) == value,
        text@.len() > 1 ==> text@[0] != '0',
        forall|i: int| 0 <= i < text@.len() ==> '0' <= #[trigger] text@[i] && text@[i] <= '9',
{
    numerals_stand_for_their_numbers(value as nat);
    lemma_decimal_digits(value as nat);
}

/// A mark `r#` in front of an identifier makes no difference, and without one the identifier stays
/// as it is.
pub proof fn raw_marks_make_no_difference(ident: Seq<char>)
    ensures
        bare(seq!['r', '#'] + ident) == bare(ident),
        !(ident.len() >= 2 && ident[0] == 'r' && ident[1] == '#') ==> bare(ident) == ident,
{
    let marked = seq!['r', '#'] + ident;
    assert(marked.skip(2) =~= ident);
}

/// What calls of `ident_to_string` give: an identifier without a mark stays as it is, and with a
/// mark more the result is the same.
pub proof fn identifiers_lose_their_raw_marks(
    ident: &str,
    marked: &str,
    name: String,
    marked_name: String,
)
    requires
        marked@ == seq!['r', '#'] + ident@,
        call_ensures(ident_to_string, (ident,), name),
        call_ensures(ident_to_string, (marked,), marked_name),
    ensures
        name@ == marked_name@,
        !(ident@.len() >= 2 && ident@[0] == 'r' && ident@[1] == '#') ==> name@ == ident@,
{
    raw_marks_make_no_difference(ident@);
}

} // verus!
