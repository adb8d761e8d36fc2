//! What escaping for a script element means for JSON.
use crate::render::{escaped_script_json, script_character};
use crate::render_laws::lemma_rewritten_front;
use vstd::prelude::*;

verus! {

/// A piece of JSON text: a string, by its UTF-16 code units, or a character outside of strings.
pub enum JsonPiece {
    Text(Seq<int>),
    Mark(char),
}

/// The UTF-16 code units of a character.
pub open spec fn code_units(c: char) -> Seq<int> {
    let code = c as int;
    if code < 0x10000 {
        seq![code]
    } else {
        seq![0xd800 + (code - 0x10000) / 0x400, 0xdc00 + (code - 0x10000) % 0x400]
    }
}

/// The value of a hexadecimal digit.
pub open spec fn hex_value(c: char) -> Option<int> {
    if '0' <= c && c <= '9' {
        Some(c as int - '0' as int)
    } else if 'a' <= c && c <= 'f' {
        Some(c as int - 'a' as int + 10)
    } else if 'A' <= c && c <= 'F' {
        Some(c as int - 'A' as int + 10)
    } else {
        None
    }
}

/// The code unit that the escape sequence at the start of `text` stands for, and its length.
pub open spec fn escape_sequence(text: Seq<char>) -> Option<(int, int)> {
    if text.len() < 2 {
        None
    } else if text[1] == '"' || text[1] == '\\' || text[1] == '/' {
        Some((text[1] as int, 2))
    } else if text[1] == 'b' {
        Some((8, 2))
    } else if text[1] == 'f' {
        Some((12, 2))
    } else if text[1] == 'n' {
        Some((10, 2))
    } else if text[1] == 'r' {
        Some((13, 2))
    } else if text[1] == 't' {
        Some((9, 2))
    } else if text[1] == 'u' && text.len() >= 6 {
        match (hex_value(text[2]), hex_value(text[3]), hex_value(text[4]), hex_value(text[5])) {
            (Some(a), Some(b), Some(c), Some(d)) => Some((4096 * a + 256 * b + 16 * c + d, 6)),
            _ => None,
        }
    } else {
        None
    }
}

/// A piece before the pieces of what follows, if that can be read.
pub open spec fn before_pieces(piece: JsonPiece, rest: Option<Seq<JsonPiece>>) -> Option<
    Seq<JsonPiece>,
> {
    match rest {
        Some(pieces) => Some(seq![piece] + pieces),
        None => None,
    }
}

/// The pieces of `text`, which starts inside a string that has read `inside` so far, or outside of
/// any. A string that does not end, holds a control character or holds a backslash that starts no
/// escape sequence cannot be read.
pub open spec fn pieces_from(text: Seq<char>, inside: Option<Seq<int>>) -> Option<Seq<JsonPiece>>
    decreases text.len(),
{
    match inside {
        None => if text.len() == 0 {
            Some(seq![])
        } else if text[0] == '"' {
            pieces_from(text.drop_first(), Some(seq![]))
        } else {
            before_pieces(JsonPiece::Mark(text[0]), pieces_from(text.drop_first(), None))
        },
        Some(units) => if text.len() == 0 {
            None
        } else if text[0] == '"' {
            before_pieces(JsonPiece::Text(units), pieces_from(text.drop_first(), None))
        } else if text[0] == '\\' {
            match escape_sequence(text) {
                Some((unit, length)) => if 0 < length <= text.len() {
                    pieces_from(text.skip(length), Some(units.push(unit)))
                } else {
                    None
                },
                None => None,
            }
        } else if (text[0] as int) < 0x20 {
            None
        } else {
            pieces_from(text.drop_first(), Some(units + code_units(text[0])))
        },
    }
}

/// The pieces of a JSON text. Whether a text is JSON, and for which value, depends on its pieces
/// alone.
pub open spec fn json_pieces(text: Seq<char>) -> Option<Seq<JsonPiece>> {
    pieces_from(text, None)
}

/// A character that is escaped inside a script element. None stands in JSON outside of strings.
pub open spec fn script_special(c: char) -> bool {
    c == '&' || c == '<' || c == '>'
}

/// Outside of strings, `pieces` hold no character that is escaped.
pub open spec fn plain_marks(pieces: Seq<JsonPiece>) -> bool {
    forall|i: int|
        0 <= i < pieces.len() ==> (#[trigger] pieces[i] matches JsonPiece::Mark(c)
            ==> !script_special(c))
}

/// Characters that are not escaped stay in front of what follows.
proof fn lemma_escaped_front(text: Seq<char>, length: int)
    requires
        0 <= length <= text.len(),
        forall|i: int| 0 <= i < length ==> !script_special(#[trigger] text[i]),
    ensures
        escaped_script_json(text) == text.take(length) + escaped_script_json(text.skip(length)),
    decreases length,
{
    if length == 0 {
        assert(text.skip(0) =~= text);
        assert(text.take(0) + escaped_script_json(text) =~= escaped_script_json(text));
    } else {
        let rest = text.drop_first();
        lemma_rewritten_front(text, |c: char| script_character(c));
        assert forall|i: int| 0 <= i < length - 1 implies !script_special(#[trigger] rest[i]) by {
            assert(rest[i] == text[i + 1]);
        }
        lemma_escaped_front(rest, length - 1);
        assert(rest.skip(length - 1) =~= text.skip(length));
        assert(!script_special(text[0]));
        assert(escaped_script_json(text) == seq![text[0]] + escaped_script_json(rest));
        assert(seq![text[0]] + (rest.take(length - 1) + escaped_script_json(text.skip(length)))
            =~= text.take(length) + escaped_script_json(text.skip(length)));
    }
}

/// An escape sequence is made of characters that are not escaped.
proof fn lemma_escape_sequence(text: Seq<char>)
    requires
        text.len() > 0,
        text[0] == '\\',
        escape_sequence(text) is Some,
    ensures
        ({
            let length = (escape_sequence(text)->0).1;
            &&& 0 < length <= text.len()
            &&& forall|i: int| 0 <= i < length ==> !script_special(#[trigger] text[i])
            &&& escape_sequence(escaped_script_json(text)) == escape_sequence(text)
            &&& escaped_script_json(text).skip(length) == escaped_script_json(text.skip(length))
            &&& escaped_script_json(text).len() >= length
            &&& escaped_script_json(text)[0] == '\\'
        }),
{
    let length = (escape_sequence(text)->0).1;
    let escaped = escaped_script_json(text);
    assert forall|i: int| 0 <= i < length implies !script_special(#[trigger] text[i]) by {
        assert(i == 0 || i == 1 || i == 2 || i == 3 || i == 4 || i == 5);
    }
    lemma_escaped_front(text, length);
    let rest = escaped_script_json(text.skip(length));
    assert(escaped == text.take(length) + rest);
    assert forall|i: int| 0 <= i < length implies #[trigger] escaped[i] == text[i] by {}
    assert(escaped[1] == text[1]);
    if length == 6 {
        assert(escaped[2] == text[2] && escaped[3] == text[3] && escaped[4] == text[4]
            && escaped[5] == text[5]);
    }
    assert(escaped.skip(length) =~= rest);
}

/// What a special character is written as is an escape sequence for it.
proof fn lemma_special_escape(c: char, rest: Seq<char>)
    requires
        script_special(c),
    ensures
        script_character(c).len() == 6,
        (script_character(c) + rest)[0] == '\\',
        escape_sequence(script_character(c) + rest) == Some((c as int, 6int)),
        (script_character(c) + rest).skip(6) == rest,
        code_units(c) == seq![c as int],
{
    reveal_strlit("\\u0026");
    reveal_strlit("\\u003c");
    reveal_strlit("\\u003e");
    let whole = script_character(c) + rest;
    assert(whole.skip(6) =~= rest);
    assert(whole[1] == 'u' && whole[2] == '0' && whole[3] == '0');
}

proof fn lemma_pieces_kept(text: Seq<char>, inside: Option<Seq<int>>)
    requires
        pieces_from(text, inside) is Some,
        plain_marks(pieces_from(text, inside)->0),
    ensures
        pieces_from(escaped_script_json(text), inside) == pieces_from(text, inside),
    decreases text.len(),
{
    let escaped = escaped_script_json(text);
    if text.len() == 0 {
        assert(escaped =~= text);
    } else {
        let rest = text.drop_first();
        let c = text[0];
        lemma_rewritten_front(text, |c: char| script_character(c));
        assert(escaped == script_character(c) + escaped_script_json(rest));
        match inside {
            None => {
                if c == '"' {
                    lemma_escaped_first(text);
                    lemma_pieces_kept(rest, Some(seq![]));
                } else {
                    lemma_plain_rest(JsonPiece::Mark(c), pieces_from(rest, None));
                    lemma_escaped_first(text);
                    lemma_pieces_kept(rest, None);
                }
            },
            Some(units) => {
                if c == '"' {
                    lemma_plain_rest(JsonPiece::Text(units), pieces_from(rest, None));
                    lemma_escaped_first(text);
                    lemma_pieces_kept(rest, None);
                } else if c == '\\' {
                    lemma_escape_sequence(text);
                    let (unit, length) = escape_sequence(text)->0;
                    lemma_pieces_kept(text.skip(length), Some(units.push(unit)));
                } else if script_special(c) {
                    lemma_special_escape(c, escaped_script_json(rest));
                    assert(units + code_units(c) =~= units.push(c as int));
                    lemma_pieces_kept(rest, Some(units + code_units(c)));
                } else {
                    lemma_escaped_first(text);
                    lemma_pieces_kept(rest, Some(units + code_units(c)));
                }
            },
        }
    }
}

proof fn lemma_escaped_first(text: Seq<char>)
    requires
        text.len() > 0,
        !script_special(text[0]),
    ensures
        escaped_script_json(text).len() > 0,
        escaped_script_json(text)[0] == text[0],
        escaped_script_json(text).drop_first() == escaped_script_json(text.drop_first()),
{
    lemma_rewritten_front(text, |c: char| script_character(c));
    assert(escaped_script_json(text) == seq![text[0]] + escaped_script_json(text.drop_first()));
    assert(escaped_script_json(text).drop_first() =~= escaped_script_json(text.drop_first()));
}

proof fn lemma_plain_rest(piece: JsonPiece, rest: Option<Seq<JsonPiece>>)
    requires
        before_pieces(piece, rest) is Some,
        plain_marks(before_pieces(piece, rest)->0),
    ensures
        piece matches JsonPiece::Mark(c) ==> !script_special(c),
        rest is Some,
        plain_marks(rest->0),
{
    let pieces = seq![piece] + rest->0;
    assert(pieces[0] == piece);
    assert forall|i: int| 0 <= i < (rest->0).len() implies (#[trigger] (rest->0)[i] matches
        JsonPiece::Mark(c) ==> !script_special(c)) by {
        assert(pieces[i + 1] == (rest->0)[i]);
    }
}

/// Escaping JSON for a script element keeps its pieces: each string still reads the same, and
/// nothing outside of strings changes. So the text stays JSON for the same value.
pub proof fn escaping_keeps_json_pieces(text: Seq<char>)
    requires
        json_pieces(text) is Some,
        plain_marks(json_pieces(text)->0),
    ensures
        json_pieces(escaped_script_json(text)) == json_pieces(text),
{
    lemma_pieces_kept(text, None);
}

} // verus!
