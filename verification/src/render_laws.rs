//! What escaping does to text.
use crate::render::{
    escaped_html, escaped_script_json, html_character, rewritten, script_character,
};
use vstd::prelude::*;

verus! {

/// Rewriting puts nothing into a text but what the rule makes of its characters.
proof fn lemma_rewritten_made_of(text: Seq<char>, rule: spec_fn(char) -> Seq<char>, at: int)
    requires
        0 <= at < rewritten(text, rule).len(),
    ensures
        exists|i: int|
            0 <= i < text.len() && rule(#[trigger] text[i]).contains(rewritten(text, rule)[at]),
    decreases text.len(),
{
    let earlier = text.drop_last();
    let held = rewritten(earlier, rule);
    if at < held.len() {
        lemma_rewritten_made_of(earlier, rule, at);
        let i = choose|i: int|
            0 <= i < earlier.len() && rule(#[trigger] earlier[i]).contains(held[at]);
        assert(text[i] == earlier[i]);
    } else {
        assert(rule(text.last())[at - held.len()] == rewritten(text, rule)[at]);
        assert(text[text.len() - 1] == text.last());
    }
}

/// A character with a meaning of its own in HTML text and attributes, but for the ampersand.
pub open spec fn html_special(c: char) -> bool {
    c == '<' || c == '>' || c == '"' || c == '\''
}

/// No text escaped for HTML can open or close a tag or a quoted value.
pub proof fn escaped_html_is_inert(text: Seq<char>, at: int)
    requires
        0 <= at < escaped_html(text).len(),
    ensures
        !html_special(escaped_html(text)[at]),
{
    reveal_strlit("&amp;");
    reveal_strlit("&lt;");
    reveal_strlit("&gt;");
    reveal_strlit("&quot;");
    reveal_strlit("&#39;");
    let rule = |c: char| html_character(c);
    lemma_rewritten_made_of(text, rule, at);
    let i = choose|i: int|
        0 <= i < text.len() && rule(#[trigger] text[i]).contains(rewritten(text, rule)[at]);
    let place = html_character(text[i]).index_of(escaped_html(text)[at]);
    assert(html_character(text[i])[place] == escaped_html(text)[at]);
}

/// No JSON escaped for a script element can close the element or open another one, or hold an
/// ampersand.
pub proof fn escaped_script_json_is_inert(text: Seq<char>, at: int)
    requires
        0 <= at < escaped_script_json(text).len(),
    ensures
        escaped_script_json(text)[at] != '<',
        escaped_script_json(text)[at] != '>',
        escaped_script_json(text)[at] != '&',
{
    reveal_strlit("\\u0026");
    reveal_strlit("\\u003c");
    reveal_strlit("\\u003e");
    let rule = |c: char| script_character(c);
    lemma_rewritten_made_of(text, rule, at);
    let i = choose|i: int|
        0 <= i < text.len() && rule(#[trigger] text[i]).contains(rewritten(text, rule)[at]);
    let place = script_character(text[i]).index_of(escaped_script_json(text)[at]);
    assert(script_character(text[i])[place] == escaped_script_json(text)[at]);
}

/// Rewriting a text puts what the rule makes of its first character before the rest.
pub proof fn lemma_rewritten_front(text: Seq<char>, rule: spec_fn(char) -> Seq<char>)
    requires
        text.len() > 0,
    ensures
        rewritten(text, rule) == rule(text[0]) + rewritten(text.drop_first(), rule),
    decreases text.len(),
{
    if text.len() == 1 {
        assert(text.drop_last() =~= seq![]);
        assert(text.drop_first() =~= seq![]);
        assert(rewritten(text, rule) =~= rule(text[0]) + rewritten(text.drop_first(), rule));
    } else {
        lemma_rewritten_front(text.drop_last(), rule);
        assert(text.drop_last().drop_first() =~= text.drop_first().drop_last());
        assert(rewritten(text, rule) =~= rule(text[0]) + rewritten(text.drop_first(), rule));
    }
}

/// What stands at the start of escaped text tells which character was escaped.
proof fn lemma_html_character_decodes(left: char, right: char, after: Seq<char>, other: Seq<char>)
    requires
        html_character(left) + after == html_character(right) + other,
    ensures
        left == right,
        after == other,
{
    reveal_strlit("&amp;");
    reveal_strlit("&lt;");
    reveal_strlit("&gt;");
    reveal_strlit("&quot;");
    reveal_strlit("&#39;");
    let whole = html_character(left) + after;
    let same = html_character(right) + other;
    assert(whole[0] == html_character(left)[0]);
    assert(same[0] == html_character(right)[0]);
    if whole[0] == '&' {
        assert(whole[1] == html_character(left)[1]);
        assert(same[1] == html_character(right)[1]);
    }
    assert(left == right);
    let length = html_character(left).len() as int;
    assert(whole.skip(length) =~= after);
    assert(same.skip(length) =~= other);
}

/// Escaping for HTML keeps different texts apart.
pub proof fn escaped_html_keeps_texts_apart(left: Seq<char>, right: Seq<char>)
    requires
        escaped_html(left) == escaped_html(right),
    ensures
        left == right,
    decreases left.len(),
{
    let rule = |c: char| html_character(c);
    reveal_strlit("&amp;");
    reveal_strlit("&lt;");
    reveal_strlit("&gt;");
    reveal_strlit("&quot;");
    reveal_strlit("&#39;");
    if left.len() > 0 {
        lemma_rewritten_front(left, rule);
    }
    if right.len() > 0 {
        lemma_rewritten_front(right, rule);
    }
    if left.len() > 0 && right.len() > 0 {
        lemma_html_character_decodes(
            left[0],
            right[0],
            escaped_html(left.drop_first()),
            escaped_html(right.drop_first()),
        );
        escaped_html_keeps_texts_apart(left.drop_first(), right.drop_first());
        assert(left =~= seq![left[0]] + left.drop_first());
        assert(right =~= seq![right[0]] + right.drop_first());
    } else if left.len() > 0 {
        assert(escaped_html(left).len() > 0);
    } else if right.len() > 0 {
        assert(escaped_html(right).len() > 0);
    } else {
        assert(left =~= right);
    }
}

proof fn lemma_rewritten_same(text: Seq<char>, rule: spec_fn(char) -> Seq<char>)
    requires
        forall|i: int| 0 <= i < text.len() ==> rule(#[trigger] text[i]) == seq![text[i]],
    ensures
        rewritten(text, rule) == text,
    decreases text.len(),
{
    if text.len() > 0 {
        let earlier = text.drop_last();
        assert forall|i: int| 0 <= i < earlier.len() implies rule(#[trigger] earlier[i]) == seq![
            earlier[i],
        ] by {
            assert(earlier[i] == text[i]);
        }
        lemma_rewritten_same(earlier, rule);
        assert(text[text.len() - 1] == text.last());
    }
    assert(rewritten(text, rule) =~= text);
}

/// Escaping for a script element a second time changes nothing.
pub proof fn escaping_script_json_twice_is_escaping_once(text: Seq<char>)
    ensures
        escaped_script_json(escaped_script_json(text)) == escaped_script_json(text),
{
    let rule = |c: char| script_character(c);
    let once = escaped_script_json(text);
    assert forall|i: int| 0 <= i < once.len() implies rule(#[trigger] once[i]) == seq![
        once[i],
    ] by {
        escaped_script_json_is_inert(text, i);
    }
    lemma_rewritten_same(once, rule);
}

proof fn lemma_rewritten_add(a: Seq<char>, b: Seq<char>, rule: spec_fn(char) -> Seq<char>)
    ensures
        rewritten(a + b, rule) == rewritten(a, rule) + rewritten(b, rule),
    decreases b.len(),
{
    if b.len() == 0 {
        assert(a + b =~= a);
        assert(rewritten(a, rule) + rewritten(b, rule) =~= rewritten(a, rule));
    } else {
        lemma_rewritten_add(a, b.drop_last(), rule);
        assert((a + b).drop_last() =~= a + b.drop_last());
        assert((a + b).last() == b.last());
        assert(rewritten(a + b, rule) =~= rewritten(a, rule) + rewritten(b, rule));
    }
}

/// Two texts after each other are escaped for HTML as each of them is.
pub proof fn escaping_html_piece_by_piece(a: Seq<char>, b: Seq<char>)
    ensures
        escaped_html(a + b) == escaped_html(a) + escaped_html(b),
{
    lemma_rewritten_add(a, b, |c: char| html_character(c));
}

/// A character that is escaped in HTML.
pub open spec fn html_escaped(c: char) -> bool {
    c == '&' || html_special(c)
}

/// A text without characters that are escaped in HTML stays as it is.
pub proof fn plain_text_is_kept_in_html(text: Seq<char>)
    requires
        forall|i: int| 0 <= i < text.len() ==> !html_escaped(#[trigger] text[i]),
    ensures
        escaped_html(text) == text,
{
    lemma_rewritten_same(text, |c: char| html_character(c));
}

/// `text` starts with `start`.
pub open spec fn starts_with(text: Seq<char>, start: Seq<char>) -> bool {
    start.len() <= text.len() && text.take(start.len() as int) == start
}

/// One of the five entities stands at the start of `text`.
pub open spec fn starts_with_entity(text: Seq<char>) -> bool {
    ||| starts_with(text, "&amp;"@)
    ||| starts_with(text, "&lt;"@)
    ||| starts_with(text, "&gt;"@)
    ||| starts_with(text, "&quot;"@)
    ||| starts_with(text, "&#39;"@)
}

proof fn lemma_entity_shape(c: char)
    ensures
        html_character(c).len() > 0,
        html_escaped(c) ==> html_character(c).len() > 1 && html_character(c)[0] == '&',
        forall|i: int| 1 <= i < html_character(c).len() ==> #[trigger] html_character(c)[i] != '&',
        !html_escaped(c) ==> html_character(c) == seq![c],
{
    reveal_strlit("&amp;");
    reveal_strlit("&lt;");
    reveal_strlit("&gt;");
    reveal_strlit("&quot;");
    reveal_strlit("&#39;");
}

/// Each ampersand in a text escaped for HTML starts an entity.
pub proof fn ampersands_start_entities(text: Seq<char>, at: int)
    requires
        0 <= at < escaped_html(text).len(),
        escaped_html(text)[at] == '&',
    ensures
        starts_with_entity(escaped_html(text).skip(at)),
    decreases text.len(),
{
    let whole = escaped_html(text);
    let first = html_character(text[0]);
    let rest = escaped_html(text.drop_first());
    lemma_rewritten_front(text, |c: char| html_character(c));
    lemma_entity_shape(text[0]);
    assert(whole == first + rest);
    if at < first.len() {
        assert(first[at] == '&');
        assert(at == 0);
        assert(whole.skip(0) =~= whole);
        assert(whole.take(first.len() as int) =~= first);
    } else {
        assert(rest[at - first.len()] == '&');
        ampersands_start_entities(text.drop_first(), at - first.len());
        assert(whole.skip(at) =~= rest.skip(at - first.len()));
    }
}

/// `text` with each occurrence of `pattern`, found from the left, replaced by `c`.
pub open spec fn replaced(text: Seq<char>, pattern: Seq<char>, c: char) -> Seq<char>
    decreases text.len(),
{
    if text.len() == 0 {
        seq![]
    } else if pattern.len() > 0 && starts_with(text, pattern) {
        seq![c] + replaced(text.skip(pattern.len() as int), pattern, c)
    } else {
        seq![text[0]] + replaced(text.drop_first(), pattern, c)
    }
}

/// `text` with the five entities replaced by their characters, the ampersand's last.
pub open spec fn unescaped_html(text: Seq<char>) -> Seq<char> {
    let text = replaced(text, "&lt;"@, '<');
    let text = replaced(text, "&gt;"@, '>');
    let text = replaced(text, "&quot;"@, '"');
    let text = replaced(text, "&#39;"@, '\'');
    replaced(text, "&amp;"@, '&')
}

/// How a character is written where only the characters that `chosen` accepts are escaped.
spec fn partly_escaped(c: char, chosen: spec_fn(char) -> bool) -> Seq<char> {
    if chosen(c) {
        html_character(c)
    } else {
        seq![c]
    }
}

/// What starts with no ampersand but at its first place is passed over by a replacement of some
/// other text that starts with one.
proof fn lemma_passed_over(front: Seq<char>, rest: Seq<char>, pattern: Seq<char>, c: char)
    requires
        pattern.len() > 0,
        pattern[0] == '&',
        forall|i: int| 1 <= i < front.len() ==> #[trigger] front[i] != '&',
        front.len() > 0 ==> !starts_with(front + rest, pattern),
    ensures
        replaced(front + rest, pattern, c) == front + replaced(rest, pattern, c),
    decreases front.len(),
{
    let whole = front + rest;
    if front.len() == 0 {
        assert(whole =~= rest);
        assert(front + replaced(rest, pattern, c) =~= replaced(rest, pattern, c));
    } else {
        let shorter = front.drop_first();
        assert(whole.drop_first() =~= shorter + rest);
        assert forall|i: int| 1 <= i < shorter.len() implies #[trigger] shorter[i] != '&' by {
            assert(shorter[i] == front[i + 1]);
        }
        if shorter.len() > 0 {
            assert((shorter + rest)[0] == front[1]);
            assert(!starts_with(shorter + rest, pattern)) by {
                if starts_with(shorter + rest, pattern) {
                    assert((shorter + rest).take(pattern.len() as int)[0] == front[1]);
                }
            }
        }
        lemma_passed_over(shorter, rest, pattern, c);
        assert(seq![whole[0]] + (shorter + replaced(rest, pattern, c)) =~= front + replaced(
            rest,
            pattern,
            c,
        ));
    }
}

/// Entities of different characters do not start with each other.
proof fn lemma_entities_differ(c: char, other: char, rest: Seq<char>)
    requires
        html_escaped(c),
        html_escaped(other),
        c != other,
    ensures
        !starts_with(html_character(c) + rest, html_character(other)),
{
    reveal_strlit("&amp;");
    reveal_strlit("&lt;");
    reveal_strlit("&gt;");
    reveal_strlit("&quot;");
    reveal_strlit("&#39;");
    let whole = html_character(c) + rest;
    let entity = html_character(other);
    if starts_with(whole, entity) {
        assert(whole.take(entity.len() as int)[1] == entity[1]);
        assert(whole[1] == html_character(c)[1]);
    }
}

/// Replacing the entity of a character takes back the escaping of that character.
proof fn lemma_replaced(text: Seq<char>, chosen: spec_fn(char) -> bool, c: char)
    requires
        chosen(c),
        chosen('&'),
        forall|other: char| #[trigger] chosen(other) ==> html_escaped(other),
    ensures
        replaced(
            rewritten(text, |other: char| partly_escaped(other, chosen)),
            html_character(c),
            c,
        ) == rewritten(
            text,
            |other: char| partly_escaped(other, |any: char| chosen(any) && any != c),
        ),
    decreases text.len(),
{
    let before = |other: char| partly_escaped(other, chosen);
    let less = |any: char| chosen(any) && any != c;
    let after = |other: char| partly_escaped(other, less);
    let pattern = html_character(c);
    lemma_entity_shape(c);
    if text.len() > 0 {
        let first = text[0];
        let front = before(first);
        let rest = rewritten(text.drop_first(), before);
        lemma_rewritten_front(text, before);
        lemma_rewritten_front(text, after);
        lemma_replaced(text.drop_first(), chosen, c);
        lemma_entity_shape(first);
        let whole = front + rest;
        assert(rewritten(text, before) == whole);
        if first == c {
            assert(whole.take(pattern.len() as int) =~= pattern);
            assert(whole.skip(pattern.len() as int) =~= rest);
        } else {
            assert(!starts_with(whole, pattern)) by {
                if chosen(first) {
                    lemma_entities_differ(first, c, rest);
                } else if starts_with(whole, pattern) {
                    assert(whole.take(pattern.len() as int)[0] == first);
                    assert(first != '&');
                }
            }
            lemma_passed_over(front, rest, pattern, c);
        }
        assert(after(first) == if first == c {
            seq![c]
        } else {
            front
        });
    }
}

/// Replacing the entities in an escaped text by their characters, the ampersand's last, gives the
/// text back.
pub proof fn unescaping_undoes_escaping_html(text: Seq<char>)
    ensures
        unescaped_html(escaped_html(text)) == text,
{
    let all = |c: char| html_escaped(c);
    let after_lt = |c: char| all(c) && c != '<';
    let after_gt = |c: char| after_lt(c) && c != '>';
    let after_quot = |c: char| after_gt(c) && c != '"';
    let after_apos = |c: char| after_quot(c) && c != '\'';
    let none = |c: char| after_apos(c) && c != '&';
    assert forall|c: char| html_character(c) == partly_escaped(c, all) by {
        lemma_entity_shape(c);
    }
    assert((|c: char| html_character(c)) =~= (|c: char| partly_escaped(c, all)));
    lemma_replaced(text, all, '<');
    lemma_replaced(text, after_lt, '>');
    lemma_replaced(text, after_gt, '"');
    lemma_replaced(text, after_quot, '\'');
    lemma_replaced(text, after_apos, '&');
    lemma_rewritten_same(text, |c: char| partly_escaped(c, none));
}

} // verus!
