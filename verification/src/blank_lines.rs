//! Blank lines after a template do not change what it stands for.
use vstd::prelude::*;
use crate::error::ParseError;
use crate::event::{EventView, PartView};
use crate::grammar::{
    CharClass,
    attribute_list,
    attributes,
    content,
    events,
    is_blank,
    is_break,
    keyword_at,
    lemma_attributes_next,
    lemma_content_next,
    lemma_shorthands_next,
    lemma_span_end,
    next_line,
    rest_of_line,
    shorthands,
    span_end,
    starts_with,
    tag,
    tag_tail,
};
use crate::parser::parsed;

verus! {

/// The text holds nothing but blanks and line breaks.
pub open spec fn blank_text(t: Seq<char>) -> bool {
    forall|k: int| 0 <= k < t.len() ==> is_blank(#[trigger] t[k]) || is_break(t[k])
}

/// The text ends with a line break.
pub open spec fn ends_line(s: Seq<char>) -> bool {
    s.len() > 0 && is_break(s.last())
}

/// No line break belongs to the class.
pub open spec fn stops_at_break(class: CharClass) -> bool {
    class is Blank || class is Name || class is Key || class is Inline
}

/// A run that ends inside a text ends at the same place when the text is
/// made longer.
pub proof fn lemma_span_stable(s: Seq<char>, t: Seq<char>, i: int, class: CharClass)
    requires
        0 <= i <= s.len(),
        span_end(s, i, class) < s.len(),
    ensures
        span_end(s + t, i, class) == span_end(s, i, class),
    decreases s.len() - i,
{
    let u = s + t;
    if i < s.len() {
        assert(u[i] == s[i]);
        if class.holds(s[i]) {
            lemma_span_stable(s, t, i + 1, class);
        }
    }
}

/// In a text that ends with a line break, a run of a class that holds no
/// line break ends before the end.
pub proof fn lemma_span_inside(s: Seq<char>, i: int, class: CharClass)
    requires
        ends_line(s),
        stops_at_break(class),
        0 <= i < s.len(),
    ensures
        i <= span_end(s, i, class) < s.len(),
{
    lemma_span_end(s, i, class);
    if span_end(s, i, class) == s.len() {
        assert(class.holds(s[s.len() - 1]));
    }
}

/// A text of blanks and line breaks has no event but the end of input.
pub proof fn lemma_blank_text_events(u: Seq<char>, from: int, i: int)
    requires
        0 <= from <= i <= u.len(),
        forall|k: int| from <= k < u.len() ==> is_blank(#[trigger] u[k]) || is_break(u[k]),
    ensures
        events(u, i) == Ok::<Seq<EventView>, ParseError>(seq![EventView::EndOfInput]),
    decreases u.len() - i,
{
    lemma_span_end(u, i, CharClass::Blank);
    let at = span_end(u, i, CharClass::Blank);
    if at < u.len() {
        assert(is_blank(u[at]) || is_break(u[at]));
        lemma_blank_text_events(u, from, at + 1);
    }
}

/// The shorthands of a tag are the same when blank text is put after a
/// text that ends with a line break, and they end before that line break.
pub proof fn lemma_shorthands_stable(s: Seq<char>, t: Seq<char>, i: int)
    requires
        ends_line(s),
        0 <= i < s.len(),
    ensures
        shorthands(s + t, i) == shorthands(s, i),
        shorthands(s, i) is Ok ==> shorthands(s, i)->Ok_0.next < s.len(),
    decreases s.len() - i,
{
    let u = s + t;
    assert(u[i] == s[i]);
    if s[i] == '.' || s[i] == '#' {
        assert(i + 1 < s.len());
        lemma_span_inside(s, i + 1, CharClass::Name);
        lemma_span_stable(s, t, i + 1, CharClass::Name);
        let end = span_end(s, i + 1, CharClass::Name);
        if end > i + 1 {
            assert(u.subrange(i + 1, end) =~= s.subrange(i + 1, end));
            lemma_shorthands_stable(s, t, end);
        }
    }
}

/// An attribute list that is closed is the same when blank text is put
/// after a text that ends with a line break, and it ends before that line
/// break.
pub proof fn lemma_attributes_stable(s: Seq<char>, t: Seq<char>, i: int)
    requires
        ends_line(s),
        0 <= i <= s.len(),
        attributes(s, i) is Ok,
    ensures
        attributes(s + t, i) == attributes(s, i),
        attributes(s, i)->Ok_0.next < s.len(),
    decreases s.len() - i,
{
    let u = s + t;
    lemma_span_end(s, i, CharClass::Separator);
    let at = span_end(s, i, CharClass::Separator);
    lemma_span_stable(s, t, i, CharClass::Separator);
    assert(u[at] == s[at]);
    if s[at] == ')' {
    } else {
        lemma_span_inside(s, at, CharClass::Key);
        lemma_span_stable(s, t, at, CharClass::Key);
        let eq = span_end(s, at, CharClass::Key);
        assert(u[eq] == s[eq]);
        assert(u[eq + 1] == s[eq + 1]);
        let open = eq + 1;
        lemma_span_end(s, open + 1, CharClass::Until(s[open]));
        let close = span_end(s, open + 1, CharClass::Until(s[open]));
        lemma_span_stable(s, t, open + 1, CharClass::Until(s[open]));
        assert(u.subrange(at, eq) =~= s.subrange(at, eq));
        assert(u.subrange(open, close + 1) =~= s.subrange(open, close + 1));
        assert(u.subrange(open + 1, close) =~= s.subrange(open + 1, close));
        lemma_attributes_stable(s, t, close + 1);
    }
}

/// What follows a tag on its line is the same when blank text is put after
/// a text that ends with a line break.
pub proof fn lemma_tag_tail_stable(s: Seq<char>, t: Seq<char>, i: int, parts: Seq<PartView>)
    requires
        ends_line(s),
        0 <= i < s.len(),
    ensures
        tag_tail(s + t, i, parts) == tag_tail(s, i, parts),
{
    let u = s + t;
    assert(u[i] == s[i]);
    if !is_break(s[i]) && is_blank(s[i]) {
        assert(i + 1 < s.len());
        lemma_span_inside(s, i + 1, CharClass::Inline);
        lemma_span_stable(s, t, i + 1, CharClass::Inline);
        let eol = span_end(s, i + 1, CharClass::Inline);
        assert(u.subrange(i + 1, eol) =~= s.subrange(i + 1, eol));
    }
}

/// A tag declaration that is accepted is the same when blank text is put
/// after a text that ends with a line break.
pub proof fn lemma_tag_stable(s: Seq<char>, t: Seq<char>, i: int)
    requires
        ends_line(s),
        0 <= i < s.len(),
        tag(s, i) is Ok,
    ensures
        tag(s + t, i) == tag(s, i),
{
    let u = s + t;
    lemma_span_inside(s, i, CharClass::Name);
    lemma_span_stable(s, t, i, CharClass::Name);
    let end = span_end(s, i, CharClass::Name);
    assert(u.subrange(i, end) =~= s.subrange(i, end));
    lemma_shorthands_stable(s, t, end);
    lemma_shorthands_next(s, end);
    assert(shorthands(s, end) is Ok);
    let short = shorthands(s, end)->Ok_0;
    assert(u[short.next] == s[short.next]);
    assert(attribute_list(s, short.next) is Ok);
    if s[short.next] == '(' {
        lemma_attributes_next(s, short.next + 1);
        lemma_attributes_stable(s, t, short.next + 1);
    }
    let list = attribute_list(s, short.next)->Ok_0;
    let head = if end > i {
        seq![PartView::Element(s.subrange(i, end))]
    } else {
        seq![]
    };
    lemma_tag_tail_stable(s, t, list.next, head + short.parts + list.parts);
}

/// The rest of a line that starts inside a text that ends with a line
/// break is the same when blank text is put after the text.
pub proof fn lemma_rest_of_line_stable(s: Seq<char>, t: Seq<char>, start: int)
    requires
        ends_line(s),
        0 <= start < s.len(),
    ensures
        rest_of_line(s + t, start) == rest_of_line(s, start),
        next_line(s + t, start) == next_line(s, start),
{
    let u = s + t;
    lemma_span_inside(s, start, CharClass::Inline);
    lemma_span_stable(s, t, start, CharClass::Inline);
    let eol = span_end(s, start, CharClass::Inline);
    assert(u.subrange(start, eol) =~= s.subrange(start, eol));
}

/// A word without a line break stands at a place of a text that ends with
/// a line break exactly when it stands there after blank text is put after
/// the text; and then it ends before the line break.
pub proof fn lemma_word_stable(s: Seq<char>, t: Seq<char>, i: int, word: Seq<char>)
    requires
        ends_line(s),
        0 <= i < s.len(),
        forall|k: int| 0 <= k < word.len() ==> !is_break(#[trigger] word[k]),
    ensures
        starts_with(s + t, i, word) == starts_with(s, i, word),
        starts_with(s, i, word) ==> i + word.len() < s.len(),
        keyword_at(s + t, i, word) == keyword_at(s, i, word),
{
    let u = s + t;
    let last = s.len() - 1;
    if i + word.len() <= u.len() && i + word.len() > last {
        if u.subrange(i, i + word.len()) == word {
            assert(u.subrange(i, i + word.len())[last - i] == u[last]);
            assert(u[last] == s[last]);
            assert(!is_break(word[last - i]));
        }
        if i + word.len() <= s.len() && s.subrange(i, i + word.len()) == word {
            assert(s.subrange(i, i + word.len())[last - i] == s[last]);
            assert(!is_break(word[last - i]));
        }
    } else if i + word.len() <= last {
        assert(u.subrange(i, i + word.len()) =~= s.subrange(i, i + word.len()));
        assert(u[i + word.len()] == s[i + word.len()]);
    }
}

/// The words of the grammar hold no line break.
pub proof fn lemma_words_hold_no_break()
    ensures
        forall|k: int| 0 <= k < "//"@.len() ==> !is_break(#[trigger] "//"@[k]),
        forall|k: int| 0 <= k < "doctype"@.len() ==> !is_break(#[trigger] "doctype"@[k]),
        forall|k: int| 0 <= k < "include"@.len() ==> !is_break(#[trigger] "include"@[k]),
{
    reveal_strlit("//");
    reveal_strlit("doctype");
    reveal_strlit("include");
}

/// A line that is accepted is the same when blank text is put after a text
/// that ends with a line break.
pub proof fn lemma_content_stable(s: Seq<char>, t: Seq<char>, i: int)
    requires
        ends_line(s),
        0 <= i < s.len(),
        content(s, i) is Ok,
    ensures
        content(s + t, i) == content(s, i),
{
    let u = s + t;
    lemma_words_hold_no_break();
    lemma_word_stable(s, t, i, "//"@);
    lemma_word_stable(s, t, i, "doctype"@);
    lemma_word_stable(s, t, i, "include"@);
    assert(u[i] == s[i]);
    if starts_with(s, i, "//"@) {
        lemma_rest_of_line_stable(s, t, i);
    } else if s[i] == '|' {
        assert(i + 1 < s.len());
        assert(u[i + 1] == s[i + 1]);
        let start = if s[i + 1] == ' ' {
            i + 2
        } else {
            i + 1
        };
        lemma_rest_of_line_stable(s, t, start);
    } else if keyword_at(s, i, "doctype"@) {
        let from = i + "doctype"@.len();
        lemma_span_inside(s, from, CharClass::Blank);
        lemma_span_stable(s, t, from, CharClass::Blank);
        lemma_rest_of_line_stable(s, t, span_end(s, from, CharClass::Blank));
    } else if keyword_at(s, i, "include"@) {
        let from = i + "include"@.len();
        lemma_span_inside(s, from, CharClass::Blank);
        lemma_span_stable(s, t, from, CharClass::Blank);
        lemma_rest_of_line_stable(s, t, span_end(s, from, CharClass::Blank));
    } else {
        lemma_tag_stable(s, t, i);
    }
}

/// The events of a text that ends with a line break and is accepted are
/// the same when blank text is put after it.
pub proof fn lemma_events_stable(s: Seq<char>, t: Seq<char>, i: int)
    requires
        ends_line(s),
        blank_text(t),
        0 <= i <= s.len(),
        events(s, i) is Ok,
    ensures
        events(s + t, i) == events(s, i),
    decreases s.len() - i,
{
    let u = s + t;
    lemma_span_end(s, i, CharClass::Blank);
    let at = span_end(s, i, CharClass::Blank);
    if at >= s.len() {
        assert forall|k: int| i <= k < u.len() implies is_blank(#[trigger] u[k]) || is_break(
            u[k],
        ) by {
            if k < s.len() {
                assert(u[k] == s[k]);
                assert(CharClass::Blank.holds(s[k]));
            } else {
                assert(u[k] == t[k - s.len()]);
            }
        }
        lemma_blank_text_events(u, i, i);
    } else {
        lemma_span_stable(s, t, i, CharClass::Blank);
        assert(u[at] == s[at]);
        if is_break(s[at]) {
            lemma_events_stable(s, t, at + 1);
        } else {
            lemma_content_next(s, at);
            lemma_content_stable(s, t, at);
            lemma_events_stable(s, t, content(s, at)->Ok_0.next);
        }
    }
}

/// Blank lines after a template that is accepted do not change its
/// document: the end of input closes what is open in the same way, however
/// many blank lines come before it.
pub proof fn lemma_trailing_blank_lines(source: Seq<char>, tail: Seq<char>)
    requires
        blank_text(tail),
        parsed(source) is Ok,
    ensures
        parsed(source + seq!['\n'] + tail) == parsed(source),
{
    let s = source.push('\n');
    let t = tail.push('\n');
    assert((source + seq!['\n'] + tail).push('\n') =~= s + t);
    assert forall|k: int| 0 <= k < t.len() implies is_blank(#[trigger] t[k]) || is_break(
        t[k],
    ) by {
        if k < tail.len() {
            assert(t[k] == tail[k]);
        }
    }
    lemma_events_stable(s, t, 0);
}

} // verus!
