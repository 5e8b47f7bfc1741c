//! The scanner: reads a template into its structural events, as the grammar
//! says.
use vstd::prelude::*;
use crate::error::{ParseError, ParseErrorKind};
use crate::event::{
    Event,
    EventView,
    PartView,
    TagPart,
    events_view,
    lemma_events_push,
    lemma_parts_push,
    parts_view,
};
use crate::grammar::{
    CharClass,
    Parts,
    attributes,
    content,
    events,
    is_blank,
    is_break,
    is_name_char,
    is_quote,
    keyword_at,
    lemma_attributes_next,
    lemma_content_next,
    lemma_shorthands_next,
    next_line,
    prefixed,
    shorthands,
    span_end,
    starts_with,
    tag,
    template_events,
};
use crate::text::{chars_of, string_of};

verus! {

/// Whether the character is a space or a tab.
fn blank(c: char) -> (b: bool)
    ensures
        b == is_blank(c),
{
    c == ' ' || c == '\t'
}

/// Whether the character ends a line.
fn line_break(c: char) -> (b: bool)
    ensures
        b == is_break(c),
{
    c == '\n' || c == '\r'
}

/// Whether the character may stand in a name.
fn name_char(c: char) -> (b: bool)
    ensures
        b == is_name_char(c),
{
    ('a' <= c && c <= 'z') || ('A' <= c && c <= 'Z') || ('0' <= c && c <= '9') || c == '-' || c
        == '_'
}

/// Whether the character opens a quoted value.
fn quote(c: char) -> (b: bool)
    ensures
        b == is_quote(c),
{
    c == '"' || c == '\''
}

impl CharClass {
    /// Whether the character belongs to the class.
    pub fn test(&self, c: char) -> (b: bool)
        ensures
            b == self.holds(c),
    {
        match self {
            CharClass::Blank => blank(c),
            CharClass::Name => name_char(c),
            CharClass::Key => name_char(c) || c == ':' || c == '.' || c == '@',
            CharClass::Separator => blank(c) || line_break(c) || c == ',',
            CharClass::Inline => !line_break(c),
            CharClass::Until(stop) => c != *stop,
        }
    }
}

/// Where the longest run of characters of `class` from `i` ends.
fn scan(chars: &Vec<char>, i: usize, class: CharClass) -> (r: usize)
    requires
        i <= chars@.len(),
    ensures
        r == span_end(chars@, i as int, class),
        i <= r <= chars@.len(),
{
    let mut r: usize = i;
    while r < chars.len() && class.test(chars[r])
        invariant
            i <= r <= chars@.len(),
            span_end(chars@, r as int, class) == span_end(chars@, i as int, class),
        decreases chars@.len() - r,
    {
        r += 1;
    }
    r
}

/// Whether `word` stands in the text at `i`.
fn word_at(chars: &Vec<char>, i: usize, word: &str) -> (b: bool)
    requires
        i <= chars@.len(),
    ensures
        b == starts_with(chars@, i as int, word@),
{
    let w = chars_of(word);
    if chars.len() - i < w.len() {
        return false;
    }
    let mut k: usize = 0;
    while k < w.len()
        invariant
            chars@.len() <= usize::MAX,
            w@ == word@,
            i + w@.len() <= chars@.len(),
            k <= w@.len(),
            forall|j: int| 0 <= j < k ==> chars@[i + j] == w@[j],
        decreases w@.len() - k,
    {
        if chars[i + k] != w[k] {
            proof {
                assert(chars@.subrange(i as int, i + w@.len())[k as int] == chars@[i + k]);
            }
            return false;
        }
        k += 1;
    }
    proof {
        assert(chars@.subrange(i as int, i + w@.len()) =~= w@);
    }
    true
}

/// Whether `word` stands in the text at `i` with a blank after it.
fn keyword(chars: &Vec<char>, i: usize, word: &str) -> (r: Option<usize>)
    requires
        i <= chars@.len(),
    ensures
        r is Some == keyword_at(chars@, i as int, word@),
        r is Some ==> r->0 == i + word@.len(),
{
    let len = chars.len();
    if !word_at(chars, i, word) {
        return None;
    }
    let n = word.unicode_len();
    let end = i + n;
    if end < chars.len() && blank(chars[end]) {
        Some(end)
    } else {
        None
    }
}

/// `parts` put before the captures of a result.
pub open spec fn with_parts(parts: Seq<PartView>, rest: Result<Parts, ParseError>) -> Result<
    Parts,
    ParseError,
> {
    match rest {
        Ok(more) => Ok(Parts { parts: parts + more.parts, next: more.next }),
        Err(e) => Err(e),
    }
}

/// Reads the classes and ids at `i` into `parts`; returns where they end.
fn read_shorthands(chars: &Vec<char>, i: usize, parts: &mut Vec<TagPart>) -> (res: Result<
    usize,
    ParseError,
>)
    requires
        i <= chars@.len(),
    ensures
        match shorthands(chars@, i as int) {
            Ok(found) => res == Ok::<usize, ParseError>(found.next as usize) && parts_view(
                final(parts)@,
            ) == parts_view(old(parts)@) + found.parts && i <= found.next <= chars@.len(),
            Err(e) => res == Err::<usize, ParseError>(e),
        },
{
    let ghost s = chars@;
    let ghost all = shorthands(s, i as int);
    let ghost acc: Seq<PartView> = seq![];
    let mut at: usize = i;
    let len = chars.len();
    proof {
        lemma_shorthands_next(s, i as int);
        assert(parts_view(parts@) =~= parts_view(old(parts)@) + acc);
        match all {
            Ok(found) => {
                assert(acc + found.parts =~= found.parts);
            },
            Err(e) => {},
        }
    }
    while at < chars.len() && (chars[at] == '.' || chars[at] == '#')
        invariant
            s == chars@,
            s.len() <= usize::MAX,
            i <= at <= s.len(),
            all == shorthands(s, i as int),
            all is Ok ==> i <= all->Ok_0.next <= s.len(),
            all == with_parts(acc, shorthands(s, at as int)),
            parts_view(parts@) == parts_view(old(parts)@) + acc,
        decreases s.len() - at,
    {
        let end = scan(chars, at + 1, CharClass::Name);
        if end <= at + 1 {
            return Err(ParseError { kind: ParseErrorKind::ExpectedName, position: at + 1 });
        }
        let name = string_of(chars, at + 1, end);
        let part = if chars[at] == '.' {
            TagPart::Class(name)
        } else {
            TagPart::Id(name)
        };
        proof {
            lemma_parts_push(parts@, part);
            let rest = shorthands(s, end as int);
            match rest {
                Ok(more) => {
                    assert(acc.push(part@) + more.parts =~= acc + (seq![part@] + more.parts));
                },
                Err(e) => {},
            }
            assert(parts_view(parts@).push(part@) =~= parts_view(old(parts)@) + acc.push(part@));
            acc = acc.push(part@);
        }
        parts.push(part);
        at = end;
    }
    proof {
        assert(acc + Seq::<PartView>::empty() =~= acc);
    }
    Ok(at)
}

/// Reads the attributes from `i`, inside an attribute list, into `parts`;
/// returns where the text goes on after the closing parenthesis.
fn read_attributes(chars: &Vec<char>, i: usize, parts: &mut Vec<TagPart>) -> (res: Result<
    usize,
    ParseError,
>)
    requires
        i <= chars@.len(),
    ensures
        match attributes(chars@, i as int) {
            Ok(found) => res == Ok::<usize, ParseError>(found.next as usize) && parts_view(
                final(parts)@,
            ) == parts_view(old(parts)@) + found.parts && i < found.next <= chars@.len(),
            Err(e) => res == Err::<usize, ParseError>(e),
        },
{
    let ghost s = chars@;
    let ghost all = attributes(s, i as int);
    let ghost acc: Seq<PartView> = seq![];
    let mut from: usize = i;
    let len = chars.len();
    proof {
        lemma_attributes_next(s, i as int);
        assert(parts_view(parts@) =~= parts_view(old(parts)@) + acc);
        match all {
            Ok(found) => {
                assert(acc + found.parts =~= found.parts);
            },
            Err(e) => {},
        }
    }
    loop
        invariant
            s == chars@,
            s.len() <= usize::MAX,
            i <= from <= s.len(),
            all == attributes(s, i as int),
            all is Ok ==> i < all->Ok_0.next <= s.len(),
            all == with_parts(acc, attributes(s, from as int)),
            parts_view(parts@) == parts_view(old(parts)@) + acc,
        decreases s.len() - from,
    {
        let at = scan(chars, from, CharClass::Separator);
        if at >= chars.len() {
            return Err(
                ParseError { kind: ParseErrorKind::UnclosedAttributes, position: chars.len() },
            );
        }
        if chars[at] == ')' {
            proof {
                assert(acc + Seq::<PartView>::empty() =~= acc);
            }
            return Ok(at + 1);
        }
        let eq = scan(chars, at, CharClass::Key);
        if eq <= at {
            return Err(ParseError { kind: ParseErrorKind::ExpectedKey, position: at });
        }
        if eq >= chars.len() || chars[eq] != '=' {
            return Err(ParseError { kind: ParseErrorKind::ExpectedEquals, position: eq });
        }
        if eq + 1 >= chars.len() || !quote(chars[eq + 1]) {
            return Err(ParseError { kind: ParseErrorKind::ExpectedValue, position: eq + 1 });
        }
        let open = eq + 1;
        let close = scan(chars, open + 1, CharClass::Until(chars[open]));
        if close >= chars.len() {
            return Err(ParseError { kind: ParseErrorKind::UnclosedValue, position: open });
        }
        let part = TagPart::Attr {
            key: string_of(chars, at, eq),
            quoted: string_of(chars, open, close + 1),
            value: string_of(chars, open + 1, close),
        };
        proof {
            lemma_parts_push(parts@, part);
            let rest = attributes(s, close + 1);
            match rest {
                Ok(more) => {
                    assert(acc.push(part@) + more.parts =~= acc + (seq![part@] + more.parts));
                },
                Err(e) => {},
            }
            assert(parts_view(parts@).push(part@) =~= parts_view(old(parts)@) + acc.push(part@));
            acc = acc.push(part@);
        }
        parts.push(part);
        from = close + 1;
    }
}

/// Reads the tag declaration at `i` and what follows it on its line into
/// `out`; returns where the next line starts.
fn read_tag(chars: &Vec<char>, i: usize, out: &mut Vec<Event>) -> (res: Result<usize, ParseError>)
    requires
        i < chars@.len(),
    ensures
        match tag(chars@, i as int) {
            Ok(line) => res == Ok::<usize, ParseError>(line.next as usize) && events_view(
                final(out)@,
            ) == events_view(old(out)@) + line.events,
            Err(e) => res == Err::<usize, ParseError>(e),
        },
{
    let ghost s = chars@;
    let len = chars.len();
    proof {
        crate::grammar::lemma_tag_next(s, i as int);
    }
    let mut parts: Vec<TagPart> = Vec::new();
    let end = scan(chars, i, CharClass::Name);
    if end > i {
        let part = TagPart::Element(string_of(chars, i, end));
        proof {
            lemma_parts_push(parts@, part);
        }
        parts.push(part);
    }
    let ghost head = parts_view(parts@);
    proof {
        if end > i {
            assert(head =~= seq![PartView::Element(s.subrange(i as int, end as int))]);
        } else {
            assert(head =~= Seq::<PartView>::empty());
        }
    }
    let short = match read_shorthands(chars, end, &mut parts) {
        Ok(next) => next,
        Err(e) => {
            return Err(e);
        },
    };
    if parts.len() == 0 {
        return Err(ParseError { kind: ParseErrorKind::ExpectedTag, position: i });
    }
    let ghost named = parts_view(parts@);
    let list = if short < chars.len() && chars[short] == '(' {
        match read_attributes(chars, short + 1, &mut parts) {
            Ok(next) => next,
            Err(e) => {
                return Err(e);
            },
        }
    } else {
        proof {
            assert(named + Seq::<PartView>::empty() =~= named);
        }
        short
    };
    let ghost all = parts_view(parts@);
    let ghost before = out@;
    if list >= chars.len() || line_break(chars[list]) {
        let event = Event::TagOpen(parts);
        proof {
            lemma_events_push(before, event);
            assert(events_view(before).push(event@) =~= events_view(before) + seq![event@]);
        }
        out.push(event);
        let next = if list < chars.len() {
            list + 1
        } else {
            list
        };
        Ok(next)
    } else if blank(chars[list]) {
        let eol = scan(chars, list + 1, CharClass::Inline);
        let event = Event::TagOpen(parts);
        proof {
            lemma_events_push(before, event);
        }
        out.push(event);
        if eol > list + 1 {
            let text = Event::Text(string_of(chars, list + 1, eol));
            proof {
                lemma_events_push(out@, text);
                assert(events_view(before).push(event@).push(text@) =~= events_view(before)
                    + seq![event@, text@]);
            }
            out.push(text);
        } else {
            proof {
                assert(events_view(before).push(event@) =~= events_view(before) + seq![event@]);
            }
        }
        let next = if eol < chars.len() {
            eol + 1
        } else {
            eol
        };
        Ok(next)
    } else {
        Err(ParseError { kind: ParseErrorKind::UnexpectedCharacter, position: list })
    }
}

/// Where the line that holds `start` ends, and where the next line starts.
fn finish_line(chars: &Vec<char>, start: usize) -> (r: (usize, usize))
    requires
        start <= chars@.len(),
    ensures
        start <= r.0 <= chars@.len(),
        r.0 == span_end(chars@, start as int, CharClass::Inline),
        r.1 == next_line(chars@, start as int),
        r.0 <= r.1 <= chars@.len(),
{
    let eol = scan(chars, start, CharClass::Inline);
    let next = if eol < chars.len() {
        eol + 1
    } else {
        eol
    };
    (eol, next)
}

/// Reads what the line holds from `i`, the first character after its
/// indentation, into `out`; returns where the next line starts.
fn read_content(chars: &Vec<char>, i: usize, out: &mut Vec<Event>) -> (res: Result<
    usize,
    ParseError,
>)
    requires
        i < chars@.len(),
    ensures
        match content(chars@, i as int) {
            Ok(line) => res == Ok::<usize, ParseError>(line.next as usize) && events_view(
                final(out)@,
            ) == events_view(old(out)@) + line.events,
            Err(e) => res == Err::<usize, ParseError>(e),
        },
{
    let ghost s = chars@;
    let ghost before = out@;
    let len = chars.len();
    proof {
        lemma_content_next(s, i as int);
    }
    if word_at(chars, i, "//") {
        let (eol, next) = finish_line(chars, i);
        let event = Event::Comment;
        proof {
            lemma_events_push(before, event);
            assert(events_view(before).push(event@) =~= events_view(before) + seq![event@]);
        }
        out.push(event);
        return Ok(next);
    }
    if chars[i] == '|' {
        let start = if i + 1 < chars.len() && chars[i + 1] == ' ' {
            i + 2
        } else {
            i + 1
        };
        let (eol, next) = finish_line(chars, start);
        let event = Event::Text(string_of(chars, start, eol));
        proof {
            lemma_events_push(before, event);
            assert(events_view(before).push(event@) =~= events_view(before) + seq![event@]);
        }
        out.push(event);
        return Ok(next);
    }
    match keyword(chars, i, "doctype") {
        Some(end) => {
            let start = scan(chars, end, CharClass::Blank);
            let (eol, next) = finish_line(chars, start);
            let event = Event::Doctype(string_of(chars, start, eol));
            proof {
                lemma_events_push(before, event);
                assert(events_view(before).push(event@) =~= events_view(before) + seq![event@]);
            }
            out.push(event);
            return Ok(next);
        },
        None => {},
    }
    match keyword(chars, i, "include") {
        Some(end) => {
            let start = scan(chars, end, CharClass::Blank);
            let (eol, next) = finish_line(chars, start);
            let event = Event::IncludeTarget(string_of(chars, start, eol));
            proof {
                lemma_events_push(before, event);
                assert(events_view(before).push(event@) =~= events_view(before) + seq![event@]);
            }
            out.push(event);
            return Ok(next);
        },
        None => {},
    }
    read_tag(chars, i, out)
}

/// The model of the scanner's result.
pub open spec fn scanned_view(res: Result<Vec<Event>, ParseError>) -> Result<
    Seq<EventView>,
    ParseError,
> {
    match res {
        Ok(found) => Ok(events_view(found@)),
        Err(e) => Err(e),
    }
}

/// Reads the characters of a template into its structural events.
pub fn scan_events(chars: &Vec<char>) -> (res: Result<Vec<Event>, ParseError>)
    ensures
        scanned_view(res) == template_events(chars@),
{
    let ghost s = chars@;
    let mut out: Vec<Event> = Vec::new();
    let mut i: usize = 0;
    proof {
        match events(s, 0) {
            Ok(all) => {
                assert(events_view(out@) + all =~= all);
            },
            Err(e) => {},
        }
    }
    loop
        invariant
            s == chars@,
            i <= s.len(),
            events(s, 0) == prefixed(events_view(out@), events(s, i as int)),
        ensures
            events(s, 0) == prefixed(events_view(out@), Ok(seq![EventView::EndOfInput])),
        decreases s.len() - i,
    {
        let at = scan(chars, i, CharClass::Blank);
        if at >= chars.len() {
            break ;
        }
        if line_break(chars[at]) {
            i = at + 1;
            continue ;
        }
        let ghost before = out@;
        let indent = Event::Indent(at - i);
        proof {
            lemma_events_push(before, indent);
            lemma_content_next(s, at as int);
        }
        out.push(indent);
        match read_content(chars, at, &mut out) {
            Ok(next) => {
                proof {
                    let line = content(s, at as int)->Ok_0;
                    match events(s, line.next) {
                        Ok(more) => {
                            assert(events_view(out@) + more =~= events_view(before) + ((
                            seq![indent@] + line.events) + more));
                        },
                        Err(e) => {},
                    }
                }
                i = next;
            },
            Err(e) => {
                return Err(e);
            },
        }
    }
    let end = Event::EndOfInput;
    proof {
        lemma_events_push(out@, end);
        assert(events_view(out@).push(end@) =~= events_view(out@) + seq![EventView::EndOfInput]);
    }
    out.push(end);
    Ok(out)
}

} // verus!
