//! The surface grammar of a template, as a model: which structural events a
//! sequence of characters stands for.
//!
//! A template is read line by line. A line that holds only blanks gives no
//! event. Any other line gives its indentation, and then what it holds: a
//! comment (`//`), a text line (`|`), a doctype, an inclusion, or a tag
//! declaration, which may be followed by text on the same line. The
//! attribute list of a tag may span several lines.
use vstd::prelude::*;
use crate::error::{ParseError, ParseErrorKind};
use crate::event::{EventView, PartView};

verus! {

/// A class of characters.
#[derive(Clone, Copy, Debug)]
pub enum CharClass {
    /// A space or a tab.
    Blank,
    /// A character of an element's name, a class or an id.
    Name,
    /// A character of an attribute's key.
    Key,
    /// What may stand between two attributes: a blank, a line break, a comma.
    Separator,
    /// Anything but a line break.
    Inline,
    /// Anything but the given character.
    Until(char),
}

pub open spec fn is_blank(c: char) -> bool {
    c == ' ' || c == '\t'
}

pub open spec fn is_break(c: char) -> bool {
    c == '\n' || c == '\r'
}

pub open spec fn is_name_char(c: char) -> bool {
    ||| 'a' <= c <= 'z'
    ||| 'A' <= c <= 'Z'
    ||| '0' <= c <= '9'
    ||| c == '-'
    ||| c == '_'
}

pub open spec fn is_key_char(c: char) -> bool {
    is_name_char(c) || c == ':' || c == '.' || c == '@'
}

pub open spec fn is_quote(c: char) -> bool {
    c == '"' || c == '\''
}

impl CharClass {
    /// The character belongs to the class.
    pub open spec fn holds(self, c: char) -> bool {
        match self {
            CharClass::Blank => is_blank(c),
            CharClass::Name => is_name_char(c),
            CharClass::Key => is_key_char(c),
            CharClass::Separator => is_blank(c) || is_break(c) || c == ',',
            CharClass::Inline => !is_break(c),
            CharClass::Until(stop) => c != stop,
        }
    }
}

/// Where the longest run of characters of `class` that starts at `i` ends.
pub open spec fn span_end(s: Seq<char>, i: int, class: CharClass) -> int
    decreases s.len() - i,
{
    if 0 <= i < s.len() && class.holds(s[i]) {
        span_end(s, i + 1, class)
    } else {
        i
    }
}

/// The run from `i` to `span_end` lies in the text, holds only characters
/// of the class, and cannot be made longer.
pub proof fn lemma_span_end(s: Seq<char>, i: int, class: CharClass)
    requires
        0 <= i <= s.len(),
    ensures
        i <= span_end(s, i, class) <= s.len(),
        forall|j: int| i <= j < span_end(s, i, class) ==> class.holds(#[trigger] s[j]),
        span_end(s, i, class) < s.len() ==> !class.holds(s[span_end(s, i, class)]),
    decreases s.len() - i,
{
    if i < s.len() && class.holds(s[i]) {
        lemma_span_end(s, i + 1, class);
    }
}

/// `word` stands in `s` at `i`.
pub open spec fn starts_with(s: Seq<char>, i: int, word: Seq<char>) -> bool {
    &&& 0 <= i
    &&& i + word.len() <= s.len()
    &&& s.subrange(i, i + word.len()) == word
}

/// `word` stands in `s` at `i` and a blank follows it.
pub open spec fn keyword_at(s: Seq<char>, i: int, word: Seq<char>) -> bool {
    &&& starts_with(s, i, word)
    &&& i + word.len() < s.len()
    &&& is_blank(s[i + word.len()])
}

/// Where the next line starts, for a line that ends at `eol`.
pub open spec fn after_line(s: Seq<char>, eol: int) -> int {
    if eol < s.len() {
        eol + 1
    } else {
        eol
    }
}

/// An error of the given kind at the given place.
pub open spec fn error_at(kind: ParseErrorKind, position: int) -> ParseError {
    ParseError { kind, position: position as usize }
}

/// Captures of a tag declaration, and where the text goes on after them.
pub struct Parts {
    pub parts: Seq<PartView>,
    pub next: int,
}

/// The events of one line after its indentation, and where the next line
/// starts.
pub struct Line {
    pub events: Seq<EventView>,
    pub next: int,
}

/// The run of `.class` and `#id` captures that starts at `i`.
pub open spec fn shorthands(s: Seq<char>, i: int) -> Result<Parts, ParseError>
    decreases s.len() - i,
{
    if 0 <= i < s.len() && (s[i] == '.' || s[i] == '#') {
        let end = span_end(s, i + 1, CharClass::Name);
        if end <= i + 1 {
            Err(error_at(ParseErrorKind::ExpectedName, i + 1))
        } else {
            let name = s.subrange(i + 1, end);
            let part = if s[i] == '.' {
                PartView::Class(name)
            } else {
                PartView::Id(name)
            };
            proof {
                lemma_span_end(s, i + 1, CharClass::Name);
            }
            match shorthands(s, end) {
                Ok(rest) => Ok(Parts { parts: seq![part] + rest.parts, next: rest.next }),
                Err(e) => Err(e),
            }
        }
    } else {
        Ok(Parts { parts: seq![], next: i })
    }
}

/// The attributes from `i`, which lies inside an attribute list, up to the
/// closing parenthesis.
pub open spec fn attributes(s: Seq<char>, i: int) -> Result<Parts, ParseError>
    decreases s.len() - i,
{
    let at = span_end(s, i, CharClass::Separator);
    if !(0 <= i <= at < s.len()) {
        Err(error_at(ParseErrorKind::UnclosedAttributes, s.len() as int))
    } else if s[at] == ')' {
        Ok(Parts { parts: seq![], next: at + 1 })
    } else {
        let eq = span_end(s, at, CharClass::Key);
        if eq <= at {
            Err(error_at(ParseErrorKind::ExpectedKey, at))
        } else if eq >= s.len() || s[eq] != '=' {
            Err(error_at(ParseErrorKind::ExpectedEquals, eq))
        } else if eq + 1 >= s.len() || !is_quote(s[eq + 1]) {
            Err(error_at(ParseErrorKind::ExpectedValue, eq + 1))
        } else {
            let open = eq + 1;
            let close = span_end(s, open + 1, CharClass::Until(s[open]));
            if close >= s.len() {
                Err(error_at(ParseErrorKind::UnclosedValue, open))
            } else {
                let part = PartView::Attr {
                    key: s.subrange(at, eq),
                    quoted: s.subrange(open, close + 1),
                    value: s.subrange(open + 1, close),
                };
                proof {
                    lemma_span_end(s, at, CharClass::Key);
                    lemma_span_end(s, open + 1, CharClass::Until(s[open]));
                }
                match attributes(s, close + 1) {
                    Ok(rest) => Ok(Parts { parts: seq![part] + rest.parts, next: rest.next }),
                    Err(e) => Err(e),
                }
            }
        }
    }
}

/// The attribute list at `i`, if one starts there.
pub open spec fn attribute_list(s: Seq<char>, i: int) -> Result<Parts, ParseError> {
    if 0 <= i < s.len() && s[i] == '(' {
        attributes(s, i + 1)
    } else {
        Ok(Parts { parts: seq![], next: i })
    }
}

/// What may follow a tag declaration on its line: nothing, or a blank and
/// text.
pub open spec fn tag_tail(s: Seq<char>, i: int, parts: Seq<PartView>) -> Result<
    Line,
    ParseError,
> {
    if !(0 <= i < s.len()) || is_break(s[i]) {
        Ok(Line { events: seq![EventView::TagOpen(parts)], next: after_line(s, i) })
    } else if is_blank(s[i]) {
        let eol = span_end(s, i + 1, CharClass::Inline);
        let text = s.subrange(i + 1, eol);
        let events = if text.len() > 0 {
            seq![EventView::TagOpen(parts), EventView::Text(text)]
        } else {
            seq![EventView::TagOpen(parts)]
        };
        Ok(Line { events, next: after_line(s, eol) })
    } else {
        Err(error_at(ParseErrorKind::UnexpectedCharacter, i))
    }
}

/// The tag declaration at `i`: a name, or at least one class or id, or
/// both, then maybe an attribute list.
pub open spec fn tag(s: Seq<char>, i: int) -> Result<Line, ParseError> {
    let end = span_end(s, i, CharClass::Name);
    let head = if end > i {
        seq![PartView::Element(s.subrange(i, end))]
    } else {
        seq![]
    };
    match shorthands(s, end) {
        Err(e) => Err(e),
        Ok(short) => {
            if head.len() + short.parts.len() == 0 {
                Err(error_at(ParseErrorKind::ExpectedTag, i))
            } else {
                match attribute_list(s, short.next) {
                    Err(e) => Err(e),
                    Ok(list) => tag_tail(s, list.next, head + short.parts + list.parts),
                }
            }
        },
    }
}

/// The line that holds `text` from `start` to its end.
pub open spec fn rest_of_line(s: Seq<char>, start: int) -> Seq<char> {
    s.subrange(start, span_end(s, start, CharClass::Inline))
}

/// Where the line after the one that holds `start` begins.
pub open spec fn next_line(s: Seq<char>, start: int) -> int {
    after_line(s, span_end(s, start, CharClass::Inline))
}

/// What a line holds from `i`, the first character after its indentation.
pub open spec fn content(s: Seq<char>, i: int) -> Result<Line, ParseError> {
    if starts_with(s, i, "//"@) {
        Ok(Line { events: seq![EventView::Comment], next: next_line(s, i) })
    } else if 0 <= i < s.len() && s[i] == '|' {
        let start = if i + 1 < s.len() && s[i + 1] == ' ' {
            i + 2
        } else {
            i + 1
        };
        Ok(
            Line {
                events: seq![EventView::Text(rest_of_line(s, start))],
                next: next_line(s, start),
            },
        )
    } else if keyword_at(s, i, "doctype"@) {
        let start = span_end(s, i + "doctype"@.len(), CharClass::Blank);
        Ok(
            Line {
                events: seq![EventView::Doctype(rest_of_line(s, start))],
                next: next_line(s, start),
            },
        )
    } else if keyword_at(s, i, "include"@) {
        let start = span_end(s, i + "include"@.len(), CharClass::Blank);
        Ok(
            Line {
                events: seq![EventView::IncludeTarget(rest_of_line(s, start))],
                next: next_line(s, start),
            },
        )
    } else {
        tag(s, i)
    }
}

/// `events` put before the events of a result.
pub open spec fn prefixed(events: Seq<EventView>, rest: Result<Seq<EventView>, ParseError>)
    -> Result<Seq<EventView>, ParseError> {
    match rest {
        Ok(more) => Ok(events + more),
        Err(e) => Err(e),
    }
}

/// The shorthands from `i` end at or after `i`, inside the text, and after
/// `i` if there is any.
pub proof fn lemma_shorthands_next(s: Seq<char>, i: int)
    requires
        0 <= i <= s.len(),
    ensures
        shorthands(s, i) is Ok ==> i <= shorthands(s, i)->Ok_0.next <= s.len(),
        shorthands(s, i) is Ok && shorthands(s, i)->Ok_0.parts.len() > 0 ==> i < shorthands(
            s,
            i,
        )->Ok_0.next,
    decreases s.len() - i,
{
    if i < s.len() && (s[i] == '.' || s[i] == '#') {
        lemma_span_end(s, i + 1, CharClass::Name);
        let end = span_end(s, i + 1, CharClass::Name);
        if end > i + 1 {
            lemma_shorthands_next(s, end);
        }
    }
}

/// An attribute list that is closed ends after `i`, inside the text.
pub proof fn lemma_attributes_next(s: Seq<char>, i: int)
    requires
        0 <= i <= s.len(),
    ensures
        attributes(s, i) is Ok ==> i < attributes(s, i)->Ok_0.next <= s.len(),
    decreases s.len() - i,
{
    lemma_span_end(s, i, CharClass::Separator);
    let at = span_end(s, i, CharClass::Separator);
    if at < s.len() && s[at] != ')' {
        lemma_span_end(s, at, CharClass::Key);
        let eq = span_end(s, at, CharClass::Key);
        if eq > at && eq < s.len() && s[eq] == '=' && eq + 1 < s.len() && is_quote(s[eq + 1]) {
            let open = eq + 1;
            lemma_span_end(s, open + 1, CharClass::Until(s[open]));
            let close = span_end(s, open + 1, CharClass::Until(s[open]));
            if close < s.len() {
                lemma_attributes_next(s, close + 1);
            }
        }
    }
}

/// A tag declaration ends after `i`, inside the text.
pub proof fn lemma_tag_next(s: Seq<char>, i: int)
    requires
        0 <= i < s.len(),
    ensures
        tag(s, i) is Ok ==> i < tag(s, i)->Ok_0.next <= s.len(),
{
    lemma_span_end(s, i, CharClass::Name);
    let end = span_end(s, i, CharClass::Name);
    lemma_shorthands_next(s, end);
    if shorthands(s, end) is Ok {
        let short = shorthands(s, end)->Ok_0;
        if short.next < s.len() && s[short.next] == '(' {
            lemma_attributes_next(s, short.next + 1);
        }
        if attribute_list(s, short.next) is Ok {
            let list = attribute_list(s, short.next)->Ok_0;
            if list.next < s.len() {
                lemma_span_end(s, list.next + 1, CharClass::Inline);
            }
        }
    }
}

/// The content of a line ends after `i`, inside the text.
pub proof fn lemma_content_next(s: Seq<char>, i: int)
    requires
        0 <= i < s.len(),
    ensures
        content(s, i) is Ok ==> i < content(s, i)->Ok_0.next <= s.len(),
{
    lemma_span_end(s, i, CharClass::Inline);
    if i + 1 <= s.len() {
        lemma_span_end(s, i + 1, CharClass::Inline);
    }
    if i + 2 <= s.len() {
        lemma_span_end(s, i + 2, CharClass::Inline);
    }
    if keyword_at(s, i, "doctype"@) {
        let from = i + "doctype"@.len();
        lemma_span_end(s, from, CharClass::Blank);
        lemma_span_end(s, span_end(s, from, CharClass::Blank), CharClass::Inline);
    }
    if keyword_at(s, i, "include"@) {
        let from = i + "include"@.len();
        lemma_span_end(s, from, CharClass::Blank);
        lemma_span_end(s, span_end(s, from, CharClass::Blank), CharClass::Inline);
    }
    lemma_tag_next(s, i);
}

/// The events of the lines from `i`, where a line starts, to the end.
pub open spec fn events(s: Seq<char>, i: int) -> Result<Seq<EventView>, ParseError>
    decreases s.len() - i,
{
    let at = span_end(s, i, CharClass::Blank);
    if !(0 <= i <= at < s.len()) {
        Ok(seq![EventView::EndOfInput])
    } else if is_break(s[at]) {
        events(s, at + 1)
    } else {
        match content(s, at) {
            Err(e) => Err(e),
            Ok(line) => {
                proof {
                    lemma_content_next(s, at);
                }
                prefixed(
                    seq![EventView::Indent((at - i) as nat)] + line.events,
                    events(s, line.next),
                )
            },
        }
    }
}

/// The structural events of a template.
pub open spec fn template_events(s: Seq<char>) -> Result<Seq<EventView>, ParseError> {
    events(s, 0)
}

} // verus!
