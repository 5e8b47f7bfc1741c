//! The compiler's entry point: from the text of a template to its document
//! tree.
use vstd::prelude::*;
use crate::ast::{Ast, Node};
use crate::builder::{build, complete, document};
use crate::error::ParseError;
use crate::event::{Event, EventView};
use crate::grammar::{
    CharClass,
    content,
    events,
    lemma_content_next,
    lemma_span_end,
    span_end,
    template_events,
};
use crate::lexer::{scan_events, scanned_view};
use crate::text::chars_of;

verus! {

/// The scanner of templates.
#[derive(Debug)]
pub struct PugParser;

impl PugParser {
    /// Scans a template into its structural events: the events that the
    /// grammar gives for its characters, or the grammar's error.
    pub fn parse(input: &str) -> (res: Result<Vec<Event>, ParseError>)
        ensures
            scanned_view(res) == template_events(input@),
    {
        let chars = chars_of(input);
        scan_events(&chars)
    }
}

/// The document that a template stands for, or why it is rejected. A line
/// break is put after the template's last character before it is scanned.
pub open spec fn parsed(source: Seq<char>) -> Result<Node, ParseError> {
    match template_events(source.push('\n')) {
        Ok(found) => Ok(document(found)),
        Err(e) => Err(e),
    }
}

/// The model of the result of `parse`.
pub open spec fn tree_view(res: Result<Ast, ParseError>) -> Result<Node, ParseError> {
    match res {
        Ok(tree) => Ok(tree@),
        Err(e) => Err(e),
    }
}

/// No event of the list is the end of input.
pub open spec fn unended(list: Seq<EventView>) -> bool {
    forall|i: int| 0 <= i < list.len() ==> !(#[trigger] list[i] is EndOfInput)
}

/// The events of one line never hold the end of input.
pub proof fn lemma_content_unended(s: Seq<char>, i: int)
    ensures
        content(s, i) is Ok ==> unended(content(s, i)->Ok_0.events),
{
}

/// What the grammar gives for a text is a complete stream: it ends with the
/// end of input and holds no other.
pub proof fn lemma_events_complete(s: Seq<char>, i: int)
    requires
        0 <= i <= s.len(),
    ensures
        events(s, i) is Ok ==> complete(events(s, i)->Ok_0),
    decreases s.len() - i,
{
    lemma_span_end(s, i, CharClass::Blank);
    let at = span_end(s, i, CharClass::Blank);
    if at < s.len() {
        if crate::grammar::is_break(s[at]) {
            lemma_events_complete(s, at + 1);
        } else if content(s, at) is Ok {
            let line = content(s, at)->Ok_0;
            lemma_content_next(s, at);
            lemma_content_unended(s, at);
            lemma_events_complete(s, line.next);
            if events(s, line.next) is Ok {
                let rest = events(s, line.next)->Ok_0;
                let head = seq![EventView::Indent((at - i) as nat)] + line.events;
                let all = head + rest;
                assert(events(s, i)->Ok_0 == all);
                assert(all.last() == rest.last());
                assert forall|k: int| 0 <= k < all.len() - 1 implies !(#[trigger] all[k]
                    is EndOfInput) by {
                    if k == 0 {
                    } else if k < head.len() {
                        assert(all[k] == line.events[k - 1]);
                    } else {
                        assert(all[k] == rest[k - head.len()]);
                    }
                }
            }
        }
    }
}

/// Compiles a template into its document tree.
///
/// The template is rejected exactly when the grammar rejects it, with the
/// grammar's error.
pub fn parse(file: &str) -> (res: Result<Ast, ParseError>)
    ensures
        tree_view(res) == parsed(file@),
        res is Ok ==> res->Ok_0@.is_document() && res->Ok_0@.sound(),
{
    let mut chars = chars_of(file);
    chars.push('\n');
    match scan_events(&chars) {
        Ok(found) => {
            proof {
                lemma_events_complete(chars@, 0);
                crate::laws::lemma_template_document_sound(chars@);
            }
            Ok(build(&found).unwrap())
        },
        Err(e) => Err(e),
    }
}

} // verus!
