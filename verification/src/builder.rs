//! The tree builder: one pass over the structural events that turns
//! indentation into nesting.
use vstd::prelude::*;
use vstd::string::StringExecFns;
use crate::ast::{Ast, Node, lemma_strings_push};
use crate::event::{Event, EventView, PartView, TagPart, events_view, parts_view};
use crate::text::str_eq;

verus! {

/// An ancestor that is still open, with the indentation of the line that
/// opened the node below it.
pub struct Frame {
    pub width: nat,
    pub node: Node,
}

/// What the builder carries from one event to the next.
pub struct BuildState {
    /// The width of the most recent line that was not suppressed.
    pub indent: nat,
    /// Inside a comment: the indentation of the comment's line.
    pub comment: Option<nat>,
    /// The open ancestors, outermost first.
    pub stack: Seq<Frame>,
    /// The innermost open node.
    pub cur: Node,
}

impl BuildState {
    /// The state before the first event: an empty root, nothing open.
    pub open spec fn start() -> BuildState {
        BuildState { indent: 0, comment: None, stack: seq![], cur: Node::root() }
    }

    /// Content events are being swallowed by a comment.
    pub open spec fn suppressed(self) -> bool {
        self.comment is Some
    }

    /// The state with `child` appended to the innermost open node.
    pub open spec fn append(self, child: Node) -> BuildState {
        BuildState { cur: self.cur.with_child(child), ..self }
    }
}

/// The effect of one capture of a tag declaration on the element under
/// construction. An attribute named `id` sets the id and one named `class`
/// adds a class, both by the unquoted value; any other attribute is kept as
/// written.
pub open spec fn apply_part(node: Node, part: PartView) -> Node {
    match part {
        PartView::Element(name) => Node { element: name, ..node },
        PartView::Class(name) => Node { class: node.class.push(name), ..node },
        PartView::Id(name) => Node { id: Some(name), ..node },
        PartView::Attr { key, quoted, value } => {
            if key == "id"@ {
                Node { id: Some(value), ..node }
            } else if key == "class"@ {
                Node { class: node.class.push(value), ..node }
            } else {
                Node { attrs: node.attrs.push(key + "="@ + quoted), ..node }
            }
        },
    }
}

/// The captures applied in order.
pub open spec fn apply_parts(node: Node, parts: Seq<PartView>) -> Node
    decreases parts.len(),
{
    if parts.len() == 0 {
        node
    } else {
        apply_part(apply_parts(node, parts.drop_last()), parts.last())
    }
}

/// The element that a tag declaration opens: a `div` unless it is named.
pub open spec fn element_of(parts: Seq<PartView>) -> Node {
    apply_parts(Node::named("div"@), parts)
}

/// Closes every open node whose opening line was indented by `width` or
/// more: each is attached to its parent as the last child. Gives the
/// ancestors that stay open and the node that is then innermost.
pub open spec fn unwind(stack: Seq<Frame>, cur: Node, width: nat) -> (Seq<Frame>, Node)
    decreases stack.len(),
{
    if stack.len() > 0 && stack.last().width >= width {
        unwind(stack.drop_last(), stack.last().node.with_child(cur), width)
    } else {
        (stack, cur)
    }
}

/// Closes every open node; gives the root.
pub open spec fn unwind_all(stack: Seq<Frame>, cur: Node) -> Node
    decreases stack.len(),
{
    if stack.len() > 0 {
        unwind_all(stack.drop_last(), stack.last().node.with_child(cur))
    } else {
        cur
    }
}

/// The state after one event.
pub open spec fn step(s: BuildState, e: EventView) -> BuildState {
    match e {
        EventView::Indent(width) => {
            if s.comment is Some && width > s.comment->0 {
                s
            } else {
                let (stack, cur) = unwind(s.stack, s.cur, width);
                BuildState { indent: width, comment: None, stack, cur }
            }
        },
        EventView::Doctype(text) => {
            if s.suppressed() {
                s
            } else {
                s.append(Node::special(":doctype"@, text))
            }
        },
        EventView::IncludeTarget(target) => {
            if s.suppressed() {
                s
            } else {
                s.append(Node::special(":include"@, target))
            }
        },
        EventView::TagOpen(parts) => {
            if s.suppressed() {
                s
            } else {
                BuildState {
                    stack: s.stack.push(Frame { width: s.indent, node: s.cur }),
                    cur: element_of(parts),
                    ..s
                }
            }
        },
        EventView::Comment => {
            if s.suppressed() {
                s
            } else {
                BuildState { comment: Some(s.indent), ..s }
            }
        },
        EventView::Text(text) => {
            if s.suppressed() {
                s
            } else {
                s.append(Node::special(":text"@, text))
            }
        },
        EventView::EndOfInput => BuildState {
            stack: seq![],
            cur: unwind_all(s.stack, s.cur),
            ..s
        },
    }
}

/// The state after a run of events.
pub open spec fn run(s: BuildState, events: Seq<EventView>) -> BuildState
    decreases events.len(),
{
    if events.len() == 0 {
        s
    } else {
        step(run(s, events.drop_last()), events.last())
    }
}

/// A stream is complete when it ends with the end of input and holds no
/// other.
pub open spec fn complete(events: Seq<EventView>) -> bool {
    &&& events.len() > 0
    &&& events.last() is EndOfInput
    &&& forall|i: int| 0 <= i < events.len() - 1 ==> !(#[trigger] events[i] is EndOfInput)
}

/// The document that a complete stream of events describes.
pub open spec fn document(events: Seq<EventView>) -> Node {
    run(BuildState::start(), events).cur
}

/// The models of the builder's stack.
pub open spec fn frames_view(stack: Seq<(usize, Ast)>) -> Seq<Frame> {
    stack.map_values(|f: (usize, Ast)| Frame { width: f.0 as nat, node: f.1@ })
}

/// The model of an optional width.
pub open spec fn width_view(w: Option<usize>) -> Option<nat> {
    match w {
        Some(w) => Some(w as nat),
        None => None,
    }
}

/// Attaches to their parents the open nodes that were opened at `width` or
/// deeper; returns the node that is then innermost.
fn close_to(stack: &mut Vec<(usize, Ast)>, cur: Ast, width: usize) -> (r: Ast)
    ensures
        (frames_view(final(stack)@), r@) == unwind(
            frames_view(old(stack)@),
            cur@,
            width as nat,
        ),
{
    let ghost first = cur@;
    let mut cur = cur;
    loop
        invariant
            unwind(frames_view(stack@), cur@, width as nat) == unwind(
                frames_view(old(stack)@),
                first,
                width as nat,
            ),
        ensures
            (frames_view(stack@), cur@) == unwind(frames_view(stack@), cur@, width as nat),
        decreases stack.len(),
    {
        let n = stack.len();
        if n == 0 || stack[n - 1].0 < width {
            break ;
        }
        let ghost before = stack@;
        let ghost below = cur@;
        let top = stack.pop().unwrap();
        let mut parent = top.1;
        parent.push_child(cur);
        cur = parent;
        proof {
            assert(frames_view(before).drop_last() =~= frames_view(stack@));
        }
    }
    cur
}

/// Attaches every open node to its parent; returns the root.
fn close_all(stack: &mut Vec<(usize, Ast)>, cur: Ast) -> (r: Ast)
    ensures
        final(stack)@.len() == 0,
        r@ == unwind_all(frames_view(old(stack)@), cur@),
{
    let ghost first = cur@;
    let mut cur = cur;
    while stack.len() > 0
        invariant
            unwind_all(frames_view(stack@), cur@) == unwind_all(frames_view(old(stack)@), first),
        decreases stack.len(),
    {
        let ghost before = stack@;
        let top = stack.pop().unwrap();
        let mut parent = top.1;
        parent.push_child(cur);
        cur = parent;
        proof {
            assert(frames_view(before).drop_last() =~= frames_view(stack@));
        }
    }
    cur
}

/// The element that a tag declaration opens.
fn open_element(parts: &Vec<TagPart>) -> (r: Ast)
    ensures
        r@ == element_of(parts_view(parts@)),
{
    let mut node = Ast::named("div");
    let mut i: usize = 0;
    while i < parts.len()
        invariant
            i <= parts@.len(),
            node@ == apply_parts(Node::named("div"@), parts_view(parts@).take(i as int)),
        decreases parts@.len() - i,
    {
        let ghost before = node;
        proof {
            assert(parts_view(parts@).take(i + 1).drop_last() =~= parts_view(parts@).take(
                i as int,
            ));
        }
        match &parts[i] {
            TagPart::Element(name) => {
                node.element = name.clone();
            },
            TagPart::Class(name) => {
                node.class.push(name.clone());
                proof {
                    lemma_strings_push(before.class@, *name);
                }
            },
            TagPart::Id(name) => {
                node.id = Some(name.clone());
            },
            TagPart::Attr { key, quoted, value } => {
                if str_eq(key.as_str(), "id") {
                    node.id = Some(value.clone());
                } else if str_eq(key.as_str(), "class") {
                    node.class.push(value.clone());
                    proof {
                        lemma_strings_push(before.class@, *value);
                    }
                } else {
                    let mut attr = key.clone();
                    attr.append("=");
                    attr.append(quoted.as_str());
                    node.attrs.push(attr);
                    proof {
                        lemma_strings_push(before.attrs@, attr);
                    }
                }
            },
        }
        i += 1;
    }
    proof {
        assert(parts_view(parts@).take(parts@.len() as int) =~= parts_view(parts@));
    }
    node
}

/// The model of the builder's four variables.
pub open spec fn state_view(
    indent: usize,
    comment: Option<usize>,
    stack: Seq<(usize, Ast)>,
    cur: Ast,
) -> BuildState {
    BuildState {
        indent: indent as nat,
        comment: width_view(comment),
        stack: frames_view(stack),
        cur: cur@,
    }
}

/// Builds the document tree from a stream of structural events.
///
/// Returns `None` exactly when the stream is not complete: when it is
/// empty, does not end with the end of input, or holds one earlier.
pub fn build(events: &Vec<Event>) -> (res: Option<Ast>)
    ensures
        complete(events_view(events@)) ==> res is Some && res->0@ == document(
            events_view(events@),
        ),
        !complete(events_view(events@)) ==> res is None,
        res is Some ==> res->0@.is_document(),
{
    let ghost evs = events_view(events@);
    proof {
        if complete(evs) {
            crate::laws::lemma_end_of_input_closes_all(evs);
        }
    }
    let n = events.len();
    if n == 0 {
        return None;
    }
    match &events[n - 1] {
        Event::EndOfInput => {},
        _ => {
            assert(!(evs.last() is EndOfInput));
            return None;
        },
    }
    let mut indent: usize = 0;
    let mut comment: Option<usize> = None;
    let mut cur = Ast::named(":document");
    let mut stack: Vec<(usize, Ast)> = Vec::new();
    let mut i: usize = 0;
    proof {
        assert(frames_view(stack@) =~= Seq::<Frame>::empty());
    }
    while i < n
        invariant
            n == events@.len(),
            evs == events_view(events@),
            evs.last() is EndOfInput,
            i <= n,
            forall|j: int| 0 <= j < i && j < n - 1 ==> !(#[trigger] evs[j] is EndOfInput),
            state_view(indent, comment, stack@, cur) == run(
                BuildState::start(),
                evs.take(i as int),
            ),
        decreases n - i,
    {
        let ghost before = state_view(indent, comment, stack@, cur);
        let ghost frames = stack@;
        proof {
            assert(evs.take(i + 1).drop_last() =~= evs.take(i as int));
            assert(evs.take(i + 1).last() == events@[i as int]@);
        }
        match &events[i] {
            Event::Indent(width) => {
                let inside = match comment {
                    Some(mark) => *width > mark,
                    None => false,
                };
                if !inside {
                    comment = None;
                    cur = close_to(&mut stack, cur, *width);
                    indent = *width;
                }
            },
            Event::Doctype(text) => {
                if comment.is_none() {
                    cur.push_child(Ast::special(":doctype", text.as_str()));
                }
            },
            Event::IncludeTarget(target) => {
                if comment.is_none() {
                    cur.push_child(Ast::special(":include", target.as_str()));
                }
            },
            Event::TagOpen(parts) => {
                if comment.is_none() {
                    let element = open_element(parts);
                    stack.push((indent, cur));
                    proof {
                        assert(frames_view(stack@) =~= frames_view(frames).push(
                            Frame { width: indent as nat, node: cur@ },
                        ));
                    }
                    cur = element;
                }
            },
            Event::Comment => {
                if comment.is_none() {
                    comment = Some(indent);
                }
            },
            Event::Text(text) => {
                if comment.is_none() {
                    cur.push_child(Ast::special(":text", text.as_str()));
                }
            },
            Event::EndOfInput => {
                if i + 1 != n {
                    assert(evs[i as int] is EndOfInput);
                    return None;
                }
                cur = close_all(&mut stack, cur);
                proof {
                    assert(frames_view(stack@) =~= Seq::<Frame>::empty());
                }
            },
        }
        assert(state_view(indent, comment, stack@, cur) == step(before, events@[i as int]@));
        i += 1;
    }
    proof {
        assert(evs.take(n as int) =~= evs);
    }
    Some(cur)
}

} // verus!
