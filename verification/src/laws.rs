//! What holds of the builder, the serializer and the expansion, whatever the
//! input.
use vstd::prelude::*;
use crate::ast::{Ast, Node};
use crate::builder::{
    BuildState,
    Frame,
    apply_part,
    apply_parts,
    document,
    element_of,
    run,
    step,
    unwind,
    unwind_all,
};
use crate::error::Error;
use crate::event::{EventView, PartView};
use crate::expand::expansion;
use crate::grammar::{
    CharClass,
    attribute_list,
    attributes,
    content,
    events,
    is_break,
    lemma_content_next,
    lemma_shorthands_next,
    lemma_span_end,
    shorthands,
    span_end,
    tag,
    template_events,
};
use crate::html::is_void;

verus! {

impl BuildState {
    /// The outermost open node is the root of the document.
    pub open spec fn rooted(self) -> bool {
        if self.stack.len() == 0 {
            self.cur.is_document()
        } else {
            self.stack[0].node.is_document()
        }
    }

    /// The open nodes were opened at indentations that do not decrease
    /// inwards, none deeper than the current line.
    pub open spec fn ordered(self) -> bool {
        &&& forall|i: int, j: int|
            0 <= i <= j < self.stack.len() ==> (#[trigger] self.stack[i]).width <= (
            #[trigger] self.stack[j]).width
        &&& forall|i: int|
            0 <= i < self.stack.len() ==> (#[trigger] self.stack[i]).width <= self.indent
    }
}

/// Running a list of events and then one more is running the longer list.
pub proof fn lemma_run_push(s: BuildState, events: Seq<EventView>, e: EventView)
    ensures
        run(s, events.push(e)) == step(run(s, events), e),
{
    assert(events.push(e).drop_last() =~= events);
}

/// Running one event is taking one step.
pub proof fn lemma_run_one(s: BuildState, e: EventView)
    ensures
        run(s, seq![e]) == step(s, e),
{
    assert(seq![e].drop_last() =~= Seq::<EventView>::empty());
    assert(run(s, Seq::<EventView>::empty()) == s);
}

/// Running two lists of events one after the other is running their
/// concatenation.
pub proof fn lemma_run_concat(s: BuildState, first: Seq<EventView>, second: Seq<EventView>)
    ensures
        run(s, first + second) == run(run(s, first), second),
    decreases second.len(),
{
    if second.len() == 0 {
        assert(first + second =~= first);
    } else {
        lemma_run_concat(s, first, second.drop_last());
        assert((first + second).drop_last() =~= first + second.drop_last());
        assert((first + second).last() == second.last());
    }
}

/// The nesting rule: a line indented by `width` closes every open node that
/// was opened at `width` or deeper, and no other. What stays open is the
/// outer part of the stack, all of it opened at less than `width`.
pub proof fn lemma_unwind_closes_deeper(stack: Seq<Frame>, cur: Node, width: nat)
    requires
        forall|i: int, j: int|
            0 <= i <= j < stack.len() ==> (#[trigger] stack[i]).width <= (#[trigger] stack[j]).width,
    ensures
        ({
            let left = unwind(stack, cur, width).0;
            &&& left.len() <= stack.len()
            &&& left == stack.take(left.len() as int)
            &&& forall|i: int| 0 <= i < left.len() ==> (#[trigger] stack[i]).width < width
            &&& forall|i: int| left.len() <= i < stack.len() ==> (#[trigger] stack[i]).width >= width
        }),
    decreases stack.len(),
{
    if stack.len() > 0 && stack.last().width >= width {
        let rest = stack.drop_last();
        let below = stack.last().node.with_child(cur);
        assert forall|i: int, j: int| 0 <= i <= j < rest.len() implies (#[trigger] rest[i]).width
            <= (#[trigger] rest[j]).width by {
            assert(rest[i] == stack[i] && rest[j] == stack[j]);
        }
        lemma_unwind_closes_deeper(rest, below, width);
        let left = unwind(rest, below, width).0;
        assert(left == unwind(stack, cur, width).0);
        assert(rest.take(left.len() as int) =~= stack.take(left.len() as int));
        assert forall|i: int| 0 <= i < left.len() implies (#[trigger] stack[i]).width < width by {
            assert(rest[i] == stack[i]);
        }
        assert forall|i: int| left.len() <= i < stack.len() implies (#[trigger] stack[i]).width
            >= width by {
            if i < rest.len() {
                assert(rest[i] == stack[i]);
            }
        }
    } else {
        assert(stack.take(stack.len() as int) =~= stack);
        if stack.len() > 0 {
            assert forall|i: int| 0 <= i < stack.len() implies (#[trigger] stack[i]).width
                < width by {
                assert(stack[i].width <= stack[stack.len() - 1].width);
            }
        }
    }
}

/// Closing nodes keeps the root at the bottom.
pub proof fn lemma_unwind_rooted(stack: Seq<Frame>, cur: Node, width: nat)
    requires
        if stack.len() == 0 {
            cur.is_document()
        } else {
            stack[0].node.is_document()
        },
    ensures
        ({
            let (left, inner) = unwind(stack, cur, width);
            if left.len() == 0 {
                inner.is_document()
            } else {
                left[0].node.is_document()
            }
        }),
    decreases stack.len(),
{
    if stack.len() > 0 && stack.last().width >= width {
        let rest = stack.drop_last();
        if rest.len() > 0 {
            assert(rest[0] == stack[0]);
        }
        lemma_unwind_rooted(rest, stack.last().node.with_child(cur), width);
    }
}

/// Closing every open node gives the root.
pub proof fn lemma_unwind_all_rooted(stack: Seq<Frame>, cur: Node)
    requires
        if stack.len() == 0 {
            cur.is_document()
        } else {
            stack[0].node.is_document()
        },
    ensures
        unwind_all(stack, cur).is_document(),
    decreases stack.len(),
{
    if stack.len() > 0 {
        let rest = stack.drop_last();
        if rest.len() > 0 {
            assert(rest[0] == stack[0]);
        }
        lemma_unwind_all_rooted(rest, stack.last().node.with_child(cur));
    }
}

/// Every event keeps the root at the bottom of the open nodes and the
/// indentations of the open nodes in order.
pub proof fn lemma_step_keeps_shape(s: BuildState, e: EventView)
    requires
        s.rooted(),
        s.ordered(),
    ensures
        step(s, e).rooted(),
        step(s, e).ordered(),
{
    let t = step(s, e);
    match e {
        EventView::Indent(width) => {
            if !(s.comment is Some && width > s.comment->0) {
                lemma_unwind_rooted(s.stack, s.cur, width);
                lemma_unwind_closes_deeper(s.stack, s.cur, width);
                let left = unwind(s.stack, s.cur, width).0;
                assert forall|i: int, j: int| 0 <= i <= j < left.len() implies (
                #[trigger] left[i]).width <= (#[trigger] left[j]).width by {
                    assert(left[i] == s.stack[i] && left[j] == s.stack[j]);
                }
                assert forall|i: int| 0 <= i < left.len() implies (#[trigger] left[i]).width
                    <= width by {
                    assert(left[i] == s.stack[i]);
                }
            }
        },
        EventView::TagOpen(parts) => {
            if !s.suppressed() {
                assert(t.stack[0] == if s.stack.len() == 0 {
                    Frame { width: s.indent, node: s.cur }
                } else {
                    s.stack[0]
                });
            }
        },
        EventView::EndOfInput => {
            lemma_unwind_all_rooted(s.stack, s.cur);
        },
        _ => {},
    }
}

/// After any run of events from the start, the root is at the bottom of the
/// open nodes and their indentations are in order.
pub proof fn lemma_run_keeps_shape(events: Seq<EventView>)
    ensures
        run(BuildState::start(), events).rooted(),
        run(BuildState::start(), events).ordered(),
    decreases events.len(),
{
    if events.len() > 0 {
        lemma_run_keeps_shape(events.drop_last());
        lemma_step_keeps_shape(run(BuildState::start(), events.drop_last()), events.last());
    }
}

/// The end of input closes every open node: nothing stays open, and what is
/// left is the root of the document.
pub proof fn lemma_end_of_input_closes_all(events: Seq<EventView>)
    requires
        events.len() > 0,
        events.last() is EndOfInput,
    ensures
        run(BuildState::start(), events).stack.len() == 0,
        document(events).is_document(),
        document(events) == unwind_all(
            run(BuildState::start(), events.drop_last()).stack,
            run(BuildState::start(), events.drop_last()).cur,
        ),
{
    lemma_run_keeps_shape(events);
}

/// A comment swallows what is indented deeper than its own line: after the
/// comment, events whose lines are all indented deeper than the comment's
/// line leave the tree as it was.
pub proof fn lemma_comment_swallows_deeper(s: BuildState, body: Seq<EventView>)
    requires
        !s.suppressed(),
        forall|i: int|
            0 <= i < body.len() ==> match #[trigger] body[i] {
                EventView::Indent(width) => width > s.indent,
                EventView::EndOfInput => false,
                _ => true,
            },
    ensures
        run(s, seq![EventView::Comment] + body) == (BuildState { comment: Some(s.indent), ..s }),
    decreases body.len(),
{
    let all = seq![EventView::Comment] + body;
    if body.len() == 0 {
        assert(all =~= seq![EventView::Comment]);
        lemma_run_one(s, EventView::Comment);
    } else {
        let shorter = body.drop_last();
        assert forall|i: int| 0 <= i < shorter.len() implies match #[trigger] shorter[i] {
            EventView::Indent(width) => width > s.indent,
            EventView::EndOfInput => false,
            _ => true,
        } by {
            assert(shorter[i] == body[i]);
        }
        lemma_comment_swallows_deeper(s, shorter);
        assert(all.drop_last() =~= seq![EventView::Comment] + shorter);
        assert(all.last() == body[body.len() - 1]);
    }
}

/// A comment ends with the first line that is not indented deeper than its
/// own: that line, and what follows, is processed as if the comment and
/// what it swallowed had not been there.
pub proof fn lemma_comment_ends_at_its_indent(
    s: BuildState,
    body: Seq<EventView>,
    width: nat,
    rest: Seq<EventView>,
)
    requires
        !s.suppressed(),
        width <= s.indent,
        forall|i: int|
            0 <= i < body.len() ==> match #[trigger] body[i] {
                EventView::Indent(width) => width > s.indent,
                EventView::EndOfInput => false,
                _ => true,
            },
    ensures
        run(s, seq![EventView::Comment] + body + seq![EventView::Indent(width)] + rest) == run(
            s,
            seq![EventView::Indent(width)] + rest,
        ),
{
    let comment = seq![EventView::Comment] + body;
    let line = seq![EventView::Indent(width)];
    lemma_comment_swallows_deeper(s, body);
    lemma_run_concat(s, comment + line, rest);
    lemma_run_concat(s, comment, line);
    lemma_run_concat(s, line, rest);
    let inside = run(s, comment);
    lemma_run_one(inside, EventView::Indent(width));
    lemma_run_one(s, EventView::Indent(width));
}

/// A dedent closes several levels at once: of three tags at growing
/// indentation, a line back at the first indentation closes all three, and
/// a tag on that line becomes the second child of the root.
pub proof fn lemma_dedent_closes_levels(
    a: Seq<PartView>,
    b: Seq<PartView>,
    c: Seq<PartView>,
    d: Seq<PartView>,
    w0: nat,
    w1: nat,
    w2: nat,
)
    requires
        w0 < w1 < w2,
    ensures
        document(
            seq![
                EventView::Indent(w0),
                EventView::TagOpen(a),
                EventView::Indent(w1),
                EventView::TagOpen(b),
                EventView::Indent(w2),
                EventView::TagOpen(c),
                EventView::Indent(w0),
                EventView::TagOpen(d),
                EventView::EndOfInput,
            ],
        ) == Node::root().with_child(
            element_of(a).with_child(element_of(b).with_child(element_of(c))),
        ).with_child(element_of(d)),
{
    let e0 = seq![EventView::Indent(w0)];
    let e1 = e0.push(EventView::TagOpen(a));
    let e2 = e1.push(EventView::Indent(w1));
    let e3 = e2.push(EventView::TagOpen(b));
    let e4 = e3.push(EventView::Indent(w2));
    let e5 = e4.push(EventView::TagOpen(c));
    let e6 = e5.push(EventView::Indent(w0));
    let e7 = e6.push(EventView::TagOpen(d));
    let e8 = e7.push(EventView::EndOfInput);
    let start = BuildState::start();
    let f0 = Frame { width: w0, node: Node::root() };
    let f1 = Frame { width: w1, node: element_of(a) };
    let f2 = Frame { width: w2, node: element_of(b) };
    let inner = element_of(b).with_child(element_of(c));
    let first = element_of(a).with_child(inner);
    let top = Node::root().with_child(first);

    lemma_run_one(start, EventView::Indent(w0));
    let s0 = run(start, e0);
    assert(unwind(start.stack, start.cur, w0) == (start.stack, start.cur));
    assert(s0 == BuildState { indent: w0, ..start });
    lemma_run_push(start, e0, EventView::TagOpen(a));
    let s1 = run(start, e1);
    assert(s1.stack =~= seq![f0]);
    lemma_run_push(start, e1, EventView::Indent(w1));
    let s2 = run(start, e2);
    assert(unwind(s1.stack, s1.cur, w1) == (s1.stack, s1.cur));
    lemma_run_push(start, e2, EventView::TagOpen(b));
    let s3 = run(start, e3);
    assert(s3.stack =~= seq![f0, f1]);
    lemma_run_push(start, e3, EventView::Indent(w2));
    let s4 = run(start, e4);
    assert(unwind(s3.stack, s3.cur, w2) == (s3.stack, s3.cur));
    lemma_run_push(start, e4, EventView::TagOpen(c));
    let s5 = run(start, e5);
    assert(s5.stack =~= seq![f0, f1, f2]);
    assert(s5.cur == element_of(c));
    lemma_run_push(start, e5, EventView::Indent(w0));
    let s6 = run(start, e6);
    assert(s5.stack.drop_last() =~= seq![f0, f1]);
    assert(seq![f0, f1].drop_last() =~= seq![f0]);
    assert(seq![f0].drop_last() =~= Seq::<Frame>::empty());
    assert(unwind(Seq::<Frame>::empty(), top, w0) == (Seq::<Frame>::empty(), top));
    assert(unwind(seq![f0], first, w0) == (Seq::<Frame>::empty(), top));
    assert(unwind(seq![f0, f1], inner, w0) == (Seq::<Frame>::empty(), top));
    assert(unwind(s5.stack, s5.cur, w0) == (Seq::<Frame>::empty(), top));
    assert(s6.cur == top && s6.stack == Seq::<Frame>::empty() && s6.indent == w0);
    lemma_run_push(start, e6, EventView::TagOpen(d));
    let s7 = run(start, e7);
    assert(s7.stack =~= seq![f0.with_node(top)]);
    lemma_run_push(start, e7, EventView::EndOfInput);
    assert(s7.stack.drop_last() =~= Seq::<Frame>::empty());
    assert(unwind_all(Seq::<Frame>::empty(), top.with_child(element_of(d))) == top.with_child(
        element_of(d),
    ));
    assert(unwind_all(s7.stack, s7.cur) == top.with_child(element_of(d)));
    assert(e8 =~= seq![
        EventView::Indent(w0),
        EventView::TagOpen(a),
        EventView::Indent(w1),
        EventView::TagOpen(b),
        EventView::Indent(w2),
        EventView::TagOpen(c),
        EventView::Indent(w0),
        EventView::TagOpen(d),
        EventView::EndOfInput,
    ]);
}

impl Frame {
    /// The frame with another node.
    pub open spec fn with_node(self, node: Node) -> Frame {
        Frame { node, ..self }
    }
}

/// The four marks are different names.
pub proof fn lemma_marks_differ()
    ensures
        ":document"@ != ":text"@,
        ":document"@ != ":doctype"@,
        ":document"@ != ":include"@,
        ":text"@ != ":doctype"@,
        ":text"@ != ":include"@,
        ":doctype"@ != ":include"@,
{
    reveal_strlit(":document");
    reveal_strlit(":text");
    reveal_strlit(":doctype");
    reveal_strlit(":include");
    assert(":document"@[2] == 'o');
    assert(":text"@[2] == 'e');
    assert(":doctype"@[2] == 'o');
    assert(":include"@[2] == 'n');
    assert(":document"@.len() == 9);
    assert(":doctype"@.len() == 8);
}

/// A mark starts with a colon.
pub open spec fn is_mark(name: Seq<char>) -> bool {
    ||| name == ":document"@
    ||| name == ":text"@
    ||| name == ":doctype"@
    ||| name == ":include"@
}

/// The name of a void element is no mark.
pub proof fn lemma_void_is_no_mark(name: Seq<char>)
    requires
        is_void(name),
    ensures
        !is_mark(name),
{
    reveal_strlit(":document");
    reveal_strlit(":text");
    reveal_strlit(":doctype");
    reveal_strlit(":include");
    reveal_strlit("area");
    reveal_strlit("base");
    reveal_strlit("br");
    reveal_strlit("col");
    reveal_strlit("command");
    reveal_strlit("embed");
    reveal_strlit("hr");
    reveal_strlit("img");
    reveal_strlit("input");
    reveal_strlit("keygen");
    reveal_strlit("link");
    reveal_strlit("meta");
    reveal_strlit("param");
    reveal_strlit("source");
    reveal_strlit("track");
    reveal_strlit("wbr");
    assert(name[0] != ':');
    assert(":document"@[0] == ':');
    assert(":text"@[0] == ':');
    assert(":doctype"@[0] == ':');
    assert(":include"@[0] == ':');
}

/// A void element is written as its opening tag alone: no child shows in
/// the output and no closing tag is written, whatever its children are.
pub proof fn lemma_void_element_has_no_content(node: Node, children: Seq<Node>)
    requires
        is_void(node.element),
    ensures
        node.with_children(children).renderable(),
        node.with_children(children).html() == node.open_tag(),
{
    lemma_void_is_no_mark(node.element);
}

/// A text line is written as its text.
pub proof fn lemma_text_html(text: Seq<char>)
    ensures
        Node::special(":text"@, text).html() == text,
        Node::special(":text"@, text).renderable(),
{
    lemma_marks_differ();
}

/// Between two text lines that follow each other stands exactly one line
/// break.
pub proof fn lemma_text_after_text(node: Node, k: int)
    requires
        0 < k < node.children.len(),
        node.children[k - 1].is_text(),
        node.children[k].is_text(),
    ensures
        node.children_html((k + 1) as nat) == node.children_html(k as nat) + "\n"@
            + node.children[k].html(),
{
}

/// Nothing stands before a child that is no text line, or that follows a
/// child that is no text line, or that is the first child.
pub proof fn lemma_no_break_elsewhere(node: Node, k: int)
    requires
        0 <= k < node.children.len(),
        k == 0 || !node.children[k - 1].is_text() || !node.children[k].is_text(),
    ensures
        node.children_html((k + 1) as nat) == node.children_html(k as nat)
            + node.children[k].html(),
{
    assert(node.children_html(k as nat) + Seq::<char>::empty() =~= node.children_html(k as nat));
}

/// Two text lines under a root are written with one line break between
/// them; a text line after another node is written right after it.
pub proof fn lemma_text_merge(first: Node, a: Seq<char>, b: Seq<char>)
    requires
        !first.is_text(),
    ensures
        Node::root().with_children(
            seq![Node::special(":text"@, a), Node::special(":text"@, b)],
        ).html() == a + "\n"@ + b,
        Node::root().with_children(seq![first, Node::special(":text"@, b)]).html()
            == first.html() + b,
{
    lemma_marks_differ();
    lemma_text_html(a);
    lemma_text_html(b);
    let ta = Node::special(":text"@, a);
    let tb = Node::special(":text"@, b);
    let two = Node::root().with_children(seq![ta, tb]);
    assert(two.children_html(0) =~= Seq::<char>::empty());
    assert(two.children_html(1) =~= a) by {
        assert(two.children_html(1) == two.children_html(0) + two.gap(0) + two.children[0].html());
    }
    assert(two.children_html(2) == two.children_html(1) + two.gap(1) + two.children[1].html());
    assert(two.html() == two.children_html(2));
    let mixed = Node::root().with_children(seq![first, tb]);
    assert(mixed.children_html(0) =~= Seq::<char>::empty());
    assert(mixed.children_html(1) =~= first.html()) by {
        assert(mixed.children_html(1) == mixed.children_html(0) + mixed.gap(0)
            + mixed.children[0].html());
    }
    assert(mixed.children_html(2) == mixed.children_html(1) + mixed.gap(1)
        + mixed.children[1].html());
    assert(mixed.children_html(2) =~= first.html() + b);
    assert(mixed.html() == mixed.children_html(2));
}

/// The id that is written last is kept and every class is kept in the
/// order of writing: a tag with an id and a class in shorthand and both
/// again in its attribute list has the id of the list and both classes.
pub proof fn lemma_last_id_and_all_classes(
    name: Seq<char>,
    short_id: Seq<char>,
    short_class: Seq<char>,
    id: Seq<char>,
    quoted_id: Seq<char>,
    class: Seq<char>,
    quoted_class: Seq<char>,
)
    ensures
        element_of(
            seq![
                PartView::Element(name),
                PartView::Id(short_id),
                PartView::Class(short_class),
                PartView::Attr { key: "id"@, quoted: quoted_id, value: id },
                PartView::Attr { key: "class"@, quoted: quoted_class, value: class },
            ],
        ) == (Node {
            children: seq![],
            id: Some(id),
            element: name,
            class: seq![short_class, class],
            attrs: seq![],
        }),
{
    reveal_strlit("id");
    reveal_strlit("class");
    assert("id"@.len() != "class"@.len());
    let q0 = seq![PartView::Element(name)];
    let q1 = q0.push(PartView::Id(short_id));
    let q2 = q1.push(PartView::Class(short_class));
    let q3 = q2.push(PartView::Attr { key: "id"@, quoted: quoted_id, value: id });
    let q4 = q3.push(PartView::Attr { key: "class"@, quoted: quoted_class, value: class });
    let div = Node::named("div"@);
    assert(q0.drop_last() =~= Seq::<PartView>::empty());
    assert(apply_parts(div, Seq::<PartView>::empty()) == div);
    assert(apply_parts(div, q0) == apply_part(div, q0.last()));
    assert(q1.drop_last() =~= q0);
    assert(apply_parts(div, q1) == apply_part(apply_parts(div, q0), q1.last()));
    assert(q2.drop_last() =~= q1);
    assert(apply_parts(div, q2) == apply_part(apply_parts(div, q1), q2.last()));
    assert(q3.drop_last() =~= q2);
    assert(apply_parts(div, q3) == apply_part(apply_parts(div, q2), q3.last()));
    assert(q4.drop_last() =~= q3);
    assert(apply_parts(div, q4) == apply_part(apply_parts(div, q3), q4.last()));
    assert(apply_parts(div, q4).class =~= seq![short_class, class]);
    assert(q4 =~= seq![
        PartView::Element(name),
        PartView::Id(short_id),
        PartView::Class(short_class),
        PartView::Attr { key: "id"@, quoted: quoted_id, value: id },
        PartView::Attr { key: "class"@, quoted: quoted_class, value: class },
    ]);
}

/// Expansion keeps every node in its place: a node that is no inclusion
/// keeps its name, id, classes and attributes and the number of its
/// children, and each child of the result is the expansion of the child at
/// the same place.
pub proof fn lemma_expansion_keeps_places<E, F: Fn(String) -> Result<Ast, E>>(
    inc: F,
    node: Node,
    depth: nat,
    out: Node,
    i: int,
)
    requires
        !node.is_include(),
        expansion(inc, node, depth, Ok::<Node, Error<E>>(out)),
        0 <= i < node.children.len(),
    ensures
        out == node.with_children(out.children),
        out.children.len() == node.children.len(),
        expansion(inc, node.children[i], depth, Ok::<Node, Error<E>>(out.children[i])),
{
}

/// A sound tree without inclusions can be written out.
pub proof fn lemma_sound_tree_renders(node: Node)
    requires
        node.sound(),
        node.include_free(),
    ensures
        node.renderable(),
    decreases node,
{
    assert forall|i: int| 0 <= i < node.children.len() implies (
    #[trigger] node.children[i]).renderable() by {
        assert(node.children[i].sound());
        assert(node.children[i].include_free());
        lemma_sound_tree_renders(node.children[i]);
    }
}

/// No capture of the list names the element by a mark.
pub open spec fn plain_parts(parts: Seq<PartView>) -> bool {
    forall|i: int|
        0 <= i < parts.len() ==> match #[trigger] parts[i] {
            PartView::Element(name) => !is_mark(name),
            _ => true,
        }
}

/// No tag of the stream names its element by a mark.
pub open spec fn plain_events(events: Seq<EventView>) -> bool {
    forall|i: int|
        0 <= i < events.len() ==> match #[trigger] events[i] {
            EventView::TagOpen(parts) => plain_parts(parts),
            _ => true,
        }
}

/// Captures that name no mark leave a childless node that bears no mark as
/// they found it.
pub proof fn lemma_apply_parts_plain(node: Node, parts: Seq<PartView>)
    requires
        plain_parts(parts),
        !is_mark(node.element),
        node.children.len() == 0,
    ensures
        !is_mark(apply_parts(node, parts).element),
        apply_parts(node, parts).children.len() == 0,
        apply_parts(node, parts).sound(),
    decreases parts.len(),
{
    if parts.len() > 0 {
        let shorter = parts.drop_last();
        assert forall|i: int| 0 <= i < shorter.len() implies match #[trigger] shorter[i] {
            PartView::Element(name) => !is_mark(name),
            _ => true,
        } by {
            assert(shorter[i] == parts[i]);
        }
        lemma_apply_parts_plain(node, shorter);
        assert(parts.last() == parts[parts.len() - 1]);
    }
}

/// Every node of the state, open or innermost, is sound.
pub open spec fn sound_state(s: BuildState) -> bool {
    &&& s.cur.sound()
    &&& forall|i: int| 0 <= i < s.stack.len() ==> (#[trigger] s.stack[i]).node.sound()
}

/// A sound node with one more sound child is sound.
pub proof fn lemma_with_child_sound(parent: Node, child: Node)
    requires
        parent.sound(),
        child.sound(),
    ensures
        parent.with_child(child).sound(),
{
    let both = parent.with_child(child);
    assert forall|i: int| 0 <= i < both.children.len() implies (#[trigger] both.children[i]).sound() by {
        if i < parent.children.len() {
            assert(both.children[i] == parent.children[i]);
        }
    }
}

/// Closing sound nodes gives sound nodes.
pub proof fn lemma_unwind_sound(stack: Seq<Frame>, cur: Node, width: nat)
    requires
        cur.sound(),
        forall|i: int| 0 <= i < stack.len() ==> (#[trigger] stack[i]).node.sound(),
    ensures
        unwind(stack, cur, width).1.sound(),
        forall|i: int|
            0 <= i < unwind(stack, cur, width).0.len() ==> (#[trigger] unwind(
                stack,
                cur,
                width,
            ).0[i]).node.sound(),
        unwind_all(stack, cur).sound(),
    decreases stack.len(),
{
    if stack.len() > 0 {
        let rest = stack.drop_last();
        let below = stack.last().node.with_child(cur);
        assert(stack.last() == stack[stack.len() - 1]);
        lemma_with_child_sound(stack.last().node, cur);
        assert forall|i: int| 0 <= i < rest.len() implies (#[trigger] rest[i]).node.sound() by {
            assert(rest[i] == stack[i]);
        }
        lemma_unwind_sound(rest, below, width);
    }
}

/// An event whose tag names no mark keeps every node sound.
pub proof fn lemma_step_sound(s: BuildState, e: EventView)
    requires
        sound_state(s),
        match e {
            EventView::TagOpen(parts) => plain_parts(parts),
            _ => true,
        },
    ensures
        sound_state(step(s, e)),
{
    lemma_marks_differ();
    let t = step(s, e);
    match e {
        EventView::Indent(width) => {
            lemma_unwind_sound(s.stack, s.cur, width);
        },
        EventView::Doctype(text) => {
            lemma_with_child_sound(s.cur, Node::special(":doctype"@, text));
        },
        EventView::IncludeTarget(target) => {
            lemma_with_child_sound(s.cur, Node::special(":include"@, target));
        },
        EventView::Text(text) => {
            lemma_with_child_sound(s.cur, Node::special(":text"@, text));
        },
        EventView::TagOpen(parts) => {
            if !s.suppressed() {
                lemma_div_is_no_mark();
                lemma_apply_parts_plain(Node::named("div"@), parts);
                assert forall|i: int| 0 <= i < t.stack.len() implies (
                #[trigger] t.stack[i]).node.sound() by {
                    if i < s.stack.len() {
                        assert(t.stack[i] == s.stack[i]);
                    }
                }
            }
        },
        EventView::Comment => {},
        EventView::EndOfInput => {
            lemma_unwind_sound(s.stack, s.cur, 0);
        },
    }
}

/// The name that a tag has when none is written is no mark.
pub proof fn lemma_div_is_no_mark()
    ensures
        !is_mark("div"@),
{
    reveal_strlit("div");
    reveal_strlit(":document");
    reveal_strlit(":text");
    reveal_strlit(":doctype");
    reveal_strlit(":include");
    assert("div"@.len() == 3);
}

/// The document of a stream whose tags name no mark is sound: each of its
/// text lines, doctypes and inclusions has its payload.
pub proof fn lemma_document_sound(events: Seq<EventView>)
    requires
        plain_events(events),
    ensures
        sound_state(run(BuildState::start(), events)),
        document(events).sound(),
    decreases events.len(),
{
    if events.len() > 0 {
        let shorter = events.drop_last();
        assert forall|i: int| 0 <= i < shorter.len() implies match #[trigger] shorter[i] {
            EventView::TagOpen(parts) => plain_parts(parts),
            _ => true,
        } by {
            assert(shorter[i] == events[i]);
        }
        lemma_document_sound(shorter);
        assert(events.last() == events[events.len() - 1]);
        lemma_step_sound(run(BuildState::start(), shorter), events.last());
    } else {
        lemma_marks_differ();
    }
}

/// The shorthands of a tag are classes and ids.
pub proof fn lemma_shorthands_kinds(s: Seq<char>, i: int)
    requires
        0 <= i <= s.len(),
    ensures
        shorthands(s, i) is Ok ==> forall|k: int|
            0 <= k < shorthands(s, i)->Ok_0.parts.len() ==> !(#[trigger] shorthands(
                s,
                i,
            )->Ok_0.parts[k] is Element),
    decreases s.len() - i,
{
    if i < s.len() && (s[i] == '.' || s[i] == '#') {
        lemma_span_end(s, i + 1, CharClass::Name);
        let end = span_end(s, i + 1, CharClass::Name);
        if end > i + 1 {
            lemma_shorthands_kinds(s, end);
        }
    }
}

/// The entries of an attribute list are attributes.
pub proof fn lemma_attributes_kinds(s: Seq<char>, i: int)
    requires
        0 <= i <= s.len(),
    ensures
        attributes(s, i) is Ok ==> forall|k: int|
            0 <= k < attributes(s, i)->Ok_0.parts.len() ==> !(#[trigger] attributes(
                s,
                i,
            )->Ok_0.parts[k] is Element),
    decreases s.len() - i,
{
    lemma_span_end(s, i, CharClass::Separator);
    let at = span_end(s, i, CharClass::Separator);
    if at < s.len() && s[at] != ')' {
        lemma_span_end(s, at, CharClass::Key);
        let eq = span_end(s, at, CharClass::Key);
        if eq > at && eq < s.len() && s[eq] == '=' && eq + 1 < s.len() && crate::grammar::is_quote(
            s[eq + 1],
        ) {
            let open = eq + 1;
            lemma_span_end(s, open + 1, CharClass::Until(s[open]));
            let close = span_end(s, open + 1, CharClass::Until(s[open]));
            if close < s.len() {
                lemma_attributes_kinds(s, close + 1);
            }
        }
    }
}

/// A name that starts with a character of a name is no mark.
pub proof fn lemma_name_is_no_mark(name: Seq<char>)
    requires
        name.len() > 0,
        crate::grammar::is_name_char(name[0]),
    ensures
        !is_mark(name),
{
    reveal_strlit(":document");
    reveal_strlit(":text");
    reveal_strlit(":doctype");
    reveal_strlit(":include");
    assert(":document"@[0] == ':');
    assert(":text"@[0] == ':');
    assert(":doctype"@[0] == ':');
    assert(":include"@[0] == ':');
}

/// The events of a line name no element by a mark.
pub proof fn lemma_content_plain(s: Seq<char>, i: int)
    requires
        0 <= i < s.len(),
    ensures
        content(s, i) is Ok ==> plain_events(content(s, i)->Ok_0.events),
{
    if tag(s, i) is Ok {
        lemma_span_end(s, i, CharClass::Name);
        let end = span_end(s, i, CharClass::Name);
        let head = if end > i {
            seq![PartView::Element(s.subrange(i, end))]
        } else {
            seq![]
        };
        if end > i {
            assert(s.subrange(i, end)[0] == s[i]);
            lemma_name_is_no_mark(s.subrange(i, end));
        }
        lemma_shorthands_next(s, end);
        lemma_shorthands_kinds(s, end);
        let short = shorthands(s, end)->Ok_0;
        if short.next < s.len() && s[short.next] == '(' {
            lemma_attributes_kinds(s, short.next + 1);
        }
        let list = attribute_list(s, short.next)->Ok_0;
        let parts = head + short.parts + list.parts;
        assert forall|k: int| 0 <= k < parts.len() implies match #[trigger] parts[k] {
            PartView::Element(name) => !is_mark(name),
            _ => true,
        } by {
            if k < head.len() {
                assert(parts[k] == head[k]);
            } else if k < head.len() + short.parts.len() {
                assert(parts[k] == short.parts[k - head.len()]);
            } else {
                assert(parts[k] == list.parts[k - head.len() - short.parts.len()]);
            }
        }
        assert(plain_parts(parts));
    }
}

/// The events of a text name no element by a mark.
pub proof fn lemma_events_plain(s: Seq<char>, i: int)
    requires
        0 <= i <= s.len(),
    ensures
        events(s, i) is Ok ==> plain_events(events(s, i)->Ok_0),
    decreases s.len() - i,
{
    lemma_span_end(s, i, CharClass::Blank);
    let at = span_end(s, i, CharClass::Blank);
    if at < s.len() {
        if is_break(s[at]) {
            lemma_events_plain(s, at + 1);
        } else if content(s, at) is Ok {
            let line = content(s, at)->Ok_0;
            lemma_content_next(s, at);
            lemma_content_plain(s, at);
            lemma_events_plain(s, line.next);
            if events(s, line.next) is Ok {
                let rest = events(s, line.next)->Ok_0;
                let head = seq![EventView::Indent((at - i) as nat)] + line.events;
                let all = head + rest;
                assert(events(s, i)->Ok_0 == all);
                assert forall|k: int| 0 <= k < all.len() implies match #[trigger] all[k] {
                    EventView::TagOpen(parts) => plain_parts(parts),
                    _ => true,
                } by {
                    if k == 0 {
                    } else if k < head.len() {
                        assert(all[k] == line.events[k - 1]);
                    } else {
                        assert(all[k] == rest[k - head.len()]);
                    }
                }
            }
        }
    }
}

/// The document of a template is sound and its root is the root of a
/// document: a template without inclusions can be written out as it is
/// compiled.
pub proof fn lemma_template_document_sound(s: Seq<char>)
    ensures
        template_events(s) is Ok ==> {
            &&& document(template_events(s)->Ok_0).sound()
            &&& document(template_events(s)->Ok_0).is_document()
        },
{
    if template_events(s) is Ok {
        let found = template_events(s)->Ok_0;
        lemma_events_plain(s, 0);
        lemma_document_sound(found);
        crate::parser::lemma_events_complete(s, 0);
        lemma_end_of_input_closes_all(found);
    }
}

/// A template without inclusions gives the same output whenever it is
/// compiled: its document is fixed by its text, expanding that document
/// has one outcome, the document itself, whatever the resolver and the
/// depth, and the document can be written out, as the HTML that its model
/// fixes.
pub proof fn lemma_template_without_includes<E, F: Fn(String) -> Result<Ast, E>>(
    source: Seq<char>,
    inc: F,
    depth: nat,
    res: Result<Node, Error<E>>,
)
    requires
        crate::parser::parsed(source) is Ok,
        crate::parser::parsed(source)->Ok_0.include_free(),
        expansion(inc, crate::parser::parsed(source)->Ok_0, depth, res),
    ensures
        res == Ok::<Node, Error<E>>(crate::parser::parsed(source)->Ok_0),
        crate::parser::parsed(source)->Ok_0.renderable(),
{
    let tree = crate::parser::parsed(source)->Ok_0;
    crate::expand::lemma_expansion_without_includes(inc, tree, depth, res);
    lemma_template_document_sound(source.push('\n'));
    lemma_sound_tree_renders(tree);
}

} // verus!
