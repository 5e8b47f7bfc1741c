use pug::builder::build;
use pug::{parse, Ast, Event, TagPart};

fn s(text: &str) -> String {
    text.to_string()
}

fn tag(name: &str) -> Event {
    Event::TagOpen(vec![TagPart::Element(s(name))])
}

fn node(element: &str, children: Vec<Ast>) -> Ast {
    Ast { children, id: None, element: s(element), class: vec![], attrs: vec![] }
}

fn render(template: &str) -> String {
    let mut html = Vec::new();
    parse(template).unwrap().to_html(&mut html);
    String::from_utf8(html).unwrap()
}

#[test]
fn an_incomplete_stream_is_refused() {
    assert_eq!(build(&vec![]), None);
    assert_eq!(build(&vec![Event::Indent(0), tag("a")]), None);
    assert_eq!(build(&vec![Event::EndOfInput, Event::EndOfInput]), None);
    assert_eq!(build(&vec![Event::Indent(0), Event::EndOfInput, tag("a"), Event::EndOfInput]), None);
}

#[test]
fn the_empty_stream_gives_the_empty_root() {
    assert_eq!(build(&vec![Event::EndOfInput]), Some(node(":document", vec![])));
}

#[test]
fn a_dedent_closes_every_deeper_level() {
    let events = vec![
        Event::Indent(1),
        tag("a"),
        Event::Indent(3),
        tag("b"),
        Event::Indent(7),
        tag("c"),
        Event::Indent(1),
        tag("d"),
        Event::EndOfInput,
    ];
    let expected = node(
        ":document",
        vec![
            node("a", vec![node("b", vec![node("c", vec![])])]),
            node("d", vec![]),
        ],
    );
    assert_eq!(build(&events), Some(expected));
}

#[test]
fn dedent_closes_levels_in_the_output() {
    assert_eq!(render("a\n  b\n    c\nd"), "<a><b><c></c></b></a><d></d>");
    assert_eq!(render("a\n  b\n    c\n  d"), "<a><b><c></c></b><d></d></a>");
    assert_eq!(render("a\n    b\n  c"), "<a><b></b><c></c></a>");
}

#[test]
fn the_same_indentation_makes_siblings() {
    assert_eq!(render("a\nb\nc"), "<a></a><b></b><c></c>");
    assert_eq!(render("  a\n  b"), "<a></a><b></b>");
}

#[test]
fn a_comment_swallows_what_is_deeper() {
    assert_eq!(
        render("a\n  // note\n    b\n    | text\n      c\n  d\ne"),
        "<a><d></d></a><e></e>"
    );
    assert_eq!(render("// note\n  a\n  // more\n  doctype html\n  include x\nb"), "<b></b>");
    assert_eq!(render("a\n  // note\n\n    b\n"), "<a></a>");
}

#[test]
fn a_comment_without_content_changes_nothing() {
    assert_eq!(render("a\n  // note\n  b"), "<a><b></b></a>");
    assert_eq!(render("a\n  //\nb"), "<a></a><b></b>");
}

#[test]
fn a_comment_is_built_as_no_node() {
    let events = vec![
        Event::Indent(0),
        tag("a"),
        Event::Indent(2),
        Event::Comment,
        Event::Indent(4),
        Event::Text(s("gone")),
        Event::Doctype(s("gone")),
        Event::IncludeTarget(s("gone")),
        tag("gone"),
        Event::Comment,
        Event::Indent(3),
        Event::Text(s("gone")),
        Event::Indent(2),
        Event::Text(s("kept")),
        Event::EndOfInput,
    ];
    let expected = node(":document", vec![node("a", vec![Ast::special(":text", "kept")])]);
    assert_eq!(build(&events), Some(expected));
}

#[test]
fn the_last_id_wins_and_classes_add_up() {
    let events = vec![
        Event::Indent(0),
        Event::TagOpen(vec![
            TagPart::Element(s("a")),
            TagPart::Id(s("x")),
            TagPart::Class(s("b")),
            TagPart::Attr { key: s("id"), quoted: s("\"v\""), value: s("v") },
            TagPart::Attr { key: s("class"), quoted: s("\"c\""), value: s("c") },
            TagPart::Attr { key: s("k"), quoted: s("\"w\""), value: s("w") },
            TagPart::Class(s("b")),
            TagPart::Attr { key: s("k"), quoted: s("'z'"), value: s("z") },
        ]),
        Event::EndOfInput,
    ];
    let expected = node(
        ":document",
        vec![Ast {
            children: vec![],
            id: Some(s("v")),
            element: s("a"),
            class: vec![s("b"), s("c"), s("b")],
            attrs: vec![s("k=\"w\""), s("k='z'")],
        }],
    );
    assert_eq!(build(&events), Some(expected));
    assert_eq!(render("a#x(id=\"v\" id=\"w\")"), "<a id=\"w\"></a>");
    assert_eq!(render("a#x#y"), "<a id=\"y\"></a>");
    assert_eq!(render("a.b.b(class=\"b\")"), "<a class=\"b b b\"></a>");
}

#[test]
fn content_lines_become_children_in_order() {
    let tree = parse("doctype html\n| one\ninclude two\nthree").unwrap();
    let expected = node(
        ":document",
        vec![
            Ast::special(":doctype", "html"),
            Ast::special(":text", "one"),
            Ast::special(":include", "two"),
            node("three", vec![]),
        ],
    );
    assert_eq!(tree, expected);
}

#[test]
fn the_end_of_input_closes_what_is_open() {
    let expected = "<a><b><c>t</c></b></a>";
    assert_eq!(render("a\n  b\n    c t"), expected);
    assert_eq!(render("a\n  b\n    c t\n"), expected);
    assert_eq!(render("a\n  b\n    c t\n\n\n\n"), expected);
    assert_eq!(render("a\n  b\n    c t\n      \n  \n"), expected);
}

#[test]
fn special_makes_a_childless_node() {
    let made = Ast::special(":text", "hello");
    assert_eq!(made.element, ":text");
    assert_eq!(made.id, Some(s("hello")));
    assert!(made.children.is_empty());
    assert!(made.class.is_empty());
    assert!(made.attrs.is_empty());
    assert_eq!(Ast::named("p"), node("p", vec![]));
    assert_eq!(Ast::default(), node("", vec![]));
}

#[test]
fn push_child_appends() {
    let mut parent = Ast::named("ul");
    parent.push_child(Ast::named("li"));
    parent.push_child(Ast::special(":text", "x"));
    assert_eq!(parent, node("ul", vec![node("li", vec![]), Ast::special(":text", "x")]));
}
