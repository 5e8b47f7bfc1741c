use pug::html::is_void_name;
use pug::text::{chars_of, str_eq, string_of};
use pug::{parse, Ast};

fn s(text: &str) -> String {
    text.to_string()
}

fn render(template: &str) -> String {
    let mut html = Vec::new();
    parse(template).unwrap().to_html(&mut html);
    String::from_utf8(html).unwrap()
}

fn written(tree: &Ast) -> String {
    let mut html = Vec::new();
    tree.to_html(&mut html);
    String::from_utf8(html).unwrap()
}

#[test]
fn a_void_element_has_no_content_and_no_closing_tag() {
    assert_eq!(render("br\n  span\n  | text\np"), "<br><p></p>");
    assert_eq!(render("img(src=\"a.png\") caption"), "<img src=\"a.png\">");
    let names = [
        "area", "base", "br", "col", "command", "embed", "hr", "img", "input", "keygen", "link",
        "meta", "param", "source", "track", "wbr",
    ];
    for name in names {
        assert!(is_void_name(name));
        let mut tree = Ast::named(name);
        assert_eq!(written(&tree), format!("<{}>", name));
        tree.push_child(Ast::named("p"));
        tree.push_child(Ast::special(":text", "t"));
        tree.push_child(Ast::special(":include", "never"));
        assert!(tree.renderable());
        assert_eq!(written(&tree), format!("<{}>", name));
    }
    assert!(!is_void_name("div"));
    assert!(!is_void_name("BR"));
    assert!(!is_void_name(""));
}

#[test]
fn text_lines_are_joined_by_one_line_break() {
    assert_eq!(render("p\n  | one\n  | two\n  | three"), "<p>one\ntwo\nthree</p>");
    assert_eq!(render("| one\n| two"), "one\ntwo");
    assert_eq!(render("p one\n  | two"), "<p>one\ntwo</p>");
}

#[test]
fn no_line_break_next_to_another_node() {
    assert_eq!(render("p\n  | one\n  b\n  | two"), "<p>one<b></b>two</p>");
    assert_eq!(render("p\n  b x\n  | y"), "<p><b>x</b>y</p>");
    assert_eq!(render("| one\ndoctype html\n| two"), "one<!DOCTYPE html>two");
    assert_eq!(render("p\n  br\n  | y\n  | z"), "<p><br>y\nz</p>");
}

#[test]
fn a_nested_root_writes_its_children_only() {
    let mut inner = Ast::named(":document");
    inner.push_child(Ast::special(":text", "b"));
    let mut outer = Ast::named("p");
    outer.push_child(Ast::special(":text", "a"));
    outer.push_child(inner);
    outer.push_child(Ast::special(":text", "c"));
    assert_eq!(written(&outer), "<p>abc</p>");
}

#[test]
fn the_opening_tag_has_a_fixed_order() {
    let tree = Ast {
        children: vec![],
        id: Some(s("i")),
        element: s("a"),
        class: vec![s("c1"), s("c2")],
        attrs: vec![s("z=\"1\""), s("a=\"2\""), s("z=\"1\"")],
    };
    assert_eq!(written(&tree), "<a class=\"c1 c2\" id=\"i\" z=\"1\" a=\"2\" z=\"1\"></a>");
}

#[test]
fn nothing_is_escaped() {
    assert_eq!(render("p <b> & \"q\""), "<p><b> & \"q\"</p>");
    assert_eq!(render("a(x=\"<&>\")"), "<a x=\"<&>\"></a>");
}

#[test]
fn the_output_is_appended_to_the_sink() {
    let mut html = b"seen ".to_vec();
    parse("a").unwrap().to_html(&mut html);
    parse("b").unwrap().to_html(&mut html);
    assert_eq!(html, b"seen <a></a><b></b>");
}

#[test]
fn renderable_tells_what_can_be_written() {
    assert!(parse("a\n  | t\ndoctype html").unwrap().renderable());
    assert!(!parse("a\n  b\n    include x").unwrap().renderable());
    assert!(!Ast::named(":text").renderable());
    assert!(!Ast::named(":doctype").renderable());
    assert!(!Ast::named(":include").renderable());
    assert!(Ast::named(":document").renderable());
    let mut below_text = Ast::special(":text", "t");
    below_text.push_child(Ast::special(":include", "never"));
    assert!(below_text.renderable());
    assert_eq!(written(&below_text), "t");
}

#[test]
fn strings_are_compared_by_their_characters() {
    assert!(str_eq("", ""));
    assert!(str_eq("héllo", "héllo"));
    assert!(!str_eq("a", "b"));
    assert!(!str_eq("a", "ab"));
    assert!(!str_eq("é", "e"));
}

#[test]
fn a_string_is_made_of_a_range_of_characters() {
    let chars = chars_of("héllo ✓");
    assert_eq!(chars, vec!['h', 'é', 'l', 'l', 'o', ' ', '✓']);
    assert_eq!(string_of(&chars, 1, 5), "éllo");
    assert_eq!(string_of(&chars, 3, 3), "");
    assert_eq!(string_of(&chars, 0, 7), "héllo ✓");
}
