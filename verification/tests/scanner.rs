use pug::{parse, Event, ParseError, ParseErrorKind, PugParser, TagPart};

fn s(text: &str) -> String {
    text.to_string()
}

fn render(template: &str) -> String {
    let mut html = Vec::new();
    parse(template).unwrap().to_html(&mut html);
    String::from_utf8(html).unwrap()
}

fn rejected(template: &str) -> ParseError {
    match parse(template) {
        Ok(_) => panic!("the template was accepted"),
        Err(e) => e,
    }
}

#[test]
fn scans_a_tag_with_text() {
    let events = PugParser::parse("a.b text\n").unwrap();
    assert_eq!(
        events,
        vec![
            Event::Indent(0),
            Event::TagOpen(vec![TagPart::Element(s("a")), TagPart::Class(s("b"))]),
            Event::Text(s("text")),
            Event::EndOfInput,
        ]
    );
}

#[test]
fn scans_attributes_with_both_forms_of_the_value() {
    let events = PugParser::parse("a#x(href=\"u\", class='c')").unwrap();
    assert_eq!(
        events,
        vec![
            Event::Indent(0),
            Event::TagOpen(vec![
                TagPart::Element(s("a")),
                TagPart::Id(s("x")),
                TagPart::Attr { key: s("href"), quoted: s("\"u\""), value: s("u") },
                TagPart::Attr { key: s("class"), quoted: s("'c'"), value: s("c") },
            ]),
            Event::EndOfInput,
        ]
    );
}

#[test]
fn scans_each_kind_of_line() {
    let events = PugParser::parse("doctype html\n  // note\n\t| text\ninclude  ./a b\n").unwrap();
    assert_eq!(
        events,
        vec![
            Event::Indent(0),
            Event::Doctype(s("html")),
            Event::Indent(2),
            Event::Comment,
            Event::Indent(1),
            Event::Text(s("text")),
            Event::Indent(0),
            Event::IncludeTarget(s("./a b")),
            Event::EndOfInput,
        ]
    );
}

#[test]
fn blank_lines_give_no_event() {
    assert_eq!(PugParser::parse("").unwrap(), vec![Event::EndOfInput]);
    assert_eq!(PugParser::parse("\n  \n\t\n").unwrap(), vec![Event::EndOfInput]);
    assert_eq!(PugParser::parse("   ").unwrap(), vec![Event::EndOfInput]);
}

#[test]
fn the_indentation_is_counted_in_characters() {
    let events = PugParser::parse(" \t a").unwrap();
    assert_eq!(events[0], Event::Indent(3));
}

#[test]
fn a_keyword_needs_a_blank_after_it() {
    assert_eq!(render("doctype"), "<doctype></doctype>");
    assert_eq!(render("includes x"), "<includes>x</includes>");
    assert_eq!(render("doctype\thtml"), "<!DOCTYPE html>");
}

#[test]
fn one_space_after_the_pipe_is_dropped() {
    assert_eq!(render("p\n  |  two"), "<p> two</p>");
    assert_eq!(render("p\n  |none"), "<p>none</p>");
    assert_eq!(render("p\n  |\n  | x"), "<p>\nx</p>");
}

#[test]
fn text_after_a_tag_starts_after_one_blank() {
    assert_eq!(render("p  two"), "<p> two</p>");
    assert_eq!(render("p "), "<p></p>");
    assert_eq!(render("p(a=\"b\") t"), "<p a=\"b\">t</p>");
}

#[test]
fn a_tag_without_a_name_is_a_div() {
    assert_eq!(render("#main.x"), "<div class=\"x\" id=\"main\"></div>");
    assert_eq!(render(".a.b"), "<div class=\"a b\"></div>");
}

#[test]
fn carriage_returns_end_lines() {
    assert_eq!(render("a\r\n  b\r\n  | t\r\n"), "<a><b></b>t</a>");
}

#[test]
fn a_quoted_value_is_kept_as_written() {
    assert_eq!(render("a(x='y')"), "<a x='y'></a>");
    assert_eq!(render("a(id='v')"), "<a id=\"v\"></a>");
    assert_eq!(render("a(x=\"1,\n 2\")"), "<a x=\"1,\n 2\"></a>");
    assert_eq!(render("a(@click=\"go\" data-x_y=\"1\")"), "<a @click=\"go\" data-x_y=\"1\"></a>");
}

#[test]
fn an_empty_attribute_list_is_accepted() {
    assert_eq!(render("a()"), "<a></a>");
    assert_eq!(render("a( , )"), "<a></a>");
}

#[test]
fn rejects_what_cannot_start_a_tag() {
    assert_eq!(
        rejected("?"),
        ParseError { kind: ParseErrorKind::ExpectedTag, position: 0 }
    );
    assert_eq!(
        rejected("a\n  !x"),
        ParseError { kind: ParseErrorKind::ExpectedTag, position: 4 }
    );
    assert_eq!(
        rejected("(a=\"b\")"),
        ParseError { kind: ParseErrorKind::ExpectedTag, position: 0 }
    );
}

#[test]
fn rejects_a_shorthand_without_a_name() {
    assert_eq!(
        rejected("a."),
        ParseError { kind: ParseErrorKind::ExpectedName, position: 2 }
    );
    assert_eq!(
        rejected("a.b#"),
        ParseError { kind: ParseErrorKind::ExpectedName, position: 4 }
    );
}

#[test]
fn rejects_a_broken_attribute() {
    assert_eq!(
        rejected("a(=)"),
        ParseError { kind: ParseErrorKind::ExpectedKey, position: 2 }
    );
    assert_eq!(
        rejected("a(b)"),
        ParseError { kind: ParseErrorKind::ExpectedEquals, position: 3 }
    );
    assert_eq!(
        rejected("a(b=c)"),
        ParseError { kind: ParseErrorKind::ExpectedValue, position: 4 }
    );
    assert_eq!(
        rejected("a(b="),
        ParseError { kind: ParseErrorKind::ExpectedValue, position: 4 }
    );
}

#[test]
fn rejects_what_is_not_closed() {
    assert_eq!(
        rejected("a(b=\"c)"),
        ParseError { kind: ParseErrorKind::UnclosedValue, position: 4 }
    );
    assert_eq!(
        rejected("a(b=\"c\""),
        ParseError { kind: ParseErrorKind::UnclosedAttributes, position: 8 }
    );
}

#[test]
fn rejects_a_stray_character_after_a_tag() {
    assert_eq!(
        rejected("a!"),
        ParseError { kind: ParseErrorKind::UnexpectedCharacter, position: 1 }
    );
    assert_eq!(
        rejected("a(b=\"c\").d"),
        ParseError { kind: ParseErrorKind::UnexpectedCharacter, position: 8 }
    );
}

#[test]
fn the_scanner_does_not_add_a_line_break() {
    assert_eq!(
        PugParser::parse("a(b=\"c\""),
        Err(ParseError { kind: ParseErrorKind::UnclosedAttributes, position: 7 })
    );
}

#[test]
fn characters_outside_ascii_pass_through() {
    let mut html = Vec::new();
    parse("p héllo ✓\n  | ünï").unwrap().to_html(&mut html);
    assert_eq!(html, "<p>héllo ✓\nünï</p>".as_bytes());
    assert_eq!(
        rejected("é"),
        ParseError { kind: ParseErrorKind::ExpectedTag, position: 0 }
    );
    assert_eq!(
        rejected("p é\nq!"),
        ParseError { kind: ParseErrorKind::UnexpectedCharacter, position: 5 }
    );
}
