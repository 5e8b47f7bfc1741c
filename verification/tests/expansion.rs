use pug::{parse, Ast, Error, ParseError};

fn render(tree: &Ast) -> String {
    let mut html = Vec::new();
    tree.to_html(&mut html);
    String::from_utf8(html).unwrap()
}

fn files(target: String) -> Result<Ast, String> {
    match target.as_ref() {
        "one" => Ok(parse("b\n  include two\ni").unwrap()),
        "two" => Ok(parse("| z").unwrap()),
        "self" => Ok(parse("include self").unwrap()),
        "chain3" => Ok(parse("include chain2").unwrap()),
        "chain2" => Ok(parse("include chain1").unwrap()),
        "chain1" => Ok(parse("| end").unwrap()),
        other => Err(format!("no {}", other)),
    }
}

#[test]
fn a_tree_without_inclusions_is_unchanged() {
    let template = "doctype html\na#x.y(k=\"v\")\n  | t\n  b u\n";
    let failing = |target: String| -> Result<Ast, String> { Err(target) };
    let expanded = parse(template).unwrap().expand(failing).unwrap();
    assert_eq!(expanded, parse(template).unwrap());
    assert_eq!(render(&expanded), render(&parse(template).unwrap()));
    assert_eq!(render(&expanded), "<!DOCTYPE html><a class=\"y\" id=\"x\" k=\"v\">t<b>u</b></a>");
}

#[test]
fn the_same_template_gives_the_same_output() {
    let template = "a\n  include one\n  | x";
    let first = render(&parse(template).unwrap().expand(files).unwrap());
    let second = render(&parse(template).unwrap().expand(files).unwrap());
    assert_eq!(first, second);
}

#[test]
fn inclusions_are_expanded_in_place_and_in_depth() {
    let tree = parse("a\n  | x\n  include one\n  | y").unwrap();
    assert!(!tree.renderable());
    let expanded = tree.expand(files).unwrap();
    assert!(expanded.renderable());
    assert_eq!(render(&expanded), "<a>x<b>z</b><i></i>y</a>");
}

#[test]
fn an_inclusion_becomes_the_root_of_the_included_tree() {
    let expanded = parse("include two").unwrap().expand(files).unwrap();
    let mut inner = Ast::named(":document");
    inner.push_child(Ast::special(":text", "z"));
    let mut outer = Ast::named(":document");
    outer.push_child(inner);
    assert_eq!(expanded, outer);
}

#[test]
fn the_first_failure_ends_the_expansion() {
    let tree = parse("a\n  include two\n  include missing\n  include gone").unwrap();
    match tree.expand(files) {
        Err(Error::Include(e)) => assert_eq!(e, "no missing"),
        other => panic!("unexpected: {:?}", other),
    }
}

#[test]
fn a_failure_inside_an_included_tree_is_passed_on() {
    let resolver = |target: String| -> Result<Ast, ParseError> {
        match target.as_ref() {
            "outer" => parse("include inner"),
            _ => parse("a("),
        }
    };
    match parse("include outer").unwrap().expand(resolver) {
        Err(Error::Include(e)) => assert_eq!(e, parse("a(").unwrap_err()),
        other => panic!("unexpected: {:?}", other),
    }
}

#[test]
fn the_depth_bounds_the_nesting() {
    let template = "p\n  include chain3";
    match parse(template).unwrap().expand_within(&files, 0) {
        Err(Error::Depth) => {},
        other => panic!("unexpected: {:?}", other),
    }
    match parse(template).unwrap().expand_within(&files, 2) {
        Err(Error::Depth) => {},
        other => panic!("unexpected: {:?}", other),
    }
    let expanded = parse(template).unwrap().expand_within(&files, 3).unwrap();
    assert_eq!(render(&expanded), "<p>end</p>");
    let plain = parse("p t").unwrap().expand_within(&files, 0).unwrap();
    assert_eq!(render(&plain), "<p>t</p>");
}

#[test]
fn an_inclusion_that_includes_itself_is_stopped_by_the_depth() {
    match parse("include self").unwrap().expand_within(&files, 50) {
        Err(Error::Depth) => {},
        other => panic!("unexpected: {:?}", other),
    }
}

#[test]
fn a_mark_without_a_target_is_no_inclusion() {
    let mut tree = Ast::named("a");
    tree.push_child(Ast::named(":include"));
    let expanded = tree.expand(files).unwrap();
    let mut same = Ast::named("a");
    same.push_child(Ast::named(":include"));
    assert_eq!(expanded, same);
    assert!(!expanded.renderable());
}

#[test]
fn errors_convert_into_the_common_error() {
    let e = parse("a(").unwrap_err();
    let common: Error<String> = e.into();
    match common {
        Error::Parser(inner) => assert_eq!(inner, e),
        other => panic!("unexpected: {:?}", other),
    }
    let io = std::io::Error::new(std::io::ErrorKind::Other, "closed");
    let common: Error<String> = io.into();
    assert!(matches!(common, Error::Io(_)));
}
