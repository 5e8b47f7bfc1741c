use pug::parse;

#[test]
pub fn valid_identitifer_characters() {
    let mut html = Vec::new();
    parse(
        r#"a(a="b",a-:.b.="c"
x="y")"#,
    )
    .unwrap()
    .to_html(&mut html);
    assert_eq!(html, br#"<a a="b" a-:.b.="c" x="y"></a>"#);
}

#[test]
pub fn emptyline() {
    let mut html = Vec::new();
    parse(
        r#"
a
  b

  c

"#,
    )
    .unwrap()
    .to_html(&mut html);
    assert_eq!(html, br#"<a><b></b><c></c></a>"#);
}

#[test]
pub fn dupclass() {
    let mut html = Vec::new();
    parse(r#"a#x.b(id="v" class="c")"#).unwrap().to_html(&mut html);
    assert_eq!(String::from_utf8_lossy(&html), r#"<a class="b c" id="v"></a>"#);
}

#[test]
pub fn preserve_newline_in_multiline_text() {
    let mut html = Vec::new();
    parse(
        r#"pre
  | The pipe always goes at the beginning of its own line,
  | not counting indentation.
  |   lol look at me
  |   getting all getho indent
  |     watt"#,
    )
    .unwrap()
    .to_html(&mut html);

    assert_eq!(
        String::from_utf8_lossy(&html),
        r#"<pre>The pipe always goes at the beginning of its own line,
not counting indentation.
  lol look at me
  getting all getho indent
    watt</pre>"#
    );
}

#[test]
pub fn eoi() {
    let mut html = Vec::new();
    parse(
        r#"body#blorp.herp.derp
  a(href="google.de")
derp
  yorlo jaja"#,
    )
    .unwrap()
    .to_html(&mut html);

    assert_eq!(
        String::from_utf8_lossy(&html),
        r#"<body class="herp derp" id="blorp"><a href="google.de"></a></body><derp><yorlo>jaja</yorlo></derp>"#
    );

    let mut html = Vec::new();
    parse(
        r#"body#blorp.herp.derp
  a(href="google.de")
derp
  yorlo jaja
  "#,
    )
    .unwrap()
    .to_html(&mut html);

    assert_eq!(
        String::from_utf8_lossy(&html),
        r#"<body class="herp derp" id="blorp"><a href="google.de"></a></body><derp><yorlo>jaja</yorlo></derp>"#
    );

    let mut html = Vec::new();
    parse(
        r#"body#blorp.herp.derp
  a(href="google.de")
derp
  yorlo jaja



"#,
    )
    .unwrap()
    .to_html(&mut html);
    assert_eq!(
        String::from_utf8_lossy(&html),
        r#"<body class="herp derp" id="blorp"><a href="google.de"></a></body><derp><yorlo>jaja</yorlo></derp>"#
    );
}

#[test]
pub fn doctype() {
    let mut html = Vec::new();
    parse(
        r#"doctype html
html
  body
"#,
    )
    .unwrap()
    .to_html(&mut html);
    assert_eq!(
        String::from_utf8_lossy(&html),
        r#"<!DOCTYPE html><html><body></body></html>"#
    );
}

#[test]
pub fn voidelements() {
    let mut html = Vec::new();
    parse(
        r#"
doctype html
html
    head(lang="en")
        meta(charset="utf-8")
        title n1's personal site
        link(rel="stylesheet", href="normalize.css")
        link(rel="stylesheet", href="style.css")

    body
        .container
"#,
    )
    .unwrap()
    .to_html(&mut html);

    assert_eq!(
        String::from_utf8_lossy(&html),
        r#"<!DOCTYPE html><html><head lang="en"><meta charset="utf-8"><title>n1's personal site</title><link rel="stylesheet" href="normalize.css"><link rel="stylesheet" href="style.css"></head><body><div class="container"></div></body></html>"#
    );
}

#[test]
pub fn include_p() {
    let ast = parse("include ./a").unwrap();
    assert_eq!(ast.children.len(), 1);
    assert_eq!(ast.children[0].element, ":include");
}

#[test]
pub fn include_nested() {
    let f = |i: String| match i.as_ref() {
        "/a/1" => parse("include a"),
        _ => parse("| tomato"),
    };
    let mut html = Vec::new();
    parse(
        r#"
doctype html
kebab
    include /a/1
"#,
    )
    .unwrap()
    .expand(f)
    .unwrap()
    .to_html(&mut html);
    assert_eq!(
        String::from_utf8_lossy(&html),
        r#"<!DOCTYPE html><kebab>tomato</kebab>"#
    );
}
