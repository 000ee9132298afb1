use qf::parser::block::{parse, read_blocks, Read};
use qf::parser::metadata;

fn show<T: std::fmt::Debug>(value: &T) -> String {
    format!("{:?}", value)
}

fn blocks(lines: &[&str]) -> String {
    show(&parse("p.qf", lines).unwrap())
}

fn error(lines: &[&str]) -> String {
    parse("p.qf", lines).unwrap_err()
}

#[test]
fn headings_of_each_level() {
    assert_eq!(
        blocks(&["# Title", "", "###### Six  "]),
        r#"[Heading { level: 1, content: [Text("Title")] }, Heading { level: 6, content: [Text("Six")] }]"#
    );
}

#[test]
fn heading_errors() {
    let message = "Maximum of 6 hashes and a space required for headers in p.qf";
    assert_eq!(error(&["####### seven"]), message);
    assert_eq!(error(&["#nospace"]), message);
    assert_eq!(error(&["##"]), message);
}

#[test]
fn lists() {
    assert_eq!(
        blocks(&["- a", "  - b", "1. c", "10. d"]),
        r#"[UnorderedList([[Text("a")], [Text("b")]]), OrderedList([[Text("c")], [Text("d")]])]"#
    );
}

#[test]
fn quote() {
    assert_eq!(blocks(&["> a *b*"]), r#"[BlockQuote([Text("a "), Emphasis([Text("b")])])]"#);
}

#[test]
fn code_block() {
    assert_eq!(
        blocks(&["```js", "console.log(1);", "  x", "```"]),
        r#"[CodeBlock { language: Some("js"), code: "console.log(1);\n  x" }]"#
    );
    assert_eq!(blocks(&["```", "```"]), r#"[CodeBlock { language: None, code: "" }]"#);
}

#[test]
fn unclosed_code_block() {
    assert_eq!(error(&["```", "x"]), "Code block not closed in p.qf");
}

#[test]
fn image_with_alt_and_caption() {
    assert_eq!(
        blocks(&["@image example.png", "alt=\"An image\"", "caption=\"Cap\"", "", "after"]),
        r#"[Image(Image { source: "example.png", alt: Description("An image"), caption: Some("Cap") }), Paragraph([Text("after")])]"#
    );
}

#[test]
fn decorative_image() {
    assert_eq!(
        blocks(&["@image arrow_down.png", "decorative"]),
        r#"[Image(Image { source: "arrow_down.png", alt: Decorative, caption: None })]"#
    );
}

#[test]
fn image_errors() {
    assert_eq!(error(&["@image a.png", "caption=\"c\""]), "Image requires an alt property in p.qf");
    assert_eq!(error(&["@image a.png", "size=3"]), "Unknown image property size=3 in p.qf");
}

#[test]
fn image_property_without_value_is_flagged() {
    assert!(matches!(read_blocks("p.qf", &["@image a.png", "alt=\""]), Read::Panics));
    assert!(matches!(read_blocks("p.qf", &["@image a.png", "caption=\""]), Read::Panics));
    assert!(matches!(read_blocks("p.qf", &["alt=\""]), Read::Done(_)));
}

#[test]
fn paragraphs_join_lines() {
    assert_eq!(
        blocks(&["one", "  two  ", "", "three"]),
        r#"[Paragraph([Text("one two")]), Paragraph([Text("three")])]"#
    );
    assert_eq!(
        blocks(&["one", "- two"]),
        r#"[Paragraph([Text("one")]), UnorderedList([[Text("two")]])]"#
    );
}

#[test]
fn linked_index_options() {
    let parsed = parse("p.qf", &["@articles limit=3 starred=true fields=title,date"]).unwrap();
    assert_eq!(
        show(&parsed),
        r#"[LinkedIndex(LinkedIndex { doc_type: Article, limit: Some(3), starred: Some(true), fields: [Title, Date], items: [] })]"#
    );
    let default = parse("p.qf", &["@projects"]).unwrap();
    assert_eq!(
        show(&default),
        r#"[LinkedIndex(LinkedIndex { doc_type: Project, limit: None, starred: None, fields: [Title], items: [] })]"#
    );
}

#[test]
fn linked_index_errors() {
    assert_eq!(error(&["@projects limit=x"]), "key 'limit' requires positive integer");
    assert_eq!(error(&["@projects limit="]), "key 'limit' requires positive integer");
    assert_eq!(
        error(&["@projects limit=99999999999999999999999"]),
        "key 'limit' failed to parse integer: number too large to fit in target type"
    );
    assert_eq!(error(&["@projects limit=1 limit=2"]), "duplicate key limit");
    assert_eq!(error(&["@projects foo"]), "expected key=value for foo");
    assert_eq!(error(&["@projects starred=maybe"]), "key 'starred' has unknown value maybe");
    assert_eq!(error(&["@projects fields=title,title"]), "key 'fields' has duplicate value");
    assert_eq!(error(&["@projects fields=author"]), "key 'fields' has unknown value author");
    assert_eq!(error(&["@projects color=red"]), "unknown option key 'color'");
}

#[test]
fn metadata_properties() {
    let (meta, next) = metadata::parse(
        "p.qf",
        &["", "@type article", "@title  Hello ", "@summary S", "@date 2024-01-01", "", "Body"],
    )
    .unwrap();
    assert_eq!(
        show(&meta),
        r#"Metadata { doc_type: Article, title: "Hello", summary: Some("S"), date: Some("2024-01-01"), starred: false, author: None }"#
    );
    assert_eq!(next, 6);
}

#[test]
fn metadata_errors() {
    let err = |lines: &[&str]| metadata::parse("p.qf", lines).unwrap_err();
    assert_eq!(err(&["@type page"]), "Missing required 'title' metadata property in p.qf");
    assert_eq!(err(&["@title T"]), "Missing required 'type' metadata property in p.qf");
    assert_eq!(err(&["@title A", "@title B"]), "Duplicate metadata property title in p.qf");
    assert_eq!(err(&["@color red"]), "Unknown metadata property color in p.qf");
    assert_eq!(err(&["@type blog"]), "Unknown document type blog in p.qf");
    assert_eq!(err(&["@title"]), "Failed to parse metadata property");
}
