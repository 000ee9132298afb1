use qf::compiler::model::site::Inline;
use qf::parser::inline::{parse, parse_styles};

fn show<T: std::fmt::Debug>(value: &T) -> String {
    format!("{:?}", value)
}

#[test]
fn plain_text_is_one_node() {
    assert_eq!(show(&parse("hello world")), r#"[Text("hello world")]"#);
}

#[test]
fn empty_text_has_no_nodes() {
    assert_eq!(show(&parse("")), "[]");
}

#[test]
fn link_between_text() {
    assert_eq!(
        show(&parse("Built with [qf](https://github.com/waqfs/qf).")),
        r#"[Text("Built with "), Link { label: [Text("qf")], href: "https://github.com/waqfs/qf" }, Text(".")]"#
    );
}

#[test]
fn two_links_in_a_row() {
    assert_eq!(
        show(&parse("[a](x) and [b](y)")),
        r#"[Link { label: [Text("a")], href: "x" }, Text(" and "), Link { label: [Text("b")], href: "y" }]"#
    );
}

#[test]
fn link_label_is_styled() {
    assert_eq!(
        show(&parse("[**x**](u)")),
        r#"[Link { label: [Strong([Text("x")])], href: "u" }]"#
    );
}

#[test]
fn bracket_without_link_is_text() {
    assert_eq!(show(&parse("[a] b")), r#"[Text("["), Text("a] b")]"#);
    assert_eq!(show(&parse("x [y](z")), r#"[Text("x "), Text("["), Text("y](z")]"#);
}

#[test]
fn strong_emphasis_and_code() {
    assert_eq!(
        show(&parse("a **b** *c* `d`")),
        r#"[Text("a "), Strong([Text("b")]), Text(" "), Emphasis([Text("c")]), Text(" "), Code("d")]"#
    );
}

#[test]
fn unclosed_markers_are_text() {
    assert_eq!(show(&parse("2 * 3")), r#"[Text("2 "), Text("*"), Text(" 3")]"#);
    assert_eq!(show(&parse("**x")), r#"[Text("**"), Text("x")]"#);
    assert_eq!(show(&parse("`x")), r#"[Text("`"), Text("x")]"#);
}

#[test]
fn code_keeps_markers_inside() {
    assert_eq!(show(&parse("`*a*`")), r#"[Code("*a*")]"#);
}

#[test]
fn styles_ignore_links() {
    assert_eq!(show(&parse_styles("*a*")), r#"[Emphasis([Text("a")])]"#);
    assert_eq!(show(&parse_styles("[a](b)")), r#"[Text("[a](b)")]"#);
}

fn markup(nodes: &[Inline]) -> String {
    let mut out = String::new();
    for node in nodes {
        match node {
            Inline::Text(t) => out.push_str(t),
            Inline::Code(c) => out.push_str(&format!("`{}`", c)),
            Inline::Emphasis(v) => out.push_str(&format!("*{}*", markup(v))),
            Inline::Strong(v) => out.push_str(&format!("**{}**", markup(v))),
            Inline::Link { label, href } => {
                out.push_str(&format!("[{}]({})", markup(label), href))
            }
        }
    }
    out
}

#[test]
fn parsing_keeps_all_text() {
    for s in [
        "Built with [qf](https://github.com/waqfs/qf).",
        "a **b** *c* `d` e",
        "unclosed ` and * and ** and [ and [x](y",
        "****",
        "[**x** and *y*](u) tail",
        "",
    ] {
        assert_eq!(markup(&parse(s)), s);
        assert_eq!(markup(&parse_styles(s)), s);
    }
}

#[test]
fn styles_hold_one_text_node() {
    let nodes = parse_styles("a*b");
    assert_eq!(show(&nodes), r#"[Text("a"), Text("*"), Text("b")]"#);
    for node in parse_styles("**x** *y* `z` [a](b)") {
        match node {
            Inline::Emphasis(v) | Inline::Strong(v) => {
                assert_eq!(v.len(), 1);
                assert!(matches!(v[0], Inline::Text(_)));
            }
            Inline::Link { .. } => panic!("styles give no link"),
            _ => {}
        }
    }
}
