use qf::compiler::model::site::{Block, Document, DocumentType, Image, ImageAlt, Inline, Metadata};
use qf::config::Config;
use qf::output::html::{html_escape, html_escape_attribute, write_document, HTMLOutputFormatter};
use qf::output::rss::{xml_escape, RSSOutputFormatter};
use qf::output::text::{render_text, write_text_document, TextOutputFormatter};
use qf::output::{outputs, route_dir, OutputFormatter};

fn text(s: &str) -> Inline {
    Inline::Text(s.to_string())
}

fn config() -> Config {
    Config {
        title: "Site".to_string(),
        base_url: "https://x.org".to_string(),
        stylesheet: None,
        language: "en".to_string(),
        content_dir: "content".to_string(),
        output_dir: "dist".to_string(),
        static_dir: "static".to_string(),
    }
}

fn page(title: &str, blocks: Vec<Block>) -> Document {
    Document {
        source_path: "site/content/hello.qf".to_string(),
        metadata: Metadata {
            doc_type: DocumentType::Page,
            title: title.to_string(),
            summary: None,
            date: None,
            starred: false,
            author: None,
        },
        route: "/hello/".to_string(),
        blocks,
        previous: None,
        next: None,
    }
}

#[test]
fn escaping() {
    assert_eq!(html_escape("<a href='x'>&\""), "&lt;a href=&#39;x&#39;&gt;&amp;&quot;");
    assert_eq!(html_escape_attribute("a&b\"c<'"), "a&amp;b&quot;c<'");
    assert_eq!(xml_escape("<&>\"'"), "&lt;&amp;&gt;&quot;'");
    assert_eq!(html_escape("plain"), "plain");
}

#[test]
fn escaped_text_has_no_markup_characters() {
    let escaped = html_escape("<script>alert('x' + \"y\")</script>");
    assert!(!escaped.contains('<') && !escaped.contains('>'));
    assert!(!escaped.contains('"') && !escaped.contains('\''));
    assert!(!html_escape_attribute("say \"hi\"").contains('"'));
}

#[test]
fn html_page_of_a_document() {
    let doc = page("Hello", vec![Block::Paragraph(vec![text("Hi")])]);
    let expected = [
        "<!DOCTYPE html><html lang=\"en\">\n",
        "<head>\n",
        "<meta charset=\"utf-8\">\n",
        "<meta name=\"viewport\" content=\"width=device-width, initial-scale=1\">\n",
        "<meta name=\"color-scheme\" content=\"light dark\">\n",
        "<title>Hello</title>\n",
        "<meta name=\"description\" content=\"Hello\">\n",
        "<link rel=\"canonical\" href=\"https://x.org/hello/\">\n",
        "<link rel=\"alternate\" type=\"text/plain\" href=\"index.txt\">\n",
        "</head>\n",
        "<body>\n",
        "<a class=\"skip-link\" href=\"#content\">Skip to content</a>\n",
        "<header><a href=\"/\">Site</a></header>\n",
        "<main id=\"content\">\n",
        "<article>\n",
        "<header>\n",
        "<h1>Hello</h1></header>\n",
        "<p>Hi</p>\n",
        "</article>\n",
        "</main>\n",
        "</body>\n",
        "</html>\n",
    ]
    .concat();
    assert_eq!(write_document(&doc, "Site", &config()), expected);
}

#[test]
fn html_blocks_and_navigation() {
    let mut doc = page(
        "T",
        vec![
            Block::Heading { level: 1, content: vec![text("H")] },
            Block::UnorderedList(vec![vec![Inline::Strong(vec![text("a")])]]),
            Block::CodeBlock { language: Some("rs".to_string()), code: "a < b".to_string() },
            Block::Image(Image {
                source: "/img.png".to_string(),
                alt: ImageAlt::Decorative,
                caption: Some("c".to_string()),
            }),
            Block::BlockQuote(vec![Inline::Link { label: vec![text("l")], href: "u&v".to_string() }]),
        ],
    );
    doc.metadata.summary = Some("S".to_string());
    doc.metadata.date = Some("2024".to_string());
    doc.previous = Some("/p/".to_string());
    doc.next = Some("/n/".to_string());
    let html = write_document(&doc, "Site", &config());
    assert!(html.contains("<meta name=\"description\" content=\"S\">\n"));
    assert!(html.contains("<link rel=\"prev\" href=\"/p/\"><link rel=\"next\" href=\"/n/\"></head>\n"));
    assert!(html.contains("<h1>T</h1>\n<p>S</p>\n<time datetime=\"2024\">2024</time>\n</header>\n"));
    assert!(html.contains("<h2>H</h2>\n"));
    assert!(html.contains("<ul>\n<li><strong>a</strong></li>\n</ul>\n"));
    assert!(html.contains("<pre><code class=\"language-rs\">a &lt; b</code></pre>\n"));
    assert!(html.contains(
        "<figure>\n<img src=\"/img.png\" alt=\"\" loading=\"lazy\">\n<figcaption>c</figcaption>\n</figure>\n"
    ));
    assert!(html.contains("<blockquote><p><a href=\"u&amp;v\">l</a></p></blockquote>\n"));
    assert!(html.contains(
        "<nav aria-label=\"navigation\">\n<a rel=\"prev\" href=\"/p/\">Previous</a>\n<a rel=\"next\" href=\"/n/\">Next</a>\n</nav>\n</article>\n"
    ));
}

#[test]
fn text_page_of_a_document() {
    let doc = page("Hello", vec![Block::Paragraph(vec![text("Hi")])]);
    assert_eq!(write_text_document(&doc), "HELLO\n=====\n\nHi\n\n");
}

#[test]
fn text_title_is_upper_cased() {
    let doc = page("straße é", vec![]);
    assert_eq!(write_text_document(&doc), "STRASSE É\n========\n\n");
}

#[test]
fn text_blocks() {
    let mut doc = page(
        "T",
        vec![
            Block::Heading { level: 1, content: vec![text("One")] },
            Block::Heading { level: 2, content: vec![Inline::Code("ab".to_string())] },
            Block::OrderedList(vec![vec![text("x")], vec![text("y")]]),
            Block::UnorderedList(vec![vec![Inline::Link { label: vec![text("l")], href: "u".to_string() }]]),
            Block::BlockQuote(vec![Inline::Emphasis(vec![text("q")])]),
            Block::CodeBlock {
                language: Some("rs".to_string()),
                code: "a\nb\nc\nd\ne\nf\ng\nh\ni\nj".to_string(),
            },
            Block::Image(Image {
                source: "i.png".to_string(),
                alt: ImageAlt::Description("An image".to_string()),
                caption: None,
            }),
        ],
    );
    doc.metadata.summary = Some("Sum".to_string());
    doc.previous = Some("/p/".to_string());
    doc.next = Some("/n/".to_string());
    let expected = [
        "T\n=\nSum\n\n",
        "One\n---\n",
        "ab\n~~\n",
        "1. x\n2. y\n\n",
        "- l (u)\n\n",
        "> q\n\n",
        "[rs]\n 1 | a\n 2 | b\n 3 | c\n 4 | d\n 5 | e\n 6 | f\n 7 | g\n 8 | h\n 9 | i\n10 | j\n\n",
        "[Image: An image] @ i.png\n\n",
        "Previous: /p/Next: /n/",
    ]
    .concat();
    assert_eq!(render_text(&doc, "T"), expected);
}

#[test]
fn output_formats_in_order() {
    let names: Vec<&str> = outputs().iter().map(|o| o.name()).collect();
    assert_eq!(names, vec!["html", "text", "rss"]);
    assert_eq!(HTMLOutputFormatter.name(), "html");
    assert_eq!(TextOutputFormatter.name(), "text");
    assert_eq!(RSSOutputFormatter.name(), "rss");
}

#[test]
fn page_directories() {
    assert_eq!(route_dir(&page("a", vec![])), "hello");
    let mut root = page("r", vec![]);
    root.route = "/".to_string();
    assert_eq!(route_dir(&root), "");
}

fn unescape(s: &str) -> String {
    let mut out = String::new();
    let mut rest = s;
    while !rest.is_empty() {
        let mut matched = false;
        for (entity, c) in [("&amp;", '&'), ("&lt;", '<'), ("&gt;", '>'), ("&quot;", '"'), ("&#39;", '\'')] {
            if rest.starts_with(entity) {
                out.push(c);
                rest = &rest[entity.len()..];
                matched = true;
                break;
            }
        }
        if !matched {
            let c = rest.chars().next().unwrap();
            out.push(c);
            rest = &rest[c.len_utf8()..];
        }
    }
    out
}

#[test]
fn escaping_can_be_undone() {
    for s in ["&amp;", "<a href='x'>&\"", "plain", "&&lt;", "é & ü"] {
        let escaped = html_escape(s);
        assert_eq!(unescape(&escaped), s);
        for (i, c) in escaped.char_indices() {
            if c == '&' {
                let tail = &escaped[i..];
                assert!(["&amp;", "&lt;", "&gt;", "&quot;", "&#39;"].iter().any(|e| tail.starts_with(e)));
            }
        }
    }
}
