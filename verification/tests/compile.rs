use qf::compiler::source::{content_directory, get_portfolio_files, is_portfolio_file, PortfolioFile};
use qf::compiler::{build, compile, compile_panics};
use qf::config::Config;
use qf::parser::parse_document;

fn config() -> Config {
    Config {
        title: "Site".to_string(),
        base_url: "https://x.org".to_string(),
        stylesheet: None,
        language: "en".to_string(),
        content_dir: "content".to_string(),
        output_dir: "dist".to_string(),
        static_dir: "static".to_string(),
    }
}

fn file(path: &str, raw: &str) -> PortfolioFile {
    PortfolioFile { path: path.to_string(), raw: raw.to_string() }
}

#[test]
fn document_from_a_file() {
    let doc = parse_document(&file(
        "site/content/a.qf",
        "@type article\n@title A\n@date 2024\n\n# Head\n\nSome *text*.\r\n",
    ))
    .unwrap();
    assert_eq!(
        format!("{:?}", doc.blocks),
        r#"[Heading { level: 1, content: [Text("Head")] }, Paragraph([Text("Some "), Emphasis([Text("text")]), Text(".")])]"#
    );
    assert_eq!(doc.metadata.title, "A");
    assert_eq!(doc.route, "");
    assert_eq!(doc.source_path, "site/content/a.qf");
}

#[test]
fn document_errors_name_the_file() {
    let err = parse_document(&file("site/content/a.qf", "@title A\n")).unwrap_err();
    assert_eq!(err, "Missing required 'type' metadata property in site/content/a.qf");
}

#[test]
fn body_starting_with_a_property_line_is_metadata() {
    let err = parse_document(&file("site/content/a.qf", "@type page\n@title A\n\n@articles\n")).unwrap_err();
    assert_eq!(err, "Failed to parse metadata property");
}

#[test]
fn compile_a_site() {
    let files = vec![
        file("site/content/index.qf", "@type page\n@title Home\n\nLatest:\n\n@articles\n"),
        file("site/content/b.qf", "@type article\n@title B\n@date 2024-02\n"),
        file("site/content/a.qf", "@type article\n@title A\n@date 2024-01\n"),
    ];
    assert!(!compile_panics(&files));
    let site = compile("site", config(), &files).unwrap();
    assert_eq!(site.articles, vec![2, 1]);
    assert_eq!(site.documents[2].next, Some("/b/".to_string()));
    assert_eq!(site.documents[1].previous, Some("/a/".to_string()));
    assert_eq!(site.config.title, "Site");
}

#[test]
fn compile_names_the_file_that_fails() {
    let files = vec![
        file("site/content/ok.qf", "@type page\n@title Ok\n"),
        file("site/content/bad.qf", "@type page\n@title Bad\n\n```\nnever closed\n"),
    ];
    let err = compile("site", config(), &files).unwrap_err();
    assert_eq!(
        err,
        "Error parsing file site/content/bad.qf: Code block not closed in site/content/bad.qf"
    );
}

#[test]
fn compile_reports_duplicate_routes() {
    let files = vec![
        file("site/content/a.qf", "@type page\n@title A\n"),
        file("site/content/a/index.qf", "@type page\n@title B\n"),
    ];
    let err = compile("site", config(), &files).unwrap_err();
    assert_eq!(err, "Error indexing routes, duplicates not allowed: /a/");
}

#[test]
fn panicking_input_is_detected() {
    let files = vec![file("site/content/a.qf", "@type page\n@title A\n\nPicture:\n\n@image x.png\nalt=\"\n")];
    assert!(compile_panics(&files));
    let failing_first = vec![
        file("site/content/b.qf", "@title B\n"),
        file("site/content/a.qf", "@type page\n@title A\n\nPicture:\n\n@image x.png\nalt=\"\n"),
    ];
    assert!(!compile_panics(&failing_first));
}

#[test]
fn build_renders_every_format() {
    let files = vec![
        file("site/content/index.qf", "@type page\n@title Home\n\nWelcome.\n"),
        file("site/content/blog/post.qf", "@type article\n@title Post\n"),
    ];
    let out = build("site", config(), &files).unwrap();
    let listed: Vec<(String, String)> =
        out.iter().map(|f| (f.dir.clone(), f.name.clone())).collect();
    assert_eq!(
        listed,
        vec![
            ("".to_string(), "index.html".to_string()),
            ("blog/post".to_string(), "index.html".to_string()),
            ("".to_string(), "index.txt".to_string()),
            ("blog/post".to_string(), "index.txt".to_string()),
        ]
    );
    assert_eq!(out[2].contents, "HOME\n====\n\nWelcome.\n\n");
    assert!(out[0].contents.contains("<p>Welcome.</p>\n"));
    assert!(out[1].contents.contains("<link rel=\"canonical\" href=\"https://x.org/blog/post/\">"));
}

#[test]
fn build_fails_as_compile_does() {
    let files = vec![file("site/content/a.qf", "no metadata\n")];
    let err = build("site", config(), &files).unwrap_err();
    assert_eq!(
        err,
        "Error parsing file site/content/a.qf: Missing required 'type' metadata property in site/content/a.qf"
    );
}

#[test]
fn content_files_are_picked_by_extension() {
    let found: Vec<String> = vec![
        "c/a.qf", "c/b.txt", "c/.qf", "c/d.qf.bak", "c/x.QF", "c/sub/e.qf", "c/f.qf/", "c/..",
    ]
    .into_iter()
    .map(String::from)
    .collect();
    assert_eq!(get_portfolio_files(&found), vec!["c/a.qf".to_string(), "c/sub/e.qf".to_string(), "c/f.qf/".to_string()]);
    assert!(is_portfolio_file("a.b.qf"));
    assert!(!is_portfolio_file("qf"));
    assert!(!is_portfolio_file("/"));
}

#[test]
fn content_directory_joins_root() {
    let c = config();
    assert_eq!(content_directory("site", &c), "site/content");
    assert_eq!(content_directory("site/", &c), "site/content");
    assert_eq!(content_directory("", &c), "content");
    let mut abs = config();
    abs.content_dir = "/srv/content".to_string();
    assert_eq!(content_directory("site", &abs), "/srv/content");
}
