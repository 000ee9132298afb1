use qf::compiler::index::{build_index, build_local_index, normalize_route, process_index, route};
use qf::compiler::model::site::{
    Block, Document, DocumentType, Inline, LinkedIndex, Metadata, MetadataFields,
};
use qf::config::{
    default_content_dir, default_language, default_output_dir, default_static_dir, Config,
};

fn show<T: std::fmt::Debug>(value: &T) -> String {
    format!("{:?}", value)
}

fn config() -> Config {
    Config {
        title: "Site".to_string(),
        base_url: "https://example.org".to_string(),
        stylesheet: None,
        language: default_language(),
        content_dir: default_content_dir(),
        output_dir: default_output_dir(),
        static_dir: default_static_dir(),
    }
}

fn document(path: &str, doc_type: DocumentType, title: &str, date: Option<&str>) -> Document {
    Document {
        source_path: path.to_string(),
        metadata: Metadata {
            doc_type,
            title: title.to_string(),
            summary: None,
            date: date.map(|d| d.to_string()),
            starred: false,
            author: None,
        },
        route: String::new(),
        blocks: Vec::new(),
        previous: None,
        next: None,
    }
}

#[test]
fn config_defaults() {
    assert_eq!(default_language(), "en");
    assert_eq!(default_content_dir(), "content");
    assert_eq!(default_output_dir(), "dist");
    assert_eq!(default_static_dir(), "static");
}

#[test]
fn normalized_routes() {
    assert_eq!(normalize_route(""), "/");
    assert_eq!(normalize_route("/"), "/");
    assert_eq!(normalize_route("a/b"), "/a/b/");
    assert_eq!(normalize_route("//a//"), "/a/");
    assert_eq!(normalize_route(&normalize_route("x/y")), "/x/y/");
}

#[test]
fn routes_of_documents() {
    let c = config();
    let at = |p: &str| route(&document(p, DocumentType::Page, "t", None), "site", &c);
    assert_eq!(at("site/content/blog/post.qf"), "/blog/post/");
    assert_eq!(at("site/content/index.qf"), "/");
    assert_eq!(at("site/content/about/index.qf"), "/about/");
    assert_eq!(at("site/content/./a//b.qf"), "/a/b/");
    assert_eq!(at("site/content/a.qf.qf"), "/a/");
    assert_eq!(at("elsewhere/x.qf"), "/elsewhere/x/");
}

#[test]
fn index_finds_duplicate_routes() {
    let docs = vec![
        document("site/content/a.qf", DocumentType::Page, "A", None),
        document("site/content/a/index.qf", DocumentType::Page, "B", None),
    ];
    let err = build_index("site", config(), docs).unwrap_err();
    assert_eq!(err, "Error indexing routes, duplicates not allowed: /a/");
}

#[test]
fn index_lists_articles_and_projects() {
    let docs = vec![
        document("site/content/index.qf", DocumentType::Page, "Home", None),
        document("site/content/p.qf", DocumentType::Project, "P", None),
        document("site/content/x.qf", DocumentType::Article, "X", None),
        document("site/content/y.qf", DocumentType::Article, "Y", None),
    ];
    let site = build_index("site", config(), docs).unwrap();
    assert_eq!(site.articles, vec![2, 3]);
    assert_eq!(site.projects, vec![1]);
    assert_eq!(
        show(&site.routes),
        r#"[("/", 0), ("/p/", 1), ("/x/", 2), ("/y/", 3)]"#
    );
    assert_eq!(site.documents[1].route, "/p/");
}

#[test]
fn articles_link_to_neighbours_by_date() {
    let docs = vec![
        document("site/content/c.qf", DocumentType::Article, "C", Some("2024-03-01")),
        document("site/content/a.qf", DocumentType::Article, "A", Some("2024-01-01")),
        document("site/content/home.qf", DocumentType::Page, "Home", None),
        document("site/content/b.qf", DocumentType::Article, "B", Some("2024-02-01")),
    ];
    let mut site = build_index("site", config(), docs).unwrap();
    process_index(&mut site);
    assert_eq!(site.articles, vec![1, 3, 0]);
    assert_eq!(site.documents[1].previous, None);
    assert_eq!(site.documents[1].next, Some("/b/".to_string()));
    assert_eq!(site.documents[3].previous, Some("/a/".to_string()));
    assert_eq!(site.documents[3].next, Some("/c/".to_string()));
    assert_eq!(site.documents[0].previous, Some("/b/".to_string()));
    assert_eq!(site.documents[0].next, None);
    assert_eq!(site.documents[2].previous, None);
    assert_eq!(site.documents[2].next, None);
}

#[test]
fn articles_with_equal_dates_keep_their_order() {
    let docs = vec![
        document("site/content/b.qf", DocumentType::Article, "B", None),
        document("site/content/a.qf", DocumentType::Article, "A", None),
    ];
    let mut site = build_index("site", config(), docs).unwrap();
    process_index(&mut site);
    assert_eq!(site.articles, vec![0, 1]);
    assert_eq!(site.documents[0].next, Some("/a/".to_string()));
}

#[test]
fn linked_index_newest_first_with_limit() {
    let mut docs = vec![
        document("site/content/old.qf", DocumentType::Project, "Old", Some("2020")),
        document("site/content/new.qf", DocumentType::Project, "New", Some("2023")),
        document("site/content/mid.qf", DocumentType::Project, "Mid", Some("2021")),
        document("site/content/b.qf", DocumentType::Project, "B", Some("2023")),
    ];
    docs[0].metadata.summary = Some("first".to_string());
    let site = build_index("site", config(), docs).unwrap();
    let mut index = LinkedIndex::new(DocumentType::Project);
    index.limit = Some(3);
    index.fields = vec![MetadataFields::Title, MetadataFields::Date];
    let items = build_local_index(&site, &index);
    assert_eq!(
        show(&items),
        r#"[[Link { label: [Text("B")], href: "/b/" }, Text(" - "), Text("2023")], [Link { label: [Text("New")], href: "/new/" }, Text(" - "), Text("2023")], [Link { label: [Text("Mid")], href: "/mid/" }, Text(" - "), Text("2021")]]"#
    );
    let mut summaries = LinkedIndex::new(DocumentType::Project);
    summaries.fields = vec![MetadataFields::Summary];
    let rows = build_local_index(&site, &summaries);
    assert_eq!(rows.len(), 4);
    assert_eq!(show(&rows[3]), r#"[Text("first")]"#);
    assert_eq!(show(&rows[0]), "[]");
}

#[test]
fn linked_index_starred_filter() {
    let mut docs = vec![
        document("site/content/a.qf", DocumentType::Article, "A", None),
        document("site/content/b.qf", DocumentType::Article, "B", None),
    ];
    docs[1].metadata.starred = true;
    let site = build_index("site", config(), docs).unwrap();
    let mut index = LinkedIndex::new(DocumentType::Article);
    index.starred = Some(true);
    let items = build_local_index(&site, &index);
    assert_eq!(show(&items), r#"[[Link { label: [Text("B")], href: "/b/" }]]"#);
    index.starred = Some(false);
    let items = build_local_index(&site, &index);
    assert_eq!(show(&items), r#"[[Link { label: [Text("A")], href: "/a/" }]]"#);
}

#[test]
fn processing_fills_linked_indexes() {
    let mut home = document("site/content/index.qf", DocumentType::Page, "Home", None);
    home.blocks.push(Block::LinkedIndex(LinkedIndex::new(DocumentType::Article)));
    home.blocks.push(Block::Paragraph(vec![Inline::Text("x".to_string())]));
    let docs = vec![home, document("site/content/a.qf", DocumentType::Article, "A", None)];
    let mut site = build_index("site", config(), docs).unwrap();
    process_index(&mut site);
    assert_eq!(
        show(&site.documents[0].blocks),
        r#"[LinkedIndex(LinkedIndex { doc_type: Article, limit: None, starred: None, fields: [Title], items: [[Link { label: [Text("A")], href: "/a/" }]] }), Paragraph([Text("x")])]"#
    );
}

#[test]
fn linked_index_lists_only_its_document_type() {
    let docs = vec![
        document("site/content/index.qf", DocumentType::Page, "Home", None),
        document("site/content/a.qf", DocumentType::Article, "A", None),
        document("site/content/p.qf", DocumentType::Project, "P", None),
    ];
    let site = build_index("site", config(), docs).unwrap();
    let projects = build_local_index(&site, &LinkedIndex::new(DocumentType::Project));
    assert_eq!(show(&projects), r#"[[Link { label: [Text("P")], href: "/p/" }]]"#);
    let articles = build_local_index(&site, &LinkedIndex::new(DocumentType::Article));
    assert_eq!(show(&articles), r#"[[Link { label: [Text("A")], href: "/a/" }]]"#);
    let pages = build_local_index(&site, &LinkedIndex::new(DocumentType::Page));
    assert_eq!(show(&pages), r#"[[Link { label: [Text("Home")], href: "/" }]]"#);
}

#[test]
fn linked_index_of_a_site_without_its_type_is_empty() {
    let docs = vec![document("site/content/index.qf", DocumentType::Page, "Home", None)];
    let site = build_index("site", config(), docs).unwrap();
    let items = build_local_index(&site, &LinkedIndex::new(DocumentType::Project));
    assert!(items.is_empty());
}
