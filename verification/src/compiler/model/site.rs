//! The document model that the parser produces and the renderers consume,
//! with the mathematical model (view) of each type.
use vstd::prelude::*;

verus! {

/// The kind of a page, from its `@type` metadata.
#[derive(Debug, Clone, Copy, PartialEq, Eq, Structural)]
pub enum DocumentType {
    Page,
    Project,
    Article,
}

/// A metadata field that a linked index lists for each document.
#[derive(Debug, Clone, Copy, PartialEq, Eq, Structural)]
pub enum MetadataFields {
    Title,
    Summary,
    Date,
}

/// The `@`-properties at the top of a document.
#[derive(Debug, Clone)]
pub struct Metadata {
    pub doc_type: DocumentType,
    pub title: String,
    pub summary: Option<String>,
    pub date: Option<String>,
    /// Selects the document for linked indexes that ask for starred entries.
    pub starred: bool,
    pub author: Option<String>,
}

/// A parsed page with its place in the site.
#[derive(Debug)]
pub struct Document {
    pub source_path: String,
    pub metadata: Metadata,
    pub route: String,
    pub blocks: Vec<Block>,
    pub previous: Option<String>,
    pub next: Option<String>,
}

/// A list of documents embedded in a page (`@projects`, `@articles`).
#[derive(Debug)]
pub struct LinkedIndex {
    pub doc_type: DocumentType,
    pub limit: Option<usize>,
    pub starred: Option<bool>,
    pub fields: Vec<MetadataFields>,
    pub items: Vec<Vec<Inline>>,
}

#[derive(Debug)]
pub enum Block {
    Paragraph(Vec<Inline>),
    Heading { level: u8, content: Vec<Inline> },
    UnorderedList(Vec<Vec<Inline>>),
    OrderedList(Vec<Vec<Inline>>),
    BlockQuote(Vec<Inline>),
    CodeBlock { language: Option<String>, code: String },
    Image(Image),
    LinkedIndex(LinkedIndex),
}

#[derive(Debug, Clone)]
pub struct Image {
    pub source: String,
    pub alt: ImageAlt,
    pub caption: Option<String>,
}

#[derive(Debug, Clone)]
pub enum ImageAlt {
    Description(String),
    Decorative,
}

#[derive(Debug)]
pub enum Inline {
    Text(String),
    Emphasis(Vec<Inline>),
    Strong(Vec<Inline>),
    Code(String),
    Link { label: Vec<Inline>, href: String },
}

// ---------------------------------------------------------------------------
// Models
// ---------------------------------------------------------------------------

pub enum InlineModel {
    Text(Seq<char>),
    Emphasis(Seq<InlineModel>),
    Strong(Seq<InlineModel>),
    Code(Seq<char>),
    Link { label: Seq<InlineModel>, href: Seq<char> },
}

pub enum ImageAltModel {
    Description(Seq<char>),
    Decorative,
}

pub struct ImageModel {
    pub source: Seq<char>,
    pub alt: ImageAltModel,
    pub caption: Option<Seq<char>>,
}

pub struct LinkedIndexModel {
    pub doc_type: DocumentType,
    pub limit: Option<usize>,
    pub starred: Option<bool>,
    pub fields: Seq<MetadataFields>,
    pub items: Seq<Seq<InlineModel>>,
}

pub enum BlockModel {
    Paragraph(Seq<InlineModel>),
    Heading { level: u8, content: Seq<InlineModel> },
    UnorderedList(Seq<Seq<InlineModel>>),
    OrderedList(Seq<Seq<InlineModel>>),
    BlockQuote(Seq<InlineModel>),
    CodeBlock { language: Option<Seq<char>>, code: Seq<char> },
    Image(ImageModel),
    LinkedIndex(LinkedIndexModel),
}

pub struct MetadataModel {
    pub doc_type: DocumentType,
    pub title: Seq<char>,
    pub summary: Option<Seq<char>>,
    pub date: Option<Seq<char>>,
    pub starred: bool,
    pub author: Option<Seq<char>>,
}

pub struct DocumentModel {
    pub source_path: Seq<char>,
    pub metadata: MetadataModel,
    pub route: Seq<char>,
    pub blocks: Seq<BlockModel>,
    pub previous: Option<Seq<char>>,
    pub next: Option<Seq<char>>,
}

pub open spec fn opt_view(o: Option<String>) -> Option<Seq<char>> {
    match o {
        Some(s) => Some(s@),
        None => None,
    }
}

pub open spec fn inline_model(i: Inline) -> InlineModel
    decreases i,
{
    match i {
        Inline::Text(s) => InlineModel::Text(s@),
        Inline::Code(s) => InlineModel::Code(s@),
        Inline::Emphasis(v) => InlineModel::Emphasis(
            Seq::new(
                v@.len(),
                |k: int|
                    if 0 <= k < v@.len() {
                        proof {
                            assert(decreases_to!(i => v));
                            assert(decreases_to!(v => v@));
                            assert(decreases_to!(v@ => v@[k]));
                        }
                        inline_model(v@[k])
                    } else {
                        InlineModel::Code(Seq::empty())
                    },
            ),
        ),
        Inline::Strong(v) => InlineModel::Strong(
            Seq::new(
                v@.len(),
                |k: int|
                    if 0 <= k < v@.len() {
                        proof {
                            assert(decreases_to!(i => v));
                            assert(decreases_to!(v => v@));
                            assert(decreases_to!(v@ => v@[k]));
                        }
                        inline_model(v@[k])
                    } else {
                        InlineModel::Code(Seq::empty())
                    },
            ),
        ),
        Inline::Link { label, href } => InlineModel::Link {
            label: Seq::new(
                label@.len(),
                |k: int|
                    if 0 <= k < label@.len() {
                        proof {
                            assert(decreases_to!(i => label));
                            assert(decreases_to!(label => label@));
                            assert(decreases_to!(label@ => label@[k]));
                        }
                        inline_model(label@[k])
                    } else {
                        InlineModel::Code(Seq::empty())
                    },
            ),
            href: href@,
        },
    }
}

impl View for Inline {
    type V = InlineModel;

    open spec fn view(&self) -> InlineModel {
        inline_model(*self)
    }
}

/// The models of a run of inline nodes.
pub open spec fn inlines_view(s: Seq<Inline>) -> Seq<InlineModel> {
    Seq::new(s.len(), |k: int| s[k]@)
}

/// The models of a list of rows of inline nodes.
pub open spec fn rows_view(s: Seq<Vec<Inline>>) -> Seq<Seq<InlineModel>> {
    Seq::new(s.len(), |k: int| inlines_view(s[k]@))
}

pub proof fn lemma_inline_view_unfold(i: Inline)
    ensures
        match i {
            Inline::Text(s) => i@ == InlineModel::Text(s@),
            Inline::Code(s) => i@ == InlineModel::Code(s@),
            Inline::Emphasis(v) => i@ == InlineModel::Emphasis(inlines_view(v@)),
            Inline::Strong(v) => i@ == InlineModel::Strong(inlines_view(v@)),
            Inline::Link { label, href } => i@ == (InlineModel::Link {
                label: inlines_view(label@),
                href: href@,
            }),
        },
{
    match i {
        Inline::Emphasis(v) => {
            assert(inline_model(i)->Emphasis_0 =~= inlines_view(v@));
        },
        Inline::Strong(v) => {
            assert(inline_model(i)->Strong_0 =~= inlines_view(v@));
        },
        Inline::Link { label, href } => {
            assert(inline_model(i)->label =~= inlines_view(label@));
        },
        _ => {},
    }
}

impl View for ImageAlt {
    type V = ImageAltModel;

    open spec fn view(&self) -> ImageAltModel {
        match self {
            ImageAlt::Description(s) => ImageAltModel::Description(s@),
            ImageAlt::Decorative => ImageAltModel::Decorative,
        }
    }
}

impl View for Image {
    type V = ImageModel;

    open spec fn view(&self) -> ImageModel {
        ImageModel { source: self.source@, alt: self.alt@, caption: opt_view(self.caption) }
    }
}

impl View for LinkedIndex {
    type V = LinkedIndexModel;

    open spec fn view(&self) -> LinkedIndexModel {
        LinkedIndexModel {
            doc_type: self.doc_type,
            limit: self.limit,
            starred: self.starred,
            fields: self.fields@,
            items: rows_view(self.items@),
        }
    }
}

impl View for Block {
    type V = BlockModel;

    open spec fn view(&self) -> BlockModel {
        match self {
            Block::Paragraph(v) => BlockModel::Paragraph(inlines_view(v@)),
            Block::Heading { level, content } => BlockModel::Heading {
                level: *level,
                content: inlines_view(content@),
            },
            Block::UnorderedList(rows) => BlockModel::UnorderedList(rows_view(rows@)),
            Block::OrderedList(rows) => BlockModel::OrderedList(rows_view(rows@)),
            Block::BlockQuote(v) => BlockModel::BlockQuote(inlines_view(v@)),
            Block::CodeBlock { language, code } => BlockModel::CodeBlock {
                language: opt_view(*language),
                code: code@,
            },
            Block::Image(image) => BlockModel::Image(image@),
            Block::LinkedIndex(index) => BlockModel::LinkedIndex(index@),
        }
    }
}

/// The models of a list of blocks.
pub open spec fn blocks_view(s: Seq<Block>) -> Seq<BlockModel> {
    Seq::new(s.len(), |k: int| s[k]@)
}

impl View for Metadata {
    type V = MetadataModel;

    open spec fn view(&self) -> MetadataModel {
        MetadataModel {
            doc_type: self.doc_type,
            title: self.title@,
            summary: opt_view(self.summary),
            date: opt_view(self.date),
            starred: self.starred,
            author: opt_view(self.author),
        }
    }
}

impl View for Document {
    type V = DocumentModel;

    open spec fn view(&self) -> DocumentModel {
        DocumentModel {
            source_path: self.source_path@,
            metadata: self.metadata@,
            route: self.route@,
            blocks: blocks_view(self.blocks@),
            previous: opt_view(self.previous),
            next: opt_view(self.next),
        }
    }
}

/// The models of a list of documents.
pub open spec fn documents_view(s: Seq<Document>) -> Seq<DocumentModel> {
    Seq::new(s.len(), |k: int| s[k]@)
}

/// The settings of a linked index before its options are read: no limit,
/// no starred filter, and the title of each document.
pub open spec fn new_linked_index_model(doc_type: DocumentType) -> LinkedIndexModel {
    LinkedIndexModel {
        doc_type: doc_type,
        limit: None,
        starred: None,
        fields: seq![MetadataFields::Title],
        items: seq![],
    }
}

impl LinkedIndex {
    /// A linked index of `doc_type` documents with the default settings.
    pub fn new(doc_type: DocumentType) -> (r: LinkedIndex)
        ensures
            r@ == new_linked_index_model(doc_type),
    {
        let r = LinkedIndex {
            doc_type,
            limit: None,
            starred: None,
            fields: vec![MetadataFields::Title],
            items: Vec::new(),
        };
        assert(r@.fields =~= seq![MetadataFields::Title]);
        assert(r@.items =~= seq![]);
        r
    }
}

} // verus!
