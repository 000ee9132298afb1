//! Output formats. Each format renders the files of a site; writing them to
//! the staging directory is the application's part.
pub mod html;
pub mod rss;
pub mod text;

use vstd::prelude::*;
use crate::compiler::model::document::{Site, SiteModel};
use crate::compiler::model::site::{Document, DocumentModel};
use crate::config::{Config, ConfigModel};
use crate::output::html::{HTMLOutputFormatter, document_renderable, html_pages};
use crate::output::rss::RSSOutputFormatter;
use crate::output::text::{TextOutputFormatter, text_pages};
use crate::text::{push_range, string_from, to_chars, trim_char, trim_char_bounds};

verus! {

/// A file to write: `dir/name`, relative to the staging directory.
#[derive(Debug)]
pub struct OutputFile {
    pub dir: String,
    pub name: String,
    pub contents: String,
}

pub struct OutputFileModel {
    pub dir: Seq<char>,
    pub name: Seq<char>,
    pub contents: Seq<char>,
}

impl View for OutputFile {
    type V = OutputFileModel;

    open spec fn view(&self) -> OutputFileModel {
        OutputFileModel { dir: self.dir@, name: self.name@, contents: self.contents@ }
    }
}

pub open spec fn files_view(v: Seq<OutputFile>) -> Seq<OutputFileModel> {
    Seq::new(v.len(), |i: int| v[i]@)
}

/// Every page of the site can be rendered.
pub open spec fn outputs_renderable(site: SiteModel) -> bool {
    forall|i: int| 0 <= i < site.documents.len() ==> document_renderable(#[trigger] site.documents[i])
}

/// The directory of a document's files: its route without leading and
/// trailing '/'.
pub open spec fn page_dir(d: DocumentModel) -> Seq<char> {
    trim_char(d.route, '/')
}

pub fn route_dir(document: &Document) -> (r: String)
    ensures
        r@ == page_dir(document@),
{
    let v = to_chars(document.route.as_str());
    let (a, b) = trim_char_bounds(&v, 0, v.len(), '/');
    assert(v@.subrange(0, v@.len() as int) =~= v@);
    let mut r = String::new();
    push_range(&mut r, &v, a, b);
    r
}

/// An output format.
pub trait OutputFormatter {
    /// The name of the format.
    spec fn format_name(&self) -> Seq<char>;

    /// The files of the site in this format.
    spec fn pages(&self, site: SiteModel, config: ConfigModel) -> Seq<OutputFileModel>;

    fn name(&self) -> (r: &'static str)
        ensures
            r@ == self.format_name(),
    ;

    /// The files of the site in this format.
    fn render(&self, site: &Site, config: &Config) -> (r: Vec<OutputFile>)
        requires
            outputs_renderable(site@),
        ensures
            files_view(r@) == self.pages(site@, config@),
    ;
}

/// The output formats, in the order in which they are written: HTML, plain
/// text, RSS.
pub fn outputs() -> (r: Vec<Box<dyn OutputFormatter>>)
    ensures
        r@.len() == 3,
        r@[0].format_name() == "html"@,
        r@[1].format_name() == "text"@,
        r@[2].format_name() == "rss"@,
        forall|site: SiteModel, config: ConfigModel|
            {
                &&& #[trigger] r@[0].pages(site, config) == html_pages(site, config)
                &&& r@[1].pages(site, config) == text_pages(site)
                &&& r@[2].pages(site, config) == Seq::<OutputFileModel>::empty()
            },
{
    let first: Box<dyn OutputFormatter> = Box::new(HTMLOutputFormatter);
    let second: Box<dyn OutputFormatter> = Box::new(TextOutputFormatter);
    let third: Box<dyn OutputFormatter> = Box::new(RSSOutputFormatter);
    let ghost a = first;
    let ghost b = second;
    let ghost c = third;
    assert(a.format_name() == "html"@);
    assert(b.format_name() == "text"@);
    assert(c.format_name() == "rss"@);
    assert(forall|site: SiteModel, config: ConfigModel|
        {
            &&& #[trigger] a.pages(site, config) == html_pages(site, config)
            &&& b.pages(site, config) == text_pages(site)
            &&& c.pages(site, config) == Seq::<OutputFileModel>::empty()
        });
    let r = with_last(first, Vec::new());
    let r = with_last(second, r);
    let r = with_last(third, r);
    assert(r@[0] == a);
    assert(r@[1] == b);
    assert(r@[2] == c);
    r
}

/// `v` with `x` added at its end.
fn with_last<T>(x: T, v: Vec<T>) -> (r: Vec<T>)
    ensures
        r@.len() == v@.len() + 1,
        r@[v@.len() as int] == x,
        forall|i: int| 0 <= i < v@.len() ==> #[trigger] r@[i] == v@[i],
{
    let mut r = v;
    r.push(x);
    r
}

} // verus!
