//! Compiling the content files of a site into an indexed site.
pub mod index;
pub mod model;
pub mod source;

use vstd::prelude::*;
use crate::compiler::index::{
    build_index, by_date, fill_block, index_site, lemma_link_articles_shape, lemma_sort_by_members,
    link_articles, process_index, processed, sort_by, type_indices,
};
use crate::compiler::model::document::{Site, SiteModel};
use crate::compiler::model::site::{Document, DocumentModel, DocumentType, documents_view};
use crate::compiler::source::{PortfolioFile, PortfolioFileModel, files_view};
use crate::config::{Config, ConfigModel};
use crate::output::{OutputFile, OutputFileModel, OutputFormatter, files_view as output_files_view, outputs_renderable};
use crate::output::html::{HTMLOutputFormatter, html_pages};
use crate::output::rss::RSSOutputFormatter;
use crate::output::text::{TextOutputFormatter, text_pages};
use crate::output::html::{block_renderable, document_renderable};
use crate::parser::block::{Read, Scan, law_heading_levels};
use crate::parser::metadata::metadata_of;
use crate::text::lines;
use crate::parser::{document_of, parse_document, read_document};

verus! {

/// The documents of the first `n` files, or the error of the first file that
/// does not parse, naming that file.
pub open spec fn parsed_documents(files: Seq<PortfolioFileModel>, n: nat) -> Scan<
    Seq<DocumentModel>,
>
    decreases n,
{
    if n == 0 {
        Scan::Done(seq![])
    } else {
        match parsed_documents(files, (n - 1) as nat) {
            Scan::Done(ds) => {
                let f = files[n - 1];
                match document_of(f.path, f.raw) {
                    Scan::Done(d) => Scan::Done(ds.push(d)),
                    Scan::Failed(e) => Scan::Failed("Error parsing file "@ + f.path + ": "@ + e),
                    Scan::Panics => Scan::Panics,
                }
            },
            Scan::Failed(e) => Scan::Failed(e),
            Scan::Panics => Scan::Panics,
        }
    }
}

/// The site compiled from the content files.
pub open spec fn compiled(root: Seq<char>, config: ConfigModel, files: Seq<PortfolioFileModel>) -> Scan<
    SiteModel,
> {
    match parsed_documents(files, files.len()) {
        Scan::Done(ds) => match index_site(root, config, ds) {
            Ok(site) => Scan::Done(processed(site)),
            Err(e) => Scan::Failed(e),
        },
        Scan::Failed(e) => Scan::Failed(e),
        Scan::Panics => Scan::Panics,
    }
}

proof fn lemma_type_indices_bound(docs: Seq<DocumentModel>, t: DocumentType, n: nat)
    ensures
        forall|i: int| 0 <= i < type_indices(docs, t, n).len() ==> #[trigger] type_indices(docs, t, n)[i] < n,
    decreases n,
{
    if n > 0 {
        lemma_type_indices_bound(docs, t, (n - 1) as nat);
        let prev = type_indices(docs, t, (n - 1) as nat);
        let all = type_indices(docs, t, n);
        assert forall|i: int| 0 <= i < all.len() implies #[trigger] all[i] < n by {
            if i < prev.len() {
                assert(all[i] == prev[i]);
            }
        }
    }
}

/// Parses the content files in order: their documents, or the error of the
/// first file that does not parse, naming that file.
pub fn parse_documents(files: &Vec<PortfolioFile>) -> (r: Result<Vec<Document>, String>)
    requires
        parsed_documents(files_view(files@), files@.len()) !is Panics,
    ensures
        match r {
            Ok(ds) => parsed_documents(files_view(files@), files@.len()) == Scan::Done(
                documents_view(ds@),
            ),
            Err(e) => parsed_documents(files_view(files@), files@.len()) == Scan::<
                Seq<DocumentModel>,
            >::Failed(e@),
        },
{
    let ghost fs = files_view(files@);
    let mut documents: Vec<Document> = Vec::new();
    let mut i: usize = 0;
    assert(documents_view(documents@) =~= Seq::<DocumentModel>::empty());
    while i < files.len()
        invariant
            i <= files.len(),
            fs == files_view(files@),
            parsed_documents(fs, i as nat) == Scan::Done(documents_view(documents@)),
            parsed_documents(fs, fs.len()) !is Panics,
        decreases files.len() - i,
    {
        assert(fs[i as int] == files@[i as int]@);
        proof {
            lemma_parsed_prefix(fs, (i + 1) as nat, fs.len());
        }
        match parse_document(&files[i]) {
            Ok(document) => {
                let ghost before = documents_view(documents@);
                let ghost dm = document@;
                documents.push(document);
                assert(documents_view(documents@) =~= before.push(dm));
            },
            Err(error) => {
                let mut e = crate::text::string_from("Error parsing file ");
                e.append(files[i].path.as_str());
                e.append(": ");
                e.append(error.as_str());
                proof {
                    lemma_parsed_failed_stays(fs, (i + 1) as nat, fs.len());
                }
                return Err(e);
            },
        }
        i = i + 1;
    }
    assert(fs.len() == i);
    Ok(documents)
}

/// Parses the content files, indexes them and processes the index.
pub fn compile(root: &str, config: Config, files: &Vec<PortfolioFile>) -> (r: Result<Site, String>)
    requires
        compiled(root@, config@, files_view(files@)) !is Panics,
    ensures
        match r {
            Ok(site) => compiled(root@, config@, files_view(files@)) == Scan::Done(site@),
            Err(e) => compiled(root@, config@, files_view(files@)) == Scan::<SiteModel>::Failed(
                e@,
            ),
        },
{
    let documents = parse_documents(files)?;
    let mut site = build_index(root, config, documents)?;
    proof {
        lemma_type_indices_bound(site@.documents, DocumentType::Article, site@.documents.len());
    }
    process_index(&mut site);
    Ok(site)
}

/// Whether compiling panics while parsing the content files: the first file
/// that does not parse is one on which the parser panics. `compile` and
/// `build` require that it does not.
pub fn compile_panics(files: &Vec<PortfolioFile>) -> (r: bool)
    ensures
        r == (parsed_documents(files_view(files@), files@.len()) is Panics),
{
    let ghost fs = files_view(files@);
    let mut i: usize = 0;
    while i < files.len()
        invariant
            i <= files.len(),
            fs == files_view(files@),
            parsed_documents(fs, i as nat) is Done,
        decreases files.len() - i,
    {
        assert(fs[i as int] == files@[i as int]@);
        match read_document(&files[i]) {
            Read::Done(_) => {},
            Read::Failed(_) => {
                proof {
                    lemma_parsed_failed_stays(fs, (i + 1) as nat, fs.len());
                }
                return false;
            },
            Read::Panics => {
                proof {
                    lemma_parsed_panics_stays(fs, (i + 1) as nat, fs.len());
                }
                return true;
            },
        }
        i = i + 1;
    }
    false
}

/// The files of every output format for the compiled site, in the order of
/// the formats: HTML, plain text, RSS (which has none yet).
pub open spec fn built(root: Seq<char>, config: ConfigModel, files: Seq<PortfolioFileModel>) -> Scan<
    Seq<OutputFileModel>,
> {
    match compiled(root, config, files) {
        Scan::Done(site) => Scan::Done(html_pages(site, site.config) + text_pages(site)),
        Scan::Failed(e) => Scan::Failed(e),
        Scan::Panics => Scan::Panics,
    }
}

/// Compiles the site and renders it in every output format: the files to
/// write to the staging directory, or the error of compiling.
pub fn build(root: &str, config: Config, files: &Vec<PortfolioFile>) -> (r: Result<
    Vec<OutputFile>,
    String,
>)
    requires
        compiled(root@, config@, files_view(files@)) !is Panics,
    ensures
        match r {
            Ok(out) => built(root@, config@, files_view(files@)) == Scan::Done(output_files_view(out@)),
            Err(e) => built(root@, config@, files_view(files@)) == Scan::<
                Seq<OutputFileModel>,
            >::Failed(e@),
        },
{
    let ghost c = config@;
    let site = compile(root, config, files)?;
    proof {
        law_compiled_renderable(root@, c, files_view(files@));
    }
    let mut out = HTMLOutputFormatter.render(&site, &site.config);
    let mut text = TextOutputFormatter.render(&site, &site.config);
    let mut rss = RSSOutputFormatter.render(&site, &site.config);
    let ghost html_files = output_files_view(out@);
    let ghost text_files = output_files_view(text@);
    out.append(&mut text);
    assert(output_files_view(out@) =~= html_files + text_files);
    let ghost both = out@;
    assert(rss@.len() == output_files_view(rss@).len());
    out.append(&mut rss);
    assert(out@ =~= both);
    Ok(out)
}

proof fn lemma_parsed_panics_stays(files: Seq<PortfolioFileModel>, n: nat, m: nat)
    requires
        n <= m,
        parsed_documents(files, n) is Panics,
    ensures
        parsed_documents(files, m) is Panics,
    decreases m - n,
{
    if n < m {
        lemma_parsed_panics_stays(files, n, (m - 1) as nat);
    }
}

proof fn lemma_parsed_failed_stays(files: Seq<PortfolioFileModel>, n: nat, m: nat)
    requires
        n <= m,
        parsed_documents(files, n) is Failed,
    ensures
        parsed_documents(files, m) == parsed_documents(files, n),
    decreases m - n,
{
    if n < m {
        lemma_parsed_failed_stays(files, n, (m - 1) as nat);
    }
}

/// Where the whole list does not panic, no prefix panics.
proof fn lemma_parsed_prefix(files: Seq<PortfolioFileModel>, n: nat, m: nat)
    requires
        n <= m,
        parsed_documents(files, m) !is Panics,
    ensures
        parsed_documents(files, n) !is Panics,
    decreases m - n,
{
    if n < m {
        lemma_parsed_prefix(files, n, (m - 1) as nat);
        lemma_parsed_prefix_step(files, (m - 1) as nat);
    }
}

proof fn lemma_parsed_prefix_step(files: Seq<PortfolioFileModel>, n: nat)
    ensures
        parsed_documents(files, n) is Panics ==> parsed_documents(files, n + 1) is Panics,
{
}

proof fn lemma_parsed_renderable(files: Seq<PortfolioFileModel>, n: nat)
    ensures
        parsed_documents(files, n) matches Scan::Done(ds) ==> forall|i: int|
            0 <= i < ds.len() ==> document_renderable(#[trigger] ds[i]),
    decreases n,
{
    if n > 0 {
        lemma_parsed_renderable(files, (n - 1) as nat);
        let f = files[n - 1];
        let ls = lines(f.raw);
        if let Ok((m, k)) = metadata_of(f.path, ls) {
            law_heading_levels(f.path, ls.skip(k as int), 0);
        }
        if let Scan::Done(ds) = parsed_documents(files, n) {
            let prev = parsed_documents(files, (n - 1) as nat)->Done_0;
            assert forall|i: int| 0 <= i < ds.len() implies document_renderable(#[trigger] ds[i]) by {
                if i < prev.len() {
                    assert(ds[i] == prev[i]);
                } else {
                    let d = ds[i];
                    assert forall|j: int| 0 <= j < d.blocks.len() implies block_renderable(
                        #[trigger] d.blocks[j],
                    ) by {}
                }
            }
        }
    }
}

/// Every page of a compiled site can be rendered: the parser gives headings
/// of level 1 to 6 only, and indexing and processing keep every block but
/// the entries of linked indexes.
pub proof fn law_compiled_renderable(root: Seq<char>, config: ConfigModel, files: Seq<PortfolioFileModel>)
    ensures
        compiled(root, config, files) matches Scan::Done(site) ==> outputs_renderable(site),
{
    lemma_parsed_renderable(files, files.len());
    if let Scan::Done(ds) = parsed_documents(files, files.len()) {
        if let Ok(site) = index_site(root, config, ds) {
            let docs = site.documents;
            lemma_type_indices_bound(docs, DocumentType::Article, docs.len());
            let order = sort_by(site.articles, by_date(docs));
            lemma_sort_by_members(site.articles, by_date(docs), docs.len() as nat);
            lemma_link_articles_shape(docs, order, order.len());
            let linked = link_articles(docs, order, order.len());
            let after = processed(site);
            assert forall|i: int| 0 <= i < after.documents.len() implies document_renderable(
                #[trigger] after.documents[i],
            ) by {
                assert(docs[i].blocks == ds[i].blocks);
                assert(linked[i].blocks == docs[i].blocks);
                let d = after.documents[i];
                assert forall|j: int| 0 <= j < d.blocks.len() implies block_renderable(
                    #[trigger] d.blocks[j],
                ) by {
                    assert(d.blocks[j] == fill_block(linked, linked[i].blocks[j]));
                    assert(block_renderable(ds[i].blocks[j]));
                }
            }
        }
    }
}

} // verus!
