//! The document language: metadata, blocks and inline markup.
pub mod block;
pub mod inline;
pub mod metadata;

use vstd::prelude::*;
use crate::compiler::model::site::{Document, DocumentModel, blocks_view};
use crate::compiler::source::PortfolioFile;
use crate::parser::block::{Read, Scan, blocks_from, read_blocks};
use crate::parser::metadata::metadata_of;
use crate::text::{lines, split_lines, strings_view, strs_view, to_chars};

verus! {

/// The document that a content file holds: its metadata, then the blocks of
/// the lines after it. Its route and neighbours are set by the index.
pub open spec fn document_of(path: Seq<char>, raw: Seq<char>) -> Scan<DocumentModel> {
    let ls = lines(raw);
    match metadata_of(path, ls) {
        Err(e) => Scan::Failed(e),
        Ok((m, n)) => match blocks_from(path, ls.skip(n as int), 0) {
            Scan::Done(bs) => Scan::Done(
                DocumentModel {
                    source_path: path,
                    metadata: m,
                    route: seq![],
                    blocks: bs,
                    previous: None,
                    next: None,
                },
            ),
            Scan::Failed(e) => Scan::Failed(e),
            Scan::Panics => Scan::Panics,
        },
    }
}

/// Reads a content file into a document, telling apart the files on which
/// parsing panics.
pub fn read_document(file: &PortfolioFile) -> (r: Read<Document>)
    ensures
        match r {
            Read::Done(d) => document_of(file.path@, file.raw@) == Scan::Done(d@),
            Read::Failed(e) => document_of(file.path@, file.raw@) == Scan::<DocumentModel>::Failed(
                e@,
            ),
            Read::Panics => document_of(file.path@, file.raw@) is Panics,
        },
{
    let raw = to_chars(file.raw.as_str());
    let owned = split_lines(&raw);
    let mut refs: Vec<&str> = Vec::new();
    let mut i: usize = 0;
    while i < owned.len()
        invariant
            i <= owned.len(),
            strs_view(refs@) == strings_view(owned@).take(i as int),
        decreases owned.len() - i,
    {
        let line: &str = owned[i].as_str();
        assert(line@ == strings_view(owned@)[i as int]);
        let ghost before = refs@;
        refs.push(line);
        assert(strs_view(refs@) =~= strs_view(before).push(line@));
        assert(strs_view(before).push(line@) =~= strings_view(owned@).take(i + 1));
        i = i + 1;
    }
    let ghost ls = lines(file.raw@);
    assert(strs_view(refs@) =~= ls);
    let path = file.path.as_str();
    let (metadata, next) = match crate::parser::metadata::parse(path, refs.as_slice()) {
        Ok(v) => v,
        Err(e) => {
            return Read::Failed(e);
        },
    };
    let mut rest: Vec<&str> = Vec::new();
    let mut j = next;
    while j < refs.len()
        invariant
            next <= j <= refs.len(),
            strs_view(rest@) == strs_view(refs@).subrange(next as int, j as int),
        decreases refs.len() - j,
    {
        let ghost before = rest@;
        let line: &str = refs[j];
        rest.push(line);
        assert(strs_view(rest@) =~= strs_view(before).push(line@));
        assert(strs_view(before).push(line@) =~= strs_view(refs@).subrange(next as int, j + 1));
        j = j + 1;
    }
    assert(strs_view(rest@) =~= ls.skip(next as int));
    let blocks = match read_blocks(path, rest.as_slice()) {
        Read::Done(bs) => bs,
        Read::Failed(e) => {
            return Read::Failed(e);
        },
        Read::Panics => {
            return Read::Panics;
        },
    };
    let doc = Document {
        source_path: file.path.clone(),
        metadata,
        route: String::new(),
        blocks,
        previous: None,
        next: None,
    };
    Read::Done(doc)
}

/// Parses a content file into a document.
pub fn parse_document(file: &PortfolioFile) -> (r: Result<Document, String>)
    requires
        document_of(file.path@, file.raw@) !is Panics,
    ensures
        match r {
            Ok(d) => document_of(file.path@, file.raw@) == Scan::Done(d@),
            Err(e) => document_of(file.path@, file.raw@) == Scan::<DocumentModel>::Failed(e@),
        },
{
    match read_document(file) {
        Read::Done(d) => Ok(d),
        Read::Failed(e) => Err(e),
        Read::Panics => {
            proof {
                assert(false);
            }
            Err(String::new())
        },
    }
}

} // verus!
