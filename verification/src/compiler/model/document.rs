//! The compiled site: configuration, documents and their indexes.
use vstd::prelude::*;
use crate::compiler::model::site::{Document, DocumentModel, documents_view};
use crate::config::{Config, ConfigModel};

verus! {

/// The site after indexing. `routes` pairs each route with the index of the
/// document that has it, in document order; no route occurs twice.
#[derive(Debug)]
pub struct Site {
    pub config: Config,
    pub documents: Vec<Document>,
    pub routes: Vec<(String, usize)>,
    pub articles: Vec<usize>,
    pub projects: Vec<usize>,
}

pub struct SiteModel {
    pub config: ConfigModel,
    pub documents: Seq<DocumentModel>,
    pub routes: Seq<(Seq<char>, usize)>,
    pub articles: Seq<usize>,
    pub projects: Seq<usize>,
}

/// The models of route entries.
pub open spec fn routes_view(r: Seq<(String, usize)>) -> Seq<(Seq<char>, usize)> {
    Seq::new(r.len(), |i: int| (r[i].0@, r[i].1))
}

impl View for Site {
    type V = SiteModel;

    open spec fn view(&self) -> SiteModel {
        SiteModel {
            config: self.config@,
            documents: documents_view(self.documents@),
            routes: routes_view(self.routes@),
            articles: self.articles@,
            projects: self.projects@,
        }
    }
}

} // verus!
