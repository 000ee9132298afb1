//! Site configuration, read from `qf.config.json` by the application.
use vstd::prelude::*;
use crate::text::string_from;

verus! {

/// The site configuration. Directories are paths relative to the project
/// root (or absolute), written with '/' separators.
#[derive(Debug, Clone)]
pub struct Config {
    pub title: String,
    pub base_url: String,
    pub stylesheet: Option<String>,
    pub language: String,
    pub content_dir: String,
    pub output_dir: String,
    pub static_dir: String,
}

pub struct ConfigModel {
    pub title: Seq<char>,
    pub base_url: Seq<char>,
    pub stylesheet: Option<Seq<char>>,
    pub language: Seq<char>,
    pub content_dir: Seq<char>,
    pub output_dir: Seq<char>,
    pub static_dir: Seq<char>,
}

impl View for Config {
    type V = ConfigModel;

    open spec fn view(&self) -> ConfigModel {
        ConfigModel {
            title: self.title@,
            base_url: self.base_url@,
            stylesheet: crate::compiler::model::site::opt_view(self.stylesheet),
            language: self.language@,
            content_dir: self.content_dir@,
            output_dir: self.output_dir@,
            static_dir: self.static_dir@,
        }
    }
}

/// The page language when the configuration names none.
pub fn default_language() -> (r: String)
    ensures
        r@ == "en"@,
{
    string_from("en")
}

/// The content directory when the configuration names none.
pub fn default_content_dir() -> (r: String)
    ensures
        r@ == "content"@,
{
    string_from("content")
}

/// The output directory when the configuration names none.
pub fn default_output_dir() -> (r: String)
    ensures
        r@ == "dist"@,
{
    string_from("dist")
}

/// The static-files directory when the configuration names none.
pub fn default_static_dir() -> (r: String)
    ensures
        r@ == "static"@,
{
    string_from("static")
}

} // verus!
