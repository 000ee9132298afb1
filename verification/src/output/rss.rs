//! RSS output (not written yet: it produces no files).
use vstd::prelude::*;
use crate::compiler::model::document::{Site, SiteModel};
use crate::config::{Config, ConfigModel};
use crate::output::{OutputFile, OutputFileModel, OutputFormatter, outputs_renderable, files_view};
use crate::text::{push_char, to_chars};

verus! {

/// The XML escape of one character.
pub open spec fn xml_escape_char(c: char) -> Seq<char> {
    if c == '&' {
        "&amp;"@
    } else if c == '<' {
        "&lt;"@
    } else if c == '>' {
        "&gt;"@
    } else if c == '"' {
        "&quot;"@
    } else {
        seq![c]
    }
}

/// `xml_escape`: every '&', '<', '>' and '"' replaced by its entity.
pub open spec fn xml_escaped(s: Seq<char>) -> Seq<char>
    decreases s.len(),
{
    if s.len() == 0 {
        seq![]
    } else {
        xml_escaped(s.drop_last()) + xml_escape_char(s.last())
    }
}

/// Escapes text for XML: '&', '<', '>' and '"'.
pub fn xml_escape(value: &str) -> (r: String)
    ensures
        r@ == xml_escaped(value@),
{
    let v = to_chars(value);
    let mut out = String::new();
    let mut i: usize = 0;
    assert(v@.take(0) =~= Seq::<char>::empty());
    while i < v.len()
        invariant
            i <= v.len(),
            out@ == xml_escaped(v@.take(i as int)),
        decreases v.len() - i,
    {
        let c = v[i];
        if c == '&' {
            out.append("&amp;");
        } else if c == '<' {
            out.append("&lt;");
        } else if c == '>' {
            out.append("&gt;");
        } else if c == '"' {
            out.append("&quot;");
        } else {
            push_char(&mut out, c);
        }
        assert(v@.take(i + 1).drop_last() =~= v@.take(i as int));
        i = i + 1;
    }
    assert(v@.take(v@.len() as int) =~= v@);
    out
}

/// The RSS output; it writes no files yet.
pub struct RSSOutputFormatter;

impl OutputFormatter for RSSOutputFormatter {
    open spec fn format_name(&self) -> Seq<char> {
        "rss"@
    }

    open spec fn pages(&self, site: SiteModel, config: ConfigModel) -> Seq<OutputFileModel> {
        Seq::empty()
    }

    fn name(&self) -> (r: &'static str)
        ensures
            r@ == "rss"@,
    {
        "rss"
    }

    fn render(&self, site: &Site, config: &Config) -> (r: Vec<OutputFile>)
        ensures
            files_view(r@) == Seq::<OutputFileModel>::empty(),
    {
        let r: Vec<OutputFile> = Vec::new();
        assert(files_view(r@) =~= Seq::<OutputFileModel>::empty());
        r
    }
}

} // verus!
