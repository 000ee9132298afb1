//! HTML output: one accessible page per document.
use vstd::prelude::*;
use crate::compiler::model::site::{
    Block, BlockModel, Document, DocumentModel, ImageAlt, ImageAltModel, Inline, InlineModel,
    inlines_view, lemma_inline_view_unfold, rows_view, blocks_view,
};
use crate::config::{Config, ConfigModel};
use crate::compiler::model::document::{Site, SiteModel};
use crate::output::{OutputFile, OutputFileModel, OutputFormatter, files_view, outputs_renderable, page_dir, route_dir};
use crate::text::{
    decimal, push_char, push_decimal, starts_with, string_from, to_chars, trim_start_char,
};

verus! {

// ---------------------------------------------------------------------------
// Escaping
// ---------------------------------------------------------------------------

/// The HTML escape of one character.
pub open spec fn escape_char(c: char) -> Seq<char> {
    if c == '&' {
        "&amp;"@
    } else if c == '<' {
        "&lt;"@
    } else if c == '>' {
        "&gt;"@
    } else if c == '"' {
        "&quot;"@
    } else if c == '\'' {
        "&#39;"@
    } else {
        seq![c]
    }
}

/// `html_escape`: every '&', '<', '>', '"' and '\'' replaced by its entity.
pub open spec fn html_escaped(s: Seq<char>) -> Seq<char>
    decreases s.len(),
{
    if s.len() == 0 {
        seq![]
    } else {
        html_escaped(s.drop_last()) + escape_char(s.last())
    }
}

/// The attribute escape of one character.
pub open spec fn escape_attr_char(c: char) -> Seq<char> {
    if c == '&' {
        "&amp;"@
    } else if c == '"' {
        "&quot;"@
    } else {
        seq![c]
    }
}

/// `html_escape_attribute`: every '&' and '"' replaced by its entity.
pub open spec fn attr_escaped(s: Seq<char>) -> Seq<char>
    decreases s.len(),
{
    if s.len() == 0 {
        seq![]
    } else {
        attr_escaped(s.drop_last()) + escape_attr_char(s.last())
    }
}

fn push_escaped_char(out: &mut String, c: char)
    ensures
        final(out)@ == old(out)@ + escape_char(c),
{
    if c == '&' {
        out.append("&amp;");
    } else if c == '<' {
        out.append("&lt;");
    } else if c == '>' {
        out.append("&gt;");
    } else if c == '"' {
        out.append("&quot;");
    } else if c == '\'' {
        out.append("&#39;");
    } else {
        push_char(out, c);
    }
}

fn push_escaped_attr_char(out: &mut String, c: char)
    ensures
        final(out)@ == old(out)@ + escape_attr_char(c),
{
    if c == '&' {
        out.append("&amp;");
    } else if c == '"' {
        out.append("&quot;");
    } else {
        push_char(out, c);
    }
}

/// Appends the HTML escape of `s`.
fn push_html_escaped(out: &mut String, s: &str)
    ensures
        final(out)@ == old(out)@ + html_escaped(s@),
{
    let v = to_chars(s);
    let mut i: usize = 0;
    assert(v@.take(0) =~= Seq::<char>::empty());
    while i < v.len()
        invariant
            i <= v.len(),
            out@ == old(out)@ + html_escaped(v@.take(i as int)),
        decreases v.len() - i,
    {
        push_escaped_char(out, v[i]);
        assert(v@.take(i + 1).drop_last() =~= v@.take(i as int));
        i = i + 1;
    }
    assert(v@.take(v@.len() as int) =~= v@);
}

/// Appends the attribute escape of `s`.
fn push_attr_escaped(out: &mut String, s: &str)
    ensures
        final(out)@ == old(out)@ + attr_escaped(s@),
{
    let v = to_chars(s);
    let mut i: usize = 0;
    assert(v@.take(0) =~= Seq::<char>::empty());
    while i < v.len()
        invariant
            i <= v.len(),
            out@ == old(out)@ + attr_escaped(v@.take(i as int)),
        decreases v.len() - i,
    {
        push_escaped_attr_char(out, v[i]);
        assert(v@.take(i + 1).drop_last() =~= v@.take(i as int));
        i = i + 1;
    }
    assert(v@.take(v@.len() as int) =~= v@);
}

/// Escapes text for HTML content: '&', '<', '>', '"' and '\''.
pub fn html_escape(value: &str) -> (r: String)
    ensures
        r@ == html_escaped(value@),
{
    let mut r = String::new();
    push_html_escaped(&mut r, value);
    r
}

/// Escapes text for an HTML attribute value: '&' and '"'.
pub fn html_escape_attribute(value: &str) -> (r: String)
    ensures
        r@ == attr_escaped(value@),
{
    let mut r = String::new();
    push_attr_escaped(&mut r, value);
    r
}

// ---------------------------------------------------------------------------
// Inline markup
// ---------------------------------------------------------------------------

pub open spec fn html_inline(i: InlineModel) -> Seq<char>
    decreases i,
{
    match i {
        InlineModel::Text(t) => html_escaped(t),
        InlineModel::Emphasis(v) => "<em>"@ + html_inlines(v) + "</em>"@,
        InlineModel::Strong(v) => "<strong>"@ + html_inlines(v) + "</strong>"@,
        InlineModel::Code(c) => "<code>"@ + html_escaped(c) + "</code>"@,
        InlineModel::Link { label, href } => "<a href=\""@ + attr_escaped(href) + "\">"@
            + html_inlines(label) + "</a>"@,
    }
}

pub open spec fn html_inlines(s: Seq<InlineModel>) -> Seq<char>
    decreases s,
{
    if s.len() == 0 {
        seq![]
    } else {
        html_inlines(s.drop_last()) + html_inline(s.last())
    }
}

fn write_one_inline(inline: &Inline, output: &mut String)
    ensures
        final(output)@ == old(output)@ + html_inline(inline@),
    decreases inline,
{
    proof {
        lemma_inline_view_unfold(*inline);
    }
    match inline {
        Inline::Text(text) => push_html_escaped(output, text.as_str()),
        Inline::Emphasis(text) => {
            output.append("<em>");
            write_inline(text, output);
            output.append("</em>");
        },
        Inline::Strong(text) => {
            output.append("<strong>");
            write_inline(text, output);
            output.append("</strong>");
        },
        Inline::Code(code) => {
            output.append("<code>");
            push_html_escaped(output, code.as_str());
            output.append("</code>");
        },
        Inline::Link { label, href } => {
            output.append("<a href=\"");
            push_attr_escaped(output, href.as_str());
            output.append("\">");
            write_inline(label, output);
            output.append("</a>");
        },
    }
}

/// Appends the HTML of a run of inline nodes.
fn write_inline(inlines: &Vec<Inline>, output: &mut String)
    ensures
        final(output)@ == old(output)@ + html_inlines(inlines_view(inlines@)),
    decreases inlines,
{
    let ghost v = inlines_view(inlines@);
    let mut k: usize = 0;
    assert(v.take(0) =~= Seq::<InlineModel>::empty());
    while k < inlines.len()
        invariant
            k <= inlines.len(),
            v == inlines_view(inlines@),
            output@ == old(output)@ + html_inlines(v.take(k as int)),
        decreases inlines.len() - k,
    {
        proof {
            assert(decreases_to!(inlines => inlines@));
            assert(decreases_to!(inlines@ => inlines@[k as int]));
        }
        write_one_inline(&inlines[k], output);
        assert(v.take(k + 1).drop_last() =~= v.take(k as int));
        assert(v.take(k + 1).last() == inlines@[k as int]@);
        k = k + 1;
    }
    assert(v.take(v.len() as int) =~= v);
}

// ---------------------------------------------------------------------------
// Blocks
// ---------------------------------------------------------------------------

pub open spec fn html_items(items: Seq<Seq<InlineModel>>) -> Seq<char>
    decreases items.len(),
{
    if items.len() == 0 {
        seq![]
    } else {
        html_items(items.drop_last()) + "<li>"@ + html_inlines(items.last()) + "</li>\n"@
    }
}

pub open spec fn html_list(tag: Seq<char>, items: Seq<Seq<InlineModel>>) -> Seq<char> {
    "<"@ + tag + ">\n"@ + html_items(items) + "</"@ + tag + ">\n"@
}

/// The alt text of an image; a decorative image has an empty one.
pub open spec fn alt_text(alt: ImageAltModel) -> Seq<char> {
    match alt {
        ImageAltModel::Description(v) => v,
        ImageAltModel::Decorative => seq![],
    }
}

/// The HTML of a block. A linked index is an ordered list of its entries.
pub open spec fn html_block(b: BlockModel) -> Seq<char> {
    match b {
        BlockModel::Heading { level, content } => "<h"@ + decimal((level + 1) as nat) + ">"@
            + html_inlines(content) + "</h"@ + decimal((level + 1) as nat) + ">\n"@,
        BlockModel::UnorderedList(items) => html_list("ul"@, items),
        BlockModel::OrderedList(items) => html_list("ol"@, items),
        BlockModel::BlockQuote(v) => "<blockquote><p>"@ + html_inlines(v) + "</p></blockquote>\n"@,
        BlockModel::CodeBlock { language, code } => "<pre><code"@ + match language {
            Some(l) => " class=\"language-"@ + attr_escaped(l) + "\""@,
            None => seq![],
        } + ">"@ + html_escaped(code) + "</code></pre>\n"@,
        BlockModel::Image(img) => "<figure>\n"@ + "<img src=\""@ + attr_escaped(
            seq!['/'] + trim_start_char(img.source, '/'),
        ) + "\" alt=\""@ + attr_escaped(alt_text(img.alt)) + "\" loading=\"lazy\">\n"@
            + match img.caption {
            Some(c) => "<figcaption>"@ + html_escaped(c) + "</figcaption>\n"@,
            None => seq![],
        } + "</figure>\n"@,
        BlockModel::Paragraph(v) => "<p>"@ + html_inlines(v) + "</p>\n"@,
        BlockModel::LinkedIndex(li) => html_list("ol"@, li.items),
    }
}

/// Heading levels leave room for the page title, which is the only `h1`.
pub open spec fn block_renderable(b: BlockModel) -> bool {
    b matches BlockModel::Heading { level, .. } ==> level < 255
}

fn write_list(tag: &str, items: &Vec<Vec<Inline>>, output: &mut String)
    ensures
        final(output)@ == old(output)@ + html_list(tag@, rows_view(items@)),
{
    output.append("<");
    output.append(tag);
    output.append(">\n");
    let ghost start = output@;
    let ghost rows = rows_view(items@);
    let mut k: usize = 0;
    assert(rows.take(0) =~= Seq::<Seq<InlineModel>>::empty());
    while k < items.len()
        invariant
            k <= items.len(),
            rows == rows_view(items@),
            output@ == start + html_items(rows.take(k as int)),
        decreases items.len() - k,
    {
        output.append("<li>");
        write_inline(&items[k], output);
        output.append("</li>\n");
        assert(rows.take(k + 1).drop_last() =~= rows.take(k as int));
        assert(rows.take(k + 1).last() == inlines_view(items@[k as int]@));
        k = k + 1;
    }
    assert(rows.take(rows.len() as int) =~= rows);
    output.append("</");
    output.append(tag);
    output.append(">\n");
}

/// Appends the HTML of a block.
fn write_block(block: &Block, output: &mut String)
    requires
        block_renderable(block@),
    ensures
        final(output)@ == old(output)@ + html_block(block@),
{
    match block {
        Block::Heading { level, content } => {
            let level = *level + 1;
            output.append("<h");
            push_decimal(output, level as usize);
            output.append(">");
            write_inline(content, output);
            output.append("</h");
            push_decimal(output, level as usize);
            output.append(">\n");
        },
        Block::UnorderedList(items) => write_list("ul", items, output),
        Block::OrderedList(items) => write_list("ol", items, output),
        Block::BlockQuote(inlines) => {
            output.append("<blockquote><p>");
            write_inline(inlines, output);
            output.append("</p></blockquote>\n");
        },
        Block::CodeBlock { language, code } => {
            output.append("<pre><code");
            if let Some(language) = language {
                output.append(" class=\"language-");
                push_attr_escaped(output, language.as_str());
                output.append("\"");
            }
            output.append(">");
            push_html_escaped(output, code.as_str());
            output.append("</code></pre>\n");
        },
        Block::Image(image) => {
            output.append("<figure>\n");
            let alt = match &image.alt {
                ImageAlt::Description(value) => value.as_str(),
                ImageAlt::Decorative => "",
            };
            proof {
                reveal_strlit("");
            }
            output.append("<img src=\"");
            let src = to_chars(image.source.as_str());
            let (a, _) = crate::text::trim_char_bounds(&src, 0, src.len(), '/');
            assert(src@.subrange(0, src@.len() as int) =~= src@);
            let mut path = String::new();
            push_char(&mut path, '/');
            crate::text::push_range(&mut path, &src, a, src.len());
            push_attr_escaped(output, path.as_str());
            output.append("\" alt=\"");
            push_attr_escaped(output, alt);
            output.append("\" loading=\"lazy\">\n");
            if let Some(caption) = &image.caption {
                output.append("<figcaption>");
                push_html_escaped(output, caption.as_str());
                output.append("</figcaption>\n");
            }
            output.append("</figure>\n");
        },
        Block::Paragraph(inlines) => {
            output.append("<p>");
            write_inline(inlines, output);
            output.append("</p>\n");
        },
        Block::LinkedIndex(index) => write_list("ol", &index.items, output),
    }
}

// ---------------------------------------------------------------------------
// Documents
// ---------------------------------------------------------------------------

pub open spec fn html_blocks(bs: Seq<BlockModel>) -> Seq<char>
    decreases bs.len(),
{
    if bs.len() == 0 {
        seq![]
    } else {
        html_blocks(bs.drop_last()) + html_block(bs.last())
    }
}

/// The text of `o` wrapped in `before` and `after`, or nothing.
pub open spec fn wrap_opt(before: Seq<char>, o: Option<Seq<char>>, after: Seq<char>) -> Seq<char> {
    match o {
        Some(v) => before + v + after,
        None => seq![],
    }
}

pub open spec fn opt_map(o: Option<Seq<char>>, f: spec_fn(Seq<char>) -> Seq<char>) -> Option<
    Seq<char>,
> {
    match o {
        Some(v) => Some(f(v)),
        None => None,
    }
}

/// The `<head>` of a page.
pub open spec fn html_head(d: DocumentModel, c: ConfigModel) -> Seq<char> {
    "<!DOCTYPE html>"@ + "<html lang=\""@ + c.language + "\">\n"@ + "<head>\n"@
        + "<meta charset=\"utf-8\">\n"@
        + "<meta name=\"viewport\" content=\"width=device-width, initial-scale=1\">\n"@
        + "<meta name=\"color-scheme\" content=\"light dark\">\n"@ + "<title>"@ + html_escaped(
        d.metadata.title,
    ) + "</title>\n"@ + "<meta name=\"description\" content=\""@ + attr_escaped(
        match d.metadata.summary {
            Some(v) => v,
            None => d.metadata.title,
        },
    ) + "\">\n"@ + "<link rel=\"canonical\" href=\""@ + c.base_url + d.route + "\">\n"@
        + wrap_opt(
        "<link rel=\"stylesheet\" href=\""@,
        opt_map(c.stylesheet, |v: Seq<char>| attr_escaped(v)),
        "\">\n"@,
    ) + "<link rel=\"alternate\" type=\"text/plain\" href=\"index.txt\">\n"@ + wrap_opt(
        "<link rel=\"prev\" href=\""@,
        d.previous,
        "\">"@,
    ) + wrap_opt("<link rel=\"next\" href=\""@, d.next, "\">"@) + "</head>\n"@
}

/// The header of the article: title, summary, date and author.
pub open spec fn html_article_header(d: DocumentModel) -> Seq<char> {
    "<header>\n"@ + "<h1>"@ + html_escaped(d.metadata.title) + "</h1>"@ + wrap_opt(
        "\n<p>"@,
        opt_map(d.metadata.summary, |v: Seq<char>| html_escaped(v)),
        "</p>\n"@,
    ) + match d.metadata.date {
        Some(date) => "<time datetime=\""@ + attr_escaped(date) + "\">"@ + html_escaped(date)
            + "</time>\n"@,
        None => seq![],
    } + wrap_opt("<p class=\"author\">"@, d.metadata.author, "</p>\n"@) + "</header>\n"@
}

/// The navigation to the previous and next article, where there is one.
pub open spec fn html_nav(d: DocumentModel) -> Seq<char> {
    if d.previous is Some || d.next is Some {
        "<nav aria-label=\"navigation\">\n"@ + wrap_opt(
            "<a rel=\"prev\" href=\""@,
            opt_map(d.previous, |v: Seq<char>| attr_escaped(v)),
            "\">Previous</a>\n"@,
        ) + wrap_opt(
            "<a rel=\"next\" href=\""@,
            opt_map(d.next, |v: Seq<char>| attr_escaped(v)),
            "\">Next</a>\n"@,
        ) + "</nav>\n"@
    } else {
        seq![]
    }
}

/// The HTML page of a document.
pub open spec fn html_document(d: DocumentModel, site_title: Seq<char>, c: ConfigModel) -> Seq<
    char,
> {
    html_head(d, c) + "<body>\n"@ + "<a class=\"skip-link\" href=\"#content\">Skip to content</a>\n"@
        + "<header><a href=\"/\">"@ + site_title + "</a></header>\n"@ + "<main id=\"content\">\n"@
        + "<article>\n"@ + html_article_header(d) + html_blocks(d.blocks) + html_nav(d)
        + "</article>\n"@ + "</main>\n"@ + "</body>\n"@ + "</html>\n"@
}

/// Every heading of the document can be rendered.
pub open spec fn document_renderable(d: DocumentModel) -> bool {
    forall|i: int| 0 <= i < d.blocks.len() ==> block_renderable(#[trigger] d.blocks[i])
}

fn write_head(document: &Document, config: &Config, output: &mut String)
    ensures
        final(output)@ == old(output)@ + html_head(document@, config@),
{
    let mut buf = String::new();
    buf.append("<!DOCTYPE html>");
    assert(buf@ =~= "<!DOCTYPE html>"@);
    buf.append("<html lang=\"");
    buf.append(config.language.as_str());
    buf.append("\">\n");
    buf.append("<head>\n");
    buf.append("<meta charset=\"utf-8\">\n");
    buf.append("<meta name=\"viewport\" content=\"width=device-width, initial-scale=1\">\n");
    buf.append("<meta name=\"color-scheme\" content=\"light dark\">\n");
    buf.append("<title>");
    push_html_escaped(&mut buf, document.metadata.title.as_str());
    buf.append("</title>\n");
    buf.append("<meta name=\"description\" content=\"");
    let description = match &document.metadata.summary {
        Some(v) => v.as_str(),
        None => document.metadata.title.as_str(),
    };
    push_attr_escaped(&mut buf, description);
    buf.append("\">\n");
    buf.append("<link rel=\"canonical\" href=\"");
    buf.append(config.base_url.as_str());
    buf.append(document.route.as_str());
    buf.append("\">\n");
    let ghost m1 = buf@;
    if let Some(path) = &config.stylesheet {
        buf.append("<link rel=\"stylesheet\" href=\"");
        push_attr_escaped(&mut buf, path.as_str());
        buf.append("\">\n");
    }
    assert(buf@ =~= m1 + wrap_opt(
        "<link rel=\"stylesheet\" href=\""@,
        opt_map(config@.stylesheet, |v: Seq<char>| attr_escaped(v)),
        "\">\n"@,
    ));
    buf.append("<link rel=\"alternate\" type=\"text/plain\" href=\"index.txt\">\n");
    let ghost m2 = buf@;
    if let Some(path) = &document.previous {
        buf.append("<link rel=\"prev\" href=\"");
        buf.append(path.as_str());
        buf.append("\">");
    }
    assert(buf@ =~= m2 + wrap_opt("<link rel=\"prev\" href=\""@, document@.previous, "\">"@));
    let ghost m3 = buf@;
    if let Some(path) = &document.next {
        buf.append("<link rel=\"next\" href=\"");
        buf.append(path.as_str());
        buf.append("\">");
    }
    assert(buf@ =~= m3 + wrap_opt("<link rel=\"next\" href=\""@, document@.next, "\">"@));
    buf.append("</head>\n");
    assert(buf@ == html_head(document@, config@));
    output.append(buf.as_str());
}

fn write_article_header(document: &Document, output: &mut String)
    ensures
        final(output)@ == old(output)@ + html_article_header(document@),
{
    let mut buf = String::new();
    buf.append("<header>\n");
    assert(buf@ =~= "<header>\n"@);
    buf.append("<h1>");
    push_html_escaped(&mut buf, document.metadata.title.as_str());
    buf.append("</h1>");
    let ghost m1 = buf@;
    if let Some(summary) = &document.metadata.summary {
        buf.append("\n<p>");
        push_html_escaped(&mut buf, summary.as_str());
        buf.append("</p>\n");
    }
    assert(buf@ =~= m1 + wrap_opt(
        "\n<p>"@,
        opt_map(document@.metadata.summary, |v: Seq<char>| html_escaped(v)),
        "</p>\n"@,
    ));
    let ghost m2 = buf@;
    if let Some(date) = &document.metadata.date {
        buf.append("<time datetime=\"");
        push_attr_escaped(&mut buf, date.as_str());
        buf.append("\">");
        push_html_escaped(&mut buf, date.as_str());
        buf.append("</time>\n");
    }
    assert(buf@ =~= m2 + match document@.metadata.date {
        Some(date) => "<time datetime=\""@ + attr_escaped(date) + "\">"@ + html_escaped(date)
            + "</time>\n"@,
        None => seq![],
    });
    let ghost m3 = buf@;
    if let Some(author) = &document.metadata.author {
        buf.append("<p class=\"author\">");
        buf.append(author.as_str());
        buf.append("</p>\n");
    }
    assert(buf@ =~= m3 + wrap_opt("<p class=\"author\">"@, document@.metadata.author, "</p>\n"@));
    buf.append("</header>\n");
    assert(buf@ == html_article_header(document@));
    output.append(buf.as_str());
}

fn write_nav(document: &Document, output: &mut String)
    ensures
        final(output)@ == old(output)@ + html_nav(document@),
{
    if document.previous.is_some() || document.next.is_some() {
        output.append("<nav aria-label=\"navigation\">\n");
        let ghost m1 = output@;
        if let Some(route) = &document.previous {
            output.append("<a rel=\"prev\" href=\"");
            push_attr_escaped(output, route.as_str());
            output.append("\">Previous</a>\n");
        }
        assert(output@ =~= m1 + wrap_opt(
            "<a rel=\"prev\" href=\""@,
            opt_map(document@.previous, |v: Seq<char>| attr_escaped(v)),
            "\">Previous</a>\n"@,
        ));
        let ghost m2 = output@;
        if let Some(route) = &document.next {
            output.append("<a rel=\"next\" href=\"");
            push_attr_escaped(output, route.as_str());
            output.append("\">Next</a>\n");
        }
        assert(output@ =~= m2 + wrap_opt(
            "<a rel=\"next\" href=\""@,
            opt_map(document@.next, |v: Seq<char>| attr_escaped(v)),
            "\">Next</a>\n"@,
        ));
        output.append("</nav>\n");
        assert(output@ =~= old(output)@ + html_nav(document@));
    } else {
        assert(output@ =~= old(output)@ + html_nav(document@));
    }
}

/// `write_document`: the HTML page of a document.
pub fn write_document(document: &Document, site_title: &str, config: &Config) -> (r: String)
    requires
        document_renderable(document@),
    ensures
        r@ == html_document(document@, site_title@, config@),
{
    let mut body = String::new();
    write_head(document, config, &mut body);
    body.append("<body>\n");
    body.append("<a class=\"skip-link\" href=\"#content\">Skip to content</a>\n");
    body.append("<header><a href=\"/\">");
    body.append(site_title);
    body.append("</a></header>\n");
    body.append("<main id=\"content\">\n");
    body.append("<article>\n");
    write_article_header(document, &mut body);
    let ghost start = body@;
    let ghost bs = blocks_view(document.blocks@);
    let mut k: usize = 0;
    assert(bs.take(0) =~= Seq::<BlockModel>::empty());
    while k < document.blocks.len()
        invariant
            k <= document.blocks.len(),
            bs == blocks_view(document.blocks@),
            document_renderable(document@),
            body@ == start + html_blocks(bs.take(k as int)),
        decreases document.blocks.len() - k,
    {
        assert(document@.blocks[k as int] == bs[k as int]);
        assert(block_renderable(bs[k as int]));
        write_block(&document.blocks[k], &mut body);
        assert(bs.take(k + 1).drop_last() =~= bs.take(k as int));
        k = k + 1;
    }
    assert(bs.take(bs.len() as int) =~= bs);
    write_nav(document, &mut body);
    body.append("</article>\n");
    body.append("</main>\n");
    body.append("</body>\n");
    body.append("</html>\n");
    assert(body@ =~= html_document(document@, site_title@, config@));
    body
}

// ---------------------------------------------------------------------------
// The format
// ---------------------------------------------------------------------------

/// The HTML files of a site: `index.html` in the directory of each route.
pub open spec fn html_pages(site: SiteModel, config: ConfigModel) -> Seq<OutputFileModel> {
    Seq::new(
        site.documents.len(),
        |i: int|
            OutputFileModel {
                dir: page_dir(site.documents[i]),
                name: "index.html"@,
                contents: html_document(site.documents[i], site.config.title, config),
            },
    )
}

/// The HTML output.
pub struct HTMLOutputFormatter;

impl OutputFormatter for HTMLOutputFormatter {
    open spec fn format_name(&self) -> Seq<char> {
        "html"@
    }

    open spec fn pages(&self, site: SiteModel, config: ConfigModel) -> Seq<OutputFileModel> {
        html_pages(site, config)
    }

    fn name(&self) -> (r: &'static str)
        ensures
            r@ == "html"@,
    {
        "html"
    }

    fn render(&self, site: &Site, config: &Config) -> (r: Vec<OutputFile>)
        ensures
            files_view(r@) == html_pages(site@, config@),
    {
        let mut files: Vec<OutputFile> = Vec::new();
        let mut i: usize = 0;
        while i < site.documents.len()
            invariant
                i <= site.documents.len(),
                outputs_renderable(site@),
                files_view(files@) == html_pages(site@, config@).take(i as int),
            decreases site.documents.len() - i,
        {
            let document = &site.documents[i];
            assert(site@.documents[i as int] == document@);
            let file = OutputFile {
                dir: route_dir(document),
                name: string_from("index.html"),
                contents: write_document(document, site.config.title.as_str(), config),
            };
            let ghost fm = file@;
            let ghost before = files_view(files@);
            assert(fm == html_pages(site@, config@)[i as int]);
            files.push(file);
            assert(files_view(files@) =~= before.push(fm));
            assert(before.push(fm) =~= html_pages(site@, config@).take(i + 1));
            i = i + 1;
        }
        assert(html_pages(site@, config@).take(site.documents.len() as int) =~= html_pages(
            site@,
            config@,
        ));
        files
    }
}

/// Escaped text holds none of '<', '>', '"' and '\'', and escaped attribute
/// values hold no '"': what is escaped cannot open or close a tag or an
/// attribute.
pub proof fn law_escape(s: Seq<char>)
    ensures
        forall|i: int|
            0 <= i < html_escaped(s).len() ==> {
                let c = #[trigger] html_escaped(s)[i];
                c != '<' && c != '>' && c != '"' && c != '\''
            },
        forall|i: int| 0 <= i < attr_escaped(s).len() ==> #[trigger] attr_escaped(s)[i] != '"',
    decreases s.len(),
{
    reveal_strlit("&amp;");
    reveal_strlit("&lt;");
    reveal_strlit("&gt;");
    reveal_strlit("&quot;");
    reveal_strlit("&#39;");
    if s.len() > 0 {
        law_escape(s.drop_last());
        let a = html_escaped(s.drop_last());
        let e = escape_char(s.last());
        assert forall|i: int| 0 <= i < html_escaped(s).len() implies {
            let c = #[trigger] html_escaped(s)[i];
            c != '<' && c != '>' && c != '"' && c != '\''
        } by {
            if i < a.len() {
                assert(html_escaped(s)[i] == a[i]);
            } else {
                assert(html_escaped(s)[i] == e[i - a.len()]);
            }
        }
        let b = attr_escaped(s.drop_last());
        let f = escape_attr_char(s.last());
        assert forall|i: int| 0 <= i < attr_escaped(s).len() implies #[trigger] attr_escaped(s)[i]
            != '"' by {
            if i < b.len() {
                assert(attr_escaped(s)[i] == b[i]);
            } else {
                assert(attr_escaped(s)[i] == f[i - b.len()]);
            }
        }
    }
}

/// The text that escaped text stands for: the entities `&amp;`, `&lt;`,
/// `&gt;`, `&quot;` and `&#39;` decoded in one pass from the left.
pub open spec fn html_unescaped(s: Seq<char>) -> Seq<char>
    decreases s.len(),
{
    proof {
        reveal_strlit("&amp;");
        reveal_strlit("&lt;");
        reveal_strlit("&gt;");
        reveal_strlit("&quot;");
        reveal_strlit("&#39;");
    }
    if s.len() == 0 {
        seq![]
    } else if starts_with(s, "&amp;"@) {
        seq!['&'] + html_unescaped(s.skip(5))
    } else if starts_with(s, "&lt;"@) {
        seq!['<'] + html_unescaped(s.skip(4))
    } else if starts_with(s, "&gt;"@) {
        seq!['>'] + html_unescaped(s.skip(4))
    } else if starts_with(s, "&quot;"@) {
        seq!['"'] + html_unescaped(s.skip(6))
    } else if starts_with(s, "&#39;"@) {
        seq!['\''] + html_unescaped(s.skip(5))
    } else {
        seq![s[0]] + html_unescaped(s.skip(1))
    }
}

/// `t` starts with one of the five entities that escaping writes.
pub open spec fn starts_with_entity(t: Seq<char>) -> bool {
    starts_with(t, "&amp;"@) || starts_with(t, "&lt;"@) || starts_with(t, "&gt;"@)
        || starts_with(t, "&quot;"@) || starts_with(t, "&#39;"@)
}

proof fn lemma_escaped_front(s: Seq<char>)
    requires
        s.len() > 0,
    ensures
        html_escaped(s) == escape_char(s[0]) + html_escaped(s.drop_first()),
    decreases s.len(),
{
    if s.len() == 1 {
        assert(s.drop_last() =~= Seq::<char>::empty());
        assert(s.drop_first() =~= Seq::<char>::empty());
        assert(escape_char(s[0]) + Seq::<char>::empty() =~= escape_char(s[0]));
    } else {
        lemma_escaped_front(s.drop_last());
        assert(s.drop_last().drop_first() =~= s.drop_first().drop_last());
        assert(s.drop_first().last() == s.last());
        assert(s.drop_last()[0] == s[0]);
        let e = escape_char(s[0]);
        let m = html_escaped(s.drop_last().drop_first());
        let l = escape_char(s.last());
        assert(e + m + l =~= e + (m + l));
    }
}

/// Decoding `e + rest`, where `e` is the escape of `c`, gives `c` and then
/// the decoding of `rest`.
proof fn lemma_unescape_step(c: char, rest: Seq<char>)
    ensures
        html_unescaped(escape_char(c) + rest) == seq![c] + html_unescaped(rest),
        starts_with(escape_char(c) + rest, seq!['&']) ==> starts_with_entity(escape_char(c) + rest),
{
    reveal_strlit("&amp;");
    reveal_strlit("&lt;");
    reveal_strlit("&gt;");
    reveal_strlit("&quot;");
    reveal_strlit("&#39;");
    let e = escape_char(c);
    let t = e + rest;
    assert(t.skip(e.len() as int) =~= rest);
    assert(t.take(e.len() as int) =~= e);
    if c == '&' {
        assert(starts_with(t, "&amp;"@));
    } else if c == '<' {
        assert(t[1] == 'l');
        assert(!starts_with(t, "&amp;"@)) by {
            if starts_with(t, "&amp;"@) {
                assert(t.take(5)[1] == 'a');
            }
        }
        assert(starts_with(t, "&lt;"@));
    } else if c == '>' {
        assert(t[1] == 'g');
        assert(!starts_with(t, "&amp;"@)) by {
            if starts_with(t, "&amp;"@) {
                assert(t.take(5)[1] == 'a');
            }
        }
        assert(!starts_with(t, "&lt;"@)) by {
            if starts_with(t, "&lt;"@) {
                assert(t.take(4)[1] == 'l');
            }
        }
        assert(starts_with(t, "&gt;"@));
    } else if c == '"' {
        assert(t[1] == 'q');
        assert(!starts_with(t, "&amp;"@)) by {
            if starts_with(t, "&amp;"@) {
                assert(t.take(5)[1] == 'a');
            }
        }
        assert(!starts_with(t, "&lt;"@)) by {
            if starts_with(t, "&lt;"@) {
                assert(t.take(4)[1] == 'l');
            }
        }
        assert(!starts_with(t, "&gt;"@)) by {
            if starts_with(t, "&gt;"@) {
                assert(t.take(4)[1] == 'g');
            }
        }
        assert(starts_with(t, "&quot;"@));
    } else if c == '\'' {
        assert(t[1] == '#');
        assert(!starts_with(t, "&amp;"@)) by {
            if starts_with(t, "&amp;"@) {
                assert(t.take(5)[1] == 'a');
            }
        }
        assert(!starts_with(t, "&lt;"@)) by {
            if starts_with(t, "&lt;"@) {
                assert(t.take(4)[1] == 'l');
            }
        }
        assert(!starts_with(t, "&gt;"@)) by {
            if starts_with(t, "&gt;"@) {
                assert(t.take(4)[1] == 'g');
            }
        }
        assert(!starts_with(t, "&quot;"@)) by {
            if starts_with(t, "&quot;"@) {
                assert(t.take(6)[1] == 'q');
            }
        }
        assert(starts_with(t, "&#39;"@));
    } else {
        assert(t[0] == c);
        assert(!starts_with(t, "&amp;"@)) by {
            if starts_with(t, "&amp;"@) {
                assert(t.take(5)[0] == '&');
            }
        }
        assert(!starts_with(t, "&lt;"@)) by {
            if starts_with(t, "&lt;"@) {
                assert(t.take(4)[0] == '&');
            }
        }
        assert(!starts_with(t, "&gt;"@)) by {
            if starts_with(t, "&gt;"@) {
                assert(t.take(4)[0] == '&');
            }
        }
        assert(!starts_with(t, "&quot;"@)) by {
            if starts_with(t, "&quot;"@) {
                assert(t.take(6)[0] == '&');
            }
        }
        assert(!starts_with(t, "&#39;"@)) by {
            if starts_with(t, "&#39;"@) {
                assert(t.take(5)[0] == '&');
            }
        }
        assert(!starts_with(t, seq!['&'])) by {
            if starts_with(t, seq!['&']) {
                assert(t.take(1)[0] == '&');
            }
        }
    }
}

/// Escaping can be undone: decoding the escaped text gives the text back.
/// Every '&' of escaped text begins one of the five entities, so nothing is
/// escaped twice.
pub proof fn law_unescape(s: Seq<char>)
    ensures
        html_unescaped(html_escaped(s)) == s,
        forall|i: int|
            0 <= i < html_escaped(s).len() && #[trigger] html_escaped(s)[i] == '&'
                ==> starts_with_entity(html_escaped(s).skip(i)),
    decreases s.len(),
{
    if s.len() == 0 {
        assert(html_escaped(s) =~= Seq::<char>::empty());
    } else {
        law_unescape(s.drop_first());
        lemma_escaped_front(s);
        let e = escape_char(s[0]);
        let rest = html_escaped(s.drop_first());
        let t = html_escaped(s);
        lemma_unescape_step(s[0], rest);
        assert(seq![s[0]] + s.drop_first() =~= s);
        assert forall|i: int| 0 <= i < t.len() && #[trigger] t[i] == '&' implies starts_with_entity(
            t.skip(i),
        ) by {
            reveal_strlit("&amp;");
            reveal_strlit("&lt;");
            reveal_strlit("&gt;");
            reveal_strlit("&quot;");
            reveal_strlit("&#39;");
            if i < e.len() {
                if i == 0 {
                    assert(t.skip(0) =~= t);
                    assert(t.take(1) =~= seq!['&']);
                } else {
                    assert(t[i] == e[i]);
                }
            } else {
                let j = i - e.len();
                assert(t[i] == rest[j]);
                assert(t.skip(i) =~= rest.skip(j));
            }
        }
    }
}

/// An ordered list is an `<ol>` element and an unordered list a `<ul>`
/// element, around the same `<li>` items: the two differ in the tag alone.
pub proof fn law_html_lists(items: Seq<Seq<InlineModel>>)
    ensures
        html_block(BlockModel::OrderedList(items)) == "<ol>\n"@ + html_items(items) + "</ol>\n"@,
        html_block(BlockModel::UnorderedList(items)) == "<ul>\n"@ + html_items(items)
            + "</ul>\n"@,
{
    reveal_strlit("<");
    reveal_strlit(">\n");
    reveal_strlit("</");
    reveal_strlit("ol");
    reveal_strlit("ul");
    reveal_strlit("<ol>\n");
    reveal_strlit("</ol>\n");
    reveal_strlit("<ul>\n");
    reveal_strlit("</ul>\n");
    let x = html_items(items);
    assert("<"@ + "ol"@ + ">\n"@ + x + "</"@ + "ol"@ + ">\n"@ =~= "<ol>\n"@ + x + "</ol>\n"@);
    assert("<"@ + "ul"@ + ">\n"@ + x + "</"@ + "ul"@ + ">\n"@ =~= "<ul>\n"@ + x + "</ul>\n"@);
}

} // verus!
