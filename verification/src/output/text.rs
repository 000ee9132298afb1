//! Plain-text output: one readable text file per document.
use vstd::prelude::*;
use crate::compiler::model::site::{
    Block, BlockModel, Document, DocumentModel, ImageAlt, ImageAltModel, Inline, InlineModel,
    blocks_view, inlines_view, lemma_inline_view_unfold, rows_view,
};
use crate::compiler::model::document::{Site, SiteModel};
use crate::config::{Config, ConfigModel};
use crate::output::html::wrap_opt;
use crate::output::{OutputFile, OutputFileModel, OutputFormatter, files_view, outputs_renderable, page_dir, route_dir};
use crate::text::{
    decimal, lines, push_char, push_decimal, push_repeat, repeat_char, split_lines,
    string_from, strings_view, to_chars,
};

verus! {

/// The text that `str::to_uppercase` gives for `s`.
pub uninterp spec fn uppercase(s: Seq<char>) -> Seq<char>;

/// Calls `str::to_uppercase`. Its result is named, not stated: Unicode case
/// mapping is not written out here, so nothing is claimed of it beyond being
/// a function of `s`.
#[verifier::external_body]
fn to_uppercase(s: &str) -> (r: String)
    ensures
        r@ == uppercase(s@),
{
    s.to_uppercase()
}

pub open spec fn text_inline(i: InlineModel) -> Seq<char>
    decreases i,
{
    match i {
        InlineModel::Text(t) => t,
        InlineModel::Code(t) => t,
        InlineModel::Emphasis(v) => text_inlines(v),
        InlineModel::Strong(v) => text_inlines(v),
        InlineModel::Link { label, href } => text_inlines(label) + " ("@ + href + seq![')'],
    }
}

/// The plain text of a run of inline nodes; a link shows its target in
/// parentheses.
pub open spec fn text_inlines(s: Seq<InlineModel>) -> Seq<char>
    decreases s,
{
    if s.len() == 0 {
        seq![]
    } else {
        text_inlines(s.drop_last()) + text_inline(s.last())
    }
}

fn write_one_inline(inline: &Inline, output: &mut String)
    ensures
        final(output)@ == old(output)@ + text_inline(inline@),
    decreases inline,
{
    proof {
        lemma_inline_view_unfold(*inline);
    }
    match inline {
        Inline::Text(text) => output.append(text.as_str()),
        Inline::Code(text) => output.append(text.as_str()),
        Inline::Emphasis(text) => write_inlines(text, output),
        Inline::Strong(text) => write_inlines(text, output),
        Inline::Link { label, href } => {
            write_inlines(label, output);
            output.append(" (");
            output.append(href.as_str());
            push_char(output, ')');
        },
    }
}

/// Appends the plain text of a run of inline nodes.
fn write_inlines(inlines: &Vec<Inline>, output: &mut String)
    ensures
        final(output)@ == old(output)@ + text_inlines(inlines_view(inlines@)),
    decreases inlines,
{
    let ghost v = inlines_view(inlines@);
    let mut k: usize = 0;
    assert(v.take(0) =~= Seq::<InlineModel>::empty());
    while k < inlines.len()
        invariant
            k <= inlines.len(),
            v == inlines_view(inlines@),
            output@ == old(output)@ + text_inlines(v.take(k as int)),
        decreases inlines.len() - k,
    {
        proof {
            assert(decreases_to!(inlines => inlines@));
            assert(decreases_to!(inlines@ => inlines@[k as int]));
        }
        write_one_inline(&inlines[k], output);
        assert(v.take(k + 1).drop_last() =~= v.take(k as int));
        assert(v.take(k + 1).last() == inlines@[k as int]@);
        k = k + 1;
    }
    assert(v.take(v.len() as int) =~= v);
}

pub open spec fn text_bullets(items: Seq<Seq<InlineModel>>) -> Seq<char>
    decreases items.len(),
{
    if items.len() == 0 {
        seq![]
    } else {
        text_bullets(items.drop_last()) + "- "@ + text_inlines(items.last()) + seq!['\n']
    }
}

pub open spec fn text_numbered(items: Seq<Seq<InlineModel>>) -> Seq<char>
    decreases items.len(),
{
    if items.len() == 0 {
        seq![]
    } else {
        text_numbered(items.drop_last()) + decimal(items.len()) + ". "@ + text_inlines(items.last())
            + seq!['\n']
    }
}

/// `s` right-aligned in a field of `width` characters, as `{:>width$}` does.
pub open spec fn pad_left(s: Seq<char>, width: nat) -> Seq<char> {
    if s.len() < width {
        repeat_char(' ', (width - s.len()) as nat) + s
    } else {
        s
    }
}

/// The numbered lines of a code block: "N | line", the numbers right-aligned.
pub open spec fn text_code_lines(ls: Seq<Seq<char>>, n: nat, width: nat) -> Seq<char>
    decreases n,
{
    if n == 0 {
        seq![]
    } else {
        text_code_lines(ls, (n - 1) as nat, width) + pad_left(decimal(n), width) + " | "@ + ls[n
            - 1] + seq!['\n']
    }
}

/// The plain text of a block. A linked index is a numbered list of its
/// entries.
pub open spec fn text_block(b: BlockModel) -> Seq<char> {
    match b {
        BlockModel::Heading { level, content } => text_inlines(content) + seq!['\n'] + repeat_char(
            if level == 1 {
                '-'
            } else {
                '~'
            },
            text_inlines(content).len(),
        ) + "\n"@,
        BlockModel::UnorderedList(items) => text_bullets(items) + seq!['\n'],
        BlockModel::OrderedList(items) => text_numbered(items) + seq!['\n'],
        BlockModel::LinkedIndex(li) => text_numbered(li.items) + seq!['\n'],
        BlockModel::BlockQuote(v) => "> "@ + text_inlines(v) + "\n\n"@,
        BlockModel::CodeBlock { language, code } => wrap_opt("["@, language, "]\n"@)
            + text_code_lines(lines(code), lines(code).len(), decimal(lines(code).len()).len())
            + seq!['\n'],
        BlockModel::Image(img) => (match img.alt {
            ImageAltModel::Description(alt) => "[Image: "@ + alt + "] @ "@ + img.source + seq![
                '\n',
            ],
            ImageAltModel::Decorative => seq![],
        }) + (match img.caption {
            Some(c) => c + seq!['\n'],
            None => seq![],
        }) + seq!['\n'],
        BlockModel::Paragraph(v) => text_inlines(v) + "\n\n"@,
    }
}

fn write_bullets(items: &Vec<Vec<Inline>>, output: &mut String)
    ensures
        final(output)@ == old(output)@ + text_bullets(rows_view(items@)),
{
    let ghost rows = rows_view(items@);
    let mut k: usize = 0;
    assert(rows.take(0) =~= Seq::<Seq<InlineModel>>::empty());
    while k < items.len()
        invariant
            k <= items.len(),
            rows == rows_view(items@),
            output@ == old(output)@ + text_bullets(rows.take(k as int)),
        decreases items.len() - k,
    {
        output.append("- ");
        write_inlines(&items[k], output);
        push_char(output, '\n');
        assert(rows.take(k + 1).drop_last() =~= rows.take(k as int));
        assert(rows.take(k + 1).last() == inlines_view(items@[k as int]@));
        k = k + 1;
    }
    assert(rows.take(rows.len() as int) =~= rows);
}

fn write_numbered(items: &Vec<Vec<Inline>>, output: &mut String)
    ensures
        final(output)@ == old(output)@ + text_numbered(rows_view(items@)),
{
    let ghost rows = rows_view(items@);
    let mut k: usize = 0;
    assert(rows.take(0) =~= Seq::<Seq<InlineModel>>::empty());
    while k < items.len()
        invariant
            k <= items.len(),
            rows == rows_view(items@),
            output@ == old(output)@ + text_numbered(rows.take(k as int)),
        decreases items.len() - k,
    {
        push_decimal(output, k + 1);
        output.append(". ");
        write_inlines(&items[k], output);
        push_char(output, '\n');
        assert(rows.take(k + 1).drop_last() =~= rows.take(k as int));
        assert(rows.take(k + 1).last() == inlines_view(items@[k as int]@));
        assert(rows.take(k + 1).len() == k + 1);
        k = k + 1;
    }
    assert(rows.take(rows.len() as int) =~= rows);
}

/// The number of characters of the decimal digits of `n`.
fn decimal_len(n: usize) -> (r: usize)
    ensures
        r == decimal(n as nat).len(),
{
    let mut s = String::new();
    push_decimal(&mut s, n);
    let v = to_chars(s.as_str());
    v.len()
}

fn write_code(code: &String, output: &mut String)
    ensures
        final(output)@ == old(output)@ + text_code_lines(
            lines(code@),
            lines(code@).len(),
            decimal(lines(code@).len()).len(),
        ),
{
    let chars = to_chars(code.as_str());
    let ls = split_lines(&chars);
    let ghost lv = strings_view(ls@);
    let width = decimal_len(ls.len());
    let mut k: usize = 0;
    while k < ls.len()
        invariant
            k <= ls.len(),
            lv == strings_view(ls@),
            lv == lines(code@),
            width == decimal(ls.len() as nat).len(),
            output@ == old(output)@ + text_code_lines(lv, k as nat, width as nat),
        decreases ls.len() - k,
    {
        let number = k + 1;
        let digits = decimal_len(number);
        if digits < width {
            push_repeat(output, ' ', width - digits);
        }
        push_decimal(output, number);
        output.append(" | ");
        output.append(ls[k].as_str());
        push_char(output, '\n');
        assert(lv[k as int] == ls@[k as int]@);
        k = k + 1;
    }
}

/// Appends the plain text of a block.
fn write_block(block: &Block, output: &mut String)
    ensures
        final(output)@ == old(output)@ + text_block(block@),
{
    match block {
        Block::Heading { level, content } => {
            let mut heading = String::new();
            write_inlines(content, &mut heading);
            assert(heading@ =~= text_inlines(inlines_view(content@)));
            output.append(heading.as_str());
            push_char(output, '\n');
            let count = to_chars(heading.as_str()).len();
            push_repeat(
                output,
                if *level == 1 {
                    '-'
                } else {
                    '~'
                },
                count,
            );
            output.append("\n");
        },
        Block::UnorderedList(items) => {
            write_bullets(items, output);
            push_char(output, '\n');
        },
        Block::LinkedIndex(index) => {
            write_numbered(&index.items, output);
            push_char(output, '\n');
        },
        Block::OrderedList(items) => {
            write_numbered(items, output);
            push_char(output, '\n');
        },
        Block::BlockQuote(inlines) => {
            output.append("> ");
            write_inlines(inlines, output);
            output.append("\n\n");
        },
        Block::CodeBlock { language, code } => {
            let ghost m0 = output@;
            if let Some(language) = &language {
                output.append("[");
                output.append(language.as_str());
                output.append("]\n");
            }
            assert(output@ =~= m0 + wrap_opt(
                "["@,
                crate::compiler::model::site::opt_view(*language),
                "]\n"@,
            ));
            write_code(code, output);
            push_char(output, '\n');
        },
        Block::Image(image) => {
            let ghost m0 = output@;
            if let ImageAlt::Description(alt) = &image.alt {
                output.append("[Image: ");
                output.append(alt.as_str());
                output.append("] @ ");
                output.append(image.source.as_str());
                push_char(output, '\n');
            }
            let ghost m1 = output@;
            if let Some(caption) = &image.caption {
                output.append(caption.as_str());
                push_char(output, '\n');
            }
            push_char(output, '\n');
        },
        Block::Paragraph(inlines) => {
            write_inlines(inlines, output);
            output.append("\n\n");
        },
    }
    assert(output@ =~= old(output)@ + text_block(block@));
}

pub open spec fn text_blocks(bs: Seq<BlockModel>) -> Seq<char>
    decreases bs.len(),
{
    if bs.len() == 0 {
        seq![]
    } else {
        text_blocks(bs.drop_last()) + text_block(bs.last())
    }
}

/// The text file of a document whose title, in upper case, is `upper_title`.
pub open spec fn text_document(d: DocumentModel, upper_title: Seq<char>) -> Seq<char> {
    upper_title + seq!['\n'] + repeat_char('=', d.metadata.title.len()) + seq!['\n'] + match d.metadata.summary {
        Some(s) => s + "\n\n"@,
        None => seq!['\n'],
    } + text_blocks(d.blocks) + wrap_opt("Previous: "@, d.previous, seq![]) + wrap_opt(
        "Next: "@,
        d.next,
        seq![],
    )
}

/// The text file of a document, given its title in upper case.
pub fn render_text(document: &Document, upper_title: &str) -> (r: String)
    ensures
        r@ == text_document(document@, upper_title@),
{
    let mut text = String::new();
    text.append(upper_title);
    push_char(&mut text, '\n');
    let count = to_chars(document.metadata.title.as_str()).len();
    push_repeat(&mut text, '=', count);
    push_char(&mut text, '\n');
    if let Some(summary) = &document.metadata.summary {
        text.append(summary.as_str());
        text.append("\n\n");
    } else {
        push_char(&mut text, '\n');
    }
    let ghost start = text@;
    let ghost bs = blocks_view(document.blocks@);
    let mut k: usize = 0;
    assert(bs.take(0) =~= Seq::<BlockModel>::empty());
    while k < document.blocks.len()
        invariant
            k <= document.blocks.len(),
            bs == blocks_view(document.blocks@),
            text@ == start + text_blocks(bs.take(k as int)),
        decreases document.blocks.len() - k,
    {
        write_block(&document.blocks[k], &mut text);
        assert(bs.take(k + 1).drop_last() =~= bs.take(k as int));
        k = k + 1;
    }
    assert(bs.take(bs.len() as int) =~= bs);
    let ghost m1 = text@;
    if let Some(route) = &document.previous {
        text.append("Previous: ");
        text.append(route.as_str());
    }
    assert(text@ =~= m1 + wrap_opt("Previous: "@, document@.previous, seq![]));
    let ghost m2 = text@;
    if let Some(route) = &document.next {
        text.append("Next: ");
        text.append(route.as_str());
    }
    assert(text@ =~= m2 + wrap_opt("Next: "@, document@.next, seq![]));
    assert(text@ =~= text_document(document@, upper_title@));
    text
}

/// The text file of a document.
pub fn write_text_document(document: &Document) -> (r: String)
    ensures
        r@ == text_document(document@, uppercase(document.metadata.title@)),
{
    let upper = to_uppercase(document.metadata.title.as_str());
    render_text(document, upper.as_str())
}

/// The text files of a site: `index.txt` in the directory of each route.
pub open spec fn text_pages(site: SiteModel) -> Seq<OutputFileModel> {
    Seq::new(
        site.documents.len(),
        |i: int|
            OutputFileModel {
                dir: page_dir(site.documents[i]),
                name: "index.txt"@,
                contents: text_document(
                    site.documents[i],
                    uppercase(site.documents[i].metadata.title),
                ),
            },
    )
}

/// The plain-text output.
pub struct TextOutputFormatter;

impl OutputFormatter for TextOutputFormatter {
    open spec fn format_name(&self) -> Seq<char> {
        "text"@
    }

    open spec fn pages(&self, site: SiteModel, config: ConfigModel) -> Seq<OutputFileModel> {
        text_pages(site)
    }

    fn name(&self) -> (r: &'static str)
        ensures
            r@ == "text"@,
    {
        "text"
    }

    fn render(&self, site: &Site, config: &Config) -> (r: Vec<OutputFile>)
        ensures
            files_view(r@) == text_pages(site@),
    {
        let mut files: Vec<OutputFile> = Vec::new();
        let mut i: usize = 0;
        while i < site.documents.len()
            invariant
                i <= site.documents.len(),
                files_view(files@) == text_pages(site@).take(i as int),
            decreases site.documents.len() - i,
        {
            let document = &site.documents[i];
            assert(site@.documents[i as int] == document@);
            let file = OutputFile {
                dir: route_dir(document),
                name: string_from("index.txt"),
                contents: write_text_document(document),
            };
            let ghost fm = file@;
            let ghost before = files_view(files@);
            assert(fm == text_pages(site@)[i as int]);
            files.push(file);
            assert(files_view(files@) =~= before.push(fm));
            assert(before.push(fm) =~= text_pages(site@).take(i + 1));
            i = i + 1;
        }
        assert(text_pages(site@).take(site.documents.len() as int) =~= text_pages(site@));
        files
    }
}

/// A heading in plain text is its text on one line, underlined on the next
/// by as many characters as it has: '-' for a level-1 heading, '~' for the
/// others.
pub proof fn law_text_heading(level: u8, content: Seq<InlineModel>)
    ensures
        ({
            let h = text_inlines(content);
            let out = text_block(BlockModel::Heading { level, content });
            &&& out.len() == 2 * h.len() + 2
            &&& out.take(h.len() as int) == h
            &&& out[h.len() as int] == '\n'
            &&& forall|k: int|
                0 <= k < h.len() ==> #[trigger] out[h.len() + 1 + k] == if level == 1 {
                    '-'
                } else {
                    '~'
                }
            &&& out.last() == '\n'
        }),
{
    reveal_strlit("\n");
    let h = text_inlines(content);
    let out = text_block(BlockModel::Heading { level, content });
    assert(out.take(h.len() as int) =~= h);
    assert forall|k: int| 0 <= k < h.len() implies #[trigger] out[h.len() + 1 + k] == if level == 1 {
        '-'
    } else {
        '~'
    } by {}
}

} // verus!
