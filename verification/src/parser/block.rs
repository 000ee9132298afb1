//! Block structure of a document body: headings, lists, quotes, code
//! blocks, images, linked indexes and paragraphs.
use vstd::prelude::*;
use crate::compiler::model::site::{
    Block, BlockModel, DocumentType, Image, ImageAlt, ImageAltModel, ImageModel, Inline,
    InlineModel, LinkedIndex, LinkedIndexModel, MetadataFields, blocks_view,
    new_linked_index_model, opt_view, rows_view, inlines_view,
};
use crate::parser::inline::{parse_inline, parse_range};
use crate::parser::metadata::message_in;
use crate::text::{
    all_digits, char_is_ascii_digit, digits_value, ends_with, find_char, find_char_in,
    find_pair_in, find_seq, first_index, has_prefix_at, has_suffix_at, is_ascii_digit,
    lemma_find_seq, lemma_first_index, lemma_first_index_is, lemma_first_index_none,
    next_word, parse_digits, push_range, range_eq, split_char, starts_with, string_from,
    string_of_range, strs_view, to_chars, trim, trim_bounds, words,
};

verus! {

/// The outcome of reading part of a document: a value, an error message, or
/// an input on which the reading would panic.
pub enum Scan<T> {
    Done(T),
    Failed(Seq<char>),
    Panics,
}

/// The outcome of reading, at run time: a value, an error message, or the
/// sign that the input is one on which the document language has the
/// program panic (see `property_value`).
pub enum Read<T> {
    Done(T),
    Failed(String),
    Panics,
}

// ---------------------------------------------------------------------------
// Line classes
// ---------------------------------------------------------------------------

pub open spec fn not_hash_pred() -> spec_fn(char) -> bool {
    |x: char| x != '#'
}

/// The number of leading '#' characters.
pub open spec fn count_hashes(t: Seq<char>) -> int {
    match first_index(t, not_hash_pred()) {
        Some(k) => k,
        None => t.len() as int,
    }
}

/// A line "N. text" with a non-empty run of ASCII digits before the first ". ".
pub open spec fn is_ordered_item(l: Seq<char>) -> bool {
    match find_seq(l, ". "@) {
        Some(k) => k > 0 && all_digits(l.take(k)),
        None => false,
    }
}

/// The text after the first ". " of an ordered-list line.
pub open spec fn ordered_value(l: Seq<char>) -> Seq<char> {
    match find_seq(l, ". "@) {
        Some(k) => l.skip(k + 2),
        None => l,
    }
}

/// A (trimmed) line that starts a block other than a paragraph.
pub open spec fn starts_block(l: Seq<char>) -> bool {
    ||| (l.len() > 0 && l[0] == '#')
    ||| starts_with(l, "- "@)
    ||| starts_with(l, "> "@)
    ||| starts_with(l, "@image "@)
    ||| starts_with(l, "```"@)
    ||| is_ordered_item(l)
}

// ---------------------------------------------------------------------------
// Linked indexes
// ---------------------------------------------------------------------------

/// The kind of documents that a linked-index line (`@projects ...`,
/// `@articles ...`) lists, going by its first word.
pub open spec fn linked_kind(t: Seq<char>) -> Option<DocumentType> {
    let w = words(t);
    if w.len() == 0 {
        None
    } else if w[0] == "@projects"@ {
        Some(DocumentType::Project)
    } else if w[0] == "@articles"@ {
        Some(DocumentType::Article)
    } else {
        None
    }
}

/// The option keys of a linked index that were given already.
pub struct LinkSeen {
    pub limit: bool,
    pub starred: bool,
    pub fields: bool,
}

pub open spec fn field_named(v: Seq<char>) -> Option<MetadataFields> {
    if v == "title"@ {
        Some(MetadataFields::Title)
    } else if v == "summary"@ {
        Some(MetadataFields::Summary)
    } else if v == "date"@ {
        Some(MetadataFields::Date)
    } else {
        None
    }
}

/// The fields named by the comma-separated pieces, after `acc`; an unknown
/// or repeated name is an error.
pub open spec fn fields_of(pieces: Seq<Seq<char>>, acc: Seq<MetadataFields>) -> Result<
    Seq<MetadataFields>,
    Seq<char>,
>
    decreases pieces.len(),
{
    if pieces.len() == 0 {
        Ok(acc)
    } else {
        match field_named(pieces[0]) {
            None => Err("key 'fields' has unknown value "@ + pieces[0]),
            Some(f) => if acc.contains(f) {
                Err("key 'fields' has duplicate value"@)
            } else {
                fields_of(pieces.drop_first(), acc.push(f))
            },
        }
    }
}

/// Applies the `key=value` options in order.
pub open spec fn linked_options(opts: Seq<Seq<char>>, li: LinkedIndexModel, seen: LinkSeen) -> Result<
    LinkedIndexModel,
    Seq<char>,
>
    decreases opts.len(),
{
    if opts.len() == 0 {
        Ok(li)
    } else {
        let opt = opts[0];
        match find_char(opt, '=') {
            None => Err("expected key=value for "@ + opt),
            Some(e) => {
                let key = opt.take(e);
                let value = opt.skip(e + 1);
                if (key == "limit"@ && seen.limit) || (key == "starred"@ && seen.starred) || (key
                    == "fields"@ && seen.fields) {
                    Err("duplicate key "@ + key)
                } else if key == "limit"@ {
                    if value.len() == 0 || !all_digits(value) {
                        Err("key 'limit' requires positive integer"@)
                    } else if digits_value(value) > usize::MAX {
                        Err(
                            "key 'limit' failed to parse integer: number too large to fit in target type"@,
                        )
                    } else {
                        linked_options(
                            opts.drop_first(),
                            LinkedIndexModel { limit: Some(digits_value(value) as usize), ..li },
                            LinkSeen { limit: true, ..seen },
                        )
                    }
                } else if key == "starred"@ {
                    if value == "true"@ {
                        linked_options(
                            opts.drop_first(),
                            LinkedIndexModel { starred: Some(true), ..li },
                            LinkSeen { starred: true, ..seen },
                        )
                    } else if value == "false"@ {
                        linked_options(
                            opts.drop_first(),
                            LinkedIndexModel { starred: Some(false), ..li },
                            LinkSeen { starred: true, ..seen },
                        )
                    } else {
                        Err("key 'starred' has unknown value "@ + value)
                    }
                } else if key == "fields"@ {
                    match fields_of(split_char(value, ','), seq![]) {
                        Ok(fs) => linked_options(
                            opts.drop_first(),
                            LinkedIndexModel { fields: fs, ..li },
                            LinkSeen { fields: true, ..seen },
                        ),
                        Err(m) => Err(m),
                    }
                } else {
                    Err("unknown option key '"@ + key + "'"@)
                }
            },
        }
    }
}

/// The linked index that a line `@projects opt=value ...` or
/// `@articles opt=value ...` describes.
pub open spec fn linked_index_of(t: Seq<char>) -> Result<LinkedIndexModel, Seq<char>> {
    linked_options(
        words(t).drop_first(),
        new_linked_index_model(linked_kind(t)->Some_0),
        LinkSeen { limit: false, starred: false, fields: false },
    )
}

// ---------------------------------------------------------------------------
// Multi-line blocks
// ---------------------------------------------------------------------------

/// The items of the unordered list that starts at line `j`, and the index of
/// the first line after it.
pub open spec fn unordered_scan(lines: Seq<Seq<char>>, j: nat) -> (Seq<Seq<InlineModel>>, nat)
    decreases lines.len() - j,
{
    if j < lines.len() && starts_with(trim(lines[j as int]), "- "@) {
        let rest = unordered_scan(lines, j + 1);
        (seq![parse_inline(trim(lines[j as int]).skip(2))] + rest.0, rest.1)
    } else {
        (seq![], j)
    }
}

/// The items of the ordered list that starts at line `j`, and the index of
/// the first line after it.
pub open spec fn ordered_scan(lines: Seq<Seq<char>>, j: nat) -> (Seq<Seq<InlineModel>>, nat)
    decreases lines.len() - j,
{
    if j < lines.len() && is_ordered_item(trim(lines[j as int])) {
        let rest = ordered_scan(lines, j + 1);
        (seq![parse_inline(ordered_value(trim(lines[j as int])))] + rest.0, rest.1)
    } else {
        (seq![], j)
    }
}

/// Appends a line of code: lines are joined by '\n', and a line added while
/// the code is still empty replaces it.
pub open spec fn code_join(code: Seq<char>, line: Seq<char>) -> Seq<char> {
    if code.len() == 0 {
        line
    } else {
        code + seq!['\n'] + line
    }
}

/// The code from line `j` up to the closing "```" line, and the index of
/// that line (the number of lines where none closes the block).
pub open spec fn code_scan(lines: Seq<Seq<char>>, j: nat, code: Seq<char>) -> (Seq<char>, nat)
    decreases lines.len() - j,
{
    if j < lines.len() && trim(lines[j as int]) != "```"@ {
        code_scan(lines, j + 1, code_join(code, lines[j as int]))
    } else {
        (code, j)
    }
}

/// Appends a line of a paragraph: lines are joined by one space.
pub open spec fn space_join(text: Seq<char>, line: Seq<char>) -> Seq<char> {
    if text.len() == 0 {
        line
    } else {
        text + seq![' '] + line
    }
}

/// The text of the paragraph from line `j` on, up to a blank line or a line
/// that starts another block, and the index of that line.
pub open spec fn para_scan(lines: Seq<Seq<char>>, j: nat, text: Seq<char>) -> (Seq<char>, nat)
    decreases lines.len() - j,
{
    if j < lines.len() && trim(lines[j as int]).len() > 0 && !starts_block(trim(lines[j as int])) {
        para_scan(lines, j + 1, space_join(text, trim(lines[j as int])))
    } else {
        (text, j)
    }
}

/// The value of an image property line `key="value"`, given the prefix
/// `key="`. A line that is exactly the prefix both starts with it and ends
/// with '"', but the value between them would end before it starts: taking
/// that slice panics.
pub open spec fn property_value(p: Seq<char>, prefix: Seq<char>) -> Scan<Option<Seq<char>>> {
    if starts_with(p, prefix) && ends_with(p, "\""@) {
        if p.len() < prefix.len() + 1 {
            Scan::Panics
        } else {
            Scan::Done(Some(p.subrange(prefix.len() as int, p.len() - 1)))
        }
    } else {
        Scan::Done(None)
    }
}

/// The properties of an image from line `j` up to a blank line: its alt
/// text, its caption and the index of the blank line.
pub open spec fn image_scan(
    path: Seq<char>,
    lines: Seq<Seq<char>>,
    j: nat,
    alt: Option<ImageAltModel>,
    caption: Option<Seq<char>>,
) -> Scan<(Option<ImageAltModel>, Option<Seq<char>>, nat)>
    decreases lines.len() - j,
{
    if j < lines.len() && trim(lines[j as int]).len() > 0 {
        let p = trim(lines[j as int]);
        if p == "decorative"@ {
            image_scan(path, lines, j + 1, Some(ImageAltModel::Decorative), caption)
        } else {
            match property_value(p, "alt=\""@) {
                Scan::Panics => Scan::Panics,
                Scan::Done(Some(v)) => image_scan(
                    path,
                    lines,
                    j + 1,
                    Some(ImageAltModel::Description(v)),
                    caption,
                ),
                _ => match property_value(p, "caption=\""@) {
                    Scan::Panics => Scan::Panics,
                    Scan::Done(Some(v)) => image_scan(path, lines, j + 1, alt, Some(v)),
                    _ => Scan::Failed("Unknown image property "@ + p + " in "@ + path),
                },
            }
        }
    } else {
        Scan::Done((alt, caption, j))
    }
}

pub proof fn lemma_unordered_scan_end(lines: Seq<Seq<char>>, j: nat)
    ensures
        unordered_scan(lines, j).1 >= j,
        j < lines.len() && starts_with(trim(lines[j as int]), "- "@) ==> unordered_scan(
            lines,
            j,
        ).1 > j,
    decreases lines.len() - j,
{
    if j < lines.len() && starts_with(trim(lines[j as int]), "- "@) {
        lemma_unordered_scan_end(lines, j + 1);
    }
}

pub proof fn lemma_ordered_scan_end(lines: Seq<Seq<char>>, j: nat)
    ensures
        ordered_scan(lines, j).1 >= j,
        j < lines.len() && is_ordered_item(trim(lines[j as int])) ==> ordered_scan(lines, j).1
            > j,
    decreases lines.len() - j,
{
    if j < lines.len() && is_ordered_item(trim(lines[j as int])) {
        lemma_ordered_scan_end(lines, j + 1);
    }
}

pub proof fn lemma_code_scan_end(lines: Seq<Seq<char>>, j: nat, code: Seq<char>)
    ensures
        code_scan(lines, j, code).1 >= j,
    decreases lines.len() - j,
{
    if j < lines.len() && trim(lines[j as int]) != "```"@ {
        lemma_code_scan_end(lines, j + 1, code_join(code, lines[j as int]));
    }
}

pub proof fn lemma_para_scan_end(lines: Seq<Seq<char>>, j: nat, text: Seq<char>)
    ensures
        para_scan(lines, j, text).1 >= j,
        j < lines.len() && trim(lines[j as int]).len() > 0 && !starts_block(trim(lines[j as int]))
            ==> para_scan(lines, j, text).1 > j,
    decreases lines.len() - j,
{
    if j < lines.len() && trim(lines[j as int]).len() > 0 && !starts_block(
        trim(lines[j as int]),
    ) {
        lemma_para_scan_end(lines, j + 1, space_join(text, trim(lines[j as int])));
    }
}

pub proof fn lemma_image_scan_end(
    path: Seq<char>,
    lines: Seq<Seq<char>>,
    j: nat,
    alt: Option<ImageAltModel>,
    caption: Option<Seq<char>>,
)
    ensures
        image_scan(path, lines, j, alt, caption) matches Scan::Done((_, _, end)) ==> end >= j,
    decreases lines.len() - j,
{
    if j < lines.len() && trim(lines[j as int]).len() > 0 {
        let p = trim(lines[j as int]);
        lemma_image_scan_end(path, lines, j + 1, Some(ImageAltModel::Decorative), caption);
        if let Scan::Done(Some(v)) = property_value(p, "alt=\""@) {
            lemma_image_scan_end(path, lines, j + 1, Some(ImageAltModel::Description(v)), caption);
        }
        if let Scan::Done(Some(v)) = property_value(p, "caption=\""@) {
            lemma_image_scan_end(path, lines, j + 1, alt, Some(v));
        }
    }
}

// ---------------------------------------------------------------------------
// Blocks
// ---------------------------------------------------------------------------

/// The block that starts at the non-blank line `i`, and the index of the
/// first line after it.
pub open spec fn block_at(path: Seq<char>, lines: Seq<Seq<char>>, i: nat) -> Scan<(BlockModel, nat)> {
    let t = trim(lines[i as int]);
    if linked_kind(t) is Some {
        match linked_index_of(t) {
            Ok(li) => Scan::Done((BlockModel::LinkedIndex(li), i + 1)),
            Err(e) => Scan::Failed(e),
        }
    } else if t.len() > 0 && t[0] == '#' {
        let n = count_hashes(t);
        if n > 6 || !(n < t.len() && t[n] == ' ') {
            Scan::Failed("Maximum of 6 hashes and a space required for headers in "@ + path)
        } else {
            Scan::Done(
                (
                    BlockModel::Heading { level: n as u8, content: parse_inline(trim(t.skip(n + 1))) },
                    i + 1,
                ),
            )
        }
    } else if starts_with(t, "- "@) {
        let (items, end) = unordered_scan(lines, i);
        Scan::Done((BlockModel::UnorderedList(items), end))
    } else if is_ordered_item(t) {
        let (items, end) = ordered_scan(lines, i);
        Scan::Done((BlockModel::OrderedList(items), end))
    } else if starts_with(t, "> "@) {
        Scan::Done((BlockModel::BlockQuote(parse_inline(t.skip(2))), i + 1))
    } else if starts_with(t, "```"@) {
        let lang = trim(t.skip(3));
        let (code, end) = code_scan(lines, i + 1, seq![]);
        if end >= lines.len() {
            Scan::Failed("Code block not closed in "@ + path)
        } else {
            Scan::Done(
                (
                    BlockModel::CodeBlock {
                        language: if lang.len() == 0 {
                            None
                        } else {
                            Some(lang)
                        },
                        code: code,
                    },
                    end + 1,
                ),
            )
        }
    } else if starts_with(t, "@image "@) {
        match image_scan(path, lines, i + 1, None, None) {
            Scan::Done((alt, caption, end)) => match alt {
                None => Scan::Failed("Image requires an alt property in "@ + path),
                Some(a) => Scan::Done(
                    (
                        BlockModel::Image(
                            ImageModel { source: trim(t.skip(7)), alt: a, caption: caption },
                        ),
                        end,
                    ),
                ),
            },
            Scan::Failed(e) => Scan::Failed(e),
            Scan::Panics => Scan::Panics,
        }
    } else {
        let (text, end) = para_scan(lines, i, seq![]);
        Scan::Done((BlockModel::Paragraph(parse_inline(text)), end))
    }
}

pub proof fn lemma_block_at_end(path: Seq<char>, lines: Seq<Seq<char>>, i: nat)
    requires
        i < lines.len(),
        trim(lines[i as int]).len() > 0,
    ensures
        block_at(path, lines, i) matches Scan::Done((_, end)) ==> i < end <= lines.len(),
{
    let t = trim(lines[i as int]);
    lemma_unordered_scan_end(lines, i);
    lemma_ordered_scan_end(lines, i);
    lemma_code_scan_end(lines, i + 1, seq![]);
    lemma_para_scan_end(lines, i, seq![]);
    lemma_image_scan_end(path, lines, i + 1, None, None);
    lemma_scans_bounded(path, lines, i);
}

proof fn lemma_scans_bounded(path: Seq<char>, lines: Seq<Seq<char>>, i: nat)
    requires
        i < lines.len(),
    ensures
        unordered_scan(lines, i).1 <= lines.len(),
        ordered_scan(lines, i).1 <= lines.len(),
        para_scan(lines, i, seq![]).1 <= lines.len(),
        image_scan(path, lines, i + 1, None, None) matches Scan::Done((_, _, end)) ==> end
            <= lines.len(),
{
    lemma_unordered_scan_bounded(lines, i);
    lemma_ordered_scan_bounded(lines, i);
    lemma_para_scan_bounded(lines, i, seq![]);
    lemma_image_scan_bounded(path, lines, i + 1, None, None);
}

proof fn lemma_unordered_scan_bounded(lines: Seq<Seq<char>>, j: nat)
    requires
        j <= lines.len(),
    ensures
        unordered_scan(lines, j).1 <= lines.len(),
    decreases lines.len() - j,
{
    if j < lines.len() && starts_with(trim(lines[j as int]), "- "@) {
        lemma_unordered_scan_bounded(lines, j + 1);
    }
}

proof fn lemma_ordered_scan_bounded(lines: Seq<Seq<char>>, j: nat)
    requires
        j <= lines.len(),
    ensures
        ordered_scan(lines, j).1 <= lines.len(),
    decreases lines.len() - j,
{
    if j < lines.len() && is_ordered_item(trim(lines[j as int])) {
        lemma_ordered_scan_bounded(lines, j + 1);
    }
}

proof fn lemma_para_scan_bounded(lines: Seq<Seq<char>>, j: nat, text: Seq<char>)
    requires
        j <= lines.len(),
    ensures
        para_scan(lines, j, text).1 <= lines.len(),
    decreases lines.len() - j,
{
    if j < lines.len() && trim(lines[j as int]).len() > 0 && !starts_block(
        trim(lines[j as int]),
    ) {
        lemma_para_scan_bounded(lines, j + 1, space_join(text, trim(lines[j as int])));
    }
}

proof fn lemma_image_scan_bounded(
    path: Seq<char>,
    lines: Seq<Seq<char>>,
    j: nat,
    alt: Option<ImageAltModel>,
    caption: Option<Seq<char>>,
)
    requires
        j <= lines.len(),
    ensures
        image_scan(path, lines, j, alt, caption) matches Scan::Done((_, _, end)) ==> end
            <= lines.len(),
    decreases lines.len() - j,
{
    if j < lines.len() && trim(lines[j as int]).len() > 0 {
        let p = trim(lines[j as int]);
        lemma_image_scan_bounded(path, lines, j + 1, Some(ImageAltModel::Decorative), caption);
        if let Scan::Done(Some(v)) = property_value(p, "alt=\""@) {
            lemma_image_scan_bounded(
                path,
                lines,
                j + 1,
                Some(ImageAltModel::Description(v)),
                caption,
            );
        }
        if let Scan::Done(Some(v)) = property_value(p, "caption=\""@) {
            lemma_image_scan_bounded(path, lines, j + 1, alt, Some(v));
        }
    }
}

/// The blocks of the document body from line `i` on.
pub open spec fn blocks_from(path: Seq<char>, lines: Seq<Seq<char>>, i: nat) -> Scan<Seq<BlockModel>>
    decreases lines.len() - i,
{
    if i >= lines.len() {
        Scan::Done(seq![])
    } else if trim(lines[i as int]).len() == 0 {
        blocks_from(path, lines, i + 1)
    } else {
        proof {
            lemma_block_at_end(path, lines, i);
        }
        match block_at(path, lines, i) {
            Scan::Done((b, end)) => match blocks_from(path, lines, end) {
                Scan::Done(bs) => Scan::Done(seq![b] + bs),
                Scan::Failed(e) => Scan::Failed(e),
                Scan::Panics => Scan::Panics,
            },
            Scan::Failed(e) => Scan::Failed(e),
            Scan::Panics => Scan::Panics,
        }
    }
}

// ---------------------------------------------------------------------------
// Executable parser
// ---------------------------------------------------------------------------

/// The characters of `s[lo..hi]` as a new buffer.
fn sub_chars(s: &Vec<char>, lo: usize, hi: usize) -> (r: Vec<char>)
    requires
        lo <= hi <= s.len(),
    ensures
        r@ == s@.subrange(lo as int, hi as int),
{
    let mut r: Vec<char> = Vec::new();
    let mut i = lo;
    while i < hi
        invariant
            lo <= i <= hi <= s.len(),
            r@ == s@.subrange(lo as int, i as int),
        decreases hi - i,
    {
        r.push(s[i]);
        assert(s@.subrange(lo as int, i + 1) =~= s@.subrange(lo as int, i as int).push(s@[i as int]));
        i = i + 1;
    }
    r
}

/// The trimmed characters of a line.
fn trimmed_line(line: &str) -> (t: Vec<char>)
    ensures
        t@ == trim(line@),
{
    let l = to_chars(line);
    let (a, b) = trim_bounds(&l, 0, l.len());
    assert(l@.subrange(0, l@.len() as int) =~= l@);
    sub_chars(&l, a, b)
}

/// `t` starts with the string `lit`.
fn starts_with_str(t: &Vec<char>, lit: &str) -> (r: bool)
    ensures
        r == starts_with(t@, lit@),
{
    let p = to_chars(lit);
    let r = has_prefix_at(t, 0, t.len(), &p);
    assert(t@.subrange(0, t@.len() as int) =~= t@);
    r
}

/// `t[lo..hi]` is the string `lit`.
fn range_is(t: &Vec<char>, lo: usize, hi: usize, lit: &str) -> (r: bool)
    requires
        lo <= hi <= t.len(),
    ensures
        r == (t@.subrange(lo as int, hi as int) == lit@),
{
    let p = to_chars(lit);
    range_eq(t, lo, hi, &p)
}

fn all_digits_in(t: &Vec<char>, lo: usize, hi: usize) -> (r: bool)
    requires
        lo <= hi <= t.len(),
    ensures
        r == all_digits(t@.subrange(lo as int, hi as int)),
{
    let mut i = lo;
    while i < hi
        invariant
            lo <= i <= hi <= t.len(),
            forall|j: int| lo <= j < i ==> is_ascii_digit(#[trigger] t@[j]),
        decreases hi - i,
    {
        if !char_is_ascii_digit(t[i]) {
            assert(!is_ascii_digit(t@.subrange(lo as int, hi as int)[i - lo]));
            return false;
        }
        i = i + 1;
    }
    assert forall|j: int| 0 <= j < hi - lo implies is_ascii_digit(
        #[trigger] t@.subrange(lo as int, hi as int)[j],
    ) by {
        assert(t@.subrange(lo as int, hi as int)[j] == t@[lo + j]);
    }
    true
}

/// Where `t` is an ordered-list line, the index of its first ". ".
fn ordered_marker(t: &Vec<char>) -> (r: Option<usize>)
    ensures
        r is Some == is_ordered_item(t@),
        r matches Some(k) ==> k + 2 <= t.len() && ordered_value(t@) == t@.skip(k + 2),
{
    proof {
        reveal_strlit(". ");
    }
    assert(". "@ =~= seq!['.', ' ']);
    assert(t@.subrange(0, t@.len() as int) =~= t@);
    match find_pair_in(t, 0, t.len(), '.', ' ') {
        Some(k) => {
            assert(t@.take(k as int) =~= t@.subrange(0, k as int));
            if k > 0 && all_digits_in(t, 0, k) {
                Some(k)
            } else {
                None
            }
        },
        None => None,
    }
}

/// `line_is_ordered_list`: the line is "N. text" with N a non-empty run of
/// ASCII digits.
pub fn line_is_ordered_list(t: &Vec<char>) -> (r: bool)
    ensures
        r == is_ordered_item(t@),
{
    ordered_marker(t).is_some()
}

/// The (trimmed) line starts a block other than a paragraph.
pub fn line_starts_block(t: &Vec<char>) -> (r: bool)
    ensures
        r == starts_block(t@),
{
    (t.len() > 0 && t[0] == '#') || starts_with_str(t, "- ") || starts_with_str(t, "> ")
        || starts_with_str(t, "@image ") || starts_with_str(t, "```") || line_is_ordered_list(t)
}

/// The first word of `t` and its end, where `t` has one.
fn first_word(t: &Vec<char>) -> (r: Option<(usize, usize)>)
    ensures
        match r {
            Some((a, b)) => a < b <= t.len() && words(t@).len() > 0 && words(t@)[0] == t@.subrange(
                a as int,
                b as int,
            ) && words(t@).drop_first() == words(t@.skip(b as int)),
            None => words(t@).len() == 0,
        },
{
    assert(t@.skip(0) =~= t@);
    let r = next_word(t, 0);
    if let Some((a, b)) = r {
        assert((seq![t@.subrange(a as int, b as int)] + words(t@.skip(b as int))).drop_first()
            =~= words(t@.skip(b as int)));
    }
    r
}

/// `line_is_linked_index`: the kind of documents that a line starting with
/// `@projects` or `@articles` lists.
pub fn line_is_linked_index(t: &Vec<char>) -> (r: Option<DocumentType>)
    ensures
        r == linked_kind(t@),
{
    match first_word(t) {
        None => None,
        Some((a, b)) => {
            if range_is(t, a, b, "@projects") {
                Some(DocumentType::Project)
            } else if range_is(t, a, b, "@articles") {
                Some(DocumentType::Article)
            } else {
                None
            }
        },
    }
}

/// The fields named by the comma-separated list `t[lo..hi]`.
fn parse_fields(t: &Vec<char>, lo: usize, hi: usize) -> (r: Result<Vec<MetadataFields>, String>)
    requires
        lo <= hi <= t.len(),
    ensures
        match r {
            Ok(fs) => fields_of(split_char(t@.subrange(lo as int, hi as int), ','), seq![]) == Ok::<
                Seq<MetadataFields>,
                Seq<char>,
            >(fs@),
            Err(e) => fields_of(split_char(t@.subrange(lo as int, hi as int), ','), seq![])
                == Err::<Seq<MetadataFields>, Seq<char>>(e@),
        },
{
    let mut fields: Vec<MetadataFields> = Vec::new();
    let mut pos = lo;
    loop
        invariant
            lo <= pos <= hi <= t.len(),
            fields_of(split_char(t@.subrange(lo as int, hi as int), ','), seq![]) == fields_of(
                split_char(t@.subrange(pos as int, hi as int), ','),
                fields@,
            ),
        decreases hi - pos,
    {
        let ghost rest = t@.subrange(pos as int, hi as int);
        let (end, last) = match find_char_in(t, pos, hi, ',') {
            Some(k) => (k, false),
            None => (hi, true),
        };
        let ghost piece = t@.subrange(pos as int, end as int);
        proof {
            lemma_first_index(rest, crate::text::is_char(','));
            if !last {
                assert(rest.take(end - pos) =~= piece);
                assert(rest.skip(end - pos + 1) =~= t@.subrange(end + 1, hi as int));
                assert((seq![piece] + split_char(t@.subrange(end + 1, hi as int), ',')).drop_first()
                    =~= split_char(t@.subrange(end + 1, hi as int), ','));
            } else {
                assert(rest =~= piece);
                assert(seq![piece].drop_first() =~= Seq::<Seq<char>>::empty());
            }
        }
        let field = if range_is(t, pos, end, "title") {
            MetadataFields::Title
        } else if range_is(t, pos, end, "summary") {
            MetadataFields::Summary
        } else if range_is(t, pos, end, "date") {
            MetadataFields::Date
        } else {
            let mut e = string_from("key 'fields' has unknown value ");
            push_range(&mut e, t, pos, end);
            return Err(e);
        };
        let mut dup = false;
        let mut j: usize = 0;
        while j < fields.len()
            invariant
                j <= fields.len(),
                dup == exists|x: int| 0 <= x < j && fields@[x] == field,
            decreases fields.len() - j,
        {
            if fields[j] == field {
                dup = true;
            }
            j = j + 1;
        }
        if dup {
            return Err(string_from("key 'fields' has duplicate value"));
        }
        fields.push(field);
        if last {
            assert(fields_of(Seq::<Seq<char>>::empty(), fields@) == Ok::<
                Seq<MetadataFields>,
                Seq<char>,
            >(fields@));
            return Ok(fields);
        }
        pos = end + 1;
    }
}

/// `parse_linked_index`: reads the `key=value` options of a linked-index
/// line (`limit`, `starred`, `fields`), each at most once.
pub fn parse_linked_index(t: &Vec<char>, kind: DocumentType) -> (r: Result<LinkedIndex, String>)
    requires
        linked_kind(t@) == Some(kind),
    ensures
        match r {
            Ok(li) => linked_index_of(t@) == Ok::<LinkedIndexModel, Seq<char>>(li@),
            Err(e) => linked_index_of(t@) == Err::<LinkedIndexModel, Seq<char>>(e@),
        },
{
    let mut index = LinkedIndex::new(kind);
    let mut seen_limit = false;
    let mut seen_starred = false;
    let mut seen_fields = false;
    let mut pos = match first_word(t) {
        Some((_, b)) => b,
        None => 0,
    };
    loop
        invariant
            pos <= t.len(),
            linked_index_of(t@) == linked_options(
                words(t@.skip(pos as int)),
                index@,
                LinkSeen { limit: seen_limit, starred: seen_starred, fields: seen_fields },
            ),
        decreases t.len() - pos,
    {
        let ghost seen = LinkSeen { limit: seen_limit, starred: seen_starred, fields: seen_fields };
        let (a, b) = match next_word(t, pos) {
            Some(w) => w,
            None => {
                return Ok(index);
            },
        };
        let ghost opt = t@.subrange(a as int, b as int);
        assert((seq![opt] + words(t@.skip(b as int)))[0] == opt);
        assert((seq![opt] + words(t@.skip(b as int))).drop_first() =~= words(t@.skip(b as int)));
        let e = match find_char_in(t, a, b, '=') {
            Some(e) => e,
            None => {
                let mut m = string_from("expected key=value for ");
                push_range(&mut m, t, a, b);
                return Err(m);
            },
        };
        proof {
            lemma_first_index(opt, crate::text::is_char('='));
            assert(opt.take(e - a) =~= t@.subrange(a as int, e as int));
            assert(opt.skip(e - a + 1) =~= t@.subrange(e + 1, b as int));
        }
        let is_limit = range_is(t, a, e, "limit");
        let is_starred = range_is(t, a, e, "starred");
        let is_fields = range_is(t, a, e, "fields");
        if (is_limit && seen_limit) || (is_starred && seen_starred) || (is_fields && seen_fields) {
            let mut m = string_from("duplicate key ");
            push_range(&mut m, t, a, e);
            return Err(m);
        }
        if is_limit {
            if e + 1 == b || !all_digits_in(t, e + 1, b) {
                return Err(string_from("key 'limit' requires positive integer"));
            }
            match parse_digits(t, e + 1, b) {
                Some(v) => {
                    index.limit = Some(v);
                },
                None => {
                    return Err(
                        string_from(
                            "key 'limit' failed to parse integer: number too large to fit in target type",
                        ),
                    );
                },
            }
            seen_limit = true;
        } else if is_starred {
            if range_is(t, e + 1, b, "true") {
                index.starred = Some(true);
            } else if range_is(t, e + 1, b, "false") {
                index.starred = Some(false);
            } else {
                let mut m = string_from("key 'starred' has unknown value ");
                push_range(&mut m, t, e + 1, b);
                return Err(m);
            }
            seen_starred = true;
        } else if is_fields {
            let fields = parse_fields(t, e + 1, b)?;
            index.fields = fields;
            seen_fields = true;
        } else {
            let mut m = string_from("unknown option key '");
            push_range(&mut m, t, a, e);
            m.append("'");
            return Err(m);
        }
        pos = b;
    }
}

fn push_row(rows: &mut Vec<Vec<Inline>>, row: Vec<Inline>)
    ensures
        rows_view(final(rows)@) == rows_view(old(rows)@).push(inlines_view(row@)),
{
    let ghost r = inlines_view(row@);
    rows.push(row);
    assert(rows_view(rows@) =~= rows_view(old(rows)@).push(r));
}

/// The unordered list that starts at line `i`.
fn scan_unordered(lines: &[&str], i: usize) -> (r: (Vec<Vec<Inline>>, usize))
    requires
        i <= lines.len(),
    ensures
        rows_view(r.0@) == unordered_scan(strs_view(lines@), i as nat).0,
        r.1 == unordered_scan(strs_view(lines@), i as nat).1,
{
    let ghost ls = strs_view(lines@);
    let mut items: Vec<Vec<Inline>> = Vec::new();
    let mut j = i;
    assert(rows_view(items@) + unordered_scan(ls, i as nat).0 =~= unordered_scan(ls, i as nat).0);
    while j < lines.len()
        invariant
            i <= j <= lines.len(),
            ls == strs_view(lines@),
            unordered_scan(ls, i as nat).0 == rows_view(items@) + unordered_scan(ls, j as nat).0,
            unordered_scan(ls, i as nat).1 == unordered_scan(ls, j as nat).1,
        ensures
            unordered_scan(ls, j as nat) == (Seq::<Seq<InlineModel>>::empty(), j as nat),
        decreases lines.len() - j,
    {
        let t = trimmed_line(lines[j]);
        assert(lines@[j as int]@ == ls[j as int]);
        proof {
            reveal_strlit("- ");
        }
        if !starts_with_str(&t, "- ") {
            break;
        }
        let row = parse_range(&t, 2, t.len());
        assert(t@.subrange(2, t@.len() as int) =~= t@.skip(2));
        let ghost before = rows_view(items@);
        push_row(&mut items, row);
        assert(unordered_scan(ls, i as nat).0 =~= rows_view(items@) + unordered_scan(
            ls,
            (j + 1) as nat,
        ).0);
        j = j + 1;
    }
    assert(rows_view(items@) + Seq::<Seq<InlineModel>>::empty() =~= rows_view(items@));
    (items, j)
}

/// The ordered list that starts at line `i`.
fn scan_ordered(lines: &[&str], i: usize) -> (r: (Vec<Vec<Inline>>, usize))
    requires
        i <= lines.len(),
    ensures
        rows_view(r.0@) == ordered_scan(strs_view(lines@), i as nat).0,
        r.1 == ordered_scan(strs_view(lines@), i as nat).1,
{
    let ghost ls = strs_view(lines@);
    let mut items: Vec<Vec<Inline>> = Vec::new();
    let mut j = i;
    assert(rows_view(items@) + ordered_scan(ls, i as nat).0 =~= ordered_scan(ls, i as nat).0);
    while j < lines.len()
        invariant
            i <= j <= lines.len(),
            ls == strs_view(lines@),
            ordered_scan(ls, i as nat).0 == rows_view(items@) + ordered_scan(ls, j as nat).0,
            ordered_scan(ls, i as nat).1 == ordered_scan(ls, j as nat).1,
        ensures
            ordered_scan(ls, j as nat) == (Seq::<Seq<InlineModel>>::empty(), j as nat),
        decreases lines.len() - j,
    {
        let t = trimmed_line(lines[j]);
        assert(lines@[j as int]@ == ls[j as int]);
        let k = match ordered_marker(&t) {
            Some(k) => k,
            None => {
                break;
            },
        };
        let row = parse_range(&t, k + 2, t.len());
        assert(t@.subrange(k + 2, t@.len() as int) =~= t@.skip(k + 2));
        push_row(&mut items, row);
        assert(ordered_scan(ls, i as nat).0 =~= rows_view(items@) + ordered_scan(
            ls,
            (j + 1) as nat,
        ).0);
        j = j + 1;
    }
    assert(rows_view(items@) + Seq::<Seq<InlineModel>>::empty() =~= rows_view(items@));
    (items, j)
}

/// The code from line `i` up to the closing "```" line.
fn scan_code(lines: &[&str], i: usize) -> (r: (String, usize))
    requires
        i <= lines.len(),
    ensures
        (r.0@, r.1 as nat) == code_scan(strs_view(lines@), i as nat, seq![]),
{
    let ghost ls = strs_view(lines@);
    let mut code = String::new();
    let mut j = i;
    while j < lines.len()
        invariant
            i <= j <= lines.len(),
            ls == strs_view(lines@),
            code_scan(ls, i as nat, seq![]) == code_scan(ls, j as nat, code@),
        ensures
            code_scan(ls, i as nat, seq![]) == (code@, j as nat),
        decreases lines.len() - j,
    {
        let t = trimmed_line(lines[j]);
        assert(lines@[j as int]@ == ls[j as int]);
        assert(t@.subrange(0, t@.len() as int) =~= t@);
        if range_is(&t, 0, t.len(), "```") {
            break;
        }
        let ghost before = code@;
        if !code.as_str().is_empty() {
            crate::text::push_char(&mut code, '\n');
        }
        code.append(lines[j]);
        assert(code@ =~= code_join(before, ls[j as int]));
        j = j + 1;
    }
    (code, j)
}

/// The text of the paragraph that starts at line `i`.
fn scan_para(lines: &[&str], i: usize) -> (r: (Vec<char>, usize))
    requires
        i <= lines.len(),
    ensures
        (r.0@, r.1 as nat) == para_scan(strs_view(lines@), i as nat, seq![]),
{
    let ghost ls = strs_view(lines@);
    let mut text: Vec<char> = Vec::new();
    let mut j = i;
    while j < lines.len()
        invariant
            i <= j <= lines.len(),
            ls == strs_view(lines@),
            para_scan(ls, i as nat, seq![]) == para_scan(ls, j as nat, text@),
        ensures
            para_scan(ls, i as nat, seq![]) == (text@, j as nat),
        decreases lines.len() - j,
    {
        let t = trimmed_line(lines[j]);
        assert(lines@[j as int]@ == ls[j as int]);
        if t.len() == 0 || line_starts_block(&t) {
            break;
        }
        let ghost before = text@;
        if text.len() > 0 {
            text.push(' ');
        }
        let mut k: usize = 0;
        let ghost mid = text@;
        while k < t.len()
            invariant
                k <= t.len(),
                text@ == mid + t@.take(k as int),
            decreases t.len() - k,
        {
            text.push(t[k]);
            assert(t@.take(k + 1) =~= t@.take(k as int).push(t@[k as int]));
            k = k + 1;
        }
        assert(t@.take(t@.len() as int) =~= t@);
        assert(text@ =~= space_join(before, t@));
        j = j + 1;
    }
    (text, j)
}

/// `parse_image_property`: the value of a property line `key="value"`,
/// given its prefix `key="`.
fn parse_image_property(p: &Vec<char>, prefix: &str) -> (r: Read<Option<String>>)
    ensures
        match r {
            Read::Done(v) => property_value(p@, prefix@) == Scan::Done(opt_view(v)),
            Read::Failed(_) => false,
            Read::Panics => property_value(p@, prefix@) is Panics,
        },
{
    proof {
        reveal_strlit("\"");
    }
    let pre = to_chars(prefix);
    let ends = p.len() > 0 && p[p.len() - 1] == '"';
    assert("\""@ =~= seq!['"']);
    assert(ends == ends_with(p@, "\""@)) by {
        if p@.len() > 0 {
            assert(p@.skip(p@.len() - 1) =~= seq![p@.last()]);
            if p@.last() != '"' {
                assert(seq![p@.last()][0] != seq!['"'][0]);
            }
        }
    }
    if starts_with_str(p, prefix) && ends {
        if p.len() <= pre.len() {
            Read::Panics
        } else {
            Read::Done(Some(string_of_range(p, pre.len(), p.len() - 1)))
        }
    } else {
        Read::Done(None)
    }
}

/// The properties of the image whose property lines start at line `i`.
fn scan_image(path: &str, lines: &[&str], i: usize) -> (r: Read<
    (Option<ImageAlt>, Option<String>, usize),
>)
    requires
        i <= lines.len(),
    ensures
        match r {
            Read::Done((alt, caption, end)) => image_scan(path@, strs_view(lines@), i as nat, None, None)
                == Scan::Done((opt_alt_view(alt), opt_view(caption), end as nat)),
            Read::Failed(e) => image_scan(path@, strs_view(lines@), i as nat, None, None) == Scan::<
                (Option<ImageAltModel>, Option<Seq<char>>, nat),
            >::Failed(e@),
            Read::Panics => image_scan(path@, strs_view(lines@), i as nat, None, None) is Panics,
        },
{
    let ghost ls = strs_view(lines@);
    let mut alt: Option<ImageAlt> = None;
    let mut caption: Option<String> = None;
    let mut j = i;
    while j < lines.len()
        invariant
            i <= j <= lines.len(),
            ls == strs_view(lines@),
            image_scan(path@, ls, i as nat, None, None) == image_scan(
                path@,
                ls,
                j as nat,
                opt_alt_view(alt),
                opt_view(caption),
            ),
        ensures
            image_scan(path@, ls, i as nat, None, None) == Scan::Done(
                (opt_alt_view(alt), opt_view(caption), j as nat),
            ),
        decreases lines.len() - j,
    {
        let p = trimmed_line(lines[j]);
        assert(lines@[j as int]@ == ls[j as int]);
        if p.len() == 0 {
            break;
        }
        assert(p@.subrange(0, p@.len() as int) =~= p@);
        if range_is(&p, 0, p.len(), "decorative") {
            alt = Some(ImageAlt::Decorative);
        } else {
            match parse_image_property(&p, "alt=\"") {
                Read::Panics => {
                    return Read::Panics;
                },
                Read::Done(Some(v)) => {
                    alt = Some(ImageAlt::Description(v));
                },
                _ => match parse_image_property(&p, "caption=\"") {
                    Read::Panics => {
                        return Read::Panics;
                    },
                    Read::Done(Some(v)) => {
                        caption = Some(v);
                    },
                    _ => {
                        let mut m = string_from("Unknown image property ");
                        push_range(&mut m, &p, 0, p.len());
                        m.append(" in ");
                        m.append(path);
                        return Read::Failed(m);
                    },
                },
            }
        }
        j = j + 1;
    }
    Read::Done((alt, caption, j))
}

pub open spec fn opt_alt_view(a: Option<ImageAlt>) -> Option<ImageAltModel> {
    match a {
        Some(x) => Some(x@),
        None => None,
    }
}

/// `prefix + path` as a message.
fn message_path(prefix: &str, path: &str) -> (r: String)
    ensures
        r@ == prefix@ + path@,
{
    let mut r = string_from(prefix);
    r.append(path);
    r
}

/// The block that starts at the non-blank line `i`, whose trimmed text is
/// `t`, and the index of the first line after it.
fn parse_block(path: &str, lines: &[&str], i: usize, t: &Vec<char>) -> (r: Read<(Block, usize)>)
    requires
        i < lines.len(),
        t@ == trim(strs_view(lines@)[i as int]),
        t.len() > 0,
    ensures
        match r {
            Read::Done((b, end)) => block_at(path@, strs_view(lines@), i as nat) == Scan::Done(
                (b@, end as nat),
            ),
            Read::Failed(e) => block_at(path@, strs_view(lines@), i as nat) == Scan::<
                (BlockModel, nat),
            >::Failed(e@),
            Read::Panics => block_at(path@, strs_view(lines@), i as nat) is Panics,
        },
{
    let ghost ls = strs_view(lines@);
    proof {
        reveal_strlit("- ");
        reveal_strlit("> ");
        reveal_strlit("```");
        reveal_strlit("@image ");
    }
    assert(t@.subrange(0, t@.len() as int) =~= t@);
    if let Some(kind) = line_is_linked_index(t) {
        return match parse_linked_index(t, kind) {
            Ok(li) => Read::Done((Block::LinkedIndex(li), i + 1)),
            Err(e) => Read::Failed(e),
        };
    }
    if t[0] == '#' {
        let mut n: usize = 0;
        while n < t.len() && t[n] == '#'
            invariant
                n <= t.len(),
                forall|j: int| 0 <= j < n ==> !not_hash_pred()(#[trigger] t@[j]),
            decreases t.len() - n,
        {
            n = n + 1;
        }
        proof {
            if n < t.len() {
                lemma_first_index_is(t@, not_hash_pred(), n as int);
            } else {
                lemma_first_index_none(t@, not_hash_pred());
            }
        }
        if n > 6 || !(n < t.len() && t[n] == ' ') {
            return Read::Failed(
                message_path("Maximum of 6 hashes and a space required for headers in ", path),
            );
        }
        let (a, b) = trim_bounds(t, n + 1, t.len());
        assert(t@.subrange(n + 1, t@.len() as int) =~= t@.skip(n + 1));
        let content = parse_range(t, a, b);
        return Read::Done((Block::Heading { level: n as u8, content }, i + 1));
    }
    if starts_with_str(t, "- ") {
        let (items, end) = scan_unordered(lines, i);
        return Read::Done((Block::UnorderedList(items), end));
    }
    if line_is_ordered_list(t) {
        let (items, end) = scan_ordered(lines, i);
        return Read::Done((Block::OrderedList(items), end));
    }
    if starts_with_str(t, "> ") {
        let content = parse_range(t, 2, t.len());
        assert(t@.subrange(2, t@.len() as int) =~= t@.skip(2));
        return Read::Done((Block::BlockQuote(content), i + 1));
    }
    if starts_with_str(t, "```") {
        let (a, b) = trim_bounds(t, 3, t.len());
        assert(t@.subrange(3, t@.len() as int) =~= t@.skip(3));
        let language = if a == b {
            None
        } else {
            Some(string_of_range(t, a, b))
        };
        let (code, end) = scan_code(lines, i + 1);
        if end >= lines.len() {
            return Read::Failed(message_path("Code block not closed in ", path));
        }
        return Read::Done((Block::CodeBlock { language, code }, end + 1));
    }
    if starts_with_str(t, "@image ") {
        let (a, b) = trim_bounds(t, 7, t.len());
        assert(t@.subrange(7, t@.len() as int) =~= t@.skip(7));
        let source = string_of_range(t, a, b);
        return match scan_image(path, lines, i + 1) {
            Read::Done((None, _, _)) => Read::Failed(
                message_path("Image requires an alt property in ", path),
            ),
            Read::Done((Some(alt), caption, end)) => Read::Done(
                (Block::Image(Image { source, alt, caption }), end),
            ),
            Read::Failed(e) => Read::Failed(e),
            Read::Panics => Read::Panics,
        };
    }
    let (text, end) = scan_para(lines, i);
    let content = parse_range(&text, 0, text.len());
    assert(text@.subrange(0, text@.len() as int) =~= text@);
    Read::Done((Block::Paragraph(content), end))
}

/// Blocks `pre` followed by the outcome of reading the rest.
pub open spec fn prepend_blocks(pre: Seq<BlockModel>, rest: Scan<Seq<BlockModel>>) -> Scan<
    Seq<BlockModel>,
> {
    match rest {
        Scan::Done(bs) => Scan::Done(pre + bs),
        Scan::Failed(e) => Scan::Failed(e),
        Scan::Panics => Scan::Panics,
    }
}

/// Reads the blocks of a document body, telling apart the bodies on which
/// parsing panics.
pub fn read_blocks(path: &str, lines: &[&str]) -> (r: Read<Vec<Block>>)
    ensures
        match r {
            Read::Done(bs) => blocks_from(path@, strs_view(lines@), 0) == Scan::Done(
                blocks_view(bs@),
            ),
            Read::Failed(e) => blocks_from(path@, strs_view(lines@), 0) == Scan::<
                Seq<BlockModel>,
            >::Failed(e@),
            Read::Panics => blocks_from(path@, strs_view(lines@), 0) is Panics,
        },
{
    let ghost ls = strs_view(lines@);
    let mut blocks: Vec<Block> = Vec::new();
    let mut index: usize = 0;
    assert(prepend_blocks(blocks_view(blocks@), blocks_from(path@, ls, 0)) =~= blocks_from(
        path@,
        ls,
        0,
    )) by {
        assert(blocks_view(blocks@) =~= seq![]);
        if let Scan::Done(bs) = blocks_from(path@, ls, 0) {
            assert(Seq::<BlockModel>::empty() + bs =~= bs);
        }
    }
    while index < lines.len()
        invariant
            index <= lines.len(),
            ls == strs_view(lines@),
            blocks_from(path@, ls, 0) == prepend_blocks(
                blocks_view(blocks@),
                blocks_from(path@, ls, index as nat),
            ),
        decreases lines.len() - index,
    {
        let t = trimmed_line(lines[index]);
        assert(lines@[index as int]@ == ls[index as int]);
        if t.len() == 0 {
            index = index + 1;
            continue;
        }
        proof {
            lemma_block_at_end(path@, ls, index as nat);
        }
        match parse_block(path, lines, index, &t) {
            Read::Done((b, end)) => {
                let ghost before = blocks_view(blocks@);
                let ghost bm = b@;
                blocks.push(b);
                assert(blocks_view(blocks@) =~= before.push(bm));
                assert(blocks_from(path@, ls, 0) == prepend_blocks(
                    blocks_view(blocks@),
                    blocks_from(path@, ls, end as nat),
                )) by {
                    if let Scan::Done(bs) = blocks_from(path@, ls, end as nat) {
                        assert(before + (seq![bm] + bs) =~= before.push(bm) + bs);
                    }
                }
                index = end;
            },
            Read::Failed(e) => {
                return Read::Failed(e);
            },
            Read::Panics => {
                return Read::Panics;
            },
        }
    }
    assert(blocks_view(blocks@) + Seq::<BlockModel>::empty() =~= blocks_view(blocks@));
    Read::Done(blocks)
}

/// Parses the body of a document, line by line, into blocks: `#` headings
/// (at most 6 hashes and a space), `- ` and `N. ` lists, `> ` quotes,
/// fenced code blocks, `@image` blocks (which need an `alt` or `decorative`
/// property), `@projects`/`@articles` linked indexes and paragraphs.
pub fn parse(path: &str, lines: &[&str]) -> (r: Result<Vec<Block>, String>)
    requires
        blocks_from(path@, strs_view(lines@), 0) !is Panics,
    ensures
        match r {
            Ok(bs) => blocks_from(path@, strs_view(lines@), 0) == Scan::Done(blocks_view(bs@)),
            Err(e) => blocks_from(path@, strs_view(lines@), 0) == Scan::<Seq<BlockModel>>::Failed(
                e@,
            ),
        },
{
    match read_blocks(path, lines) {
        Read::Done(bs) => Ok(bs),
        Read::Failed(e) => Err(e),
        Read::Panics => {
            proof {
                assert(false);
            }
            Err(String::new())
        },
    }
}

/// Every heading that the body parser gives has a level from 1 to 6.
pub proof fn law_heading_levels(path: Seq<char>, lines: Seq<Seq<char>>, i: nat)
    ensures
        blocks_from(path, lines, i) matches Scan::Done(bs) ==> forall|k: int|
            0 <= k < bs.len() && (#[trigger] bs[k]) is Heading ==> 1 <= bs[k]->level <= 6,
    decreases lines.len() - i,
{
    if i < lines.len() {
        if trim(lines[i as int]).len() == 0 {
            law_heading_levels(path, lines, i + 1);
        } else {
            lemma_block_at_end(path, lines, i);
            if let Scan::Done((b, end)) = block_at(path, lines, i) {
                law_heading_levels(path, lines, end);
                let t = trim(lines[i as int]);
                if b is Heading {
                    lemma_first_index(t, not_hash_pred());
                }
                if let Scan::Done(bs) = blocks_from(path, lines, i) {
                    let rest = blocks_from(path, lines, end)->Done_0;
                    assert(bs == seq![b] + rest);
                    assert forall|k: int|
                        0 <= k < bs.len() && (#[trigger] bs[k]) is Heading implies 1 <= bs[k]->level
                        <= 6 by {
                        if k > 0 {
                            assert(bs[k] == rest[k - 1]);
                        }
                    }
                }
            }
        }
    }
}

} // verus!
