//! Inline markup: links `[label](href)`, code spans, `**strong**` and
//! `*emphasis*`.
use vstd::prelude::*;
use crate::compiler::model::site::{inlines_view, lemma_inline_view_unfold, Inline, InlineModel};
use crate::text::{
    find_char, find_char_in, find_pair_in, find_seq, first_index, is_char, lemma_find_seq,
    lemma_find_seq_is, matches_at,
    lemma_first_index, lemma_first_index_is, lemma_first_index_none, push_char, starts_with,
    string_of_range, to_chars,
};

verus! {

pub open spec fn is_markup(c: char) -> bool {
    c == '`' || c == '*'
}

pub open spec fn markup_pred() -> spec_fn(char) -> bool {
    |x: char| is_markup(x)
}

/// The styled node at the start of `s`, which starts with '`' or '*', and the
/// number of characters it covers. A marker without its closing partner is
/// kept as text.
pub open spec fn style_token(s: Seq<char>) -> (InlineModel, int) {
    if s[0] == '`' {
        match find_char(s.skip(1), '`') {
            Some(e) => (InlineModel::Code(s.subrange(1, e + 1)), e + 2),
            None => (InlineModel::Text(seq!['`']), 1),
        }
    } else if starts_with(s, seq!['*', '*']) {
        match find_seq(s.skip(2), seq!['*', '*']) {
            Some(e) => (InlineModel::Strong(seq![InlineModel::Text(s.subrange(2, e + 2))]), e + 4),
            None => (InlineModel::Text(seq!['*', '*']), 2),
        }
    } else {
        match find_char(s.skip(1), '*') {
            Some(e) => (InlineModel::Emphasis(seq![InlineModel::Text(s.subrange(1, e + 1))]), e + 2),
            None => (InlineModel::Text(seq!['*']), 1),
        }
    }
}

pub proof fn lemma_style_token_len(s: Seq<char>)
    requires
        s.len() > 0,
    ensures
        1 <= style_token(s).1 <= s.len(),
{
    lemma_first_index(s.skip(1), is_char('`'));
    lemma_first_index(s.skip(1), is_char('*'));
    if s.len() >= 2 {
        lemma_find_seq(s.skip(2), seq!['*', '*']);
    }
}

/// Text with code spans, strong and emphasis, but no links.
pub open spec fn styles(s: Seq<char>) -> Seq<InlineModel>
    decreases s.len(),
{
    if s.len() == 0 {
        seq![]
    } else {
        match first_index(s, markup_pred()) {
            None => seq![InlineModel::Text(s)],
            Some(i) => {
                proof {
                    lemma_first_index(s, markup_pred());
                    lemma_style_token_len(s);
                }
                if i > 0 {
                    seq![InlineModel::Text(s.take(i))] + styles(s.skip(i))
                } else {
                    seq![style_token(s).0] + styles(s.skip(style_token(s).1))
                }
            },
        }
    }
}

/// The link at the start of `s`, which starts with '[': the node and the
/// number of characters it covers, if `s` holds `](` and then `)`.
pub open spec fn link_at(s: Seq<char>) -> Option<(InlineModel, int)> {
    match find_seq(s, seq![']', '(']) {
        Some(le) => match find_char(s.skip(le + 2), ')') {
            Some(ue) => Some(
                (
                    InlineModel::Link {
                        label: styles(s.subrange(1, le)),
                        href: s.subrange(le + 2, le + 2 + ue),
                    },
                    le + 2 + ue + 1,
                ),
            ),
            None => None,
        },
        None => None,
    }
}

pub proof fn lemma_link_at_len(s: Seq<char>)
    ensures
        link_at(s) matches Some((_, n)) ==> 1 <= n <= s.len(),
{
    lemma_find_seq(s, seq![']', '(']);
    if let Some(le) = find_seq(s, seq![']', '(']) {
        lemma_first_index(s.skip(le + 2), is_char(')'));
    }
}

/// The inline nodes of a line of text.
pub open spec fn parse_inline(s: Seq<char>) -> Seq<InlineModel>
    decreases s.len(),
{
    if s.len() == 0 {
        seq![]
    } else {
        match find_char(s, '[') {
            None => styles(s),
            Some(start) => {
                proof {
                    lemma_first_index(s, is_char('['));
                    lemma_link_at_len(s);
                }
                if start > 0 {
                    styles(s.take(start)) + parse_inline(s.skip(start))
                } else {
                    match link_at(s) {
                        Some((node, n)) => seq![node] + parse_inline(s.skip(n)),
                        None => seq![InlineModel::Text(seq!['['])] + parse_inline(s.skip(1)),
                    }
                }
            },
        }
    }
}

// ---------------------------------------------------------------------------
// Executable parser
// ---------------------------------------------------------------------------

fn find_markup_in(s: &Vec<char>, lo: usize, hi: usize) -> (r: Option<usize>)
    requires
        lo <= hi <= s.len(),
    ensures
        match r {
            Some(k) => lo <= k < hi && first_index(s@.subrange(lo as int, hi as int), markup_pred())
                == Some(k - lo),
            None => first_index(s@.subrange(lo as int, hi as int), markup_pred()) is None,
        },
{
    let ghost t = s@.subrange(lo as int, hi as int);
    let mut i = lo;
    while i < hi
        invariant
            lo <= i <= hi <= s.len(),
            t == s@.subrange(lo as int, hi as int),
            forall|j: int| 0 <= j < i - lo ==> !markup_pred()(#[trigger] t[j]),
        decreases hi - i,
    {
        if s[i] == '`' || s[i] == '*' {
            proof {
                lemma_first_index_is(t, markup_pred(), i - lo);
            }
            return Some(i);
        }
        i = i + 1;
    }
    proof {
        lemma_first_index_none(t, markup_pred());
    }
    None
}

fn text_node(s: &Vec<char>, lo: usize, hi: usize) -> (r: Inline)
    requires
        lo <= hi <= s.len(),
    ensures
        r@ == InlineModel::Text(s@.subrange(lo as int, hi as int)),
{
    Inline::Text(string_of_range(s, lo, hi))
}

fn char_node(c: char) -> (r: Inline)
    ensures
        r@ == InlineModel::Text(seq![c]),
{
    let mut t = String::new();
    push_char(&mut t, c);
    assert(t@ =~= seq![c]);
    Inline::Text(t)
}

fn push_node(out: &mut Vec<Inline>, node: Inline)
    ensures
        inlines_view(final(out)@) == inlines_view(old(out)@).push(node@),
{
    out.push(node);
    assert(inlines_view(out@) =~= inlines_view(old(out)@).push(node@));
}

/// A node holding one text node.
fn wrap_text(strong: bool, s: &Vec<char>, lo: usize, hi: usize) -> (r: Inline)
    requires
        lo <= hi <= s.len(),
    ensures
        strong ==> r@ == InlineModel::Strong(seq![InlineModel::Text(s@.subrange(lo as int, hi as int))]),
        !strong ==> r@ == InlineModel::Emphasis(seq![InlineModel::Text(s@.subrange(lo as int, hi as int))]),
{
    let inner = vec![text_node(s, lo, hi)];
    assert(inlines_view(inner@) =~= seq![InlineModel::Text(s@.subrange(lo as int, hi as int))]);
    let r = if strong {
        Inline::Strong(inner)
    } else {
        Inline::Emphasis(inner)
    };
    proof {
        lemma_inline_view_unfold(r);
    }
    r
}

/// Appends the nodes of `styles(s[lo..hi])` to `out`.
fn styles_into(s: &Vec<char>, lo: usize, hi: usize, out: &mut Vec<Inline>)
    requires
        lo <= hi <= s.len(),
    ensures
        inlines_view(final(out)@) == inlines_view(old(out)@) + styles(
            s@.subrange(lo as int, hi as int),
        ),
{
    let mut pos = lo;
    proof {
        assert(inlines_view(out@) + styles(s@.subrange(lo as int, hi as int)) =~= inlines_view(
            old(out)@,
        ) + styles(s@.subrange(lo as int, hi as int)));
    }
    while pos < hi
        invariant
            lo <= pos <= hi <= s.len(),
            inlines_view(old(out)@) + styles(s@.subrange(lo as int, hi as int)) == inlines_view(
                out@,
            ) + styles(s@.subrange(pos as int, hi as int)),
        decreases hi - pos,
    {
        let ghost rest = s@.subrange(pos as int, hi as int);
        let ghost before = inlines_view(out@);
        match find_markup_in(s, pos, hi) {
            None => {
                push_node(out, text_node(s, pos, hi));
                assert(styles(s@.subrange(hi as int, hi as int)) =~= seq![]);
                assert(before + styles(rest) =~= inlines_view(out@) + styles(
                    s@.subrange(hi as int, hi as int),
                ));
                pos = hi;
            },
            Some(k) => {
                if k > pos {
                    push_node(out, text_node(s, pos, k));
                    assert(rest.take(k - pos) =~= s@.subrange(pos as int, k as int));
                    assert(rest.skip(k - pos) =~= s@.subrange(k as int, hi as int));
                    assert(before + styles(rest) =~= inlines_view(out@) + styles(
                        s@.subrange(k as int, hi as int),
                    ));
                    pos = k;
                } else {
                    proof {
                        lemma_first_index(rest, markup_pred());
                    }
                    let next: usize;
                    if s[pos] == '`' {
                        assert(rest.skip(1) =~= s@.subrange(pos + 1, hi as int));
                        match find_char_in(s, pos + 1, hi, '`') {
                            Some(e) => {
                                push_node(out, Inline::Code(string_of_range(s, pos + 1, e)));
                                assert(rest.subrange(1, e - pos) =~= s@.subrange(
                                    pos + 1,
                                    e as int,
                                ));
                                next = e + 1;
                            },
                            None => {
                                push_node(out, char_node('`'));
                                next = pos + 1;
                            },
                        }
                    } else if hi - pos >= 2 && s[pos + 1] == '*' {
                        assert(starts_with(rest, seq!['*', '*'])) by {
                            assert(rest.take(2) =~= seq!['*', '*']);
                        }
                        assert(rest.skip(2) =~= s@.subrange(pos + 2, hi as int));
                        match find_pair_in(s, pos + 2, hi, '*', '*') {
                            Some(e) => {
                                push_node(out, wrap_text(true, s, pos + 2, e));
                                assert(rest.subrange(2, e - pos) =~= s@.subrange(
                                    pos + 2,
                                    e as int,
                                ));
                                next = e + 2;
                            },
                            None => {
                                let mut t = String::new();
                                push_char(&mut t, '*');
                                push_char(&mut t, '*');
                                assert(t@ =~= seq!['*', '*']);
                                push_node(out, Inline::Text(t));
                                next = pos + 2;
                            },
                        }
                    } else {
                        assert(!starts_with(rest, seq!['*', '*'])) by {
                            if rest.len() >= 2 {
                                assert(rest.take(2)[1] == rest[1]);
                            }
                        }
                        assert(rest.skip(1) =~= s@.subrange(pos + 1, hi as int));
                        match find_char_in(s, pos + 1, hi, '*') {
                            Some(e) => {
                                push_node(out, wrap_text(false, s, pos + 1, e));
                                assert(rest.subrange(1, e - pos) =~= s@.subrange(
                                    pos + 1,
                                    e as int,
                                ));
                                next = e + 1;
                            },
                            None => {
                                push_node(out, char_node('*'));
                                next = pos + 1;
                            },
                        }
                    }
                    assert(style_token(rest).1 == next - pos);
                    assert(rest.skip(next - pos) =~= s@.subrange(next as int, hi as int));
                    assert(before + styles(rest) =~= inlines_view(out@) + styles(
                        s@.subrange(next as int, hi as int),
                    ));
                    pos = next;
                }
            },
        }
    }
    assert(styles(s@.subrange(hi as int, hi as int)) =~= seq![]);
    assert(inlines_view(out@) + styles(s@.subrange(hi as int, hi as int)) =~= inlines_view(out@));
}

/// Appends the nodes of `parse_inline(s[lo..hi])` to `out`.
fn parse_into(s: &Vec<char>, lo: usize, hi: usize, out: &mut Vec<Inline>)
    requires
        lo <= hi <= s.len(),
    ensures
        inlines_view(final(out)@) == inlines_view(old(out)@) + parse_inline(
            s@.subrange(lo as int, hi as int),
        ),
{
    let mut pos = lo;
    proof {
        assert(inlines_view(out@) + parse_inline(s@.subrange(lo as int, hi as int))
            =~= inlines_view(old(out)@) + parse_inline(s@.subrange(lo as int, hi as int)));
    }
    while pos < hi
        invariant
            lo <= pos <= hi <= s.len(),
            inlines_view(old(out)@) + parse_inline(s@.subrange(lo as int, hi as int))
                == inlines_view(out@) + parse_inline(s@.subrange(pos as int, hi as int)),
        decreases hi - pos,
    {
        let ghost rest = s@.subrange(pos as int, hi as int);
        let ghost before = inlines_view(out@);
        match find_char_in(s, pos, hi, '[') {
            None => {
                styles_into(s, pos, hi, out);
                assert(parse_inline(s@.subrange(hi as int, hi as int)) =~= seq![]);
                assert(before + parse_inline(rest) =~= inlines_view(out@) + parse_inline(
                    s@.subrange(hi as int, hi as int),
                ));
                pos = hi;
            },
            Some(start) => {
                if start > pos {
                    styles_into(s, pos, start, out);
                    assert(rest.take(start - pos) =~= s@.subrange(pos as int, start as int));
                    assert(rest.skip(start - pos) =~= s@.subrange(start as int, hi as int));
                    assert(before + parse_inline(rest) =~= inlines_view(out@) + parse_inline(
                        s@.subrange(start as int, hi as int),
                    ));
                    pos = start;
                } else {
                    proof {
                        lemma_first_index(rest, is_char('['));
                    }
                    let mut done = false;
                    match find_pair_in(s, pos, hi, ']', '(') {
                        Some(le) => {
                            assert(rest.skip(le - pos + 2) =~= s@.subrange(le + 2, hi as int));
                            match find_char_in(s, le + 2, hi, ')') {
                                Some(ue) => {
                                    proof {
                                        lemma_find_seq(rest, seq![']', '(']);
                                        assert(rest.subrange(le - pos, le - pos + 2)[0] == rest[le
                                            - pos]);
                                    }
                                    assert(le > pos);
                                    let mut label: Vec<Inline> = Vec::new();
                                    styles_into(s, pos + 1, le, &mut label);
                                    let node = Inline::Link {
                                        label,
                                        href: string_of_range(s, le + 2, ue),
                                    };
                                    proof {
                                        lemma_inline_view_unfold(node);
                                        assert(inlines_view(label@) =~= styles(
                                            s@.subrange(pos + 1, le as int),
                                        ));
                                        assert(rest.subrange(1, le - pos) =~= s@.subrange(
                                            pos + 1,
                                            le as int,
                                        ));
                                        assert(rest.subrange(le - pos + 2, ue - pos) =~= s@.subrange(
                                            le + 2,
                                            ue as int,
                                        ));
                                        assert(rest.skip(ue - pos + 1) =~= s@.subrange(
                                            ue + 1,
                                            hi as int,
                                        ));
                                    }
                                    push_node(out, node);
                                    assert(before + parse_inline(rest) =~= inlines_view(out@)
                                        + parse_inline(s@.subrange(ue + 1, hi as int)));
                                    pos = ue + 1;
                                    done = true;
                                },
                                None => {},
                            }
                        },
                        None => {},
                    }
                    if !done {
                        assert(link_at(rest) is None);
                        push_node(out, char_node('['));
                        assert(rest.skip(1) =~= s@.subrange(pos + 1, hi as int));
                        assert(before + parse_inline(rest) =~= inlines_view(out@) + parse_inline(
                            s@.subrange(pos + 1, hi as int),
                        ));
                        pos = pos + 1;
                    }
                }
            },
        }
    }
    assert(parse_inline(s@.subrange(hi as int, hi as int)) =~= seq![]);
    assert(inlines_view(out@) + parse_inline(s@.subrange(hi as int, hi as int)) =~= inlines_view(
        out@,
    ));
}

/// The inline nodes of `s[lo..hi]`.
pub fn parse_range(s: &Vec<char>, lo: usize, hi: usize) -> (nodes: Vec<Inline>)
    requires
        lo <= hi <= s.len(),
    ensures
        inlines_view(nodes@) == parse_inline(s@.subrange(lo as int, hi as int)),
{
    let mut nodes: Vec<Inline> = Vec::new();
    parse_into(s, lo, hi, &mut nodes);
    assert(inlines_view(Seq::<Inline>::empty()) =~= seq![]);
    assert(seq![] + parse_inline(s@.subrange(lo as int, hi as int)) =~= parse_inline(
        s@.subrange(lo as int, hi as int),
    ));
    nodes
}

/// Parses the inline markup of one line of text: links `[label](href)`,
/// code spans, `**strong**` and `*emphasis*`; anything else is text.
pub fn parse(input: &str) -> (nodes: Vec<Inline>)
    ensures
        inlines_view(nodes@) == parse_inline(input@),
{
    let s = to_chars(input);
    let nodes = parse_range(&s, 0, s.len());
    assert(s@.subrange(0, s@.len() as int) =~= s@);
    nodes
}

/// The styled nodes (code, strong, emphasis, text) of a text without links.
pub fn parse_styles(input: &str) -> (nodes: Vec<Inline>)
    ensures
        inlines_view(nodes@) == styles(input@),
{
    let s = to_chars(input);
    let mut nodes: Vec<Inline> = Vec::new();
    styles_into(&s, 0, s.len(), &mut nodes);
    assert(s@.subrange(0, s@.len() as int) =~= s@);
    assert(inlines_view(Seq::<Inline>::empty()) =~= seq![]);
    assert(seq![] + styles(s@) =~= styles(s@));
    nodes
}

/// Text without '[', '`' and '*' is one text node, unchanged.
pub proof fn law_plain_text(s: Seq<char>)
    requires
        s.len() > 0,
        forall|i: int| 0 <= i < s.len() ==> #[trigger] s[i] != '[' && s[i] != '`' && s[i] != '*',
    ensures
        parse_inline(s) == seq![InlineModel::Text(s)],
{
    lemma_first_index_none(s, is_char('['));
    lemma_first_index_none(s, markup_pred());
}

/// The markup that writes an inline node: the text of a text node, and the
/// markers around code spans, emphasis, strong text and links.
pub open spec fn markup_of(i: InlineModel) -> Seq<char>
    decreases i,
{
    match i {
        InlineModel::Text(t) => t,
        InlineModel::Code(c) => seq!['`'] + c + seq!['`'],
        InlineModel::Emphasis(v) => seq!['*'] + markup_of_all(v) + seq!['*'],
        InlineModel::Strong(v) => seq!['*', '*'] + markup_of_all(v) + seq!['*', '*'],
        InlineModel::Link { label, href } => seq!['['] + markup_of_all(label) + seq![']', '(']
            + href + seq![')'],
    }
}

/// The markup of a run of inline nodes, one after the other.
pub open spec fn markup_of_all(v: Seq<InlineModel>) -> Seq<char>
    decreases v,
{
    if v.len() == 0 {
        seq![]
    } else {
        markup_of_all(v.drop_last()) + markup_of(v.last())
    }
}

/// A node that styles alone give: no link, emphasis or strong text around
/// exactly one text node, and text that holds no '`' or '*' unless it is a
/// lone marker that found no partner.
pub open spec fn is_style_node(i: InlineModel) -> bool {
    match i {
        InlineModel::Text(t) => (forall|j: int| 0 <= j < t.len() ==> !is_markup(#[trigger] t[j]))
            || t == seq!['`'] || t == seq!['*'] || t == seq!['*', '*'],
        InlineModel::Code(_) => true,
        InlineModel::Emphasis(v) => v.len() == 1 && v[0] is Text,
        InlineModel::Strong(v) => v.len() == 1 && v[0] is Text,
        InlineModel::Link { .. } => false,
    }
}

proof fn lemma_markup_concat(a: Seq<InlineModel>, b: Seq<InlineModel>)
    ensures
        markup_of_all(a + b) == markup_of_all(a) + markup_of_all(b),
    decreases b.len(),
{
    if b.len() == 0 {
        assert(a + b =~= a);
        assert(markup_of_all(a) + Seq::<char>::empty() =~= markup_of_all(a));
    } else {
        lemma_markup_concat(a, b.drop_last());
        assert((a + b).drop_last() =~= a + b.drop_last());
        assert((a + b).last() == b.last());
        let x = markup_of_all(a);
        let y = markup_of_all(b.drop_last());
        let z = markup_of(b.last());
        assert(x + y + z =~= x + (y + z));
    }
}

proof fn lemma_markup_one(x: InlineModel)
    ensures
        markup_of_all(seq![x]) == markup_of(x),
{
    let one = seq![x];
    assert(one.drop_last() =~= Seq::<InlineModel>::empty());
    assert(one.last() == x);
    assert(markup_of_all(one.drop_last()) == Seq::<char>::empty());
    assert(markup_of_all(one) == markup_of_all(one.drop_last()) + markup_of(one.last()));
    assert(Seq::<char>::empty() + markup_of(x) =~= markup_of(x));
}

/// The node a styled span starts with is written by the characters it
/// covers.
proof fn lemma_style_token_markup(s: Seq<char>)
    requires
        s.len() > 0,
        is_markup(s[0]),
    ensures
        markup_of(style_token(s).0) == s.take(style_token(s).1),
        is_style_node(style_token(s).0),
{
    lemma_first_index(s.skip(1), is_char('`'));
    lemma_first_index(s.skip(1), is_char('*'));
    let (tok, n) = style_token(s);
    if s[0] == '`' {
        if let Some(e) = find_char(s.skip(1), '`') {
            assert(s[e + 1] == s.skip(1)[e]);
            assert(seq!['`'] + s.subrange(1, e + 1) + seq!['`'] =~= s.take(e + 2));
        } else {
            assert(s.take(1) =~= seq!['`']);
        }
    } else if starts_with(s, seq!['*', '*']) {
        if s.len() >= 2 {
            lemma_find_seq(s.skip(2), seq!['*', '*']);
        }
        assert(s.take(2) =~= seq!['*', '*']);
        if let Some(e) = find_seq(s.skip(2), seq!['*', '*']) {
            let inner = s.subrange(2, e + 2);
            lemma_markup_one(InlineModel::Text(inner));
            assert(s.skip(2).subrange(e, e + 2) =~= s.subrange(e + 2, e + 4));
            assert(seq!['*', '*'] + inner + seq!['*', '*'] =~= s.take(e + 4));
        }
    } else {
        if let Some(e) = find_char(s.skip(1), '*') {
            let inner = s.subrange(1, e + 1);
            lemma_markup_one(InlineModel::Text(inner));
            assert(s[e + 1] == s.skip(1)[e]);
            assert(seq!['*'] + inner + seq!['*'] =~= s.take(e + 2));
        } else {
            assert(s.take(1) =~= seq!['*']);
        }
    }
}

/// Styles lose no text and invent none: writing the nodes back gives the
/// input. They give no link, and emphasis and strong text each hold one
/// text node.
pub proof fn law_styles_markup(s: Seq<char>)
    ensures
        markup_of_all(styles(s)) == s,
        forall|k: int| 0 <= k < styles(s).len() ==> is_style_node(#[trigger] styles(s)[k]),
    decreases s.len(),
{
    if s.len() > 0 {
        lemma_first_index(s, markup_pred());
        match first_index(s, markup_pred()) {
            None => {
                lemma_markup_one(InlineModel::Text(s));
                assert(styles(s)[0] == InlineModel::Text(s));
                assert forall|j: int| 0 <= j < s.len() implies !is_markup(#[trigger] s[j]) by {
                    assert(!markup_pred()(s[j]));
                }
            },
            Some(i) => {
                lemma_style_token_len(s);
                assert forall|j: int| 0 <= j < s.take(i).len() implies !is_markup(
                    #[trigger] s.take(i)[j],
                ) by {
                    assert(!markup_pred()(s[j]));
                }
                let (head, rest) = if i > 0 {
                    (InlineModel::Text(s.take(i)), s.skip(i))
                } else {
                    lemma_style_token_markup(s);
                    (style_token(s).0, s.skip(style_token(s).1))
                };
                law_styles_markup(rest);
                lemma_markup_one(head);
                lemma_markup_concat(seq![head], styles(rest));
                if i > 0 {
                    assert(s.take(i) + s.skip(i) =~= s);
                } else {
                    assert(s.take(style_token(s).1) + s.skip(style_token(s).1) =~= s);
                }
                let all = styles(s);
                assert(all == seq![head] + styles(rest));
                assert forall|k: int| 0 <= k < all.len() implies is_style_node(#[trigger] all[k]) by {
                    if k > 0 {
                        assert(all[k] == styles(rest)[k - 1]);
                    }
                }
            },
        }
    }
}

/// The inline parser loses no text and invents none: writing the nodes
/// back gives the input.
pub proof fn law_parse_markup(s: Seq<char>)
    ensures
        markup_of_all(parse_inline(s)) == s,
    decreases s.len(),
{
    if s.len() > 0 {
        lemma_first_index(s, is_char('['));
        lemma_link_at_len(s);
        match find_char(s, '[') {
            None => {
                law_styles_markup(s);
            },
            Some(start) => {
                if start > 0 {
                    law_styles_markup(s.take(start));
                    law_parse_markup(s.skip(start));
                    lemma_markup_concat(styles(s.take(start)), parse_inline(s.skip(start)));
                    assert(s.take(start) + s.skip(start) =~= s);
                } else {
                    match link_at(s) {
                        Some((node, n)) => {
                            lemma_find_seq(s, seq![']', '(']);
                            let le = find_seq(s, seq![']', '('])->Some_0;
                            lemma_first_index(s.skip(le + 2), is_char(')'));
                            let ue = find_char(s.skip(le + 2), ')')->Some_0;
                            law_styles_markup(s.subrange(1, le));
                            assert(s.subrange(le, le + 2) =~= seq![']', '(']);
                            assert(s[le] == ']' && s[le + 1] == '(');
                            assert(s[le + 2 + ue] == s.skip(le + 2)[ue]);
                            let href = s.subrange(le + 2, le + 2 + ue);
                            assert(markup_of(node) == seq!['['] + s.subrange(1, le) + seq![']', '(']
                                + href + seq![')']);
                            assert(seq!['['] + s.subrange(1, le) + seq![']', '('] + href + seq![')']
                                =~= s.take(n));
                            law_parse_markup(s.skip(n));
                            lemma_markup_one(node);
                            lemma_markup_concat(seq![node], parse_inline(s.skip(n)));
                            assert(s.take(n) + s.skip(n) =~= s);
                        },
                        None => {
                            law_parse_markup(s.skip(1));
                            let t = InlineModel::Text(seq!['[']);
                            lemma_markup_one(t);
                            lemma_markup_concat(seq![t], parse_inline(s.skip(1)));
                            assert(seq!['['] + s.skip(1) =~= s);
                        },
                    }
                }
            },
        }
    }
}

/// The text before the first '[' of a line is parsed by the style parser
/// alone: a line's nodes before its first bracket are those of that text
/// parsed by itself.
pub proof fn law_parse_before_bracket(s: Seq<char>, t: Seq<char>)
    requires
        s.len() > 0,
        forall|j: int| 0 <= j < s.len() ==> #[trigger] s[j] != '[',
        t.len() > 0,
        t[0] == '[',
    ensures
        parse_inline(s + t) == styles(s) + parse_inline(t),
{
    let u = s + t;
    assert forall|j: int| 0 <= j < s.len() implies !is_char('[')(#[trigger] u[j]) by {
        assert(u[j] == s[j]);
    }
    assert(u[s.len() as int] == t[0]);
    lemma_first_index_is(u, is_char('['), s.len() as int);
    assert(u.take(s.len() as int) =~= s);
    assert(u.skip(s.len() as int) =~= t);
}

/// A link written in full is a link node: `[label](href)`, with no ']' in
/// the label and no ')' in the target, gives a link whose label is the
/// styled label and whose target is `href`, and the line goes on after the
/// closing ')'.
pub proof fn law_parse_link(label: Seq<char>, href: Seq<char>, rest: Seq<char>)
    requires
        forall|j: int| 0 <= j < label.len() ==> #[trigger] label[j] != ']',
        forall|j: int| 0 <= j < href.len() ==> #[trigger] href[j] != ')',
    ensures
        parse_inline(seq!['['] + label + seq![']', '('] + href + seq![')'] + rest) == seq![
            InlineModel::Link { label: styles(label), href },
        ] + parse_inline(rest),
{
    let s = seq!['['] + label + seq![']', '('] + href + seq![')'] + rest;
    let le: int = label.len() as int + 1;
    assert(s[0] == '[');
    lemma_first_index_is(s, is_char('['), 0);
    assert(s.subrange(le, le + 2) =~= seq![']', '(']);
    assert forall|j: int| 0 <= j < le implies !matches_at(s, seq![']', '('], j) by {
        if j == 0 {
            assert(s.subrange(0, 2)[0] == '[');
        } else {
            assert(s[j] == label[j - 1]);
            assert(s.subrange(j, j + 2)[0] == s[j]);
        }
    }
    lemma_find_seq_is(s, seq![']', '('], le);
    let t = s.skip(le + 2);
    assert forall|j: int| 0 <= j < href.len() implies !is_char(')')(#[trigger] t[j]) by {
        assert(t[j] == href[j]);
    }
    assert(t[href.len() as int] == ')');
    lemma_first_index_is(t, is_char(')'), href.len() as int);
    assert(s.subrange(1, le) =~= label);
    assert(s.subrange(le + 2, le + 2 + href.len() as int) =~= href);
    assert(s.skip(le + 2 + href.len() as int + 1) =~= rest);
}

/// Spans written in full are styled nodes: "`code`" (no '`' inside) is a
/// code span, "**text**" and "*text*" (non-empty, no '*' inside) are strong
/// and emphasised text, and styling goes on after the closing marker.
pub proof fn law_style_spans(x: Seq<char>, rest: Seq<char>)
    ensures
        (forall|j: int| 0 <= j < x.len() ==> #[trigger] x[j] != '`') ==> styles(
            seq!['`'] + x + seq!['`'] + rest,
        ) == seq![InlineModel::Code(x)] + styles(rest),
        (x.len() > 0 && forall|j: int| 0 <= j < x.len() ==> #[trigger] x[j] != '*') ==> styles(
            seq!['*', '*'] + x + seq!['*', '*'] + rest,
        ) == seq![InlineModel::Strong(seq![InlineModel::Text(x)])] + styles(rest),
        (x.len() > 0 && forall|j: int| 0 <= j < x.len() ==> #[trigger] x[j] != '*') ==> styles(
            seq!['*'] + x + seq!['*'] + rest,
        ) == seq![InlineModel::Emphasis(seq![InlineModel::Text(x)])] + styles(rest),
{
    if forall|j: int| 0 <= j < x.len() ==> #[trigger] x[j] != '`' {
        let s = seq!['`'] + x + seq!['`'] + rest;
        assert(markup_pred()(s[0]));
        lemma_first_index_is(s, markup_pred(), 0);
        let t = s.skip(1);
        assert forall|j: int| 0 <= j < x.len() implies !is_char('`')(#[trigger] t[j]) by {
            assert(t[j] == x[j]);
        }
        assert(t[x.len() as int] == '`');
        lemma_first_index_is(t, is_char('`'), x.len() as int);
        assert(s.subrange(1, x.len() as int + 1) =~= x);
        assert(s.skip(x.len() as int + 2) =~= rest);
    }
    if x.len() > 0 && forall|j: int| 0 <= j < x.len() ==> #[trigger] x[j] != '*' {
        let s = seq!['*', '*'] + x + seq!['*', '*'] + rest;
        assert(markup_pred()(s[0]));
        lemma_first_index_is(s, markup_pred(), 0);
        assert(s.take(2) =~= seq!['*', '*']);
        let t = s.skip(2);
        assert(t.subrange(x.len() as int, x.len() as int + 2) =~= seq!['*', '*']);
        assert forall|j: int| 0 <= j < x.len() implies !matches_at(t, seq!['*', '*'], j) by {
            assert(t[j] == x[j]);
            assert(t.subrange(j, j + 2)[0] == t[j]);
        }
        lemma_find_seq_is(t, seq!['*', '*'], x.len() as int);
        assert(s.subrange(2, x.len() as int + 2) =~= x);
        assert(s.skip(x.len() as int + 4) =~= rest);

        let e = seq!['*'] + x + seq!['*'] + rest;
        assert(markup_pred()(e[0]));
        lemma_first_index_is(e, markup_pred(), 0);
        assert(e[1] == x[0]);
        assert(!starts_with(e, seq!['*', '*'])) by {
            if starts_with(e, seq!['*', '*']) {
                assert(e.take(2)[1] == e[1]);
            }
        }
        let u = e.skip(1);
        assert forall|j: int| 0 <= j < x.len() implies !is_char('*')(#[trigger] u[j]) by {
            assert(u[j] == x[j]);
        }
        assert(u[x.len() as int] == '*');
        lemma_first_index_is(u, is_char('*'), x.len() as int);
        assert(e.subrange(1, x.len() as int + 1) =~= x);
        assert(e.skip(x.len() as int + 2) =~= rest);
    }
}

} // verus!
