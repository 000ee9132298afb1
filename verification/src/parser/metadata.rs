//! The `@key value` properties at the top of a document.
use vstd::prelude::*;
use crate::compiler::model::site::{DocumentType, Metadata, MetadataModel};
use crate::text::{
    find_char, find_char_in, is_char, lemma_first_index, push_range, range_eq, string_from, string_of_range, strs_view,
    to_chars, trim, trim_bounds,
};

verus! {

/// The properties read so far.
pub struct MetaState {
    pub doc_type: Option<DocumentType>,
    pub title: Option<Seq<char>>,
    pub summary: Option<Seq<char>>,
    pub date: Option<Seq<char>>,
}

pub open spec fn empty_meta_state() -> MetaState {
    MetaState { doc_type: None, title: None, summary: None, date: None }
}

/// The document type that a `@type` value names.
pub open spec fn doc_type_named(v: Seq<char>) -> Option<DocumentType> {
    if v == "page"@ {
        Some(DocumentType::Page)
    } else if v == "project"@ {
        Some(DocumentType::Project)
    } else if v == "article"@ {
        Some(DocumentType::Article)
    } else {
        None
    }
}

/// Reads the property lines from line `i` on: blank lines are skipped, and
/// the first non-blank line that does not start with '@' ends the
/// properties. Gives the properties and the index of that line.
pub open spec fn meta_scan(path: Seq<char>, lines: Seq<Seq<char>>, i: nat, st: MetaState) -> Result<
    (MetaState, nat),
    Seq<char>,
>
    decreases lines.len() - i,
{
    if i >= lines.len() {
        Ok((st, i))
    } else {
        let line = trim(lines[i as int]);
        if line.len() == 0 {
            meta_scan(path, lines, i + 1, st)
        } else if line[0] != '@' {
            Ok((st, i))
        } else {
            let body = line.skip(1);
            match find_char(body, ' ') {
                None => Err("Failed to parse metadata property"@),
                Some(k) => {
                    let key = body.take(k);
                    let value = trim(body.skip(k + 1));
                    if key == "type"@ {
                        if st.doc_type is Some {
                            Err("Duplicate metadata property "@ + key + " in "@ + path)
                        } else {
                            match doc_type_named(value) {
                                Some(t) => meta_scan(
                                    path,
                                    lines,
                                    i + 1,
                                    MetaState { doc_type: Some(t), ..st },
                                ),
                                None => Err("Unknown document type "@ + value + " in "@ + path),
                            }
                        }
                    } else if key == "title"@ {
                        if st.title is Some {
                            Err("Duplicate metadata property "@ + key + " in "@ + path)
                        } else {
                            meta_scan(path, lines, i + 1, MetaState { title: Some(value), ..st })
                        }
                    } else if key == "summary"@ {
                        if st.summary is Some {
                            Err("Duplicate metadata property "@ + key + " in "@ + path)
                        } else {
                            meta_scan(path, lines, i + 1, MetaState { summary: Some(value), ..st })
                        }
                    } else if key == "date"@ {
                        if st.date is Some {
                            Err("Duplicate metadata property "@ + key + " in "@ + path)
                        } else {
                            meta_scan(path, lines, i + 1, MetaState { date: Some(value), ..st })
                        }
                    } else {
                        Err("Unknown metadata property "@ + key + " in "@ + path)
                    }
                },
            }
        }
    }
}

/// The metadata of a document whose lines are `lines`, and the index of the
/// first line after it; `type` and `title` are required.
pub open spec fn metadata_of(path: Seq<char>, lines: Seq<Seq<char>>) -> Result<
    (MetadataModel, nat),
    Seq<char>,
> {
    let scanned = meta_scan(path, lines, 0, empty_meta_state());
    if scanned is Err {
        Err(scanned->Err_0)
    } else {
        let st = scanned->Ok_0.0;
        let i = scanned->Ok_0.1;
        if st.doc_type is None {
            Err("Missing required 'type' metadata property in "@ + path)
        } else if st.title is None {
            Err("Missing required 'title' metadata property in "@ + path)
        } else {
            Ok(
                (
                    MetadataModel {
                        doc_type: st.doc_type->Some_0,
                        title: st.title->Some_0,
                        summary: st.summary,
                        date: st.date,
                        starred: false,
                        author: None,
                    },
                    i,
                ),
            )
        }
    }
}

/// `prefix + item + " in " + path` as a message.
pub(crate) fn message_in(prefix: &str, s: &Vec<char>, lo: usize, hi: usize, path: &str) -> (r: String)
    requires
        lo <= hi <= s.len(),
    ensures
        r@ == prefix@ + s@.subrange(lo as int, hi as int) + " in "@ + path@,
{
    let mut r = string_from(prefix);
    push_range(&mut r, s, lo, hi);
    r.append(" in ");
    r.append(path);
    r
}

/// Reads the metadata properties at the top of a document: `@type` (page,
/// project or article) and `@title` are required, `@summary` and `@date`
/// optional, each at most once. Returns the metadata and the index of the
/// first line after the properties.
pub fn parse(path: &str, lines: &[&str]) -> (r: Result<(Metadata, usize), String>)
    ensures
        r matches Ok((_, i)) ==> i <= lines.len(),
        match r {
            Ok((m, i)) => metadata_of(path@, strs_view(lines@)) == Ok::<(MetadataModel, nat), Seq<char>>((m@, i as nat)),
            Err(e) => metadata_of(path@, strs_view(lines@)) == Err::<(MetadataModel, nat), Seq<char>>(e@),
        },
{
    let ghost ls = strs_view(lines@);
    let mut doc_type: Option<DocumentType> = None;
    let mut title: Option<String> = None;
    let mut summary: Option<String> = None;
    let mut date: Option<String> = None;
    let mut index: usize = 0;
    let key_type = to_chars("type");
    let key_title = to_chars("title");
    let key_summary = to_chars("summary");
    let key_date = to_chars("date");
    let name_page = to_chars("page");
    let name_project = to_chars("project");
    let name_article = to_chars("article");
    let ghost start = empty_meta_state();
    loop
        invariant_except_break
            index <= lines.len(),
            ls == strs_view(lines@),
            start == empty_meta_state(),
            key_type@ == "type"@,
            key_title@ == "title"@,
            key_summary@ == "summary"@,
            key_date@ == "date"@,
            name_page@ == "page"@,
            name_project@ == "project"@,
            name_article@ == "article"@,
            meta_scan(path@, ls, 0, start) == meta_scan(
                path@,
                ls,
                index as nat,
                MetaState {
                    doc_type: doc_type,
                    title: crate::compiler::model::site::opt_view(title),
                    summary: crate::compiler::model::site::opt_view(summary),
                    date: crate::compiler::model::site::opt_view(date),
                },
            ),
        ensures
            index <= lines.len(),
            meta_scan(path@, ls, 0, start) == Ok::<(MetaState, nat), Seq<char>>(
                (
                    MetaState {
                        doc_type: doc_type,
                        title: crate::compiler::model::site::opt_view(title),
                        summary: crate::compiler::model::site::opt_view(summary),
                        date: crate::compiler::model::site::opt_view(date),
                    },
                    index as nat,
                ),
            ),
        decreases lines.len() - index,
    {
        if index >= lines.len() {
            break;
        }
        let l = to_chars(lines[index]);
        assert(l@ == ls[index as int]);
        let (a, b) = trim_bounds(&l, 0, l.len());
        assert(l@.subrange(0, l@.len() as int) =~= l@);
        let ghost line = trim(ls[index as int]);
        if a == b {
            index = index + 1;
            continue;
        }
        if l[a] != '@' {
            break;
        }
        assert(line.skip(1) =~= l@.subrange(a + 1, b as int));
        let k = match find_char_in(&l, a + 1, b, ' ') {
            Some(k) => k,
            None => {
                let e = string_from("Failed to parse metadata property");
                return Err(e);
            },
        };
        let ghost body = line.skip(1);
        assert(body.take(k - a - 1) =~= l@.subrange(a + 1, k as int));
        assert(body.skip(k - a) =~= l@.subrange(k + 1, b as int));
        let (va, vb) = trim_bounds(&l, k + 1, b);
        let value = string_of_range(&l, va, vb);
        if range_eq(&l, a + 1, k, &key_type) {
            if doc_type.is_some() {
                return Err(message_in("Duplicate metadata property ", &l, a + 1, k, path));
            }
            if range_eq(&l, va, vb, &name_page) {
                doc_type = Some(DocumentType::Page);
            } else if range_eq(&l, va, vb, &name_project) {
                doc_type = Some(DocumentType::Project);
            } else if range_eq(&l, va, vb, &name_article) {
                doc_type = Some(DocumentType::Article);
            } else {
                assert(doc_type_named(l@.subrange(va as int, vb as int)) is None);
                return Err(message_in("Unknown document type ", &l, va, vb, path));
            }
        } else if range_eq(&l, a + 1, k, &key_title) {
            if title.is_some() {
                return Err(message_in("Duplicate metadata property ", &l, a + 1, k, path));
            }
            title = Some(value);
        } else if range_eq(&l, a + 1, k, &key_summary) {
            if summary.is_some() {
                return Err(message_in("Duplicate metadata property ", &l, a + 1, k, path));
            }
            summary = Some(value);
        } else if range_eq(&l, a + 1, k, &key_date) {
            if date.is_some() {
                return Err(message_in("Duplicate metadata property ", &l, a + 1, k, path));
            }
            date = Some(value);
        } else {
            return Err(message_in("Unknown metadata property ", &l, a + 1, k, path));
        }
        index = index + 1;
    }
    let doc_type = match doc_type {
        Some(t) => t,
        None => {
            let mut e = string_from("Missing required 'type' metadata property in ");
            e.append(path);
            return Err(e);
        },
    };
    let title = match title {
        Some(t) => t,
        None => {
            let mut e = string_from("Missing required 'title' metadata property in ");
            e.append(path);
            return Err(e);
        },
    };
    Ok((Metadata { doc_type, title, summary, date, starred: false, author: None }, index))
}

/// The name that an `@type` line gives each document type.
pub open spec fn doc_type_word(t: DocumentType) -> Seq<char> {
    match t {
        DocumentType::Page => seq!['p', 'a', 'g', 'e'],
        DocumentType::Project => seq!['p', 'r', 'o', 'j', 'e', 'c', 't'],
        DocumentType::Article => seq!['a', 'r', 't', 'i', 'c', 'l', 'e'],
    }
}

/// `line` is the property line `@key value` (trimmed, with `value`
/// trimmed too).
pub open spec fn property_line(line: Seq<char>, key: Seq<char>, value: Seq<char>) -> bool {
    let l = trim(line);
    let n = key.len() + 2;
    &&& l.len() >= n
    &&& l.take(n as int) == seq!['@'] + key + seq![' ']
    &&& trim(l.skip(n as int)) == value
}

pub open spec fn type_key() -> Seq<char> {
    seq!['t', 'y', 'p', 'e']
}

pub open spec fn title_key() -> Seq<char> {
    seq!['t', 'i', 't', 'l', 'e']
}

pub open spec fn summary_key() -> Seq<char> {
    seq!['s', 'u', 'm', 'm', 'a', 'r', 'y']
}

pub open spec fn date_key_word() -> Seq<char> {
    seq!['d', 'a', 't', 'e']
}

/// `line` is an `@type` line that names the type `t`.
pub open spec fn names_type(line: Seq<char>, t: DocumentType) -> bool {
    property_line(line, type_key(), doc_type_word(t))
}

/// A value, where there is one, is that of a property line `@key value`
/// before line `i`.
pub open spec fn from_lines(lines: Seq<Seq<char>>, i: int, key: Seq<char>, value: Option<Seq<char>>) -> bool {
    value is None || exists|j: int|
        0 <= j < i && #[trigger] property_line(lines[j], key, value->Some_0)
}

pub open spec fn word_of(t: Option<DocumentType>) -> Option<Seq<char>> {
    match t {
        Some(x) => Some(doc_type_word(x)),
        None => None,
    }
}

/// The metadata read so far came from property lines before line `i`.
pub open spec fn state_from_lines(lines: Seq<Seq<char>>, i: int, st: MetaState) -> bool {
    &&& from_lines(lines, i, type_key(), word_of(st.doc_type))
    &&& from_lines(lines, i, title_key(), st.title)
    &&& from_lines(lines, i, summary_key(), st.summary)
    &&& from_lines(lines, i, date_key_word(), st.date)
}

proof fn lemma_from_lines_at(lines: Seq<Seq<char>>, i: int, j: int, key: Seq<char>, v: Seq<char>)
    requires
        0 <= j < i,
        property_line(lines[j], key, v),
    ensures
        from_lines(lines, i, key, Some(v)),
{
    assert(property_line(lines[j], key, Some(v)->Some_0));
}

proof fn lemma_from_lines_mono(lines: Seq<Seq<char>>, i: int, i2: int, key: Seq<char>, value: Option<Seq<char>>)
    requires
        i <= i2,
        from_lines(lines, i, key, value),
    ensures
        from_lines(lines, i2, key, value),
{
    if let Some(v) = value {
        let j = choose|j: int| 0 <= j < i && #[trigger] property_line(lines[j], key, value->Some_0);
        assert(property_line(lines[j], key, value->Some_0));
    }
}

proof fn lemma_state_from_lines_mono(lines: Seq<Seq<char>>, i: int, i2: int, st: MetaState)
    requires
        i <= i2,
        state_from_lines(lines, i, st),
    ensures
        state_from_lines(lines, i2, st),
{
    lemma_from_lines_mono(lines, i, i2, type_key(), word_of(st.doc_type));
    lemma_from_lines_mono(lines, i, i2, title_key(), st.title);
    lemma_from_lines_mono(lines, i, i2, summary_key(), st.summary);
    lemma_from_lines_mono(lines, i, i2, date_key_word(), st.date);
}

proof fn lemma_property_line(raw: Seq<char>, key: Seq<char>, k: int)
    requires
        trim(raw).len() > 0,
        trim(raw)[0] == '@',
        find_char(trim(raw).skip(1), ' ') == Some(k),
        trim(raw).skip(1).take(k) == key,
    ensures
        property_line(raw, key, trim(trim(raw).skip(1).skip(k + 1))),
{
    let l = trim(raw);
    let body = l.skip(1);
    lemma_first_index(body, is_char(' '));
    assert(key.len() == k);
    assert(l.take(k + 2) =~= seq!['@'] + key + seq![' ']) by {
        assert forall|x: int| 1 <= x < k + 1 implies #[trigger] l.take(k + 2)[x] == key[x - 1] by {
            assert(key[x - 1] == body[x - 1]);
        }
        assert(l.take(k + 2)[k + 1] == body[k]);
        assert((seq!['@'] + key + seq![' '])[k + 1] == ' ');
    }
    assert(body.skip(k + 1) =~= l.skip(k + 2));
}

proof fn lemma_doc_type_named(v: Seq<char>)
    ensures
        doc_type_named(v) matches Some(t) ==> v == doc_type_word(t),
{
    reveal_strlit("page");
    reveal_strlit("project");
    reveal_strlit("article");
    assert("page"@ =~= seq!['p', 'a', 'g', 'e']);
    assert("project"@ =~= seq!['p', 'r', 'o', 'j', 'e', 'c', 't']);
    assert("article"@ =~= seq!['a', 'r', 't', 'i', 'c', 'l', 'e']);
}

proof fn lemma_meta_scan_lines(path: Seq<char>, lines: Seq<Seq<char>>, i: nat, st: MetaState)
    requires
        state_from_lines(lines, i as int, st),
    ensures
        meta_scan(path, lines, i, st) matches Ok((st2, n)) ==> state_from_lines(lines, n as int, st2),
    decreases lines.len() - i,
{
    reveal_strlit("type");
    reveal_strlit("title");
    reveal_strlit("summary");
    reveal_strlit("date");
    assert("type"@ =~= type_key());
    assert("title"@ =~= title_key());
    assert("summary"@ =~= summary_key());
    assert("date"@ =~= date_key_word());
    if i < lines.len() {
        let line = trim(lines[i as int]);
        if line.len() == 0 {
            lemma_state_from_lines_mono(lines, i as int, i as int + 1, st);
            lemma_meta_scan_lines(path, lines, i + 1, st);
        } else if line[0] == '@' {
            let body = line.skip(1);
            if let Some(k) = find_char(body, ' ') {
                let key = body.take(k);
                let value = trim(body.skip(k + 1));
                if key == "type"@ {
                    if st.doc_type is None {
                        if let Some(t) = doc_type_named(value) {
                            lemma_doc_type_named(value);
                            lemma_property_line(lines[i as int], key, k);
                            let st2 = MetaState { doc_type: Some(t), ..st };
                            lemma_state_from_lines_mono(lines, i as int, i as int + 1, st);
                            assert(property_line(lines[i as int], type_key(), doc_type_word(t)));
                            lemma_from_lines_at(lines, i as int + 1, i as int, type_key(), doc_type_word(t));
                            assert(state_from_lines(lines, i + 1 as int, st2));
                            lemma_meta_scan_lines(path, lines, i + 1, st2);
                        }
                    }
                } else if key == "title"@ {
                    lemma_property_line(lines[i as int], key, k);
                    let st2 = MetaState { title: Some(value), ..st };
                    lemma_state_from_lines_mono(lines, i as int, i as int + 1, st);
                    assert(property_line(lines[i as int], title_key(), value));
                    lemma_from_lines_at(lines, i as int + 1, i as int, title_key(), value);
                    assert(state_from_lines(lines, i + 1 as int, st2));
                    lemma_meta_scan_lines(path, lines, i + 1, st2);
                } else if key == "summary"@ {
                    lemma_property_line(lines[i as int], key, k);
                    let st2 = MetaState { summary: Some(value), ..st };
                    lemma_state_from_lines_mono(lines, i as int, i as int + 1, st);
                    assert(property_line(lines[i as int], summary_key(), value));
                    lemma_from_lines_at(lines, i as int + 1, i as int, summary_key(), value);
                    assert(state_from_lines(lines, i + 1 as int, st2));
                    lemma_meta_scan_lines(path, lines, i + 1, st2);
                } else if key == "date"@ {
                    lemma_property_line(lines[i as int], key, k);
                    let st2 = MetaState { date: Some(value), ..st };
                    lemma_state_from_lines_mono(lines, i as int, i as int + 1, st);
                    assert(property_line(lines[i as int], date_key_word(), value));
                    lemma_from_lines_at(lines, i as int + 1, i as int, date_key_word(), value);
                    assert(state_from_lines(lines, i + 1 as int, st2));
                    lemma_meta_scan_lines(path, lines, i + 1, st2);
                }
            }
        }
    }
}

/// Each property of a document comes from one of its metadata lines: the
/// type from an `@type` line that names it ("page", "project" or
/// "article"), the title from an `@title` line, and the summary and date,
/// where there are any, from `@summary` and `@date` lines; each value is
/// the rest of its line, trimmed.
pub proof fn law_metadata_lines(path: Seq<char>, lines: Seq<Seq<char>>)
    ensures
        metadata_of(path, lines) matches Ok((m, n)) ==> {
            &&& exists|j: int| 0 <= j < n && #[trigger] names_type(lines[j], m.doc_type)
            &&& exists|j: int| 0 <= j < n && #[trigger] property_line(lines[j], title_key(), m.title)
            &&& m.summary matches Some(v) ==> exists|j: int|
                0 <= j < n && #[trigger] property_line(lines[j], summary_key(), v)
            &&& m.date matches Some(v) ==> exists|j: int|
                0 <= j < n && #[trigger] property_line(lines[j], date_key_word(), v)
        },
{
    lemma_meta_scan_lines(path, lines, 0, empty_meta_state());
    if let Ok((m, n)) = metadata_of(path, lines) {
        let st = meta_scan(path, lines, 0, empty_meta_state())->Ok_0.0;
        let ty = word_of(st.doc_type);
        assert(ty == Some(doc_type_word(m.doc_type)));
        let j = choose|j: int| 0 <= j < n && #[trigger] property_line(lines[j], type_key(), ty->Some_0);
        assert(names_type(lines[j], m.doc_type));
        let j2 = choose|j: int| 0 <= j < n && #[trigger] property_line(lines[j], title_key(), st.title->Some_0);
        assert(property_line(lines[j2], title_key(), m.title));
        if st.summary is Some {
            let j3 = choose|j: int|
                0 <= j < n && #[trigger] property_line(lines[j], summary_key(), st.summary->Some_0);
            assert(property_line(lines[j3], summary_key(), m.summary->Some_0));
        }
        if st.date is Some {
            let j4 = choose|j: int|
                0 <= j < n && #[trigger] property_line(lines[j], date_key_word(), st.date->Some_0);
            assert(property_line(lines[j4], date_key_word(), m.date->Some_0));
        }
    }
}

} // verus!
