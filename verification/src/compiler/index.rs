//! Routes, the article and project indexes, previous/next links and the
//! items of linked indexes.
use vstd::prelude::*;
use crate::compiler::model::document::{Site, SiteModel, routes_view};
use crate::compiler::model::site::{
    Block, BlockModel, Document, DocumentModel, DocumentType, Inline, InlineModel, LinkedIndex,
    LinkedIndexModel, MetadataFields, blocks_view, documents_view, inlines_view,
    lemma_inline_view_unfold, rows_view,
};
use crate::config::{Config, ConfigModel};
use crate::text::{
    ends_with, find_char, find_char_in, has_suffix_at, is_char, lemma_first_index, push_range,
    lemma_str_lt_irreflexive, lemma_str_lt_total, lemma_str_lt_transitive, range_eq, split_char,
    starts_with, str_less, str_lt, string_of, to_chars, trim_char,
    trim_char_bounds,
    trim_end_char, trim_end_pattern, trim_start_char,
};

verus! {

// ---------------------------------------------------------------------------
// Paths (Unix, '/'-separated)
// ---------------------------------------------------------------------------

/// `Path::join`: `rel` replaces `base` when it is absolute; otherwise a
/// separator is put between them unless `base` is empty or ends with one.
pub open spec fn path_join(base: Seq<char>, rel: Seq<char>) -> Seq<char> {
    if rel.len() > 0 && rel[0] == '/' {
        rel
    } else if base.len() == 0 {
        rel
    } else if base.last() == '/' {
        base + rel
    } else {
        base + seq!['/'] + rel
    }
}

/// A piece between separators that names a directory or file.
pub open spec fn is_normal_part(c: Seq<char>) -> bool {
    c.len() > 0 && c != seq!['.']
}

pub open spec fn normal_parts(pieces: Seq<Seq<char>>) -> Seq<Seq<char>>
    decreases pieces.len(),
{
    if pieces.len() == 0 {
        seq![]
    } else {
        (if is_normal_part(pieces[0]) {
            seq![pieces[0]]
        } else {
            seq![]
        }) + normal_parts(pieces.drop_first())
    }
}

/// `Path::components`, each written as `to_string_lossy` writes it: a leading
/// root as "/", a leading "." as ".", then the non-empty pieces between
/// separators other than ".".
pub open spec fn components(p: Seq<char>) -> Seq<Seq<char>> {
    let rest = normal_parts(split_char(p, '/'));
    if p.len() > 0 && p[0] == '/' {
        seq![seq!['/']] + rest
    } else if p == seq!['.'] || starts_with(p, seq!['.', '/']) {
        seq![seq!['.']] + rest
    } else {
        rest
    }
}

pub open spec fn is_prefix_of<T>(a: Seq<T>, b: Seq<T>) -> bool {
    a.len() <= b.len() && b.take(a.len() as int) == a
}

/// The parts joined by '/'.
pub open spec fn join_parts(parts: Seq<Seq<char>>) -> Seq<char>
    decreases parts.len(),
{
    if parts.len() == 0 {
        seq![]
    } else if parts.len() == 1 {
        parts[0]
    } else {
        join_parts(parts.drop_last()) + seq!['/'] + parts.last()
    }
}

/// `normalize_route`: a leading '/', no other leading or trailing '/', and a
/// trailing '/' unless the route is the root.
pub open spec fn normalize(route: Seq<char>) -> Seq<char> {
    let base = seq!['/'] + trim_char(route, '/');
    if base == seq!['/'] {
        base
    } else {
        base.push('/')
    }
}

/// The components of `source` below the content directory `root/content_dir`
/// (all of them where it is not below it).
pub open spec fn route_parts(source: Seq<char>, root: Seq<char>, content_dir: Seq<char>) -> Seq<
    Seq<char>,
> {
    let base = components(path_join(root, content_dir));
    let comps = components(source);
    if is_prefix_of(base, comps) {
        comps.skip(base.len() as int)
    } else {
        comps
    }
}

/// Drops the ".qf" extension (as often as it ends the name) from the last
/// part, and drops that part where it is then "index".
pub open spec fn page_parts(parts: Seq<Seq<char>>) -> Seq<Seq<char>> {
    if parts.len() == 0 {
        parts
    } else {
        let last = trim_end_pattern(parts.last(), ".qf"@);
        if last == "index"@ {
            parts.drop_last()
        } else {
            parts.drop_last().push(last)
        }
    }
}

/// The route of the document at `source`.
pub open spec fn route_of(source: Seq<char>, root: Seq<char>, content_dir: Seq<char>) -> Seq<
    char,
> {
    normalize(seq!['/'] + join_parts(page_parts(route_parts(source, root, content_dir))))
}

// ---------------------------------------------------------------------------
// Executable path handling
// ---------------------------------------------------------------------------

pub open spec fn parts_view(v: Seq<Vec<char>>) -> Seq<Seq<char>> {
    Seq::new(v.len(), |i: int| v[i]@)
}

fn push_part(parts: &mut Vec<Vec<char>>, part: Vec<char>)
    ensures
        parts_view(final(parts)@) == parts_view(old(parts)@).push(part@),
{
    let ghost p = part@;
    parts.push(part);
    assert(parts_view(parts@) =~= parts_view(old(parts)@).push(p));
}

fn chars_of_range(s: &Vec<char>, lo: usize, hi: usize) -> (r: Vec<char>)
    requires
        lo <= hi <= s.len(),
    ensures
        r@ == s@.subrange(lo as int, hi as int),
{
    let mut r: Vec<char> = Vec::new();
    let mut i = lo;
    while i < hi
        invariant
            lo <= i <= hi <= s.len(),
            r@ == s@.subrange(lo as int, i as int),
        decreases hi - i,
    {
        r.push(s[i]);
        assert(s@.subrange(lo as int, i + 1) =~= s@.subrange(lo as int, i as int).push(
            s@[i as int],
        ));
        i = i + 1;
    }
    r
}

fn chars_eq(a: &Vec<char>, b: &Vec<char>) -> (r: bool)
    ensures
        r == (a@ == b@),
{
    let r = range_eq(a, 0, a.len(), b);
    assert(a@.subrange(0, a@.len() as int) =~= a@);
    r
}

pub(crate) fn path_join_chars(base: &Vec<char>, rel: &Vec<char>) -> (r: Vec<char>)
    ensures
        r@ == path_join(base@, rel@),
{
    if rel.len() > 0 && rel[0] == '/' {
        return chars_of_range(rel, 0, rel.len());
    }
    let mut r = chars_of_range(base, 0, base.len());
    if base.len() > 0 && base[base.len() - 1] != '/' {
        r.push('/');
    }
    let mut i: usize = 0;
    let ghost start = r@;
    while i < rel.len()
        invariant
            i <= rel.len(),
            r@ == start + rel@.take(i as int),
        decreases rel.len() - i,
    {
        r.push(rel[i]);
        assert(rel@.take(i + 1) =~= rel@.take(i as int).push(rel@[i as int]));
        i = i + 1;
    }
    assert(rel@.take(rel@.len() as int) =~= rel@);
    assert(base@.subrange(0, base@.len() as int) =~= base@);
    assert(rel@.subrange(0, rel@.len() as int) =~= rel@);
    r
}

/// The components of a path.
pub(crate) fn path_components(p: &Vec<char>) -> (r: Vec<Vec<char>>)
    ensures
        parts_view(r@) == components(p@),
{
    let mut parts: Vec<Vec<char>> = Vec::new();
    let ghost lead: Seq<Seq<char>>;
    if p.len() > 0 && p[0] == '/' {
        let mut v: Vec<char> = Vec::new();
        v.push('/');
        assert(v@ =~= seq!['/']);
        push_part(&mut parts, v);
        proof {
            lead = seq![seq!['/']];
        }
    } else if (p.len() == 1 && p[0] == '.') || (p.len() >= 2 && p[0] == '.' && p[1] == '/') {
        let mut v: Vec<char> = Vec::new();
        v.push('.');
        assert(v@ =~= seq!['.']);
        push_part(&mut parts, v);
        proof {
            lead = seq![seq!['.']];
            if p.len() == 1 {
                assert(p@ =~= seq!['.']);
            } else {
                assert(p@.take(2) =~= seq!['.', '/']);
            }
        }
    } else {
        proof {
            lead = seq![];
            if p@.len() >= 2 && starts_with(p@, seq!['.', '/']) {
                assert(p@.take(2)[0] == p@[0]);
                assert(p@.take(2)[1] == p@[1]);
            }
            if p@ == seq!['.'] {
                assert(p@[0] == '.');
            }
        }
    }
    assert(parts_view(parts@) =~= lead);
    let mut pos: usize = 0;
    assert(p@.subrange(0, p@.len() as int) =~= p@);
    loop
        invariant
            pos <= p.len(),
            components(p@) == lead + normal_parts(split_char(p@, '/')),
            lead + normal_parts(split_char(p@, '/')) == parts_view(parts@) + normal_parts(
                split_char(p@.subrange(pos as int, p@.len() as int), '/'),
            ),
        decreases p.len() - pos,
    {
        let ghost rest = p@.subrange(pos as int, p@.len() as int);
        let (end, last) = match find_char_in(p, pos, p.len(), '/') {
            Some(k) => (k, false),
            None => (p.len(), true),
        };
        let ghost piece = p@.subrange(pos as int, end as int);
        proof {
            lemma_first_index(rest, is_char('/'));
            if !last {
                assert(rest.take(end - pos) =~= piece);
                assert(rest.skip(end - pos + 1) =~= p@.subrange(end + 1, p@.len() as int));
            } else {
                assert(rest =~= piece);
            }
        }
        let normal = end > pos && !(end == pos + 1 && p[pos] == '.');
        assert(normal == is_normal_part(piece)) by {
            if piece.len() == 1 && piece == seq!['.'] {
                assert(piece[0] == '.');
            }
            if end == pos + 1 && p@[pos as int] == '.' {
                assert(piece =~= seq!['.']);
            }
        }
        let ghost before = parts_view(parts@);
        if normal {
            push_part(&mut parts, chars_of_range(p, pos, end));
        }
        if last {
            assert(split_char(rest, '/') == seq![rest]);
            assert(seq![rest].drop_first() =~= Seq::<Seq<char>>::empty());
            assert(normal_parts(seq![rest]) =~= (if is_normal_part(rest) {
                seq![rest]
            } else {
                seq![]
            }) + normal_parts(Seq::<Seq<char>>::empty()));
            assert(parts_view(parts@) =~= before + normal_parts(split_char(rest, '/')));
            return parts;
        }
        let ghost next = split_char(p@.subrange(end + 1, p@.len() as int), '/');
        assert((seq![piece] + next).drop_first() =~= next);
        assert(normal_parts(seq![piece] + next) =~= (if is_normal_part(piece) {
            seq![piece]
        } else {
            seq![]
        }) + normal_parts(next));
        assert(before + normal_parts(split_char(rest, '/')) =~= parts_view(parts@) + normal_parts(
            next,
        ));
        pos = end + 1;
    }
}

/// `route` is a well-formed route: `normalize_route` of some text.
pub fn normalize_route(route: &str) -> (r: String)
    ensures
        r@ == normalize(route@),
{
    let s = to_chars(route);
    let (a, b) = trim_char_bounds(&s, 0, s.len(), '/');
    assert(s@.subrange(0, s@.len() as int) =~= s@);
    let mut r = String::new();
    crate::text::push_char(&mut r, '/');
    push_range(&mut r, &s, a, b);
    if a < b {
        crate::text::push_char(&mut r, '/');
    }
    proof {
        let base = seq!['/'] + trim_char(s@, '/');
        if a < b {
            assert(base.len() > 1);
            assert(base != seq!['/']);
        } else {
            assert(base =~= seq!['/']);
        }
    }
    r
}

fn normalize_chars(s: &Vec<char>) -> (r: String)
    ensures
        r@ == normalize(s@),
{
    let (a, b) = trim_char_bounds(s, 0, s.len(), '/');
    assert(s@.subrange(0, s@.len() as int) =~= s@);
    let mut r = String::new();
    crate::text::push_char(&mut r, '/');
    push_range(&mut r, s, a, b);
    if a < b {
        crate::text::push_char(&mut r, '/');
    }
    proof {
        let base = seq!['/'] + trim_char(s@, '/');
        if a < b {
            assert(base.len() > 1);
            assert(base != seq!['/']);
        } else {
            assert(base =~= seq!['/']);
        }
    }
    r
}

/// Where `last` ends with ".qf" (as often as it does), the end of the name
/// without it.
fn strip_page_extension(last: &Vec<char>) -> (hi: usize)
    ensures
        hi <= last.len(),
        last@.subrange(0, hi as int) == trim_end_pattern(last@, ".qf"@),
{
    proof {
        reveal_strlit(".qf");
    }
    let qf = to_chars(".qf");
    let mut hi = last.len();
    assert(last@.subrange(0, hi as int) =~= last@);
    while has_suffix_at(last, 0, hi, &qf)
        invariant
            hi <= last.len(),
            qf@ == ".qf"@,
            qf@.len() == 3,
            trim_end_pattern(last@, ".qf"@) == trim_end_pattern(
                last@.subrange(0, hi as int),
                ".qf"@,
            ),
        decreases hi,
    {
        assert(last@.subrange(0, hi as int).take(hi - 3) =~= last@.subrange(0, hi - 3));
        hi = hi - 3;
    }
    hi
}

/// The parts of the route from the source path.
fn source_parts(source: &Vec<char>, root: &Vec<char>, content_dir: &Vec<char>) -> (r: Vec<
    Vec<char>,
>)
    ensures
        parts_view(r@) == route_parts(source@, root@, content_dir@),
{
    let base = path_join_chars(root, content_dir);
    let bc = path_components(&base);
    let sc = path_components(source);
    let mut prefix = bc.len() <= sc.len();
    let mut k: usize = 0;
    while prefix && k < bc.len()
        invariant
            k <= bc.len(),
            prefix ==> bc.len() <= sc.len(),
            prefix ==> forall|j: int| 0 <= j < k ==> bc@[j]@ == sc@[j]@,
            !prefix ==> !is_prefix_of(parts_view(bc@), parts_view(sc@)),
        decreases bc.len() - k,
    {
        if !chars_eq(&bc[k], &sc[k]) {
            proof {
                if is_prefix_of(parts_view(bc@), parts_view(sc@)) {
                    assert(parts_view(sc@).take(bc.len() as int)[k as int] == parts_view(bc@)[k as int]);
                }
            }
            prefix = false;
        }
        k = k + 1;
    }
    if prefix {
        assert(parts_view(sc@).take(bc.len() as int) =~= parts_view(bc@));
    }
    let start = if prefix {
        bc.len()
    } else {
        0
    };
    let mut out: Vec<Vec<char>> = Vec::new();
    let mut i = start;
    while i < sc.len()
        invariant
            start <= i <= sc.len(),
            parts_view(out@) == parts_view(sc@).subrange(start as int, i as int),
        decreases sc.len() - i,
    {
        push_part(&mut out, chars_of_range(&sc[i], 0, sc[i].len()));
        assert(sc@[i as int]@.subrange(0, sc@[i as int]@.len() as int) =~= sc@[i as int]@);
        assert(parts_view(sc@).subrange(start as int, i + 1) =~= parts_view(sc@).subrange(
            start as int,
            i as int,
        ).push(sc@[i as int]@));
        i = i + 1;
    }
    assert(parts_view(sc@).subrange(0, sc@.len() as int) =~= parts_view(sc@));
    assert(parts_view(sc@).subrange(start as int, sc@.len() as int) =~= parts_view(sc@).skip(
        start as int,
    ));
    out
}

proof fn lemma_join_parts_push(parts: Seq<Seq<char>>, k: int)
    requires
        0 <= k < parts.len(),
    ensures
        join_parts(parts.take(k + 1)) == if k == 0 {
            parts[0]
        } else {
            join_parts(parts.take(k)) + seq!['/'] + parts[k]
        },
{
    assert(parts.take(k + 1).drop_last() =~= parts.take(k));
    if k == 0 {
        assert(parts.take(1).len() == 1);
    }
}

/// The route of a document: its path below the content directory, without
/// the ".qf" extension and without a last "index" part, as a normalized route.
pub fn route(document: &Document, root: &str, config: &Config) -> (r: String)
    ensures
        r@ == route_of(document.source_path@, root@, config.content_dir@),
{
    let source = to_chars(document.source_path.as_str());
    let root_chars = to_chars(root);
    let dir = to_chars(config.content_dir.as_str());
    let mut parts = source_parts(&source, &root_chars, &dir);
    let ghost all = parts_view(parts@);
    if parts.len() > 0 {
        let last = parts.pop().unwrap();
        assert(parts_view(parts@) =~= all.drop_last());
        let hi = strip_page_extension(&last);
        let is_index = range_eq(&last, 0, hi, &to_chars("index"));
        if !is_index {
            push_part(&mut parts, chars_of_range(&last, 0, hi));
        }
    }
    assert(parts_view(parts@) == page_parts(all));
    let mut joined: Vec<char> = Vec::new();
    joined.push('/');
    let ghost ps = parts_view(parts@);
    let mut k: usize = 0;
    assert(ps.take(0) =~= Seq::<Seq<char>>::empty());
    assert(joined@ =~= seq!['/'] + join_parts(ps.take(0)));
    while k < parts.len()
        invariant
            k <= parts.len(),
            ps == parts_view(parts@),
            joined@ == seq!['/'] + join_parts(ps.take(k as int)),
        decreases parts.len() - k,
    {
        proof {
            lemma_join_parts_push(ps, k as int);
        }
        if k > 0 {
            joined.push('/');
        }
        let part = &parts[k];
        let mut c: usize = 0;
        let ghost mid = joined@;
        while c < part.len()
            invariant
                c <= part.len(),
                joined@ == mid + part@.take(c as int),
            decreases part.len() - c,
        {
            joined.push(part[c]);
            assert(part@.take(c + 1) =~= part@.take(c as int).push(part@[c as int]));
            c = c + 1;
        }
        assert(part@.take(part@.len() as int) =~= part@);
        assert(joined@ =~= seq!['/'] + join_parts(ps.take(k + 1)));
        k = k + 1;
    }
    assert(ps.take(ps.len() as int) =~= ps);
    normalize_chars(&joined)
}

// ---------------------------------------------------------------------------
// Building the index
// ---------------------------------------------------------------------------

/// The least position `j < n` whose route occurred before it.
pub open spec fn first_duplicate(rs: Seq<Seq<char>>, n: nat) -> Option<int>
    decreases n,
{
    if n == 0 {
        None
    } else {
        match first_duplicate(rs, (n - 1) as nat) {
            Some(j) => Some(j),
            None => if exists|i: int| 0 <= i < n - 1 && #[trigger] rs[i] == rs[n - 1] {
                Some(n - 1)
            } else {
                None
            },
        }
    }
}

/// The positions, below `n`, of the documents of type `t`, in order.
pub open spec fn type_indices(docs: Seq<DocumentModel>, t: DocumentType, n: nat) -> Seq<usize>
    decreases n,
{
    if n == 0 {
        seq![]
    } else {
        type_indices(docs, t, (n - 1) as nat) + if docs[n - 1].metadata.doc_type == t {
            seq![(n - 1) as usize]
        } else {
            seq![]
        }
    }
}

pub open spec fn with_route(d: DocumentModel, r: Seq<char>) -> DocumentModel {
    DocumentModel { route: r, ..d }
}

/// The documents with their routes set.
pub open spec fn routed(docs: Seq<DocumentModel>, root: Seq<char>, content_dir: Seq<char>) -> Seq<
    DocumentModel,
> {
    Seq::new(
        docs.len(),
        |i: int| with_route(docs[i], route_of(docs[i].source_path, root, content_dir)),
    )
}

pub open spec fn routes_of(docs: Seq<DocumentModel>) -> Seq<Seq<char>> {
    Seq::new(docs.len(), |i: int| docs[i].route)
}

/// The site that `build_index` builds, or its error where two documents
/// share a route (named by the first document whose route occurred before).
pub open spec fn index_site(root: Seq<char>, config: ConfigModel, docs: Seq<DocumentModel>) -> Result<
    SiteModel,
    Seq<char>,
> {
    let ds = routed(docs, root, config.content_dir);
    let rs = routes_of(ds);
    match first_duplicate(rs, rs.len()) {
        Some(j) => Err("Error indexing routes, duplicates not allowed: "@ + rs[j]),
        None => Ok(
            SiteModel {
                config: config,
                documents: ds,
                routes: Seq::new(rs.len(), |i: int| (rs[i], i as usize)),
                articles: type_indices(ds, DocumentType::Article, ds.len()),
                projects: type_indices(ds, DocumentType::Project, ds.len()),
            },
        ),
    }
}

/// Gives each document its route, and indexes the routes, the articles and
/// the projects. Two documents with one route are an error.
pub fn build_index(root: &str, config: Config, documents: Vec<Document>) -> (r: Result<Site, String>)
    ensures
        match r {
            Ok(site) => index_site(root@, config@, documents_view(documents@)) == Ok::<
                SiteModel,
                Seq<char>,
            >(site@),
            Err(e) => index_site(root@, config@, documents_view(documents@)) == Err::<
                SiteModel,
                Seq<char>,
            >(e@),
        },
{
    let ghost orig = documents_view(documents@);
    let mut docs = documents;
    let ghost ds = routed(orig, root@, config@.content_dir);
    let ghost rs = routes_of(ds);
    let mut routes: Vec<(String, usize)> = Vec::new();
    let mut articles: Vec<usize> = Vec::new();
    let mut projects: Vec<usize> = Vec::new();
    let mut i: usize = 0;
    while i < docs.len()
        invariant
            i <= docs.len(),
            orig == documents_view(documents@),
            docs.len() == orig.len(),
            ds == routed(orig, root@, config@.content_dir),
            rs == routes_of(ds),
            forall|j: int| 0 <= j < i ==> docs@[j]@ == ds[j],
            forall|j: int| i <= j < docs.len() ==> docs@[j]@ == orig[j],
            routes_view(routes@) == Seq::new(i as nat, |k: int| (rs[k], k as usize)),
            articles@ == type_indices(ds, DocumentType::Article, i as nat),
            projects@ == type_indices(ds, DocumentType::Project, i as nat),
            first_duplicate(rs, i as nat) is None,
        decreases docs.len() - i,
    {
        let r = route(&docs[i], root, &config);
        assert(routes_view(routes@).len() == routes@.len());
        let mut dup = false;
        let mut k: usize = 0;
        while k < routes.len()
            invariant
                k <= routes.len(),
                routes.len() == i,
                dup == exists|x: int| 0 <= x < k && routes@[x].0@ == r@,
            decreases routes.len() - k,
        {
            if routes[k].0 == r {
                dup = true;
            }
            k = k + 1;
        }
        assert(r@ == rs[i as int]);
        assert forall|x: int| 0 <= x < i implies routes@[x].0@ == rs[x] by {
            assert(routes_view(routes@)[x] == (rs[x], x as usize));
        }
        if dup {
            let mut e = crate::text::string_from("Error indexing routes, duplicates not allowed: ");
            e.append(r.as_str());
            proof {
                let x = choose|x: int| 0 <= x < routes.len() && routes@[x].0@ == r@;
                assert(rs[x] == rs[i as int]);
                assert(first_duplicate(rs, (i + 1) as nat) == Some(i as int));
                lemma_first_duplicate_stable(rs, (i + 1) as nat, rs.len());
                assert(rs[i as int] == r@);
                assert(e@ == "Error indexing routes, duplicates not allowed: "@ + rs[i as int]);
                assert(index_site(root@, config@, orig) == Err::<SiteModel, Seq<char>>(e@));
            }
            return Err(e);
        }
        assert(first_duplicate(rs, (i + 1) as nat) is None);
        let ghost rv = r@;
        let doc_type = docs[i].metadata.doc_type;
        docs[i].route = r.clone();
        let ghost before = routes_view(routes@);
        routes.push((r, i));
        assert(routes_view(routes@) =~= before.push((rv, i)));
        assert(before.push((rv, i)) =~= Seq::new((i + 1) as nat, |k: int| (rs[k], k as usize)));
        match doc_type {
            DocumentType::Article => articles.push(i),
            DocumentType::Project => projects.push(i),
            DocumentType::Page => {},
        }
        assert(articles@ =~= type_indices(ds, DocumentType::Article, (i + 1) as nat));
        assert(projects@ =~= type_indices(ds, DocumentType::Project, (i + 1) as nat));
        i = i + 1;
    }
    assert(documents_view(docs@) =~= ds);
    Ok(Site { config, documents: docs, routes, articles, projects })
}

proof fn lemma_first_duplicate_stable(rs: Seq<Seq<char>>, n: nat, m: nat)
    requires
        n <= m,
        first_duplicate(rs, n) is Some,
    ensures
        first_duplicate(rs, m) == first_duplicate(rs, n),
    decreases m - n,
{
    if n < m {
        lemma_first_duplicate_stable(rs, n, (m - 1) as nat);
    }
}

// ---------------------------------------------------------------------------
// Stable sorting of document indices
// ---------------------------------------------------------------------------

/// Inserts `x` into `s` before the first element that `x` must precede,
/// that is after every element it does not precede.
pub open spec fn insert_sorted(s: Seq<usize>, x: usize, before: spec_fn(usize, usize) -> bool) -> Seq<
    usize,
>
    decreases s.len(),
{
    if s.len() == 0 {
        seq![x]
    } else if before(x, s[0]) {
        seq![x] + s
    } else {
        seq![s[0]] + insert_sorted(s.drop_first(), x, before)
    }
}

/// The stable sort of `s` by `before` (a strict order): elements that
/// neither precedes keep their order.
pub open spec fn sort_by(s: Seq<usize>, before: spec_fn(usize, usize) -> bool) -> Seq<usize>
    decreases s.len(),
{
    if s.len() == 0 {
        seq![]
    } else {
        insert_sorted(sort_by(s.drop_last(), before), s.last(), before)
    }
}

proof fn lemma_insert_sorted_at(s: Seq<usize>, x: usize, before: spec_fn(usize, usize) -> bool, p: int)
    requires
        0 <= p <= s.len(),
        forall|j: int| 0 <= j < p ==> !before(x, #[trigger] s[j]),
        p == s.len() || before(x, s[p]),
    ensures
        insert_sorted(s, x, before) == s.insert(p, x),
    decreases s.len(),
{
    if s.len() == 0 {
        assert(s.insert(p, x) =~= seq![x]);
    } else if p == 0 {
        assert(s.insert(0, x) =~= seq![x] + s);
    } else {
        assert(!before(x, s[0]));
        assert forall|j: int| 0 <= j < p - 1 implies !before(x, #[trigger] s.drop_first()[j]) by {
            assert(s.drop_first()[j] == s[j + 1]);
        }
        lemma_insert_sorted_at(s.drop_first(), x, before, p - 1);
        assert(seq![s[0]] + s.drop_first().insert(p - 1, x) =~= s.insert(p, x));
    }
}

/// The document date that articles are ordered by; none sorts first.
pub open spec fn date_key(d: DocumentModel) -> Seq<char> {
    match d.metadata.date {
        Some(x) => x,
        None => seq![],
    }
}

/// Articles: older dates first.
pub open spec fn by_date(docs: Seq<DocumentModel>) -> spec_fn(usize, usize) -> bool {
    |a: usize, b: usize| str_lt(date_key(docs[a as int]), date_key(docs[b as int]))
}

/// Linked indexes: newer dates first, then by route.
pub open spec fn newest_first(docs: Seq<DocumentModel>) -> spec_fn(usize, usize) -> bool {
    |a: usize, b: usize|
        str_lt(date_key(docs[b as int]), date_key(docs[a as int])) || (date_key(docs[a as int])
            == date_key(docs[b as int]) && str_lt(docs[a as int].route, docs[b as int].route))
}

fn date_chars(d: &Document) -> (r: Vec<char>)
    ensures
        r@ == date_key(d@),
{
    match &d.metadata.date {
        Some(x) => to_chars(x.as_str()),
        None => Vec::new(),
    }
}

/// `a` comes before `b` among articles.
fn article_before(docs: &Vec<Document>, a: usize, b: usize) -> (r: bool)
    requires
        a < docs.len(),
        b < docs.len(),
    ensures
        r == by_date(documents_view(docs@))(a, b),
{
    str_less(&date_chars(&docs[a]), &date_chars(&docs[b]))
}

/// `a` comes before `b` in a linked index.
fn entry_before(docs: &Vec<Document>, a: usize, b: usize) -> (r: bool)
    requires
        a < docs.len(),
        b < docs.len(),
    ensures
        r == newest_first(documents_view(docs@))(a, b),
{
    let da = date_chars(&docs[a]);
    let db = date_chars(&docs[b]);
    if str_less(&db, &da) {
        return true;
    }
    if range_eq(&da, 0, da.len(), &db) {
        assert(da@.subrange(0, da@.len() as int) =~= da@);
        str_less(&to_chars(docs[a].route.as_str()), &to_chars(docs[b].route.as_str()))
    } else {
        assert(da@.subrange(0, da@.len() as int) =~= da@);
        false
    }
}

/// Sorts document indices, stably, by date (`newest == false`) or newest
/// first and then by route (`newest == true`).
fn sort_indices(docs: &Vec<Document>, items: &Vec<usize>, newest: bool) -> (r: Vec<usize>)
    requires
        forall|i: int| 0 <= i < items.len() ==> items@[i] < docs.len(),
    ensures
        r@ == sort_by(
            items@,
            if newest {
                newest_first(documents_view(docs@))
            } else {
                by_date(documents_view(docs@))
            },
        ),
{
    let ghost before = if newest {
        newest_first(documents_view(docs@))
    } else {
        by_date(documents_view(docs@))
    };
    let mut out: Vec<usize> = Vec::new();
    let mut k: usize = 0;
    assert(items@.take(0) =~= Seq::<usize>::empty());
    while k < items.len()
        invariant
            k <= items.len(),
            forall|i: int| 0 <= i < items.len() ==> items@[i] < docs.len(),
            before == if newest {
                newest_first(documents_view(docs@))
            } else {
                by_date(documents_view(docs@))
            },
            out@ == sort_by(items@.take(k as int), before),
            forall|i: int| 0 <= i < out.len() ==> out@[i] < docs.len(),
        decreases items.len() - k,
    {
        let x = items[k];
        let mut p: usize = 0;
        let mut found = false;
        while p < out.len() && !found
            invariant
                p <= out.len(),
                x < docs.len(),
                forall|i: int| 0 <= i < out.len() ==> out@[i] < docs.len(),
                before == if newest {
                    newest_first(documents_view(docs@))
                } else {
                    by_date(documents_view(docs@))
                },
                forall|j: int| 0 <= j < p ==> !before(x, #[trigger] out@[j]),
                found ==> p < out.len() && before(x, out@[p as int]),
            decreases out.len() - p + if found {
                0int
            } else {
                1int
            },
        {
            let b = if newest {
                entry_before(docs, x, out[p])
            } else {
                article_before(docs, x, out[p])
            };
            if b {
                found = true;
            } else {
                p = p + 1;
            }
        }
        proof {
            lemma_insert_sorted_at(out@, x, before, p as int);
            assert(items@.take(k + 1).drop_last() =~= items@.take(k as int));
            assert(items@.take(k + 1).last() == x);
        }
        out.insert(p, x);
        k = k + 1;
    }
    assert(items@.take(items@.len() as int) =~= items@);
    out
}

// ---------------------------------------------------------------------------
// Linked indexes
// ---------------------------------------------------------------------------

/// A linked index lists a document of its own document type that passes its
/// starred filter.
pub open spec fn listed(d: DocumentModel, li: LinkedIndexModel) -> bool {
    d.metadata.doc_type == li.doc_type && (li.starred is None || d.metadata.starred
        == li.starred->Some_0)
}

/// The positions, below `n`, of the documents that the linked index `li`
/// lists, in order.
pub open spec fn listed_indices(docs: Seq<DocumentModel>, li: LinkedIndexModel, n: nat) -> Seq<
    usize,
>
    decreases n,
{
    if n == 0 {
        seq![]
    } else {
        listed_indices(docs, li, (n - 1) as nat) + if listed(docs[n - 1], li) {
            seq![(n - 1) as usize]
        } else {
            seq![]
        }
    }
}

/// What a linked index shows of a document for one field.
pub open spec fn field_value(d: DocumentModel, f: MetadataFields) -> Option<InlineModel> {
    match f {
        MetadataFields::Title => Some(
            InlineModel::Link { label: seq![InlineModel::Text(d.metadata.title)], href: d.route },
        ),
        MetadataFields::Summary => match d.metadata.summary {
            Some(v) => Some(InlineModel::Text(v)),
            None => None,
        },
        MetadataFields::Date => match d.metadata.date {
            Some(v) => Some(InlineModel::Text(v)),
            None => None,
        },
    }
}

/// The entry of a document: the values of the fields that it has, joined
/// by " - ".
pub open spec fn index_entry(d: DocumentModel, fields: Seq<MetadataFields>) -> Seq<InlineModel>
    decreases fields.len(),
{
    if fields.len() == 0 {
        seq![]
    } else {
        let acc = index_entry(d, fields.drop_last());
        match field_value(d, fields.last()) {
            Some(v) => if acc.len() > 0 {
                acc + seq![InlineModel::Text(" - "@), v]
            } else {
                seq![v]
            },
            None => acc,
        }
    }
}

/// The entries of a linked index over `docs`: the documents of its type that
/// its starred filter keeps, newest first (then by route), at most `limit`
/// of them.
pub open spec fn local_entries(docs: Seq<DocumentModel>, li: LinkedIndexModel) -> Seq<
    Seq<InlineModel>,
> {
    let chosen = sort_by(listed_indices(docs, li, docs.len()), newest_first(docs));
    let n = match li.limit {
        Some(l) => if l < chosen.len() {
            l as int
        } else {
            chosen.len() as int
        },
        None => chosen.len() as int,
    };
    Seq::new(n as nat, |i: int| index_entry(docs[chosen[i] as int], li.fields))
}

fn text_inline(s: &String) -> (r: Inline)
    ensures
        r@ == InlineModel::Text(s@),
{
    Inline::Text(s.clone())
}

fn push_inline(v: &mut Vec<Inline>, x: Inline)
    ensures
        inlines_view(final(v)@) == inlines_view(old(v)@).push(x@),
{
    let ghost xm = x@;
    v.push(x);
    assert(inlines_view(v@) =~= inlines_view(old(v)@).push(xm));
}

/// The entry of a document in a linked index.
fn make_entry(d: &Document, fields: &Vec<MetadataFields>) -> (r: Vec<Inline>)
    ensures
        inlines_view(r@) == index_entry(d@, fields@),
{
    let mut item: Vec<Inline> = Vec::new();
    let mut k: usize = 0;
    assert(fields@.take(0) =~= Seq::<MetadataFields>::empty());
    assert(inlines_view(item@) =~= Seq::<InlineModel>::empty());
    while k < fields.len()
        invariant
            k <= fields.len(),
            inlines_view(item@) == index_entry(d@, fields@.take(k as int)),
        decreases fields.len() - k,
    {
        let value: Option<Inline> = match fields[k] {
            MetadataFields::Title => {
                let label = vec![text_inline(&d.metadata.title)];
                assert(inlines_view(label@) =~= seq![InlineModel::Text(d.metadata.title@)]);
                let link = Inline::Link { label, href: d.route.clone() };
                proof {
                    lemma_inline_view_unfold(link);
                }
                Some(link)
            },
            MetadataFields::Summary => match &d.metadata.summary {
                Some(v) => Some(text_inline(v)),
                None => None,
            },
            MetadataFields::Date => match &d.metadata.date {
                Some(v) => Some(text_inline(v)),
                None => None,
            },
        };
        assert(fields@.take(k + 1).drop_last() =~= fields@.take(k as int));
        assert(fields@.take(k + 1).last() == fields@[k as int]);
        assert(match value {
            Some(x) => field_value(d@, fields@[k as int]) == Some(x@),
            None => field_value(d@, fields@[k as int]) is None,
        });
        if let Some(v) = value {
            if item.len() > 0 {
                let sep = crate::text::string_from(" - ");
                push_inline(&mut item, Inline::Text(sep));
            }
            push_inline(&mut item, v);
            assert(inlines_view(item@) =~= index_entry(d@, fields@.take(k + 1)));
        }
        k = k + 1;
    }
    assert(fields@.take(fields@.len() as int) =~= fields@);
    item
}

/// `build_local_index`: the entries of a linked index over the documents of
/// the site.
pub fn build_local_index(site: &Site, index: &LinkedIndex) -> (r: Vec<Vec<Inline>>)
    ensures
        rows_view(r@) == local_entries(site@.documents, index@),
{
    let docs = &site.documents;
    let ghost dv = documents_view(docs@);
    let mut chosen: Vec<usize> = Vec::new();
    let mut i: usize = 0;
    while i < docs.len()
        invariant
            i <= docs.len(),
            dv == documents_view(docs@),
            chosen@ == listed_indices(dv, index@, i as nat),
            forall|j: int| 0 <= j < chosen.len() ==> chosen@[j] < docs.len(),
        decreases docs.len() - i,
    {
        let keep = docs[i].metadata.doc_type == index.doc_type && match index.starred {
            None => true,
            Some(s) => docs[i].metadata.starred == s,
        };
        if keep {
            chosen.push(i);
        }
        assert(chosen@ =~= listed_indices(dv, index@, (i + 1) as nat));
        i = i + 1;
    }
    let sorted = sort_indices(docs, &chosen, true);
    let n = match index.limit {
        Some(l) => if l < sorted.len() {
            l
        } else {
            sorted.len()
        },
        None => sorted.len(),
    };
    let mut rows: Vec<Vec<Inline>> = Vec::new();
    let mut k: usize = 0;
    while k < n
        invariant
            k <= n <= sorted.len(),
            dv == documents_view(docs@),
            sorted@ == sort_by(chosen@, newest_first(dv)),
            forall|j: int| 0 <= j < chosen.len() ==> chosen@[j] < docs.len(),
            rows_view(rows@) == Seq::new(
                k as nat,
                |j: int| index_entry(dv[sorted@[j] as int], index@.fields),
            ),
        decreases n - k,
    {
        proof {
            lemma_sort_by_members(chosen@, newest_first(dv), docs.len() as nat);
        }
        let entry = make_entry(&docs[sorted[k]], &index.fields);
        let ghost before = rows_view(rows@);
        let ghost em = inlines_view(entry@);
        rows.push(entry);
        assert(rows_view(rows@) =~= before.push(em));
        assert(rows_view(rows@) =~= Seq::new(
            (k + 1) as nat,
            |j: int| index_entry(dv[sorted@[j] as int], index@.fields),
        ));
        k = k + 1;
    }
    rows
}

proof fn lemma_insert_sorted_members(s: Seq<usize>, x: usize, before: spec_fn(usize, usize) -> bool, bound: nat)
    requires
        x < bound,
        forall|i: int| 0 <= i < s.len() ==> s[i] < bound,
    ensures
        insert_sorted(s, x, before).len() == s.len() + 1,
        forall|i: int| 0 <= i < insert_sorted(s, x, before).len() ==> #[trigger] insert_sorted(s, x, before)[i] < bound,
    decreases s.len(),
{
    if s.len() > 0 && !before(x, s[0]) {
        lemma_insert_sorted_members(s.drop_first(), x, before, bound);
        let r = insert_sorted(s, x, before);
        assert forall|i: int| 0 <= i < r.len() implies #[trigger] r[i] < bound by {
            if i > 0 {
                assert(r[i] == insert_sorted(s.drop_first(), x, before)[i - 1]);
            }
        }
    }
}

/// Sorting keeps the length, and indices below a bound stay below it.
pub proof fn lemma_sort_by_members(s: Seq<usize>, before: spec_fn(usize, usize) -> bool, bound: nat)
    requires
        forall|i: int| 0 <= i < s.len() ==> s[i] < bound,
    ensures
        sort_by(s, before).len() == s.len(),
        forall|i: int| 0 <= i < sort_by(s, before).len() ==> #[trigger] sort_by(s, before)[i] < bound,
    decreases s.len(),
{
    if s.len() > 0 {
        lemma_sort_by_members(s.drop_last(), before, bound);
        lemma_insert_sorted_members(sort_by(s.drop_last(), before), s.last(), before, bound);
    }
}

// ---------------------------------------------------------------------------
// Processing the index
// ---------------------------------------------------------------------------

/// Gives the articles at positions below `p` of `order` their previous and
/// next routes, one after the other.
pub open spec fn link_articles(docs: Seq<DocumentModel>, order: Seq<usize>, p: nat) -> Seq<
    DocumentModel,
>
    decreases p,
{
    if p == 0 {
        docs
    } else {
        let prev = link_articles(docs, order, (p - 1) as nat);
        let k = p - 1;
        let idx = order[k] as int;
        prev.update(
            idx,
            DocumentModel {
                previous: if k > 0 {
                    Some(docs[order[k - 1] as int].route)
                } else {
                    None
                },
                next: if k + 1 < order.len() {
                    Some(docs[order[k + 1] as int].route)
                } else {
                    None
                },
                ..prev[idx]
            },
        )
    }
}

/// A block with the entries of its linked index filled in.
pub open spec fn fill_block(docs: Seq<DocumentModel>, b: BlockModel) -> BlockModel {
    match b {
        BlockModel::LinkedIndex(li) => BlockModel::LinkedIndex(
            LinkedIndexModel { items: local_entries(docs, li), ..li },
        ),
        _ => b,
    }
}

pub open spec fn fill_document(docs: Seq<DocumentModel>, d: DocumentModel) -> DocumentModel {
    DocumentModel {
        blocks: Seq::new(d.blocks.len(), |j: int| fill_block(docs, d.blocks[j])),
        ..d
    }
}

/// The site after `process_index`: articles sorted by date, each linked to
/// its neighbours, and every linked index filled in.
pub open spec fn processed(site: SiteModel) -> SiteModel {
    let order = sort_by(site.articles, by_date(site.documents));
    let linked = link_articles(site.documents, order, order.len());
    SiteModel {
        articles: order,
        documents: Seq::new(linked.len(), |i: int| fill_document(linked, linked[i])),
        ..site
    }
}

pub proof fn lemma_link_articles_shape(docs: Seq<DocumentModel>, order: Seq<usize>, p: nat)
    requires
        p <= order.len(),
        forall|i: int| 0 <= i < order.len() ==> order[i] < docs.len(),
    ensures
        link_articles(docs, order, p).len() == docs.len(),
        forall|i: int|
            0 <= i < docs.len() ==> {
                let d = #[trigger] link_articles(docs, order, p)[i];
                &&& d.source_path == docs[i].source_path
                &&& d.metadata == docs[i].metadata
                &&& d.route == docs[i].route
                &&& d.blocks == docs[i].blocks
            },
    decreases p,
{
    if p > 0 {
        lemma_link_articles_shape(docs, order, (p - 1) as nat);
    }
}

/// The entries of every linked index of every document, by document and
/// block; `None` for other blocks.
fn pending_entries(site: &Site) -> (r: Vec<Vec<Option<Vec<Vec<Inline>>>>>)
    ensures
        r.len() == site.documents.len(),
        forall|i: int|
            0 <= i < r.len() ==> (#[trigger] r@[i]).len() == site.documents@[i].blocks.len(),
        forall|i: int, j: int|
            0 <= i < r.len() && 0 <= j < r@[i].len() ==> match #[trigger] r@[i]@[j] {
                Some(items) => site.documents@[i].blocks@[j] is LinkedIndex && rows_view(items@)
                    == local_entries(site@.documents, site.documents@[i].blocks@[j]->LinkedIndex_0@),
                None => !(site.documents@[i].blocks@[j] is LinkedIndex),
            },
{
    let mut all: Vec<Vec<Option<Vec<Vec<Inline>>>>> = Vec::new();
    let mut i: usize = 0;
    while i < site.documents.len()
        invariant
            i <= site.documents.len(),
            all.len() == i,
            forall|x: int|
                0 <= x < all.len() ==> (#[trigger] all@[x]).len()
                    == site.documents@[x].blocks.len(),
            forall|x: int, j: int|
                0 <= x < all.len() && 0 <= j < all@[x].len() ==> match #[trigger] all@[x]@[j] {
                    Some(items) => site.documents@[x].blocks@[j] is LinkedIndex && rows_view(
                        items@,
                    ) == local_entries(
                        site@.documents,
                        site.documents@[x].blocks@[j]->LinkedIndex_0@,
                    ),
                    None => !(site.documents@[x].blocks@[j] is LinkedIndex),
                },
        decreases site.documents.len() - i,
    {
        let blocks = &site.documents[i].blocks;
        let mut row: Vec<Option<Vec<Vec<Inline>>>> = Vec::new();
        let mut j: usize = 0;
        while j < blocks.len()
            invariant
                j <= blocks.len(),
                i < site.documents.len(),
                blocks == site.documents@[i as int].blocks,
                row.len() == j,
                forall|y: int|
                    0 <= y < row.len() ==> match #[trigger] row@[y] {
                        Some(items) => blocks@[y] is LinkedIndex && rows_view(items@)
                            == local_entries(site@.documents, blocks@[y]->LinkedIndex_0@),
                        None => !(blocks@[y] is LinkedIndex),
                    },
            decreases blocks.len() - j,
        {
            match &blocks[j] {
                Block::LinkedIndex(li) => {
                    row.push(Some(build_local_index(site, li)));
                },
                _ => {
                    row.push(None);
                },
            }
            j = j + 1;
        }
        all.push(row);
        i = i + 1;
    }
    all
}

/// Sorts the articles by date (stably), links each article to the previous
/// and next one, and fills in the entries of every linked index.
pub fn process_index(site: &mut Site)
    requires
        forall|i: int| 0 <= i < old(site).articles.len() ==> old(site).articles@[i] < old(
            site,
        ).documents.len(),
    ensures
        final(site)@ == processed(old(site)@),
{
    let ghost s0 = site@;
    let order = sort_indices(&site.documents, &site.articles, false);
    proof {
        lemma_sort_by_members(site.articles@, by_date(s0.documents), site.documents.len() as nat);
    }
    let mut routes: Vec<String> = Vec::new();
    let mut k: usize = 0;
    while k < order.len()
        invariant
            k <= order.len(),
            site@ == s0,
            forall|i: int| 0 <= i < order.len() ==> order@[i] < site.documents.len(),
            routes.len() == k,
            forall|i: int| 0 <= i < k ==> (#[trigger] routes@[i])@ == s0.documents[order@[i] as int].route,
        decreases order.len() - k,
    {
        routes.push(site.documents[order[k]].route.clone());
        k = k + 1;
    }
    let mut p: usize = 0;
    while p < order.len()
        invariant
            p <= order.len(),
            routes.len() == order.len(),
            order@ == sort_by(s0.articles, by_date(s0.documents)),
            forall|i: int| 0 <= i < order.len() ==> order@[i] < s0.documents.len(),
            forall|i: int| 0 <= i < order.len() ==> (#[trigger] routes@[i])@ == s0.documents[order@[i] as int].route,
            site.documents.len() == s0.documents.len(),
            documents_view(site.documents@) == link_articles(s0.documents, order@, p as nat),
            site.config@ == s0.config,
            routes_view(site.routes@) == s0.routes,
            site.articles@ == s0.articles,
            site.projects@ == s0.projects,
        decreases order.len() - p,
    {
        let idx = order[p];
        let previous = if p > 0 {
            Some(routes[p - 1].clone())
        } else {
            None
        };
        let next = if p + 1 < routes.len() {
            Some(routes[p + 1].clone())
        } else {
            None
        };
        let ghost before = documents_view(site.documents@);
        site.documents[idx].previous = previous;
        site.documents[idx].next = next;
        assert(documents_view(site.documents@) =~= link_articles(s0.documents, order@, (p + 1) as nat));
        p = p + 1;
    }
    site.articles = order;
    let ghost linked = documents_view(site.documents@);
    let ghost sorted = site.articles@;
    proof {
        lemma_link_articles_shape(s0.documents, site.articles@, site.articles@.len() as nat);
    }
    let mut pending = pending_entries(site);
    let mut i = site.documents.len();
    while i > 0
        invariant
            i <= site.documents.len(),
            linked.len() == site.documents.len(),
            pending.len() == i,
            forall|x: int|
                0 <= x < pending.len() ==> (#[trigger] pending@[x]).len() == linked[x].blocks.len(),
            forall|x: int, j: int|
                0 <= x < pending.len() && 0 <= j < pending@[x].len() ==> match #[trigger] pending@[x]@[j] {
                    Some(items) => linked[x].blocks[j] is LinkedIndex && rows_view(items@)
                        == local_entries(linked, linked[x].blocks[j]->LinkedIndex_0),
                    None => !(linked[x].blocks[j] is LinkedIndex),
                },
            forall|x: int| 0 <= x < i ==> (#[trigger] site.documents@[x])@ == linked[x],
            forall|x: int|
                i <= x < site.documents.len() ==> (#[trigger] site.documents@[x])@ == fill_document(
                    linked,
                    linked[x],
                ),
            site.config@ == s0.config,
            routes_view(site.routes@) == s0.routes,
            site.articles@ == sorted,
            site.projects@ == s0.projects,
        decreases i,
    {
        i = i - 1;
        let mut row = pending.pop().unwrap();
        let ghost d0 = linked[i as int];
        let ghost docs_before = site.documents@;
        assert(site.documents@[i as int]@ == d0);
        let mut pos = row.len();
        while pos > 0
            invariant
                i < site.documents.len(),
                pos == row.len(),
                row.len() <= d0.blocks.len(),
                site.documents@[i as int].blocks.len() == d0.blocks.len(),
                forall|j: int| 0 <= j < row.len() ==> match #[trigger] row@[j] {
                    Some(items) => d0.blocks[j] is LinkedIndex && rows_view(items@)
                        == local_entries(linked, d0.blocks[j]->LinkedIndex_0),
                    None => !(d0.blocks[j] is LinkedIndex),
                },
                forall|j: int| 0 <= j < pos ==> (#[trigger] site.documents@[i as int].blocks@[j])@ == d0.blocks[j],
                forall|j: int|
                    pos <= j < d0.blocks.len() ==> (#[trigger] site.documents@[i as int].blocks@[j])@
                        == fill_block(linked, d0.blocks[j]),
                site.documents.len() == docs_before.len(),
                forall|x: int| 0 <= x < docs_before.len() && x != i ==> site.documents@[x] == docs_before[x],
                site.documents@[i as int].source_path@ == d0.source_path,
                site.documents@[i as int].metadata@ == d0.metadata,
                site.documents@[i as int].route@ == d0.route,
                crate::compiler::model::site::opt_view(site.documents@[i as int].previous) == d0.previous,
                crate::compiler::model::site::opt_view(site.documents@[i as int].next) == d0.next,
                site.config@ == s0.config,
                routes_view(site.routes@) == s0.routes,
                site.articles@ == sorted,
                site.projects@ == s0.projects,
            decreases pos,
        {
            pos = pos - 1;
            let entry = row.pop().unwrap();
            if let Some(items) = entry {
                if let Block::LinkedIndex(li) = &mut site.documents[i].blocks[pos] {
                    li.items = items;
                }
            }
        }
        assert(blocks_view(site.documents@[i as int].blocks@) =~= fill_document(linked, d0).blocks);
        assert(site.documents@[i as int]@ == fill_document(linked, d0));
        assert forall|x: int| 0 <= x < i implies (#[trigger] site.documents@[x])@ == linked[x] by {
            assert(site.documents@[x] == docs_before[x]);
        }
        assert forall|x: int| i <= x < site.documents.len() implies (
        #[trigger] site.documents@[x])@ == fill_document(linked, linked[x]) by {
            if x != i {
                assert(site.documents@[x] == docs_before[x]);
            }
        }
    }
    assert(documents_view(site.documents@) =~= processed(s0).documents);
}

// ---------------------------------------------------------------------------
// Laws
// ---------------------------------------------------------------------------

/// A normalized route starts and ends with '/', and normalizing it again
/// changes nothing.
pub proof fn law_normalize_route(route: Seq<char>)
    ensures
        normalize(route).len() > 0,
        normalize(route)[0] == '/',
        normalize(route).last() == '/',
        normalize(normalize(route)) == normalize(route),
{
    let t = trim_char(route, '/');
    crate::text::lemma_trim_char(route, '/');
    if t.len() == 0 {
        assert(seq!['/'] + t =~= seq!['/']);
        assert(normalize(route) == seq!['/']);
        let n = seq!['/'];
        assert(trim_start_char(n, '/') == trim_start_char(n.drop_first(), '/'));
        assert(n.drop_first() =~= Seq::<char>::empty());
        assert(trim_char(n, '/') =~= Seq::<char>::empty());
        assert(seq!['/'] + Seq::<char>::empty() =~= seq!['/']);
    } else {
        assert((seq!['/'] + t).len() > 1);
        assert(seq!['/'] + t != seq!['/']);
        assert(normalize(route) =~= seq!['/'] + t + seq!['/']);
        crate::text::lemma_trim_char_wrapped(t, '/');
        assert((seq!['/'] + t).len() > 1);
    }
}

/// Every route that `route` gives is normalized.
pub proof fn law_route_is_normalized(source: Seq<char>, root: Seq<char>, content_dir: Seq<char>)
    ensures
        normalize(route_of(source, root, content_dir)) == route_of(source, root, content_dir),
        route_of(source, root, content_dir)[0] == '/',
        route_of(source, root, content_dir).last() == '/',
{
    law_normalize_route(seq!['/'] + join_parts(page_parts(route_parts(source, root, content_dir))));
}

proof fn lemma_first_duplicate_none(rs: Seq<Seq<char>>, n: nat)
    requires
        n <= rs.len(),
    ensures
        first_duplicate(rs, n) is None <==> forall|i: int, j: int|
            0 <= i < j < n ==> #[trigger] rs[i] != #[trigger] rs[j],
    decreases n,
{
    if n > 0 {
        lemma_first_duplicate_none(rs, (n - 1) as nat);
        if first_duplicate(rs, n) is None {
            assert forall|i: int, j: int| 0 <= i < j < n implies #[trigger] rs[i] != #[trigger] rs[j] by {
                if j == n - 1 {
                    if rs[i] == rs[j] {
                        assert(exists|k: int| 0 <= k < n - 1 && #[trigger] rs[k] == rs[n - 1]);
                    }
                }
            }
        }
    }
}

proof fn lemma_type_indices_members(docs: Seq<DocumentModel>, t: DocumentType, n: nat)
    requires
        n <= docs.len(),
        n <= usize::MAX,
    ensures
        forall|x: usize| #[trigger] type_indices(docs, t, n).contains(x) <==> (x < n
            && docs[x as int].metadata.doc_type == t),
        forall|a: int, b: int|
            0 <= a < b < type_indices(docs, t, n).len() ==> #[trigger] type_indices(docs, t, n)[a]
                < #[trigger] type_indices(docs, t, n)[b],
        forall|a: int|
            0 <= a < type_indices(docs, t, n).len() ==> #[trigger] type_indices(docs, t, n)[a] < n,
    decreases n,
{
    if n > 0 {
        lemma_type_indices_members(docs, t, (n - 1) as nat);
        let prev = type_indices(docs, t, (n - 1) as nat);
        let all = type_indices(docs, t, n);
        let hit = docs[n - 1].metadata.doc_type == t;
        assert(all == prev + if hit {
            seq![(n - 1) as usize]
        } else {
            seq![]
        });
        if hit {
            assert(all.len() == prev.len() + 1);
            assert(all[prev.len() as int] == (n - 1) as usize);
        } else {
            assert(all =~= prev);
        }
        assert forall|a: int| 0 <= a < all.len() implies #[trigger] all[a] < n by {
            if a < prev.len() {
                assert(all[a] == prev[a]);
            }
        }
        assert forall|x: usize| #[trigger] all.contains(x) <==> (x < n && docs[x as int].metadata.doc_type == t) by {
            if all.contains(x) {
                let k = choose|k: int| 0 <= k < all.len() && all[k] == x;
                if k < prev.len() {
                    assert(prev[k] == x);
                    assert(prev.contains(x));
                } else {
                    assert(hit && x == n - 1);
                }
            }
            if x < n && docs[x as int].metadata.doc_type == t {
                if x < n - 1 {
                    assert(prev.contains(x));
                    let k = choose|k: int| 0 <= k < prev.len() && prev[k] == x;
                    assert(all[k] == x);
                } else {
                    assert(all[all.len() - 1] == x);
                }
            }
        }
        assert forall|a: int, b: int| 0 <= a < b < all.len() implies #[trigger] all[a] < #[trigger] all[b] by {
            if b < prev.len() {
                assert(all[a] == prev[a] && all[b] == prev[b]);
            } else {
                assert(all[a] == prev[a]);
                assert(prev[a] < n - 1);
            }
        }
    }
}

/// Indexing a site succeeds exactly when no two documents share a route.
/// Then every document has the route of its source path, the route table
/// pairs each route with its document, and the article and project lists
/// hold exactly the documents of that type, in document order.
pub proof fn law_index(root: Seq<char>, config: ConfigModel, docs: Seq<DocumentModel>)
    requires
        docs.len() <= usize::MAX,
    ensures
        index_site(root, config, docs) is Ok <==> forall|i: int, j: int|
            0 <= i < j < docs.len() ==> route_of(docs[i].source_path, root, config.content_dir)
                != route_of(docs[j].source_path, root, config.content_dir),
        index_site(root, config, docs) matches Ok(site) ==> {
            &&& site.documents.len() == docs.len()
            &&& site.routes.len() == docs.len()
            &&& forall|i: int|
                0 <= i < docs.len() ==> #[trigger] site.documents[i].route == route_of(
                    docs[i].source_path,
                    root,
                    config.content_dir,
                ) && site.routes[i] == (site.documents[i].route, i as usize)
            &&& forall|x: usize| #[trigger] site.articles.contains(x) <==> (x < docs.len()
                && docs[x as int].metadata.doc_type == DocumentType::Article)
            &&& forall|x: usize| #[trigger] site.projects.contains(x) <==> (x < docs.len()
                && docs[x as int].metadata.doc_type == DocumentType::Project)
            &&& forall|a: int, b: int|
                0 <= a < b < site.articles.len() ==> #[trigger] site.articles[a]
                    < #[trigger] site.articles[b]
        },
{
    let ds = routed(docs, root, config.content_dir);
    let rs = routes_of(ds);
    lemma_first_duplicate_none(rs, rs.len());
    lemma_type_indices_members(ds, DocumentType::Article, ds.len());
    lemma_type_indices_members(ds, DocumentType::Project, ds.len());
    if index_site(root, config, docs) is Ok {
        assert forall|i: int, j: int| 0 <= i < j < docs.len() implies route_of(
            docs[i].source_path,
            root,
            config.content_dir,
        ) != route_of(docs[j].source_path, root, config.content_dir) by {
            assert(rs[i] == route_of(docs[i].source_path, root, config.content_dir));
            assert(rs[j] == route_of(docs[j].source_path, root, config.content_dir));
        }
    } else {
        let j = first_duplicate(rs, rs.len())->Some_0;
        if forall|i: int, j: int|
            0 <= i < j < docs.len() ==> route_of(docs[i].source_path, root, config.content_dir)
                != route_of(docs[j].source_path, root, config.content_dir) {
            assert forall|i: int, j: int| 0 <= i < j < rs.len() implies #[trigger] rs[i] != #[trigger] rs[j] by {
                assert(rs[i] == route_of(docs[i].source_path, root, config.content_dir));
                assert(rs[j] == route_of(docs[j].source_path, root, config.content_dir));
            }
        }
    }
}

/// `before` is a transitive relation.
pub open spec fn transitive(before: spec_fn(usize, usize) -> bool) -> bool {
    forall|a: usize, b: usize, c: usize|
        #[trigger] before(a, b) && #[trigger] before(b, c) ==> before(a, c)
}

/// No element comes before one that precedes it.
pub open spec fn sorted_by(s: Seq<usize>, before: spec_fn(usize, usize) -> bool) -> bool {
    forall|i: int, j: int| 0 <= i < j < s.len() ==> !before(#[trigger] s[j], #[trigger] s[i])
}

proof fn lemma_insert_sorted_index(s: Seq<usize>, x: usize, before: spec_fn(usize, usize) -> bool)
    ensures
        exists|p: int|
            0 <= p <= s.len() && insert_sorted(s, x, before) == s.insert(p, x) && (forall|j: int|
                0 <= j < p ==> !before(x, #[trigger] s[j])) && (p == s.len() || before(x, s[p])),
    decreases s.len(),
{
    if s.len() == 0 {
        assert(insert_sorted(s, x, before) == s.insert(0, x));
    } else if before(x, s[0]) {
        assert(insert_sorted(s, x, before) =~= s.insert(0, x));
    } else {
        lemma_insert_sorted_index(s.drop_first(), x, before);
        let p = choose|p: int|
            0 <= p <= s.drop_first().len() && insert_sorted(s.drop_first(), x, before)
                == s.drop_first().insert(p, x) && (forall|j: int|
                0 <= j < p ==> !before(x, #[trigger] s.drop_first()[j])) && (p
                == s.drop_first().len() || before(x, s.drop_first()[p]));
        assert(insert_sorted(s, x, before) =~= s.insert(p + 1, x));
        assert forall|j: int| 0 <= j < p + 1 implies !before(x, #[trigger] s[j]) by {
            if j > 0 {
                assert(s[j] == s.drop_first()[j - 1]);
            }
        }
        if p + 1 < s.len() {
            assert(s[p + 1] == s.drop_first()[p]);
        }
    }
}

/// `before` is irreflexive: nothing precedes itself.
pub open spec fn irreflexive(before: spec_fn(usize, usize) -> bool) -> bool {
    forall|a: usize| !#[trigger] before(a, a)
}

/// The stable sort keeps the elements (as a multiset), and where the order
/// is strict (irreflexive and transitive) its result is sorted.
pub proof fn law_sort_by(s: Seq<usize>, before: spec_fn(usize, usize) -> bool)
    ensures
        sort_by(s, before).to_multiset() == s.to_multiset(),
        sort_by(s, before).len() == s.len(),
        irreflexive(before) && transitive(before) ==> sorted_by(sort_by(s, before), before),
    decreases s.len(),
{
    if s.len() == 0 {
        assert(sort_by(s, before) =~= s);
    } else {
        let rest = sort_by(s.drop_last(), before);
        law_sort_by(s.drop_last(), before);
        lemma_insert_sorted_index(rest, s.last(), before);
        let x = s.last();
        let p = choose|p: int|
            0 <= p <= rest.len() && insert_sorted(rest, x, before) == rest.insert(p, x) && (forall|
                j: int,
            | 0 <= j < p ==> !before(x, #[trigger] rest[j])) && (p == rest.len() || before(
                x,
                rest[p],
            ));
        let r = rest.insert(p, x);
        assert(sort_by(s, before) == r);
        assert(s.drop_last().push(x) =~= s);
        vstd::seq_lib::to_multiset_insert(rest, p, x);
        vstd::seq_lib::to_multiset_build(s.drop_last(), x);
        if irreflexive(before) && transitive(before) {
            assert forall|i: int, j: int| 0 <= i < j < r.len() implies !before(
                #[trigger] r[j],
                #[trigger] r[i],
            ) by {
                if j < p {
                    assert(r[i] == rest[i] && r[j] == rest[j]);
                } else if j == p {
                    assert(r[i] == rest[i] && r[j] == x);
                } else if i == p {
                    assert(r[j] == rest[j - 1] && r[i] == x);
                    assert(before(x, rest[p]));
                    if before(rest[j - 1], x) {
                        if j - 1 > p {
                            assert(!before(rest[j - 1], rest[p]));
                            assert(before(rest[j - 1], rest[p]));
                        } else {
                            assert(before(x, x));
                        }
                    }
                } else if i < p {
                    assert(r[i] == rest[i] && r[j] == rest[j - 1]);
                } else {
                    assert(r[i] == rest[i - 1] && r[j] == rest[j - 1]);
                }
            }
        }
    }
}

/// The order of articles is a strict order.
pub proof fn lemma_by_date_strict(docs: Seq<DocumentModel>)
    ensures
        irreflexive(by_date(docs)),
        transitive(by_date(docs)),
{
    assert forall|a: usize| !#[trigger] by_date(docs)(a, a) by {
        lemma_str_lt_irreflexive(date_key(docs[a as int]));
    }
    assert forall|a: usize, b: usize, c: usize|
        #[trigger] by_date(docs)(a, b) && #[trigger] by_date(docs)(b, c) implies by_date(docs)(a, c) by {
        lemma_str_lt_transitive(
            date_key(docs[a as int]),
            date_key(docs[b as int]),
            date_key(docs[c as int]),
        );
    }
}

/// The order of linked-index entries is a strict order.
pub proof fn lemma_newest_first_strict(docs: Seq<DocumentModel>)
    ensures
        irreflexive(newest_first(docs)),
        transitive(newest_first(docs)),
{
    assert forall|a: usize| !#[trigger] newest_first(docs)(a, a) by {
        lemma_str_lt_irreflexive(date_key(docs[a as int]));
        lemma_str_lt_irreflexive(docs[a as int].route);
    }
    assert forall|a: usize, b: usize, c: usize|
        #[trigger] newest_first(docs)(a, b) && #[trigger] newest_first(docs)(b, c) implies newest_first(
        docs,
    )(a, c) by {
        let ka = date_key(docs[a as int]);
        let kb = date_key(docs[b as int]);
        let kc = date_key(docs[c as int]);
        if str_lt(kb, ka) && str_lt(kc, kb) {
            lemma_str_lt_transitive(kc, kb, ka);
        }
        if ka == kb && kb == kc && str_lt(docs[a as int].route, docs[b as int].route) && str_lt(
            docs[b as int].route,
            docs[c as int].route,
        ) {
            lemma_str_lt_transitive(
                docs[a as int].route,
                docs[b as int].route,
                docs[c as int].route,
            );
        }
    }
}

/// The route of the article at position `k` of `order`, if there is one.
pub open spec fn neighbour(docs: Seq<DocumentModel>, order: Seq<usize>, k: int) -> Option<Seq<char>> {
    if 0 <= k < order.len() {
        Some(docs[order[k] as int].route)
    } else {
        None
    }
}

proof fn lemma_link_articles(docs: Seq<DocumentModel>, order: Seq<usize>, p: nat)
    requires
        p <= order.len(),
        order.no_duplicates(),
        forall|i: int| 0 <= i < order.len() ==> order[i] < docs.len(),
    ensures
        link_articles(docs, order, p).len() == docs.len(),
        forall|k: int|
            0 <= k < p ==> {
                let d = #[trigger] link_articles(docs, order, p)[order[k] as int];
                &&& d.previous == neighbour(docs, order, k - 1)
                &&& d.next == neighbour(docs, order, k + 1)
            },
        forall|i: int|
            0 <= i < docs.len() && !order.take(p as int).contains(i as usize) ==> #[trigger] link_articles(
                docs,
                order,
                p,
            )[i] == docs[i],
    decreases p,
{
    if p > 0 {
        lemma_link_articles(docs, order, (p - 1) as nat);
        let prev = link_articles(docs, order, (p - 1) as nat);
        let cur = link_articles(docs, order, p);
        let q = p - 1;
        assert forall|k: int| 0 <= k < p implies {
            let d = #[trigger] cur[order[k] as int];
            &&& d.previous == neighbour(docs, order, k - 1)
            &&& d.next == neighbour(docs, order, k + 1)
        } by {
            if k < q {
                assert(order[k] != order[q]);
                assert(cur[order[k] as int] == prev[order[k] as int]);
            }
        }
        assert forall|i: int|
            0 <= i < docs.len() && !order.take(p as int).contains(i as usize) implies #[trigger] cur[i]
            == docs[i] by {
            assert(order.take(p as int)[q] == order[q]);
            assert(i != order[q] as int);
            if order.take(q).contains(i as usize) {
                let j = choose|j: int| 0 <= j < order.take(q).len() && order.take(q)[j] == i as usize;
                assert(order.take(p as int)[j] == i as usize);
            }
        }
    }
}

/// The date of a document as written in its `@date` line, or nothing.
pub open spec fn written_date(d: DocumentModel) -> Seq<char> {
    match d.metadata.date {
        Some(x) => x,
        None => seq![],
    }
}

/// What `process_index` does to the articles: the order keeps exactly the
/// articles it had, sorted by date (older first, ties in their former
/// order); each article's previous and next links are the routes of its
/// neighbours in that order, the first having no previous and the last no
/// next; other documents keep their links, and no document changes its
/// path, metadata or route.
pub proof fn law_process_index(site: SiteModel)
    requires
        site.articles.no_duplicates(),
        forall|i: int| 0 <= i < site.articles.len() ==> site.articles[i] < site.documents.len(),
    ensures
        ({
            let after = processed(site);
            let order = after.articles;
            &&& order.to_multiset() == site.articles.to_multiset()
            &&& sorted_by(order, by_date(site.documents))
            &&& forall|i: int, j: int|
                0 <= i < j < order.len() ==> !str_lt(
                    written_date(site.documents[#[trigger] order[j] as int]),
                    written_date(site.documents[#[trigger] order[i] as int]),
                )
            &&& after.documents.len() == site.documents.len()
            &&& forall|i: int|
                0 <= i < site.documents.len() ==> {
                    let d = #[trigger] after.documents[i];
                    &&& d.source_path == site.documents[i].source_path
                    &&& d.metadata == site.documents[i].metadata
                    &&& d.route == site.documents[i].route
                }
            &&& forall|k: int|
                0 <= k < order.len() ==> {
                    let d = #[trigger] after.documents[order[k] as int];
                    &&& d.previous == neighbour(site.documents, order, k - 1)
                    &&& d.next == neighbour(site.documents, order, k + 1)
                }
            &&& forall|i: int|
                0 <= i < site.documents.len() && !site.articles.contains(i as usize) ==> {
                    let d = #[trigger] after.documents[i];
                    &&& d.previous == site.documents[i].previous
                    &&& d.next == site.documents[i].next
                }
        }),
{
    let docs = site.documents;
    let before = by_date(docs);
    let order = sort_by(site.articles, before);
    law_sort_by(site.articles, before);
    lemma_by_date_strict(docs);
    lemma_sort_by_members(site.articles, before, docs.len() as nat);
    site.articles.lemma_multiset_has_no_duplicates();
    assert forall|x: usize| order.to_multiset().contains(x) implies order.to_multiset().count(x)
        == 1 by {
        assert(site.articles.to_multiset().count(x) == order.to_multiset().count(x));
    }
    order.lemma_multiset_has_no_duplicates_conv();
    lemma_link_articles(docs, order, order.len());
    lemma_link_articles_shape(docs, order, order.len());
    assert(order.take(order.len() as int) =~= order);
    assert forall|i: int|
        0 <= i < docs.len() && !#[trigger] site.articles.contains(i as usize) implies !order.contains(
        i as usize,
    ) by {
        if order.contains(i as usize) {
            vstd::seq_lib::to_multiset_contains(order, i as usize);
            vstd::seq_lib::to_multiset_contains(site.articles, i as usize);
        }
    }
}

/// The documents a linked index lists, in order: exactly those below `n`
/// that it lists.
proof fn lemma_listed_indices(docs: Seq<DocumentModel>, li: LinkedIndexModel, n: nat)
    requires
        n <= usize::MAX + 1,
    ensures
        forall|k: int|
            0 <= k < listed_indices(docs, li, n).len() ==> {
                let x = #[trigger] listed_indices(docs, li, n)[k];
                &&& x < n
                &&& listed(docs[x as int], li)
            },
        forall|x: usize|
            x < n && listed(docs[x as int], li) ==> #[trigger] listed_indices(docs, li, n).contains(
                x,
            ),
    decreases n,
{
    if n > 0 {
        lemma_listed_indices(docs, li, (n - 1) as nat);
        let prev = listed_indices(docs, li, (n - 1) as nat);
        let all = listed_indices(docs, li, n);
        assert forall|k: int| 0 <= k < all.len() implies {
            let x = #[trigger] all[k];
            &&& x < n
            &&& listed(docs[x as int], li)
        } by {
            if k < prev.len() {
                assert(all[k] == prev[k]);
            } else {
                assert(all[k] == (n - 1) as usize);
            }
        }
        assert forall|x: usize| x < n && listed(docs[x as int], li) implies #[trigger] all.contains(
            x,
        ) by {
            if x < n - 1 {
                assert(prev.contains(x));
                let j = choose|j: int| 0 <= j < prev.len() && prev[j] == x;
                assert(all[j] == prev[j]);
            } else {
                assert(all[prev.len() as int] == (n - 1) as usize);
            }
        }
    }
}

/// A linked index lists exactly the documents of its type that pass its
/// starred filter, each once, newest first and then by route, and no more
/// of them than its limit: the entry of each is made of its chosen fields.
pub proof fn law_local_entries(docs: Seq<DocumentModel>, li: LinkedIndexModel)
    requires
        docs.len() <= usize::MAX,
    ensures
        ({
            let kept = listed_indices(docs, li, docs.len());
            let chosen = sort_by(kept, newest_first(docs));
            let entries = local_entries(docs, li);
            &&& chosen.to_multiset() == kept.to_multiset()
            &&& chosen.no_duplicates()
            &&& sorted_by(chosen, newest_first(docs))
            &&& forall|i: int, j: int|
                0 <= i < j < chosen.len() ==> {
                    let a = docs[#[trigger] chosen[i] as int];
                    let b = docs[#[trigger] chosen[j] as int];
                    &&& !str_lt(written_date(a), written_date(b))
                    &&& written_date(a) == written_date(b) ==> !str_lt(b.route, a.route)
                }
            &&& forall|x: usize|
                #[trigger] chosen.contains(x) <==> (x < docs.len() && listed(docs[x as int], li))
            &&& entries.len() == match li.limit {
                Some(l) => if l < chosen.len() { l as int } else { chosen.len() as int },
                None => chosen.len() as int,
            }
            &&& forall|k: int|
                0 <= k < entries.len() ==> #[trigger] entries[k] == index_entry(docs[chosen[k] as int], li.fields)
        }),
{
    let kept = listed_indices(docs, li, docs.len());
    let chosen = sort_by(kept, newest_first(docs));
    law_sort_by(kept, newest_first(docs));
    lemma_newest_first_strict(docs);
    lemma_listed_indices(docs, li, docs.len());
    assert forall|x: usize|
        #[trigger] chosen.contains(x) <==> (x < docs.len() && listed(docs[x as int], li)) by {
        vstd::seq_lib::to_multiset_contains(chosen, x);
        vstd::seq_lib::to_multiset_contains(kept, x);
        if kept.contains(x) {
            let j = choose|j: int| 0 <= j < kept.len() && kept[j] == x;
            assert(kept[j] == x);
        }
    }
    lemma_listed_no_duplicates(docs, li, docs.len());
    kept.lemma_multiset_has_no_duplicates();
    assert forall|x: usize| chosen.to_multiset().contains(x) implies chosen.to_multiset().count(x)
        == 1 by {
        assert(kept.to_multiset().count(x) == chosen.to_multiset().count(x));
    }
    chosen.lemma_multiset_has_no_duplicates_conv();
}

/// The listed positions increase, so none occurs twice.
proof fn lemma_listed_no_duplicates(docs: Seq<DocumentModel>, li: LinkedIndexModel, n: nat)
    requires
        n <= usize::MAX + 1,
    ensures
        listed_indices(docs, li, n).no_duplicates(),
        forall|k: int|
            0 <= k < listed_indices(docs, li, n).len() ==> #[trigger] listed_indices(docs, li, n)[k]
                < n,
    decreases n,
{
    if n > 0 {
        lemma_listed_no_duplicates(docs, li, (n - 1) as nat);
        let prev = listed_indices(docs, li, (n - 1) as nat);
        let all = listed_indices(docs, li, n);
        assert forall|k: int| 0 <= k < all.len() implies #[trigger] all[k] < n by {
            if k < prev.len() {
                assert(all[k] == prev[k]);
            } else {
                assert(all[k] == (n - 1) as usize);
            }
        }
        assert forall|i: int, j: int|
            0 <= i < all.len() && 0 <= j < all.len() && i != j implies all[i] != all[j] by {
            if i < prev.len() && j < prev.len() {
                assert(all[i] == prev[i] && all[j] == prev[j]);
            } else if i < prev.len() {
                assert(all[i] == prev[i]);
                assert(all[j] == (n - 1) as usize);
            } else if j < prev.len() {
                assert(all[j] == prev[j]);
                assert(all[i] == (n - 1) as usize);
            }
        }
    }
}

/// What a document shows for each field of a linked index: its title as a
/// link to its route, and its summary and date where it has them.
pub open spec fn shown(d: DocumentModel) -> spec_fn(MetadataFields) -> Option<InlineModel> {
    |f: MetadataFields|
        match f {
            MetadataFields::Title => Some(
                InlineModel::Link {
                    label: seq![InlineModel::Text(d.metadata.title)],
                    href: d.route,
                },
            ),
            MetadataFields::Summary => match d.metadata.summary {
                Some(v) => Some(InlineModel::Text(v)),
                None => None,
            },
            MetadataFields::Date => match d.metadata.date {
                Some(v) => Some(InlineModel::Text(v)),
                None => None,
            },
        }
}

/// The entry of a document in a linked index is the values it has for the
/// fields, in the order of the fields, with a " - " text between each two
/// of them and nowhere else: for m values it has 2m - 1 nodes (none for no
/// value), the values at even positions and the separator at odd ones.
pub proof fn law_index_entry(d: DocumentModel, fields: Seq<MetadataFields>)
    ensures
        ({
            let vals = fields.filter_map(shown(d));
            let e = index_entry(d, fields);
            &&& e.len() == if vals.len() == 0 { 0 } else { 2 * vals.len() - 1 }
            &&& forall|k: int| 0 <= k < vals.len() ==> e[2 * k] == #[trigger] vals[k]
            &&& forall|k: int|
                0 <= k < vals.len() - 1 ==> #[trigger] e[2 * k + 1] == InlineModel::Text(" - "@)
        }),
    decreases fields.len(),
{
    if fields.len() > 0 {
        law_index_entry(d, fields.drop_last());
        let prev = fields.drop_last().filter_map(shown(d));
        let vals = fields.filter_map(shown(d));
        let acc = index_entry(d, fields.drop_last());
        let e = index_entry(d, fields);
        assert(shown(d)(fields.last()) == field_value(d, fields.last()));
        match field_value(d, fields.last()) {
            Some(v) => {
                assert(vals == prev + seq![v]);
                assert forall|k: int| 0 <= k < vals.len() implies e[2 * k] == #[trigger] vals[k] by {
                    if k < prev.len() {
                        assert(vals[k] == prev[k]);
                        assert(e[2 * k] == acc[2 * k]);
                    }
                }
                assert forall|k: int| 0 <= k < vals.len() - 1 implies #[trigger] e[2 * k + 1]
                    == InlineModel::Text(" - "@) by {
                    if k < prev.len() - 1 {
                        assert(e[2 * k + 1] == acc[2 * k + 1]);
                    }
                }
            },
            None => {
                assert(vals == prev);
            },
        }
    }
}

} // verus!
