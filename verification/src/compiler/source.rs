//! The source files of the site: which files of the content directory are
//! content files, and what is read from each.
use vstd::prelude::*;
use crate::compiler::index::{components, parts_view, path_components, path_join, path_join_chars};
use crate::config::Config;
use crate::text::{string_of, strings_view, to_chars};

verus! {

/// A content file: its path and its text.
#[derive(Debug, Clone)]
pub struct PortfolioFile {
    pub path: String,
    pub raw: String,
}

pub struct PortfolioFileModel {
    pub path: Seq<char>,
    pub raw: Seq<char>,
}

impl View for PortfolioFile {
    type V = PortfolioFileModel;

    open spec fn view(&self) -> PortfolioFileModel {
        PortfolioFileModel { path: self.path@, raw: self.raw@ }
    }
}

pub open spec fn files_view(v: Seq<PortfolioFile>) -> Seq<PortfolioFileModel> {
    Seq::new(v.len(), |i: int| v[i]@)
}

/// `Path::file_name`: the last component of the path, where it names a file
/// or directory (not the root, ".", or "..").
pub open spec fn file_name(p: Seq<char>) -> Option<Seq<char>> {
    let c = components(p);
    if c.len() > 0 && c.last() != seq!['/'] && c.last() != seq!['.'] && c.last() != seq!['.', '.'] {
        Some(c.last())
    } else {
        None
    }
}

/// The index of the last '.' in `s`.
pub open spec fn last_dot(s: Seq<char>) -> Option<int>
    decreases s.len(),
{
    if s.len() == 0 {
        None
    } else if s.last() == '.' {
        Some(s.len() - 1)
    } else {
        last_dot(s.drop_last())
    }
}

/// `Path::extension` of a file name: what follows its last '.', where that
/// '.' is not the first character.
pub open spec fn extension(name: Seq<char>) -> Option<Seq<char>> {
    match last_dot(name) {
        Some(i) => if i > 0 {
            Some(name.skip(i + 1))
        } else {
            None
        },
        None => None,
    }
}

/// A content file is one whose extension is "qf".
pub open spec fn is_portfolio_path(p: Seq<char>) -> bool {
    match file_name(p) {
        Some(n) => extension(n) == Some(seq!['q', 'f']),
        None => false,
    }
}

proof fn lemma_last_dot(s: Seq<char>)
    ensures
        match last_dot(s) {
            Some(i) => 0 <= i < s.len() && s[i] == '.' && forall|j: int| i < j < s.len() ==> #[trigger] s[j] != '.',
            None => forall|j: int| 0 <= j < s.len() ==> #[trigger] s[j] != '.',
        },
    decreases s.len(),
{
    if s.len() > 0 && s.last() != '.' {
        lemma_last_dot(s.drop_last());
        assert forall|j: int| 0 <= j < s.len() - 1 implies s.drop_last()[j] == #[trigger] s[j] by {}
    }
}

/// Whether `name` has the extension "qf".
fn has_qf_extension(name: &Vec<char>) -> (r: bool)
    ensures
        r == (extension(name@) == Some(seq!['q', 'f'])),
{
    let mut i = name.len();
    while i > 0 && name[i - 1] != '.'
        invariant
            i <= name.len(),
            forall|j: int| i <= j < name.len() ==> #[trigger] name@[j] != '.',
        decreases i,
    {
        i = i - 1;
    }
    proof {
        lemma_last_dot(name@);
        if i > 0 {
            match last_dot(name@) {
                Some(k) => {
                    if k > i - 1 {
                        assert(name@[k] != '.');
                    } else if k < i - 1 {
                        assert(name@[i - 1] == '.');
                    }
                },
                None => {
                    assert(name@[i - 1] == '.');
                },
            }
        } else {
            if let Some(k) = last_dot(name@) {
                assert(name@[k] != '.');
            }
        }
    }
    if i <= 1 {
        return false;
    }
    let r = name.len() - i == 2 && name[i] == 'q' && name[i + 1] == 'f';
    proof {
        let ext = name@.skip(i as int);
        if r {
            assert(ext =~= seq!['q', 'f']);
        } else if ext.len() == 2 {
            assert(ext[0] == name@[i as int] && ext[1] == name@[i + 1]);
            assert(ext != seq!['q', 'f']) by {
                if ext == seq!['q', 'f'] {
                    assert(ext[0] == 'q');
                }
            }
        } else {
            assert(ext.len() != seq!['q', 'f'].len());
        }
    }
    r
}

/// Whether the file at `path` is a content file.
pub fn is_portfolio_file(path: &str) -> (r: bool)
    ensures
        r == is_portfolio_path(path@),
{
    let comps = path_components(&to_chars(path));
    if comps.len() == 0 {
        return false;
    }
    let last = &comps[comps.len() - 1];
    assert(parts_view(comps@).last() == last@);
    let special = (last.len() == 1 && (last[0] == '/' || last[0] == '.')) || (last.len() == 2
        && last[0] == '.' && last[1] == '.');
    proof {
        if !special {
            assert(last@ != seq!['/'] && last@ != seq!['.'] && last@ != seq!['.', '.']) by {
                if last@ == seq!['/'] || last@ == seq!['.'] {
                    assert(last@.len() == 1);
                }
                if last@ == seq!['.', '.'] {
                    assert(last@.len() == 2 && last@[0] == '.' && last@[1] == '.');
                }
            }
        } else {
            if last.len() == 1 {
                assert(last@ =~= seq![last@[0]]);
            } else {
                assert(last@ =~= seq!['.', '.']);
            }
        }
    }
    if special {
        return false;
    }
    has_qf_extension(last)
}

/// `get_portfolio_files`: of the files found under the content directory,
/// in the order found, the content files.
pub fn get_portfolio_files(found: &Vec<String>) -> (r: Vec<String>)
    ensures
        strings_view(r@) == strings_view(found@).filter(|p: Seq<char>| is_portfolio_path(p)),
{
    let ghost all = strings_view(found@);
    let ghost keep = |p: Seq<char>| is_portfolio_path(p);
    let mut r: Vec<String> = Vec::new();
    let mut i: usize = 0;
    assert(all.take(0) =~= Seq::<Seq<char>>::empty());
    while i < found.len()
        invariant
            i <= found.len(),
            all == strings_view(found@),
            keep == |p: Seq<char>| is_portfolio_path(p),
            strings_view(r@) == all.take(i as int).filter(keep),
        decreases found.len() - i,
    {
        let ghost before = r@;
        proof {
            reveal(Seq::filter);
        }
        assert(all.take(i + 1).drop_last() =~= all.take(i as int));
        assert(all.take(i + 1).last() == found@[i as int]@);
        let keep_it = is_portfolio_file(found[i].as_str());
        if keep_it {
            r.push(string_of(&to_chars(found[i].as_str())));
            assert(strings_view(r@) =~= strings_view(before).push(found@[i as int]@));
        } else {
            assert(strings_view(r@) =~= strings_view(before));
        }
        i = i + 1;
    }
    assert(all.take(found.len() as int) =~= all);
    r
}

/// The content directory: `content_dir` joined to `root`.
pub fn content_directory(root: &str, config: &Config) -> (r: String)
    ensures
        r@ == path_join(root@, config.content_dir@),
{
    string_of(&path_join_chars(&to_chars(root), &to_chars(config.content_dir.as_str())))
}

} // verus!
