//! Decisions the command-line program makes about its arguments.

use vstd::prelude::*;
use crate::text::str_chars;

verus! {

/// The file extension of style sheets.
pub open spec fn css_extension() -> Seq<char> {
    seq!['.', 'c', 's', 's']
}

/// `path` ends with `.css`.
pub open spec fn is_css_path(path: Seq<char>) -> bool {
    path.len() >= 4 && path.subrange(path.len() - 4, path.len() as int) == css_extension()
}

/// Whether `path` names a CSS file, by its extension: it ends with `.css`.
pub fn is_css_file(path: &str) -> (r: bool)
    ensures
        r == is_css_path(path@),
{
    let cs = str_chars(path);
    let n = cs.len();
    if n < 4 {
        return false;
    }
    let r = cs[n - 4] == '.' && cs[n - 3] == 'c' && cs[n - 2] == 's' && cs[n - 1] == 's';
    proof {
        let tail = path@.subrange(n - 4, n as int);
        if r {
            assert(tail =~= css_extension());
        } else {
            if tail == css_extension() {
                assert(tail[0] == cs@[n - 4]);
                assert(tail[1] == cs@[n - 3]);
                assert(tail[2] == cs@[n - 2]);
                assert(tail[3] == cs@[n - 1]);
            }
        }
    }
    r
}


/// A path counts as a CSS file exactly when its last four characters are
/// `'.'`, `'c'`, `'s'`, `'s'`.
pub proof fn lemma_css_path_chars(path: Seq<char>)
    ensures
        is_css_path(path) <==> (path.len() >= 4 && path[path.len() - 4] == '.' && path[path.len() - 3]
            == 'c' && path[path.len() - 2] == 's' && path[path.len() - 1] == 's'),
{
    if path.len() >= 4 {
        let tail = path.subrange(path.len() - 4, path.len() as int);
        if is_css_path(path) {
            assert(tail[0] == css_extension()[0]);
            assert(tail[1] == css_extension()[1]);
            assert(tail[2] == css_extension()[2]);
            assert(tail[3] == css_extension()[3]);
        } else if path[path.len() - 4] == '.' && path[path.len() - 3] == 'c' && path[path.len() - 2] == 's'
            && path[path.len() - 1] == 's' {
            assert(tail =~= css_extension());
        }
    }
}

/// Appending `.css` to any text gives a CSS file name.
pub proof fn lemma_css_suffix(stem: Seq<char>)
    ensures
        is_css_path(stem + seq!['.', 'c', 's', 's']),
{
    let path = stem + seq!['.', 'c', 's', 's'];
    assert(path.subrange(path.len() - 4, path.len() as int) =~= css_extension());
}

} // verus!
