//! Paths as text.

use vstd::prelude::*;

verus! {

/// A path below a directory. An absolute path stays as it is.
pub open spec fn joined(dir: Seq<char>, leaf: Seq<char>) -> Seq<char> {
    if dir.len() == 0 || (leaf.len() > 0 && leaf[0] == '/') {
        leaf
    } else if dir.last() == '/' {
        dir + leaf
    } else {
        dir + "/"@ + leaf
    }
}

/// A path below a directory. An absolute path stays as it is.
pub fn join(dir: &str, leaf: &str) -> (r: String)
    ensures
        r@ == joined(dir@, leaf@),
{
    let n: usize = dir.unicode_len();
    if n == 0 || (leaf.unicode_len() > 0 && leaf.get_char(0) == '/') {
        return leaf.to_owned();
    }
    let mut out: String = dir.to_owned();
    if dir.get_char(n - 1) != '/' {
        out.append("/");
    }
    out.append(leaf);
    out
}

// ---------------------------------------------------------------------------
// Laws
// ---------------------------------------------------------------------------

/// A path below a directory is the directory's, one slash, and its own, whether
/// or not the directory is written with a slash at its end; an absolute path, and
/// one below no directory, is its own alone.
pub proof fn law_joined_with_one_slash(dir: Seq<char>, leaf: Seq<char>)
    ensures
        leaf.len() > 0 && leaf[0] == '/' ==> joined(dir, leaf) == leaf,
        joined(Seq::empty(), leaf) == leaf,
        dir.len() > 0 && !(leaf.len() > 0 && leaf[0] == '/') ==> {
            let bare = if dir.last() == '/' {
                dir.take(dir.len() - 1)
            } else {
                dir
            };
            joined(dir, leaf) == bare + seq!['/'] + leaf
        },
{
    reveal_strlit("/");
    if dir.len() > 0 && !(leaf.len() > 0 && leaf[0] == '/') {
        let bare = if dir.last() == '/' {
            dir.take(dir.len() - 1)
        } else {
            dir
        };
        assert(joined(dir, leaf) =~= bare + seq!['/'] + leaf);
    }
}

} // verus!
