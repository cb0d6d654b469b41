//! Paths of the file system, held as text, and the parent directory that
//! the browser moves to.

use vstd::prelude::*;
use crate::text::{chars_of, push_char};

verus! {

broadcast use vstd::string::group_string_axioms;

/// `c` separates path components, or marks a drive prefix, on some
/// platform.
pub open spec fn is_path_mark(c: char) -> bool {
    c == '/' || c == '\\' || c == ':'
}

/// `s` is one plain path component on every platform: not empty, and
/// without separators or prefix marks.
pub open spec fn plain_component(s: Seq<char>) -> bool {
    &&& s.len() > 0
    &&& forall|i: int| 0 <= i < s.len() ==> !is_path_mark(#[trigger] s[i])
}

/// `s` holds no backslash and no colon, and does not begin with `//`: no
/// platform reads a drive, a share or another separator in it.
pub open spec fn unix_like(s: Seq<char>) -> bool {
    &&& forall|i: int| 0 <= i < s.len() ==> #[trigger] s[i] != '\\' && s[i] != ':'
    &&& !(s.len() >= 2 && s[0] == '/' && s[1] == '/')
}

/// What holds of the parent `parent` of the path `path` on every platform:
/// - the empty path and the root `/` have none;
/// - a parent is `path` without its last component, so a shorter prefix;
/// - a path of one plain component (`.` and `..` included) has the empty
///   parent;
/// - `/name`, with `name` plain and not `.`, has the parent `/`;
/// - `x/name`, with `name` plain and not `.`, and `x` not empty, not ending
///   in `/` or `/.`, and without backslash, colon or leading `//`, has the
///   parent `x` (`/home/u/x` gives `/home/u`, `./a/b` gives `./a`).
pub open spec fn parent_known(path: Seq<char>, parent: Option<Seq<char>>) -> bool {
    &&& path.len() == 0 ==> parent is None
    &&& path == seq!['/'] ==> parent is None
    &&& parent matches Some(p) ==> p.len() < path.len() && p == path.take(p.len() as int)
    &&& plain_component(path) ==> parent == Some(Seq::<char>::empty())
    &&& path.len() >= 2 && path[0] == '/' && plain_component(path.skip(1)) && path.skip(1) != seq!['.']
        ==> parent == Some(seq!['/'])
    &&& forall|k: int|
        0 < k < path.len() && #[trigger] path[k] == '/' && path[k - 1] != '/' && !(k >= 2 && path[k
            - 1] == '.' && path[k - 2] == '/') && unix_like(path.take(k)) && plain_component(
            path.skip(k + 1),
        ) && path.skip(k + 1) != seq!['.'] ==> parent == Some(path.take(k))
}

/// Calls `std::path::Path::parent` on `path` and hands the parent back as
/// text. Claimed, as std documents it (`/foo/bar` gives `/foo`, `/foo`
/// gives `/`, `/` gives none, `foo` gives the empty path), what
/// `parent_known` lists: the parent is the path without its final
/// component. Not claimed for paths with backslashes, colons, a leading
/// `//`, repeated or trailing separators, or a last component `.`: there
/// the platform's path rules decide where a component ends and what is a
/// root or a prefix.
#[verifier::external_body]
pub(crate) fn parent_dir(path: &String) -> (r: Option<String>)
    ensures
        parent_known(path@, match r {
            Some(p) => Some(p@),
            None => None,
        }),
{
    match std::path::Path::new(path).parent() {
        Some(p) => Some(p.to_string_lossy().into_owned()),
        None => None,
    }
}

/// `p` without the `/` characters at its end.
pub open spec fn without_trailing_slashes(p: Seq<char>) -> Seq<char>
    decreases p.len(),
{
    if p.len() > 0 && p.last() == '/' {
        without_trailing_slashes(p.drop_last())
    } else {
        p
    }
}

/// The last component of `path` is `..`.
pub open spec fn ends_in_dotdot(path: Seq<char>) -> bool {
    let t = without_trailing_slashes(path);
    ||| t == seq!['.', '.']
    ||| t.len() >= 3 && t.subrange(t.len() - 3, t.len() as int) == seq!['/', '.', '.']
}

/// The directory above `path`, written as `path` followed by `..`.
pub open spec fn up_of(path: Seq<char>) -> Seq<char> {
    if path == seq!['.'] {
        seq!['.', '.']
    } else if path.len() > 0 && path.last() == '/' {
        path + seq!['.', '.']
    } else {
        path + seq!['/', '.', '.']
    }
}

/// Where the browser goes up to from `path`, given `parent`, the parent
/// that `Path::parent` gives: where dropping the last component would not
/// lead up (the last component is `..`, or the parent is empty, as for `.`
/// or a single name), the path followed by `..`; otherwise the parent; with
/// no parent (the empty path, a root), nowhere.
pub open spec fn parent_target(path: Seq<char>, parent: Option<Seq<char>>) -> Option<Seq<char>> {
    if ends_in_dotdot(path) {
        Some(up_of(path))
    } else {
        match parent {
            Some(p) => if p.len() == 0 {
                Some(up_of(path))
            } else {
                Some(p)
            },
            None => None,
        }
    }
}

/// A target is never the empty path.
pub proof fn lemma_parent_target_not_empty(path: Seq<char>, parent: Option<Seq<char>>)
    ensures
        parent_target(path, parent) matches Some(t) ==> t.len() > 0,
{
}

/// Going up from `path` either drops its last component (the target is a
/// shorter prefix of `path`) or adds a `..` component (the target is `path`,
/// or `.` turned into `..`, followed by `..`); from the empty path there is
/// nowhere to go.
pub proof fn lemma_parent_target_shape(path: Seq<char>, parent: Option<Seq<char>>)
    requires
        parent_known(path, parent),
    ensures
        path.len() == 0 ==> parent_target(path, parent) is None,
        parent_target(path, parent) matches Some(t) ==> ({
            ||| t.len() < path.len() && t == path.take(t.len() as int)
            ||| t.len() >= 2 && t.skip(t.len() - 2) == seq!['.', '.'] && (path == seq!['.'] || t.take(
                path.len() as int,
            ) == path)
        }),
{
    if path.len() == 0 {
        assert(without_trailing_slashes(path) == path);
    }
    match parent_target(path, parent) {
        Some(t) => {
            if t == up_of(path) {
                if path == seq!['.'] {
                    assert(t.skip(0) =~= seq!['.', '.']);
                } else if path.len() > 0 && path.last() == '/' {
                    assert(t.skip(t.len() - 2) =~= seq!['.', '.']);
                    assert(t.take(path.len() as int) =~= path);
                } else {
                    assert(t.skip(t.len() - 2) =~= seq!['.', '.']);
                    assert(t.take(path.len() as int) =~= path);
                }
            }
        },
        None => {},
    }
}

/// Whether the last component of `path` is `..`.
pub fn ends_with_dotdot(path: &String) -> (b: bool)
    ensures
        b == ends_in_dotdot(path@),
{
    let v = chars_of(path.as_str());
    let mut n: usize = v.len();
    assert(v@.take(n as int) =~= path@);
    while n > 0 && v[n - 1] == '/'
        invariant
            n <= v@.len(),
            without_trailing_slashes(v@.take(n as int)) == without_trailing_slashes(path@),
            v@ == path@,
        decreases n,
    {
        assert(v@.take(n as int).drop_last() =~= v@.take(n - 1));
        n = n - 1;
    }
    let ghost t = v@.take(n as int);
    assert(without_trailing_slashes(t) == t);
    if n == 2 && v[0] == '.' && v[1] == '.' {
        assert(t =~= seq!['.', '.']);
        return true;
    }
    if n >= 3 && v[n - 3] == '/' && v[n - 2] == '.' && v[n - 1] == '.' {
        assert(t.subrange(t.len() - 3, t.len() as int) =~= seq!['/', '.', '.']);
        return true;
    }
    proof {
        if t == seq!['.', '.'] {
            assert(t[0] == '.' && t[1] == '.');
        }
        if t.len() >= 3 && t.subrange(t.len() - 3, t.len() as int) == seq!['/', '.', '.'] {
            assert(t.subrange(t.len() - 3, t.len() as int)[0] == t[t.len() - 3]);
            assert(t.subrange(t.len() - 3, t.len() as int)[1] == t[t.len() - 2]);
            assert(t.subrange(t.len() - 3, t.len() as int)[2] == t[t.len() - 1]);
        }
    }
    false
}

/// `path` followed by `..`, as `up_of` writes it.
fn up_from(path: &String) -> (r: String)
    ensures
        r@ == up_of(path@),
{
    let v = chars_of(path.as_str());
    if v.len() == 1 && v[0] == '.' {
        assert(path@ =~= seq!['.']);
        let mut r = String::new();
        push_char(&mut r, '.');
        push_char(&mut r, '.');
        assert(r@ =~= seq!['.', '.']);
        return r;
    }
    assert(path@ != seq!['.'] ) by {
        if path@ == seq!['.'] {
            assert(v@.len() == 1 && v@[0] == '.');
        }
    }
    let mut r = path.clone();
    if !(v.len() > 0 && v[v.len() - 1] == '/') {
        push_char(&mut r, '/');
    }
    push_char(&mut r, '.');
    push_char(&mut r, '.');
    if v.len() > 0 && v[v.len() - 1] == '/' {
        assert(r@ =~= path@ + seq!['.', '.']);
    } else {
        assert(r@ =~= path@ + seq!['/', '.', '.']);
    }
    r
}

/// Where the browser goes up to from `path`, given the parent that
/// `Path::parent` gave for it, as `parent_target` says.
pub fn parent_target_of(path: &String, parent: Option<String>) -> (r: Option<String>)
    ensures
        (match r {
            Some(t) => Some(t@),
            None => None,
        }) == parent_target(path@, match parent {
            Some(p) => Some(p@),
            None => None,
        }),
{
    if ends_with_dotdot(path) {
        return Some(up_from(path));
    }
    match parent {
        Some(p) => if chars_of(p.as_str()).len() == 0 {
            Some(up_from(path))
        } else {
            Some(p)
        },
        None => None,
    }
}

} // verus!
