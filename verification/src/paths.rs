//! Paths as text. A separator is a forward slash or a backslash; a path is
//! joined to a base with a forward slash and taken off it again by
//! [`relative_to`].

use crate::text::str_eq;
use vstd::prelude::*;
use vstd::string::*;

verus! {

/// Whether `c` separates the parts of a path.
pub open spec fn is_separator(c: char) -> bool {
    c == '/' || c == '\\'
}

/// `rel` below `base`: the two are put together with one forward slash
/// between them, unless `base` already ends in a separator. An empty side
/// leaves the other unchanged.
pub open spec fn joined(base: Seq<char>, rel: Seq<char>) -> Seq<char> {
    if base.len() == 0 {
        rel
    } else if rel.len() == 0 {
        base
    } else if is_separator(base.last()) {
        base + rel
    } else {
        base + seq!['/'] + rel
    }
}

/// `path` as seen from `root`, where `root` is `path` itself or one of the
/// directories above it: what follows `root` and the separator after it.
/// `None` where `path` does not lie at or below `root`.
pub open spec fn relative(path: Seq<char>, root: Seq<char>) -> Option<Seq<char>> {
    if !root.is_prefix_of(path) {
        None
    } else if root.len() == 0 {
        Some(path)
    } else if path.len() == root.len() {
        Some(Seq::empty())
    } else if is_separator(root.last()) {
        Some(path.skip(root.len() as int))
    } else if is_separator(path[root.len() as int]) {
        Some(path.skip(root.len() as int + 1))
    } else {
        None
    }
}

/// `rel` below `base`.
pub fn join_path(base: &str, rel: &str) -> (r: String)
    ensures
        r@ == joined(base@, rel@),
{
    let n: usize = base.unicode_len();
    if n == 0 {
        return rel.to_owned();
    }
    if rel.unicode_len() == 0 {
        return base.to_owned();
    }
    let last: char = base.get_char(n - 1);
    let mut out = base.to_owned();
    if !(last == '/' || last == '\\') {
        proof {
            reveal_strlit("/");
        }
        out.append("/");
        assert(out@ =~= base@ + seq!['/']);
    }
    out.append(rel);
    out
}

/// `path` as seen from `root`; `None` where `path` does not lie at or below
/// `root`.
pub fn relative_to(path: &str, root: &str) -> (r: Option<String>)
    ensures
        match r {
            Some(rest) => relative(path@, root@) == Some(rest@),
            None => relative(path@, root@) is None,
        },
{
    let n: usize = root.unicode_len();
    let m: usize = path.unicode_len();
    if m < n {
        return None;
    }
    let head = path.substring_char(0, n);
    if !str_eq(head, root) {
        assert(root@.is_prefix_of(path@) ==> path@.subrange(0, n as int) =~= root@);
        return None;
    }
    assert(root@.is_prefix_of(path@));
    if n == 0 {
        return Some(path.to_owned());
    }
    if m == n {
        return Some(String::new());
    }
    let last: char = root.get_char(n - 1);
    if last == '/' || last == '\\' {
        let rest = path.substring_char(n, m);
        assert(rest@ =~= path@.skip(n as int));
        return Some(rest.to_owned());
    }
    let next: char = path.get_char(n);
    if next == '/' || next == '\\' {
        let rest = path.substring_char(n + 1, m);
        assert(rest@ =~= path@.skip(n + 1));
        return Some(rest.to_owned());
    }
    None
}

/// A path joined below a root is seen from that root as it was, where it is
/// a relative path: not empty and not starting with a separator.
pub proof fn law_relative_of_joined(root: Seq<char>, rel: Seq<char>)
    requires
        rel.len() > 0,
        !is_separator(rel[0]),
    ensures
        relative(joined(root, rel), root) == Some(rel),
{
    let p = joined(root, rel);
    if root.len() == 0 {
    } else if is_separator(root.last()) {
        assert(p.subrange(0, root.len() as int) =~= root);
        assert(p.skip(root.len() as int) =~= rel);
    } else {
        assert(p.subrange(0, root.len() as int) =~= root);
        assert(p[root.len() as int] == '/');
        assert(p.skip(root.len() as int + 1) =~= rel);
    }
}

} // verus!
