//! Paths of Unix, as text.

use crate::utils::split::{split_by, split_text};
use crate::utils::text::{chars_of, text_of, texts};
use vstd::prelude::*;

verus! {

/// Whether a piece between slashes stands for nothing: `a//b` and `a/./b` are `a/b`.
pub open spec fn skipped(part: Seq<char>) -> bool {
    part.len() == 0 || part == "."@
}

/// The last piece that stands for something.
pub open spec fn last_part(parts: Seq<Seq<char>>) -> Option<Seq<char>>
    decreases parts.len(),
{
    if parts.len() == 0 {
        None
    } else if skipped(parts.last()) {
        last_part(parts.drop_last())
    } else {
        Some(parts.last())
    }
}

/// The final piece of a path, unless it is `..` or there is none.
pub open spec fn base_name(path: Seq<char>) -> Option<Seq<char>> {
    match last_part(split_text(path, "/"@)) {
        Some(p) => if p == ".."@ {
            None
        } else {
            Some(p)
        },
        None => None,
    }
}

pub fn file_name(path: &str) -> (r: Option<String>)
    ensures
        match (r, base_name(path@)) {
            (Some(t), Some(u)) => t@ == u,
            (None, None) => true,
            _ => false,
        },
{
    proof {
        reveal_strlit("/");
    }
    let parts = split_by(path, "/");
    let mut n: usize = parts.len();
    assert(texts(parts@).take(n as int) =~= texts(parts@));
    while n > 0
        invariant
            n <= parts@.len(),
            texts(parts@) == split_text(path@, "/"@),
            last_part(texts(parts@)) == last_part(texts(parts@).take(n as int)),
        decreases n,
    {
        let part = parts[n - 1].as_str();
        assert(texts(parts@).take(n as int).last() == part@);
        assert(texts(parts@).take(n as int).drop_last() =~= texts(parts@).take(n - 1));
        if !(part.is_empty() || part.eq(".")) {
            if part.eq("..") {
                return None;
            }
            return Some(part.to_owned());
        }
        n -= 1;
    }
    None
}

/// How much of a path stands before its pieces: the root, or a leading `.`.
pub open spec fn anchor(path: Seq<char>) -> int {
    if path.len() > 0 && (path[0] == '/' || path == "."@ || (path[0] == '.' && path.len() > 1
        && path[1] == '/')) {
        1
    } else {
        0
    }
}

/// Where the last slash behind the anchor stands, seen from `i`; the anchor where there is none.
pub open spec fn cut_at(path: Seq<char>, i: int) -> int
    decreases i,
{
    if i <= anchor(path) {
        anchor(path)
    } else if path[i - 1] == '/' {
        i - 1
    } else {
        cut_at(path, i - 1)
    }
}

/// The path without its last piece and the slash before it.
pub open spec fn without_last(path: Seq<char>) -> Seq<char> {
    path.take(cut_at(path, path.len() as int))
}

/// The last piece behind the anchor.
pub open spec fn last_piece(path: Seq<char>) -> Seq<char> {
    let k = cut_at(path, path.len() as int);
    if k < path.len() && path[k] == '/' {
        path.skip(k + 1)
    } else {
        path.skip(k)
    }
}

/// The path without trailing pieces that stand for nothing.
pub open spec fn tidy(path: Seq<char>) -> Seq<char>
    decreases path.len(),
{
    if path.len() > anchor(path) && skipped(last_piece(path)) && without_last(path).len()
        < path.len() {
        tidy(without_last(path))
    } else {
        path
    }
}

/// The directory that a path stands in. The root and the empty path stand in none.
pub open spec fn parent(path: Seq<char>) -> Option<Seq<char>> {
    let t = tidy(path);
    if t.len() > anchor(t) {
        Some(tidy(without_last(t)))
    } else if t == "."@ {
        Some(Seq::empty())
    } else {
        None
    }
}

fn anchor_of(v: &Vec<char>) -> (r: usize)
    ensures
        r == anchor(v@),
        r <= v@.len(),
{
    proof {
        reveal_strlit(".");
    }
    let n = v.len();
    if n == 0 {
        return 0;
    }
    if v[0] == '/' {
        return 1;
    }
    if v[0] == '.' && n == 1 {
        assert(v@ =~= "."@);
        return 1;
    }
    if v[0] == '.' && v[1] == '/' {
        return 1;
    }
    0
}

fn cut_of(v: &Vec<char>) -> (r: usize)
    ensures
        r == cut_at(v@, v@.len() as int),
        r <= v@.len(),
{
    let k = anchor_of(v);
    let mut i: usize = v.len();
    while i > k
        invariant
            k <= i <= v@.len(),
            k == anchor(v@),
            cut_at(v@, v@.len() as int) == cut_at(v@, i as int),
        decreases i,
    {
        if v[i - 1] == '/' {
            return i - 1;
        }
        i -= 1;
    }
    k
}

fn tidied(path: &str) -> (r: String)
    ensures
        r@ == tidy(path@),
    decreases path@.len(),
{
    let v = chars_of(path);
    if v.len() > anchor_of(&v) {
        let k = cut_of(&v);
        let piece = if k < v.len() && v[k] == '/' {
            text_of(&v, k + 1, v.len())
        } else {
            text_of(&v, k, v.len())
        };
        assert(piece@ =~= last_piece(path@));
        if (piece.as_str().is_empty() || piece.as_str().eq(".")) && k < v.len() {
            let rest = text_of(&v, 0, k);
            assert(rest@ =~= without_last(path@));
            return tidied(rest.as_str());
        }
    }
    path.to_owned()
}

pub fn parent_dir(path: &str) -> (r: Option<String>)
    ensures
        match (r, parent(path@)) {
            (Some(t), Some(u)) => t@ == u,
            (None, None) => true,
            _ => false,
        },
{
    let t = tidied(path);
    let v = chars_of(t.as_str());
    if v.len() > anchor_of(&v) {
        let k = cut_of(&v);
        let rest = text_of(&v, 0, k);
        assert(rest@ =~= without_last(t@));
        Some(tidied(rest.as_str()))
    } else if t.as_str().eq(".") {
        let s = String::new();
        assert(s@ =~= Seq::empty());
        Some(s)
    } else {
        None
    }
}

} // verus!
