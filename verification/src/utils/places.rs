//! Where files stand: the name and the directory of a path.

use crate::utils::path::{
    anchor, base_name, cut_at, last_piece, parent, skipped, tidy, without_last,
};
use crate::utils::split::{find_text, split_text};
use crate::utils::text::{find, lemma_find, lemma_find_is};
use vstd::prelude::*;

verus! {

/// A piece of a path that stands for a file or a directory of that name.
pub open spec fn plain_piece(s: Seq<char>) -> bool {
    s.len() > 0 && !s.contains('/') && s != "."@ && s != ".."@
}

proof fn lemma_find_slash(s: Seq<char>)
    ensures
        find_text(s, "/"@) == if s.contains('/') {
            Some(find(s, '/'))
        } else {
            None
        },
    decreases s.len(),
{
    reveal_strlit("/");
    lemma_find(s, '/');
    if s.len() > 0 {
        if s[0] == '/' {
            assert(s.subrange(0, 1) =~= "/"@);
            assert(s.contains(s[0]));
        } else {
            assert(!"/"@.is_prefix_of(s)) by {
                if "/"@.is_prefix_of(s) {
                    assert(s.subrange(0, 1)[0] == "/"@[0]);
                }
            }
            lemma_find_slash(s.skip(1));
            if s.contains('/') {
                let k = choose|k: int| 0 <= k < s.len() && s[k] == '/';
                assert(s.skip(1)[k - 1] == '/');
            }
            if s.skip(1).contains('/') {
                let k = choose|k: int| 0 <= k < s.skip(1).len() && s.skip(1)[k] == '/';
                assert(s[k + 1] == '/');
            }
        }
    } else {
        assert(!"/"@.is_prefix_of(s));
    }
}

proof fn lemma_last_piece_splits(x: Seq<char>, n: Seq<char>)
    requires
        !n.contains('/'),
    ensures
        split_text(x + "/"@ + n, "/"@) == split_text(x, "/"@).push(n),
        split_text(n, "/"@) == seq![n],
    decreases x.len(),
{
    reveal_strlit("/");
    let s = x + "/"@ + n;
    lemma_find_slash(s);
    lemma_find_slash(x);
    lemma_find_slash(n);
    lemma_find(s, '/');
    lemma_find(x, '/');
    assert(s[x.len() as int] == '/');
    assert(s.contains('/'));
    if x.contains('/') {
        let k = find(x, '/');
        assert forall|j: int| 0 <= j < k implies s[j] != '/' by {
            assert(s[j] == x[j]);
        }
        assert(s[k] == x[k]);
        lemma_find_is(s, '/', k);
        let y = x.skip(k + 1);
        assert(s.skip(k + 1) =~= y + "/"@ + n);
        assert(s.take(k) =~= x.take(k));
        lemma_last_piece_splits(y, n);
        assert(split_text(s, "/"@) =~= seq![x.take(k)] + split_text(y, "/"@).push(n));
        assert(split_text(s, "/"@) =~= split_text(x, "/"@).push(n));
    } else {
        assert forall|j: int| 0 <= j < x.len() implies s[j] != '/' by {
            assert(s[j] == x[j]);
            assert(x.contains(x[j]));
        }
        lemma_find_is(s, '/', x.len() as int);
        assert(s.take(x.len() as int) =~= x);
        assert(s.skip(x.len() as int + 1) =~= n);
        assert(split_text(n, "/"@) == seq![n]);
        assert(split_text(s, "/"@) == seq![x] + split_text(n, "/"@));
        assert(split_text(s, "/"@) =~= split_text(x, "/"@).push(n));
    }
}

/// The name of a file is what stands behind the last slash of its path, whatever stands before.
pub proof fn files_go_by_their_last_piece(dir: Seq<char>, name: Seq<char>)
    requires
        plain_piece(name),
    ensures
        base_name(name) == Some(name),
        base_name(dir + "/"@ + name) == Some(name),
{
    lemma_last_piece_splits(dir, name);
    let p = split_text(dir + "/"@ + name, "/"@);
    assert(p.last() == name);
    assert(seq![name].last() == name);
}

proof fn lemma_cut_none(path: Seq<char>, i: int)
    requires
        anchor(path) <= i <= path.len(),
        forall|j: int| anchor(path) <= j < i ==> path[j] != '/',
    ensures
        cut_at(path, i) == anchor(path),
    decreases i,
{
    if i > anchor(path) {
        lemma_cut_none(path, i - 1);
    }
}

/// An absolute path that ends in a plain piece.
pub open spec fn plain_path(path: Seq<char>, dir: Seq<char>, name: Seq<char>) -> bool {
    path == dir + "/"@ + name && plain_piece(name) && (dir.len() == 0 || dir[0] == '/')
}

proof fn lemma_plain_path(path: Seq<char>, dir: Seq<char>, name: Seq<char>)
    requires
        plain_path(path, dir, name),
    ensures
        anchor(path) == 1,
        tidy(path) == path,
        path.len() > 1,
        without_last(path) == if dir.len() == 0 {
            "/"@
        } else {
            dir
        },
{
    reveal_strlit("/");
    reveal_strlit(".");
    assert(path[0] == '/');
    let k = dir.len() as int;
    assert forall|j: int| k < j < path.len() implies path[j] != '/' by {
        assert(path[j] == name[j - k - 1]);
        assert(name.contains(name[j - k - 1]));
    }
    assert(path[k] == '/');
    if k == 0 {
        lemma_cut_none(path, path.len() as int);
        assert(without_last(path) =~= "/"@);
        assert(path[1] == name[0]);
        assert(name.contains(name[0]));
        assert(last_piece(path) =~= name);
    } else {
        lemma_cut_from(path, path.len() as int, k);
        assert(without_last(path) =~= dir);
        assert(last_piece(path) =~= name);
    }
    assert(!skipped(name));
}

proof fn lemma_cut_from(path: Seq<char>, i: int, k: int)
    requires
        anchor(path) == 1,
        1 <= k < i <= path.len(),
        path[k] == '/',
        forall|j: int| k < j < i ==> path[j] != '/',
    ensures
        cut_at(path, i) == k,
    decreases i,
{
    if i > k + 1 {
        assert(path[i - 1] != '/');
        lemma_cut_from(path, i - 1, k);
    }
}

/// A file at the root stands in the root; any other stands in what its path is without the last
/// slash and its name.
pub proof fn files_stand_in_their_directories(
    path: Seq<char>,
    dir: Seq<char>,
    name: Seq<char>,
    outer: Seq<char>,
    inner: Seq<char>,
)
    requires
        plain_path(path, dir, name),
        dir.len() == 0 || plain_path(dir, outer, inner),
    ensures
        parent(path) == Some(
            if dir.len() == 0 {
                "/"@
            } else {
                dir
            },
        ),
{
    reveal_strlit("/");
    reveal_strlit(".");
    lemma_plain_path(path, dir, name);
    if dir.len() == 0 {
        assert("/"@[0] == '/');
        assert(tidy("/"@) == "/"@);
    } else {
        lemma_plain_path(dir, outer, inner);
    }
}

/// A slash at the end of a path changes nothing, nor does a `.` behind it; what ends in `..` has no
/// name.
pub proof fn trailing_slashes_do_not_count(path: Seq<char>)
    ensures
        base_name(path + "/"@) == base_name(path),
        base_name(path + "/"@ + "."@) == base_name(path),
        base_name(path + "/"@ + ".."@) is None,
        path.len() > 0 ==> parent(path + "/"@) == parent(path),
        path.len() > 0 ==> parent(path + "/"@ + "."@) == parent(path),
{
    reveal_strlit("/");
    reveal_strlit(".");
    reveal_strlit("..");
    let none = Seq::<char>::empty();
    let parts = split_text(path, "/"@);
    assert(path + "/"@ + none =~= path + "/"@);
    lemma_last_piece_splits(path, none);
    lemma_last_piece_splits(path, "."@);
    lemma_last_piece_splits(path, ".."@);
    assert(parts.push(none).drop_last() =~= parts);
    assert(parts.push("."@).drop_last() =~= parts);
    assert(".."@ != "."@) by {
        assert(".."@.len() != "."@.len());
    }
    if path.len() > 0 {
        let n = path.len() as int;
        let a = path + "/"@;
        assert(a[n] == '/');
        assert(cut_at(a, n + 1) == n);
        assert(a.take(n) =~= path);
        assert(a.skip(n + 1) =~= none);
        let b = path + "/"@ + "."@;
        assert(b[n] == '/' && b[n + 1] == '.');
        assert(cut_at(b, n + 2) == cut_at(b, n + 1));
        assert(cut_at(b, n + 1) == n);
        assert(b.take(n) =~= path);
        assert(b.skip(n + 1) =~= "."@);
    }
}

/// A bare name stands in the directory that it is looked up from, and a name behind `./` in `.`;
/// the root and the empty path stand in none.
pub proof fn bare_names_stand_where_they_are_looked_up(name: Seq<char>)
    requires
        plain_piece(name),
    ensures
        parent(name) == Some(Seq::<char>::empty()),
        parent("./"@ + name) == Some("."@),
        parent("/"@ + name) == Some("/"@),
        parent("/"@) is None,
        parent(Seq::<char>::empty()) is None,
{
    reveal_strlit("/");
    reveal_strlit("./");
    reveal_strlit(".");
    let n = name.len() as int;
    assert forall|j: int| 0 <= j < n implies name[j] != '/' by {
        assert(name.contains(name[j]));
    }
    assert(anchor(name) == 0);
    lemma_cut_none(name, n);
    assert(name.skip(0) =~= name);
    assert(name.take(0) =~= Seq::<char>::empty());
    let a = "./"@ + name;
    assert(anchor(a) == 1);
    assert(a[1] == '/');
    lemma_cut_from(a, n + 2, 1);
    assert(a.skip(2) =~= name);
    assert(a.take(1) =~= "."@);
    let b = "/"@ + name;
    assert(anchor(b) == 1);
    assert forall|j: int| 1 <= j < n + 1 implies b[j] != '/' by {
        assert(b[j] == name[j - 1]);
    }
    lemma_cut_none(b, n + 1);
    assert(b.skip(1) =~= name);
    assert(b.take(1) =~= "/"@);
    assert(tidy("/"@) == "/"@);
}

} // verus!
