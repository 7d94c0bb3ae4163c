//! Text in pieces: words, lines, separators, replacement, joining, numbers.

use crate::utils::text::{chars_of, find, find_from, text_of, texts, white_space};
use vstd::prelude::*;

verus! {

// ---- words ----

/// How many characters stand before the first white space.
pub open spec fn word_len(s: Seq<char>) -> int
    decreases s.len(),
{
    if s.len() == 0 || white_space(s[0]) {
        0
    } else {
        1 + word_len(s.skip(1))
    }
}

/// The pieces between white space, none of them empty.
pub open spec fn words(s: Seq<char>) -> Seq<Seq<char>>
    decreases s.len(),
{
    if s.len() == 0 {
        Seq::empty()
    } else if white_space(s[0]) {
        words(s.skip(1))
    } else {
        let n = word_len(s);
        if 0 < n <= s.len() {
            seq![s.take(n)] + words(s.skip(n))
        } else {
            Seq::empty()
        }
    }
}

pub proof fn lemma_word_len(s: Seq<char>)
    ensures
        0 <= word_len(s) <= s.len(),
        forall|j: int| 0 <= j < word_len(s) ==> !white_space(s[j]),
        word_len(s) < s.len() ==> white_space(s[word_len(s)]),
    decreases s.len(),
{
    if s.len() != 0 && !white_space(s[0]) {
        lemma_word_len(s.skip(1));
        assert forall|j: int| 0 <= j < word_len(s) implies !white_space(s[j]) by {
            if j > 0 {
                assert(s.skip(1)[j - 1] == s[j]);
            }
        }
    }
}

proof fn lemma_word_len_is(s: Seq<char>, k: int)
    requires
        0 <= k <= s.len(),
        forall|j: int| 0 <= j < k ==> !white_space(s[j]),
        k < s.len() ==> white_space(s[k]),
    ensures
        word_len(s) == k,
{
    lemma_word_len(s);
    let n = word_len(s);
    if n < k {
        assert(!white_space(s[n]));
    }
    if k < n {
        assert(!white_space(s[k]));
    }
}

pub fn split_words(s: &str) -> (r: Vec<String>)
    ensures
        texts(r@) == words(s@),
{
    let v = chars_of(s);
    let mut out: Vec<String> = Vec::new();
    let mut i: usize = 0;
    assert(v@.skip(0) =~= v@);
    assert(texts(out@) =~= Seq::empty());
    assert(texts(out@) + words(v@.skip(0)) =~= words(v@));
    while i < v.len()
        invariant
            i <= v@.len(),
            texts(out@) + words(v@.skip(i as int)) == words(v@),
        decreases v@.len() - i,
    {
        let ghost rest = v@.skip(i as int);
        if v[i].is_whitespace() {
            assert(rest.skip(1) =~= v@.skip(i + 1));
            i += 1;
        } else {
            let start = i;
            i += 1;
            while i < v.len() && !v[i].is_whitespace()
                invariant
                    start < i <= v@.len(),
                    forall|j: int| start <= j < i ==> !white_space(v@[j]),
                decreases v@.len() - i,
            {
                i += 1;
            }
            let w = text_of(&v, start, i);
            proof {
                lemma_word_len_is(rest, i - start);
                assert(rest.take(i - start) =~= w@);
                assert(rest.skip(i - start) =~= v@.skip(i as int));
            }
            let ghost done = texts(out@);
            out.push(w);
            proof {
                assert(texts(out@) =~= done.push(w@));
                assert(texts(out@) + words(v@.skip(i as int)) =~= done + (seq![w@] + words(
                    v@.skip(i as int),
                )));
            }
        }
    }
    assert(texts(out@) + words(v@.skip(i as int)) =~= texts(out@));
    out
}

// ---- lines ----

/// A line without the carriage return that belongs to its line ending.
pub open spec fn without_cr(s: Seq<char>) -> Seq<char> {
    if s.len() > 0 && s.last() == '\r' {
        s.drop_last()
    } else {
        s
    }
}

/// The lines of a text. Lines end in a line feed, or a carriage return and a line feed; the
/// last line ending is optional.
pub open spec fn lines(s: Seq<char>) -> Seq<Seq<char>>
    decreases s.len(),
{
    let n = find(s, '\n');
    if s.len() == 0 {
        Seq::empty()
    } else if 0 <= n < s.len() {
        seq![without_cr(s.take(n))] + lines(s.skip(n + 1))
    } else {
        seq![s]
    }
}

pub fn split_lines(s: &str) -> (r: Vec<String>)
    ensures
        texts(r@) == lines(s@),
{
    let v = chars_of(s);
    let mut out: Vec<String> = Vec::new();
    let mut i: usize = 0;
    assert(v@.skip(0) =~= v@);
    assert(texts(out@) + lines(v@.skip(0)) =~= lines(v@));
    while i < v.len()
        invariant
            i <= v@.len(),
            texts(out@) + lines(v@.skip(i as int)) == lines(v@),
        decreases v@.len() - i,
    {
        let ghost rest = v@.skip(i as int);
        let ghost done = texts(out@);
        let n = find_from(&v, i, '\n');
        if n < v.len() {
            let end = if n > i && v[n - 1] == '\r' {
                n - 1
            } else {
                n
            };
            let w = text_of(&v, i, end);
            proof {
                assert(rest.take(n - i) =~= v@.subrange(i as int, n as int));
                assert(w@ =~= without_cr(rest.take(n - i)));
                assert(rest.skip(n - i + 1) =~= v@.skip(n + 1));
            }
            out.push(w);
            proof {
                assert(texts(out@) =~= done.push(w@));
                assert(texts(out@) + lines(v@.skip(n + 1)) =~= done + (seq![w@] + lines(
                    v@.skip(n + 1),
                )));
            }
            i = n + 1;
        } else {
            let w = text_of(&v, i, n);
            assert(w@ =~= rest);
            out.push(w);
            proof {
                assert(texts(out@) =~= done.push(w@));
                assert(texts(out@) =~= done + seq![rest]);
                assert(v@.skip(n as int) =~= Seq::empty());
                assert(texts(out@) + lines(v@.skip(n as int)) =~= texts(out@));
            }
            i = n;
        }
    }
    assert(texts(out@) + lines(v@.skip(i as int)) =~= texts(out@));
    out
}

// ---- a separator of several characters ----

/// The position of the first occurrence of `p`.
pub open spec fn find_text(s: Seq<char>, p: Seq<char>) -> Option<int>
    decreases s.len(),
{
    if p.is_prefix_of(s) {
        Some(0)
    } else if s.len() == 0 {
        None
    } else {
        match find_text(s.skip(1), p) {
            Some(n) => Some(n + 1),
            None => None,
        }
    }
}

pub open spec fn contains_text(s: Seq<char>, p: Seq<char>) -> bool {
    find_text(s, p) is Some
}

pub proof fn lemma_find_text(s: Seq<char>, p: Seq<char>)
    ensures
        find_text(s, p) matches Some(n) ==> 0 <= n && n + p.len() <= s.len() && s.subrange(
            n,
            n + p.len(),
        ) == p,
    decreases s.len(),
{
    if p.is_prefix_of(s) {
        assert(s.subrange(0, p.len() as int) =~= p);
    } else if s.len() > 0 {
        lemma_find_text(s.skip(1), p);
        if let Some(n) = find_text(s.skip(1), p) {
            assert(s.subrange(n + 1, n + 1 + p.len()) =~= s.skip(1).subrange(n, n + p.len()));
        }
    }
}

/// A text that stands between two others is contained in the whole.
pub proof fn lemma_contains_middle(a: Seq<char>, p: Seq<char>, b: Seq<char>)
    ensures
        contains_text(a + p + b, p),
    decreases a.len(),
{
    let s = a + p + b;
    if p.is_prefix_of(s) {
    } else if a.len() == 0 {
        assert(s.subrange(0, p.len() as int) =~= p);
    } else {
        assert(s.skip(1) =~= a.skip(1) + p + b);
        lemma_contains_middle(a.skip(1), p, b);
    }
}

fn starts_at(v: &Vec<char>, i: usize, p: &Vec<char>) -> (r: bool)
    requires
        i <= v@.len(),
    ensures
        r == p@.is_prefix_of(v@.skip(i as int)),
{
    if v.len() - i < p.len() {
        return false;
    }
    let mut k: usize = 0;
    while k < p.len()
        invariant
            k <= p@.len(),
            i + p@.len() <= v.len(),
            forall|j: int| 0 <= j < k ==> v@[i + j] == p@[j],
        decreases p@.len() - k,
    {
        if v[i + k] != p[k] {
            assert(v@.skip(i as int)[k as int] == v@[i + k]);
            assert(v@.skip(i as int).subrange(0, p@.len() as int)[k as int] != p@[k as int]);
            return false;
        }
        k += 1;
    }
    assert(p@ =~= v@.skip(i as int).subrange(0, p@.len() as int));
    true
}

/// Where `p` first occurs at or after `from`.
fn find_text_from(v: &Vec<char>, from: usize, p: &Vec<char>) -> (r: Option<usize>)
    requires
        from <= v@.len(),
    ensures
        match (r, find_text(v@.skip(from as int), p@)) {
            (Some(i), Some(n)) => 0 <= n && i == from + n && i + p@.len() <= v.len(),
            (None, None) => true,
            _ => false,
        },
{
    let mut i: usize = from;
    loop
        invariant
            from <= i <= v@.len(),
            find_text(v@.skip(from as int), p@) == (match find_text(v@.skip(i as int), p@) {
                Some(n) => Some(n + (i - from)),
                None => None::<int>,
            }),
        decreases v@.len() - i,
    {
        if starts_at(v, i, p) {
            proof {
                lemma_find_text(v@.skip(from as int), p@);
            }
            return Some(i);
        }
        if i == v.len() {
            return None;
        }
        assert(v@.skip(i as int).skip(1) =~= v@.skip(i + 1));
        i += 1;
    }
}

pub fn has_text(s: &str, p: &str) -> (r: bool)
    ensures
        r == contains_text(s@, p@),
{
    let v = chars_of(s);
    let q = chars_of(p);
    assert(v@.skip(0) =~= v@);
    find_text_from(&v, 0, &q).is_some()
}

pub fn has_prefix(s: &str, p: &str) -> (r: bool)
    ensures
        r == p@.is_prefix_of(s@),
{
    let v = chars_of(s);
    let q = chars_of(p);
    assert(v@.skip(0) =~= v@);
    starts_at(&v, 0, &q)
}

/// The rest of a text behind a prefix.
pub open spec fn strip_prefix(s: Seq<char>, p: Seq<char>) -> Option<Seq<char>> {
    if p.is_prefix_of(s) {
        Some(s.skip(p.len() as int))
    } else {
        None
    }
}

pub fn without_prefix(s: &str, p: &str) -> (r: Option<String>)
    ensures
        match (r, strip_prefix(s@, p@)) {
            (Some(t), Some(u)) => t@ == u,
            (None, None) => true,
            _ => false,
        },
{
    let v = chars_of(s);
    let q = chars_of(p);
    assert(v@.skip(0) =~= v@);
    if starts_at(&v, 0, &q) {
        let t = text_of(&v, q.len(), v.len());
        assert(t@ =~= s@.skip(p@.len() as int));
        Some(t)
    } else {
        None
    }
}

pub open spec fn strip_suffix(s: Seq<char>, p: Seq<char>) -> Option<Seq<char>> {
    if p.is_suffix_of(s) {
        Some(s.take(s.len() - p.len()))
    } else {
        None
    }
}

pub fn without_suffix(s: &str, p: &str) -> (r: Option<String>)
    ensures
        match (r, strip_suffix(s@, p@)) {
            (Some(t), Some(u)) => t@ == u,
            (None, None) => true,
            _ => false,
        },
{
    let v = chars_of(s);
    let q = chars_of(p);
    if v.len() < q.len() {
        return None;
    }
    let k = v.len() - q.len();
    if starts_at(&v, k, &q) {
        let t = text_of(&v, 0, k);
        assert(v@.skip(k as int).subrange(0, q@.len() as int) =~= v@.subrange(
            v@.len() - q@.len(),
            v@.len() as int,
        ));
        assert(t@ =~= s@.take(s@.len() - p@.len()));
        Some(t)
    } else {
        assert(v@.skip(k as int).subrange(0, q@.len() as int) =~= v@.subrange(
            v@.len() - q@.len(),
            v@.len() as int,
        ));
        None
    }
}

/// The pieces between the occurrences of `p`, from the left.
pub open spec fn split_text(s: Seq<char>, p: Seq<char>) -> Seq<Seq<char>>
    recommends
        p.len() > 0,
    decreases s.len(),
{
    match find_text(s, p) {
        Some(n) => if 0 <= n && p.len() > 0 && n + p.len() <= s.len() {
            seq![s.take(n)] + split_text(s.skip(n + p.len()), p)
        } else {
            seq![s]
        },
        None => seq![s],
    }
}

pub fn split_by(s: &str, p: &str) -> (r: Vec<String>)
    requires
        p@.len() > 0,
    ensures
        texts(r@) == split_text(s@, p@),
{
    let v = chars_of(s);
    let q = chars_of(p);
    let mut out: Vec<String> = Vec::new();
    let mut i: usize = 0;
    assert(v@.skip(0) =~= v@);
    assert(texts(out@) + split_text(v@.skip(0), q@) =~= split_text(v@, q@));
    loop
        invariant
            i <= v@.len(),
            q@.len() > 0,
            texts(out@) + split_text(v@.skip(i as int), q@) == split_text(v@, q@),
            v@ == s@,
            q@ == p@,
        decreases v@.len() - i,
    {
        let ghost rest = v@.skip(i as int);
        let ghost done = texts(out@);
        match find_text_from(&v, i, &q) {
            Some(n) => {
                let w = text_of(&v, i, n);
                let next = n + q.len();
                proof {
                    assert(rest.take(n - i) =~= w@);
                    assert(rest.skip(n - i + q@.len()) =~= v@.skip(next as int));
                }
                out.push(w);
                proof {
                    assert(texts(out@) =~= done.push(w@));
                    assert(texts(out@) + split_text(v@.skip(next as int), q@) =~= done + (seq![
                        w@,
                    ] + split_text(v@.skip(next as int), q@)));
                }
                i = next;
            },
            None => {
                let w = text_of(&v, i, v.len());
                assert(w@ =~= rest);
                out.push(w);
                proof {
                    assert(texts(out@) =~= done.push(w@));
                    assert(texts(out@) =~= done + seq![rest]);
                }
                return out;
            },
        }
    }
}

/// What stands before the first occurrence of `p`, and what stands behind it. Without one, all
/// of the text stands before it.
pub open spec fn parts(s: Seq<char>, p: Seq<char>) -> (Seq<char>, Seq<char>) {
    match find_text(s, p) {
        Some(n) => (s.take(n), s.skip(n + p.len())),
        None => (s, Seq::empty()),
    }
}

/// Splits a text at the first occurrence of `p`.
pub fn split_parts(s: &str, p: &str) -> (r: (String, String))
    ensures
        (r.0@, r.1@) == parts(s@, p@),
{
    let v = chars_of(s);
    let q = chars_of(p);
    assert(v@.skip(0) =~= v@);
    match find_text_from(&v, 0, &q) {
        Some(n) => {
            let a = text_of(&v, 0, n);
            let b = text_of(&v, n + q.len(), v.len());
            assert(a@ =~= s@.take(n as int));
            assert(b@ =~= s@.skip(n + p@.len()));
            (a, b)
        },
        None => {
            let b = String::new();
            assert(b@ =~= Seq::empty());
            (s.to_owned(), b)
        },
    }
}

/// Every occurrence of `p`, from the left and without overlap, replaced by `t`.
pub open spec fn replace(s: Seq<char>, p: Seq<char>, t: Seq<char>) -> Seq<char>
    recommends
        p.len() > 0,
    decreases s.len(),
{
    match find_text(s, p) {
        Some(n) => if 0 <= n && p.len() > 0 && n + p.len() <= s.len() {
            s.take(n) + t + replace(s.skip(n + p.len()), p, t)
        } else {
            s
        },
        None => s,
    }
}

pub fn replaced(s: &str, p: &str, t: &str) -> (r: String)
    requires
        p@.len() > 0,
    ensures
        r@ == replace(s@, p@, t@),
{
    let v = chars_of(s);
    let q = chars_of(p);
    let mut out = String::new();
    let mut i: usize = 0;
    assert(v@.skip(0) =~= v@);
    assert(out@ + replace(v@.skip(0), q@, t@) =~= replace(v@, q@, t@));
    loop
        invariant
            i <= v@.len(),
            q@.len() > 0,
            out@ + replace(v@.skip(i as int), q@, t@) == replace(v@, q@, t@),
            v@ == s@,
            q@ == p@,
        decreases v@.len() - i,
    {
        let ghost rest = v@.skip(i as int);
        let ghost done = out@;
        match find_text_from(&v, i, &q) {
            Some(n) => {
                let w = text_of(&v, i, n);
                let next = n + q.len();
                proof {
                    assert(rest.take(n - i) =~= w@);
                    assert(rest.skip(n - i + q@.len()) =~= v@.skip(next as int));
                }
                out.append(w.as_str());
                out.append(t);
                proof {
                    let tail = replace(v@.skip(next as int), q@, t@);
                    assert(out@ + tail =~= done + (w@ + t@ + tail));
                }
                i = next;
            },
            None => {
                let w = text_of(&v, i, v.len());
                assert(w@ =~= rest);
                out.append(w.as_str());
                return out;
            },
        }
    }
}

// ---- joining ----

/// The parts with `sep` between them.
pub open spec fn join(parts: Seq<Seq<char>>, sep: Seq<char>) -> Seq<char>
    decreases parts.len(),
{
    if parts.len() == 0 {
        Seq::empty()
    } else if parts.len() == 1 {
        parts[0]
    } else {
        join(parts.drop_last(), sep) + sep + parts.last()
    }
}

pub fn joined(parts: &Vec<String>, sep: &str) -> (r: String)
    ensures
        r@ == join(texts(parts@), sep@),
{
    let mut out = String::new();
    let mut i: usize = 0;
    while i < parts.len()
        invariant
            i <= parts@.len(),
            out@ == join(texts(parts@).take(i as int), sep@),
        decreases parts@.len() - i,
    {
        let ghost all = texts(parts@);
        assert(all.take(i + 1).drop_last() =~= all.take(i as int));
        assert(all.take(i + 1).last() == parts@[i as int]@);
        if i > 0 {
            out.append(sep);
        }
        out.append(parts[i].as_str());
        proof {
            if i == 0 {
                assert(out@ =~= parts@[0]@);
            }
        }
        i += 1;
    }
    assert(texts(parts@).take(i as int) =~= texts(parts@));
    out
}

// ---- numbers ----

pub open spec fn digit(d: int) -> char
    recommends
        0 <= d < 10,
{
    if d == 0 {
        '0'
    } else if d == 1 {
        '1'
    } else if d == 2 {
        '2'
    } else if d == 3 {
        '3'
    } else if d == 4 {
        '4'
    } else if d == 5 {
        '5'
    } else if d == 6 {
        '6'
    } else if d == 7 {
        '7'
    } else if d == 8 {
        '8'
    } else {
        '9'
    }
}

/// A number in decimal digits, without leading zeros.
pub open spec fn decimal(n: nat) -> Seq<char>
    decreases n,
{
    if n < 10 {
        seq![digit(n as int)]
    } else {
        decimal(n / 10).push(digit((n % 10) as int))
    }
}

fn digit_char(d: u64) -> (r: char)
    requires
        d < 10,
    ensures
        r == digit(d as int),
{
    if d == 0 {
        '0'
    } else if d == 1 {
        '1'
    } else if d == 2 {
        '2'
    } else if d == 3 {
        '3'
    } else if d == 4 {
        '4'
    } else if d == 5 {
        '5'
    } else if d == 6 {
        '6'
    } else if d == 7 {
        '7'
    } else if d == 8 {
        '8'
    } else {
        '9'
    }
}

pub fn decimal_text(n: u64) -> (r: String)
    ensures
        r@ == decimal(n as nat),
    decreases n,
{
    if n < 10 {
        let mut s = String::new();
        s.push(digit_char(n));
        assert(s@ =~= seq![digit(n as int)]);
        s
    } else {
        let mut s = decimal_text(n / 10);
        s.push(digit_char(n % 10));
        s
    }
}

} // verus!
