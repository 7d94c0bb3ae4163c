//! What the functions on texts come to: a text is its pieces put together again.

use crate::utils::order::less;
use crate::utils::split::{
    contains_text, decimal, find_text, join, lemma_contains_middle, lemma_find_text, lemma_word_len,
    lines, parts, replace, split_text, strip_prefix, strip_suffix, word_len, words,
};
use crate::utils::text::{
    after, before, count, find, lemma_find, lemma_find_is, split_once, trim, trim_end, trim_start,
    white_space,
};
use crate::utils::within::{lemma_flat_last, lemma_within_is, pieces, within};
use vstd::prelude::*;

verus! {

// ---- joining ----

/// Joined texts are all of them, in their order, with the separator in front of each but the
/// first.
pub proof fn joined_texts_are_all_there(p: Seq<Seq<char>>, sep: Seq<char>)
    requires
        p.len() > 0,
    ensures
        sep + join(p, sep) == Seq::new(p.len(), |i: int| sep + p[i]).flatten(),
    decreases p.len(),
{
    let q = Seq::new(p.len(), |i: int| sep + p[i]);
    if p.len() == 1 {
        q.lemma_flatten_one_element();
    } else {
        let r = p.drop_last();
        joined_texts_are_all_there(r, sep);
        lemma_flat_last(q);
        assert(q.drop_last() =~= Seq::new(r.len(), |i: int| sep + r[i]));
        assert(sep + join(p, sep) =~= (sep + join(r, sep)) + (sep + p.last()));
    }
}

// ---- searching ----

/// A text is found if and only if it stands there, and then where it stands first.
pub proof fn texts_are_found_first(s: Seq<char>, p: Seq<char>)
    ensures
        contains_text(s, p) <==> within(s, p),
        find_text(s, p) matches Some(n) ==> 0 <= n && n + p.len() <= s.len() && s == s.take(n) + p
            + s.skip(n + p.len()) && forall|k: int|
            0 <= k < n ==> !p.is_prefix_of(#[trigger] s.skip(k)),
    decreases s.len(),
{
    lemma_find_text(s, p);
    if let Some(n) = find_text(s, p) {
        assert(s =~= s.take(n) + p + s.skip(n + p.len()));
        lemma_within_is(s, s.take(n), p, s.skip(n + p.len()));
        lemma_found_first(s, p);
    }
    if within(s, p) {
        let (a, b) = choose|a: Seq<char>, b: Seq<char>| pieces(s, a, p, b);
        lemma_contains_middle(a, p, b);
    }
}

proof fn lemma_found_first(s: Seq<char>, p: Seq<char>)
    ensures
        find_text(s, p) matches Some(n) ==> forall|k: int|
            0 <= k < n ==> !p.is_prefix_of(#[trigger] s.skip(k)),
    decreases s.len(),
{
    if !p.is_prefix_of(s) && s.len() > 0 {
        lemma_found_first(s.skip(1), p);
        lemma_find_text(s, p);
        if let Some(n) = find_text(s, p) {
            assert forall|k: int| 0 <= k < n implies !p.is_prefix_of(#[trigger] s.skip(k)) by {
                if k == 0 {
                    assert(s.skip(0) =~= s);
                } else {
                    assert(s.skip(k) =~= s.skip(1).skip(k - 1));
                }
            }
        }
    }
}

/// What stands before the first occurrence does not hold another.
proof fn lemma_before_first(s: Seq<char>, p: Seq<char>)
    requires
        p.len() > 0,
    ensures
        find_text(s, p) matches Some(n) ==> !within(s.take(n), p),
        find_text(s, p) is None ==> !within(s, p),
{
    texts_are_found_first(s, p);
    if let Some(n) = find_text(s, p) {
        let t = s.take(n);
        if within(t, p) {
            let (a, b) = choose|a: Seq<char>, b: Seq<char>| pieces(t, a, p, b);
            let k = a.len() as int;
            assert(t.len() == n);
            assert(s.skip(k).subrange(0, p.len() as int) =~= p) by {
                assert forall|j: int| 0 <= j < p.len() implies s.skip(k)[j] == p[j] by {
                    assert(t[k + j] == (a + p + b)[k + j]);
                }
            }
            assert(p.is_prefix_of(s.skip(k)));
        }
    }
}

/// A text that holds `p` falls into what stands before the first `p` and what stands behind it;
/// one that does not is all before it.
pub proof fn parts_make_the_text(s: Seq<char>, p: Seq<char>)
    requires
        p.len() > 0,
    ensures
        within(s, p) ==> s == parts(s, p).0 + p + parts(s, p).1 && !within(parts(s, p).0, p),
        !within(s, p) ==> parts(s, p) == (s, Seq::<char>::empty()),
{
    texts_are_found_first(s, p);
    lemma_before_first(s, p);
}

/// The pieces between the occurrences of `p` are the text, taken together again, and none of them
/// holds `p`.
pub proof fn pieces_make_the_text(s: Seq<char>, p: Seq<char>)
    requires
        p.len() > 0,
    ensures
        split_text(s, p).len() > 0,
        join(split_text(s, p), p) == s,
        forall|i: int|
            0 <= i < split_text(s, p).len() ==> !within(#[trigger] split_text(s, p)[i], p),
    decreases s.len(),
{
    texts_are_found_first(s, p);
    lemma_before_first(s, p);
    match find_text(s, p) {
        Some(n) => {
            let rest = s.skip(n + p.len());
            pieces_make_the_text(rest, p);
            let more = split_text(rest, p);
            let all = seq![s.take(n)] + more;
            lemma_join_front(s.take(n), more, p);
            assert forall|i: int| 0 <= i < all.len() implies !within(#[trigger] all[i], p) by {
                if i > 0 {
                    assert(all[i] == more[i - 1]);
                }
            }
        },
        None => {},
    }
}

proof fn lemma_join_front(a: Seq<char>, p: Seq<Seq<char>>, sep: Seq<char>)
    requires
        p.len() > 0,
    ensures
        join(seq![a] + p, sep) == a + sep + join(p, sep),
    decreases p.len(),
{
    let all = seq![a] + p;
    if p.len() == 1 {
        assert(all.drop_last() =~= seq![a]);
        assert(join(seq![a], sep) == a);
    } else {
        lemma_join_front(a, p.drop_last(), sep);
        assert(all.drop_last() =~= seq![a] + p.drop_last());
        assert(join(all, sep) =~= a + sep + join(p, sep));
    }
}

/// Replacing is joining the pieces anew.
pub proof fn replacing_is_joining_anew(s: Seq<char>, p: Seq<char>, t: Seq<char>)
    requires
        p.len() > 0,
    ensures
        replace(s, p, t) == join(split_text(s, p), t),
    decreases s.len(),
{
    lemma_find_text(s, p);
    if let Some(n) = find_text(s, p) {
        let rest = s.skip(n + p.len());
        replacing_is_joining_anew(rest, p, t);
        pieces_make_the_text(rest, p);
        lemma_join_front(s.take(n), split_text(rest, p), t);
    }
}

/// The two sides of a character make the text with it, and the first does not hold it.
pub proof fn sides_make_the_text(s: Seq<char>, c: char)
    ensures
        s.contains(c) ==> s == before(s, c) + seq![c] + after(s, c) && !before(s, c).contains(c)
            && split_once(s, c) == Some((before(s, c), after(s, c))),
        !s.contains(c) ==> before(s, c) == s && split_once(s, c) is None,
{
    lemma_find(s, c);
    let n = find(s, c);
    if s.contains(c) {
        assert(s =~= before(s, c) + seq![c] + after(s, c));
        if before(s, c).contains(c) {
            let j = choose|j: int| 0 <= j < before(s, c).len() && before(s, c)[j] == c;
            assert(s[j] == c);
        }
    } else {
        assert(before(s, c) =~= s);
    }
}

// ---- lines, words, white space ----

/// A text has one line for each line feed, and one more where something stands behind the last;
/// a carriage return before a line feed belongs to the line's end.
pub proof fn lines_are_what_line_feeds_part(a: Seq<char>, b: Seq<char>)
    requires
        !a.contains('\n'),
    ensures
        lines(a + seq!['\n'] + b) == seq![
            if a.len() > 0 && a.last() == '\r' {
                a.drop_last()
            } else {
                a
            },
        ] + lines(b),
        a.len() > 0 ==> lines(a) == seq![a],
        lines(Seq::<char>::empty()) == Seq::<Seq<char>>::empty(),
{
    let s = a + seq!['\n'] + b;
    let n = a.len() as int;
    assert forall|j: int| 0 <= j < n implies s[j] != '\n' && a[j] != '\n' by {
        assert(s[j] == a[j]);
        assert(a.contains(a[j]));
    }
    assert(s[n] == '\n');
    lemma_find_is(s, '\n', n);
    lemma_find_is(a, '\n', n);
    assert(s.take(n) =~= a);
    assert(s.skip(n + 1) =~= b);
}

/// Whether a text is white space only.
pub open spec fn blank(s: Seq<char>) -> bool {
    forall|i: int| 0 <= i < s.len() ==> white_space(#[trigger] s[i])
}

/// Whether a text is a word: it holds no white space, and is not empty.
pub open spec fn word(s: Seq<char>) -> bool {
    s.len() > 0 && forall|i: int| 0 <= i < s.len() ==> !white_space(#[trigger] s[i])
}

proof fn lemma_words_skip(a: Seq<char>, s: Seq<char>)
    requires
        blank(a),
    ensures
        words(a + s) == words(s),
    decreases a.len(),
{
    if a.len() == 0 {
        assert(a + s =~= s);
    } else {
        assert((a + s)[0] == a[0]);
        assert((a + s).skip(1) =~= a.skip(1) + s);
        assert forall|i: int| 0 <= i < a.skip(1).len() implies white_space(
            #[trigger] a.skip(1)[i],
        ) by {
            assert(a.skip(1)[i] == a[i + 1]);
        }
        lemma_words_skip(a.skip(1), s);
    }
}

/// The words of a text are what white space parts.
pub proof fn words_are_what_white_space_parts(a: Seq<char>, w: Seq<char>, c: char, rest: Seq<char>)
    requires
        blank(a),
        word(w),
        white_space(c),
    ensures
        words(a) == Seq::<Seq<char>>::empty(),
        words(a + w) == seq![w],
        words(a + w + seq![c] + rest) == seq![w] + words(rest),
{
    let none = Seq::<char>::empty();
    lemma_words_skip(a, none);
    assert(a + none =~= a);
    lemma_words_skip(a, w);
    let s = w + seq![c] + rest;
    lemma_words_skip(a, s);
    assert(a + w + seq![c] + rest =~= a + s);
    let n = w.len() as int;
    lemma_word_ends(w, n);
    assert(w.take(n) =~= w);
    assert(w.skip(n) =~= none);
    assert(!white_space(w[0]));
    assert(words(w) =~= seq![w] + words(none));
    assert(words(w) =~= seq![w]);
    assert forall|j: int| 0 <= j < n implies !white_space(#[trigger] s[j]) by {
        assert(s[j] == w[j]);
    }
    assert(s[n] == c);
    lemma_word_ends(s, n);
    assert(s.take(n) =~= w);
    assert(!white_space(s[0]));
    lemma_words_skip(seq![c], rest);
    assert(s.skip(n) =~= seq![c] + rest);
}

proof fn lemma_word_ends(s: Seq<char>, n: int)
    requires
        0 <= n <= s.len(),
        forall|j: int| 0 <= j < n ==> !white_space(#[trigger] s[j]),
        n < s.len() ==> white_space(s[n]),
    ensures
        word_len(s) == n,
{
    lemma_word_len(s);
    let m = word_len(s);
    if m < n {
        assert(!white_space(s[m]));
    }
    if n < m {
        assert(!white_space(s[n]));
    }
}

proof fn lemma_trim_end(s: Seq<char>)
    ensures
        trim_end(s).is_prefix_of(s),
        blank(s.skip(trim_end(s).len() as int)),
        trim_end(s).len() > 0 ==> !white_space(trim_end(s).last()),
    decreases s.len(),
{
    if s.len() > 0 && white_space(s.last()) {
        let t = s.drop_last();
        lemma_trim_end(t);
        let n = trim_end(t).len() as int;
        assert(s.subrange(0, n) =~= t.subrange(0, n));
        assert forall|i: int| 0 <= i < s.skip(n).len() implies white_space(
            #[trigger] s.skip(n)[i],
        ) by {
            if i < t.skip(n).len() {
                assert(s.skip(n)[i] == t.skip(n)[i]);
            }
        }
    } else {
        assert(s.subrange(0, s.len() as int) =~= s);
    }
}

proof fn lemma_trim_start(s: Seq<char>)
    ensures
        trim_start(s).len() <= s.len(),
        s == s.take(s.len() - trim_start(s).len()) + trim_start(s),
        blank(s.take(s.len() - trim_start(s).len())),
        trim_start(s).len() > 0 ==> !white_space(trim_start(s)[0]),
    decreases s.len(),
{
    if s.len() > 0 && white_space(s[0]) {
        let t = s.skip(1);
        lemma_trim_start(t);
        let k = t.len() - trim_start(t).len();
        let front = s.take(k + 1);
        assert(front =~= seq![s[0]] + t.take(k));
        assert(s =~= seq![s[0]] + t);
        assert(s =~= (seq![s[0]] + t.take(k)) + trim_start(t));
        assert forall|i: int| 0 <= i < front.len() implies white_space(#[trigger] front[i]) by {
            if i > 0 {
                assert(front[i] == t.take(k)[i - 1]);
            }
        }
    } else {
        assert(s =~= s.take(0) + s);
    }
}

/// Trimming takes off white space at both ends, and nothing else.
pub proof fn white_space_alone_is_trimmed(s: Seq<char>)
    ensures
        exists|a: Seq<char>, b: Seq<char>|
            pieces(s, a, trim(s), b) && #[trigger] blank(a) && #[trigger] blank(b),
        trim(s).len() > 0 ==> !white_space(trim(s)[0]) && !white_space(trim(s).last()),
        exists|b: Seq<char>| s == trim_end(s) + b && #[trigger] blank(b),
        trim_end(s).len() > 0 ==> !white_space(trim_end(s).last()),
{
    lemma_trim_start(s);
    lemma_trim_end(s);
    let t = trim_start(s);
    lemma_trim_end(t);
    let a = s.take(s.len() - t.len());
    let m = trim(s).len() as int;
    let b = t.skip(m);
    assert(t.subrange(0, m) =~= trim(s));
    assert(s =~= a + trim(s) + b);
    assert(pieces(s, a, trim(s), b));
    if m > 0 {
        assert(trim(s)[0] == t[0]);
    }
    let n = trim_end(s).len() as int;
    assert(s.subrange(0, n) =~= trim_end(s));
    assert(s =~= trim_end(s) + s.skip(n));
}

// ---- numbers ----

/// The number that digits stand for.
pub open spec fn number(s: Seq<char>) -> nat
    decreases s.len(),
{
    if s.len() == 0 {
        0
    } else {
        number(s.drop_last()) * 10 + ((s.last() as int - '0' as int) as nat)
    }
}

/// A number is written in digits that stand for it, without a zero in front.
pub proof fn decimals_read_back(n: nat)
    ensures
        number(decimal(n)) == n,
        decimal(n).len() > 0,
        forall|i: int| 0 <= i < decimal(n).len() ==> '0' <= #[trigger] decimal(n)[i] <= '9',
        decimal(n)[0] == '0' ==> n == 0,
    decreases n,
{
    reveal_with_fuel(number, 2);
    if n < 10 {
        assert(decimal(n).drop_last() =~= Seq::empty());
    } else {
        decimals_read_back(n / 10);
        assert(decimal(n).drop_last() =~= decimal(n / 10));
        assert(decimal(n)[0] == decimal(n / 10)[0]);
        assert forall|i: int| 0 <= i < decimal(n).len() implies '0' <= #[trigger] decimal(n)[i]
            <= '9' by {
            if i < decimal(n / 10).len() {
                assert(decimal(n)[i] == decimal(n / 10)[i]);
            }
        }
    }
}

/// Different numbers are written differently.
pub proof fn decimals_differ(a: nat, b: nat)
    requires
        decimal(a) == decimal(b),
    ensures
        a == b,
{
    decimals_read_back(a);
    decimals_read_back(b);
}

// ---- order ----

/// One text comes before another if and only if it is the beginning of it, or has the smaller
/// character where they first differ.
pub proof fn texts_are_ordered_by_their_characters(a: Seq<char>, b: Seq<char>)
    ensures
        less(a, b) <==> exists|k: int|
            #![trigger a.take(k)]
            0 <= k <= a.len() && k < b.len() && a.take(k) == b.take(k) && (k == a.len() || a[k]
                < b[k]),
    decreases a.len(),
{
    if a.len() > 0 && b.len() > 0 && a[0] == b[0] {
        let x = a.skip(1);
        let y = b.skip(1);
        texts_are_ordered_by_their_characters(x, y);
        if less(a, b) {
            let k = choose|k: int|
                #![trigger x.take(k)]
                0 <= k <= x.len() && k < y.len() && x.take(k) == y.take(k) && (k == x.len() || x[k]
                    < y[k]);
            assert(a.take(k + 1) =~= seq![a[0]] + x.take(k));
            assert(b.take(k + 1) =~= seq![b[0]] + y.take(k));
            assert(a.take(k + 1) == b.take(k + 1));
        }
        if exists|k: int|
            #![trigger a.take(k)]
            0 <= k <= a.len() && k < b.len() && a.take(k) == b.take(k) && (k == a.len() || a[k]
                < b[k]) {
            let k = choose|k: int|
                #![trigger a.take(k)]
                0 <= k <= a.len() && k < b.len() && a.take(k) == b.take(k) && (k == a.len() || a[k]
                    < b[k]);
            assert(k > 0);
            assert(x.take(k - 1) =~= a.take(k).skip(1));
            assert(y.take(k - 1) =~= b.take(k).skip(1));
            assert(x.take(k - 1) == y.take(k - 1));
        }
    } else if b.len() > 0 {
        assert(a.take(0) =~= b.take(0));
        if exists|k: int|
            #![trigger a.take(k)]
            0 <= k <= a.len() && k < b.len() && a.take(k) == b.take(k) && (k == a.len() || a[k]
                < b[k]) {
            let k = choose|k: int|
                #![trigger a.take(k)]
                0 <= k <= a.len() && k < b.len() && a.take(k) == b.take(k) && (k == a.len() || a[k]
                    < b[k]);
            if k > 0 {
                assert(a.take(k)[0] == b.take(k)[0]);
            }
        }
    }
}

// ---- beginnings and ends ----

/// What a beginning or an end is taken off is given back exactly where it is there.
pub proof fn beginnings_and_ends_come_off(s: Seq<char>, p: Seq<char>)
    ensures
        strip_prefix(p + s, p) == Some(s),
        strip_suffix(s + p, p) == Some(s),
        strip_prefix(s, p) matches Some(t) ==> s == p + t,
        strip_suffix(s, p) matches Some(t) ==> s == t + p,
        strip_prefix(s, p) is Some <==> p.is_prefix_of(s),
        strip_suffix(s, p) is Some <==> p.is_suffix_of(s),
{
    let a = p + s;
    let b = s + p;
    assert(a.subrange(0, p.len() as int) =~= p);
    assert(a.skip(p.len() as int) =~= s);
    assert(b.subrange(b.len() - p.len(), b.len() as int) =~= p);
    assert(b.take(b.len() - p.len()) =~= s);
    if p.is_prefix_of(s) {
        assert(s =~= p + s.skip(p.len() as int));
    }
    if p.is_suffix_of(s) {
        assert(s =~= s.take(s.len() - p.len()) + p);
    }
}

/// The occurrences of a character are counted one by one.
pub proof fn occurrences_are_counted(a: Seq<char>, c: char, x: char)
    ensures
        count(Seq::<char>::empty(), c) == 0,
        count(a.push(x), c) == count(a, c) + if x == c {
            1nat
        } else {
            0nat
        },
{
    assert(a.push(x).drop_last() =~= a);
}

} // verus!
