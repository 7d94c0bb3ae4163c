//! Here-documents: texts that stand between lines of a shell script.

use crate::utils::text::{find, lemma_find, lemma_find_is};
use vstd::prelude::*;

verus! {

/// What a shell hands to the command of a here-document whose delimiter is quoted: the lines up to
/// the delimiter, as they stand. `None` where the delimiter does not come.
pub open spec fn here_document(s: Seq<char>, delimiter: Seq<char>) -> Option<Seq<char>>
    decreases s.len(),
{
    let n = find(s, '\n');
    if !(0 <= n < s.len()) {
        None
    } else if s.take(n) == delimiter {
        Some(Seq::empty())
    } else {
        match here_document(s.skip(n + 1), delimiter) {
            Some(rest) => Some(s.take(n + 1) + rest),
            None => None,
        }
    }
}

/// Whether a text is made of whole lines, none of which is the delimiter.
pub open spec fn fits(text: Seq<char>, delimiter: Seq<char>) -> bool
    decreases text.len(),
{
    let n = find(text, '\n');
    text.len() == 0 || (0 <= n < text.len() && text.take(n) != delimiter && fits(
        text.skip(n + 1),
        delimiter,
    ))
}

/// A text that fits arrives as it was written, whatever characters it holds: nothing in it is
/// expanded, and nothing behind it is taken for a part of it.
pub proof fn here_documents_arrive(text: Seq<char>, delimiter: Seq<char>, behind: Seq<char>)
    requires
        fits(text, delimiter),
        !delimiter.contains('\n'),
    ensures
        here_document(text + delimiter + "\n"@ + behind, delimiter) == Some(text),
    decreases text.len(),
{
    reveal_strlit("\n");
    let s = text + delimiter + "\n"@ + behind;
    if text.len() == 0 {
        let n = delimiter.len() as int;
        assert forall|j: int| 0 <= j < n implies s[j] != '\n' by {
            assert(s[j] == delimiter[j]);
        }
        assert(s[n] == '\n');
        lemma_find_is(s, '\n', n);
        assert(s.take(n) =~= delimiter);
        assert(text =~= Seq::empty());
    } else {
        let n = find(text, '\n');
        lemma_find(text, '\n');
        assert forall|j: int| 0 <= j < n implies s[j] != '\n' by {
            assert(s[j] == text[j]);
        }
        assert(s[n] == text[n]);
        lemma_find_is(s, '\n', n);
        assert(s.take(n) =~= text.take(n));
        let rest = text.skip(n + 1);
        here_documents_arrive(rest, delimiter, behind);
        assert(s.skip(n + 1) =~= rest + delimiter + "\n"@ + behind);
        assert(s.take(n + 1) + rest =~= text);
    }
}

/// Texts that fit can stand one behind the other.
pub proof fn lemma_fits_add(a: Seq<char>, b: Seq<char>, delimiter: Seq<char>)
    requires
        fits(a, delimiter),
        fits(b, delimiter),
    ensures
        fits(a + b, delimiter),
    decreases a.len(),
{
    if a.len() == 0 {
        assert(a + b =~= b);
    } else {
        let s = a + b;
        let n = find(a, '\n');
        lemma_find(a, '\n');
        assert forall|j: int| 0 <= j < n implies s[j] != '\n' by {
            assert(s[j] == a[j]);
        }
        assert(s[n] == a[n]);
        lemma_find_is(s, '\n', n);
        assert(s.take(n) =~= a.take(n));
        assert(s.skip(n + 1) =~= a.skip(n + 1) + b);
        lemma_fits_add(a.skip(n + 1), b, delimiter);
    }
}

/// A text that fits still does behind the beginning of a line that the delimiter does not have.
pub proof fn lemma_fits_behind(front: Seq<char>, text: Seq<char>, delimiter: Seq<char>)
    requires
        text.len() > 0,
        fits(text, delimiter),
        !front.contains('\n'),
        !front.is_prefix_of(delimiter),
    ensures
        fits(front + text, delimiter),
{
    let s = front + text;
    let n = find(text, '\n');
    let m = front.len() + n;
    lemma_find(text, '\n');
    assert forall|j: int| 0 <= j < m implies s[j] != '\n' by {
        if j < front.len() {
            assert(s[j] == front[j]);
        } else {
            assert(s[j] == text[j - front.len()]);
        }
    }
    assert(s[m] == text[n]);
    lemma_find_is(s, '\n', m);
    assert(s.take(m).take(front.len() as int) =~= front);
    assert(s.skip(m + 1) =~= text.skip(n + 1));
}

} // verus!
