//! Literal substring scanning.
//!
//! The scanner tests each forbidden token for literal, case-sensitive,
//! contiguous occurrence in the text, with no normalization and no word
//! boundaries, and collects the tokens that were found in the order the
//! forbidden list gives them.

use vstd::prelude::*;

verus! {

/// `pat` occurs somewhere in `text` as a contiguous run of characters.
/// The empty sequence is a substring of every text.
pub open spec fn is_substring_of(pat: Seq<char>, text: Seq<char>) -> bool {
    exists|i: int|
        0 <= i && i + pat.len() <= text.len() && #[trigger] text.subrange(i, i + pat.len())
            == pat
}

/// The predicate a token must meet to be reported for a given text.
pub open spec fn found_in(text: Seq<char>) -> spec_fn(Seq<char>) -> bool {
    |t: Seq<char>| is_substring_of(t, text)
}

/// The tokens of `forbidden` that occur in `text`, in the order and
/// multiplicity the forbidden list gives them.
pub open spec fn spec_matches(text: Seq<char>, forbidden: Seq<Seq<char>>) -> Seq<Seq<char>> {
    forbidden.filter(found_in(text))
}

/// A text is safe exactly when no forbidden token occurs in it.
pub open spec fn spec_is_safe(text: Seq<char>, forbidden: Seq<Seq<char>>) -> bool {
    spec_matches(text, forbidden).len() == 0
}

/// Compares `pat` against the characters of `text` starting at position `at`.
fn matches_at(text: &str, pat: &str, at: usize, pat_len: usize) -> (m: bool)
    requires
        pat_len == pat@.len(),
        at + pat_len <= text@.len(),
        text@.len() <= usize::MAX,
    ensures
        m == (text@.subrange(at as int, at + pat_len) == pat@),
{
    let mut j: usize = 0;
    while j < pat_len
        invariant
            pat_len == pat@.len(),
            at + pat_len <= text@.len(),
            text@.len() <= usize::MAX,
            j <= pat_len,
            forall|k: int| 0 <= k < j ==> text@[at + k] == pat@[k],
        decreases pat_len - j,
    {
        if text.get_char(at + j) != pat.get_char(j) {
            assert(text@.subrange(at as int, at + pat_len)[j as int] != pat@[j as int]);
            return false;
        }
        j = j + 1;
    }
    assert(text@.subrange(at as int, at + pat_len) =~= pat@);
    true
}

/// Whether `pat` occurs in `text` as a literal substring.
pub fn contains_token(text: &str, pat: &str) -> (found: bool)
    ensures
        found == is_substring_of(pat@, text@),
{
    let n: usize = text.unicode_len();
    let m: usize = pat.unicode_len();
    if m == 0 {
        assert(is_substring_of(pat@, text@)) by {
            assert(text@.subrange(0, 0 + pat@.len() as int) =~= pat@);
        }
        return true;
    }
    if m > n {
        return false;
    }
    let last = n - m;
    let mut i: usize = 0;
    while i <= last
        invariant
            0 < m <= n,
            n == text@.len(),
            m == pat@.len(),
            last == n - m,
            i <= last + 1,
            forall|k: int| 0 <= k < i ==> #[trigger] text@.subrange(k, k + m) != pat@,
        decreases last - i + 1,
    {
        if matches_at(text, pat, i, m) {
            return true;
        }
        i = i + 1;
    }
    false
}

/// Scans `code` for the tokens of `forbidden`.
///
/// Returns `(is_safe, matches)`: `matches` holds exactly the forbidden tokens
/// that occur in `code` as a literal substring, in the order and multiplicity
/// of `forbidden`, and `is_safe` holds exactly when `matches` is empty.
pub fn scan_code(code: String, forbidden: Vec<String>) -> (result: (bool, Vec<String>))
    ensures
        result.1.deep_view() == spec_matches(code@, forbidden.deep_view()),
        result.0 == (result.1@.len() == 0),
        result.0 == spec_is_safe(code@, forbidden.deep_view()),
{
    let ghost pred = found_in(code@);
    let ghost all = forbidden.deep_view();
    let mut found: Vec<String> = Vec::new();
    let len = forbidden.len();
    let mut idx: usize = 0;
    proof {
        assert(all.take(0int) =~= Seq::<Seq<char>>::empty());
        reveal_with_fuel(Seq::filter, 1);
    }
    while idx < len
        invariant
            len == forbidden.len(),
            all == forbidden.deep_view(),
            pred == found_in(code@),
            idx <= len,
            found.deep_view() == all.take(idx as int).filter(pred),
        decreases len - idx,
    {
        let ghost found_before = found.deep_view();
        let ghost tok = all[idx as int];
        let hit = contains_token(code.as_str(), forbidden[idx].as_str());
        proof {
            assert(hit == pred(tok));
        }
        if hit {
            let word = forbidden[idx].clone();
            found.push(word);
            proof {
                assert(found.deep_view() =~= found_before.push(tok));
            }
        }
        proof {
            all.take(idx as int).lemma_filter_push(tok, pred);
            assert(all.take(idx + 1int) =~= all.take(idx as int).push(tok));
            assert(all.take(idx + 1int).filter(pred) == all.take(idx as int).push(tok).filter(
                pred,
            ));
        }
        idx = idx + 1;
    }
    proof {
        assert(all.take(len as int) =~= all);
    }
    let is_safe = found.len() == 0;
    (is_safe, found)
}

} // verus!
