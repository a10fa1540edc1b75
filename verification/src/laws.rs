//! Properties of the scanner, stated and proved against its specification.

use vstd::prelude::*;
use crate::scanner::{found_in, is_substring_of, spec_is_safe, spec_matches};

verus! {

/// `idx` witnesses that `sub` is embedded in `full`: it lists, in strictly
/// increasing order, a position of `full` for each element of `sub`.
pub open spec fn embeds_at(sub: Seq<Seq<char>>, full: Seq<Seq<char>>, idx: Seq<int>) -> bool {
    &&& idx.len() == sub.len()
    &&& (forall|k: int| 0 <= k < idx.len() ==> 0 <= #[trigger] idx[k] < full.len())
    &&& (forall|k: int| 0 <= k < idx.len() ==> sub[k] == full[#[trigger] idx[k]])
    &&& (forall|k: int| 0 <= k < idx.len() - 1 ==> #[trigger] idx[k] < idx[k + 1])
}

/// `sub` is a subsequence of `full`: its elements occur in `full` in the same
/// relative order, with multiplicity.
pub open spec fn is_subsequence_of(sub: Seq<Seq<char>>, full: Seq<Seq<char>>) -> bool {
    exists|idx: Seq<int>| embeds_at(sub, full, idx)
}

proof fn lemma_filter_is_subsequence(full: Seq<Seq<char>>, pred: spec_fn(Seq<char>) -> bool)
    ensures
        is_subsequence_of(full.filter(pred), full),
    decreases full.len(),
{
    reveal(Seq::filter);
    if full.len() == 0 {
        assert(embeds_at(full.filter(pred), full, Seq::<int>::empty()));
    } else {
        let rest = full.drop_last();
        lemma_filter_is_subsequence(rest, pred);
        let sub0 = rest.filter(pred);
        let idx0 = choose|idx: Seq<int>| embeds_at(sub0, rest, idx);
        assert(embeds_at(sub0, rest, idx0));
        if pred(full.last()) {
            let sub1 = full.filter(pred);
            assert(sub1 == sub0.push(full.last()));
            let idx1 = idx0.push(full.len() - 1);
            assert forall|k: int| 0 <= k < idx1.len() implies 0 <= idx1[k] < full.len()
                && sub1[k] == full[idx1[k]] by {
                if k < idx0.len() {
                    assert(0 <= idx0[k] < rest.len());
                    assert(sub0[k] == rest[idx0[k]]);
                    assert(full[idx0[k]] == rest[idx0[k]]);
                }
            }
            assert forall|k: int| 0 <= k < idx1.len() - 1 implies #[trigger] idx1[k] < idx1[k
                + 1] by {
                if k < idx0.len() - 1 {
                    assert(idx0[k] < idx0[k + 1]);
                } else {
                    assert(idx1[k] < full.len() - 1);
                }
            }
            assert(embeds_at(sub1, full, idx1));
        } else {
            assert(full.filter(pred) == sub0);
            assert forall|k: int| 0 <= k < idx0.len() implies 0 <= idx0[k] < full.len()
                && sub0[k] == full[idx0[k]] by {
                assert(0 <= idx0[k] < rest.len());
                assert(sub0[k] == rest[idx0[k]]);
                assert(full[idx0[k]] == rest[idx0[k]]);
            }
            assert(embeds_at(sub0, full, idx0));
        }
    }
}

/// The reported matches are a subsequence of the forbidden list: original
/// relative order and multiplicity are preserved.
pub proof fn lemma_matches_subsequence(text: Seq<char>, forbidden: Seq<Seq<char>>)
    ensures
        is_subsequence_of(spec_matches(text, forbidden), forbidden),
{
    lemma_filter_is_subsequence(forbidden, found_in(text));
}

/// With an empty forbidden list, no matches are reported and every text is
/// safe.
pub proof fn lemma_empty_forbidden_is_safe(text: Seq<char>)
    ensures
        spec_matches(text, Seq::<Seq<char>>::empty()).len() == 0,
        spec_is_safe(text, Seq::<Seq<char>>::empty()),
{
    reveal_with_fuel(Seq::filter, 1);
}

/// A token of the forbidden list is reported exactly when it occurs in the
/// text as a literal substring.
pub proof fn lemma_reported_iff_found(text: Seq<char>, forbidden: Seq<Seq<char>>, t: Seq<char>)
    requires
        forbidden.contains(t),
    ensures
        spec_matches(text, forbidden).contains(t) <==> is_substring_of(t, text),
{
    broadcast use vstd::seq_lib::group_filter_ensures;

    let pred = found_in(text);
    let matched = spec_matches(text, forbidden);
    if matched.contains(t) {
        let j = choose|j: int| 0 <= j < matched.len() && matched[j] == t;
        assert(pred(matched[j]));
    }
    if is_substring_of(t, text) {
        let i = choose|i: int| 0 <= i < forbidden.len() && forbidden[i] == t;
        assert(pred(forbidden[i]));
        assert(matched.contains(forbidden[i]));
    }
}

/// Scanning is deterministic: the scanner's contract pins both components of
/// the result to a function of the inputs alone, so two calls on identical
/// inputs yield identical results.
pub proof fn lemma_scan_deterministic(
    text: Seq<char>,
    forbidden: Seq<Seq<char>>,
    safe1: bool,
    matches1: Seq<Seq<char>>,
    safe2: bool,
    matches2: Seq<Seq<char>>,
)
    requires
        matches1 == spec_matches(text, forbidden),
        safe1 == spec_is_safe(text, forbidden),
        matches2 == spec_matches(text, forbidden),
        safe2 == spec_is_safe(text, forbidden),
    ensures
        matches1 == matches2,
        safe1 == safe2,
{
}

} // verus!
