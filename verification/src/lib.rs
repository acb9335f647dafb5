//! A per-tag segment allocator: clients draw strictly increasing 64-bit ids
//! for named business tags. Contiguous ranges (segments) are reserved from a
//! durable store and served from a double-buffered in-memory allocator, so
//! that one store round-trip amortizes over `step` issued ids.

pub mod api;
pub mod config;
pub mod id_generator;
pub mod models;
pub mod store;

use vstd::prelude::*;

verus! {

/// Every element of `s` is strictly smaller than its successors.
pub open spec fn strictly_increasing(s: Seq<u64>) -> bool {
    forall|i: int, j: int| 0 <= i < j < s.len() ==> s[i] < s[j]
}

/// Every element of `s` lies strictly below `bound`.
pub open spec fn all_below(s: Seq<u64>, bound: u64) -> bool {
    forall|i: int| 0 <= i < s.len() ==> s[i] < bound
}

/// The `k` consecutive ids starting at `lo`.
pub open spec fn id_range(lo: u64, k: nat) -> Seq<u64> {
    Seq::new(k, |i: int| (lo + i) as u64)
}

/// The set of ids in the half-open range `[lo, hi)`.
pub open spec fn range_set(lo: u64, hi: u64) -> Set<u64> {
    Set::new(|x: u64| lo <= x < hi)
}

/// `x` lies in one of the half-open ranges of `rs`.
pub open spec fn in_ranges(rs: Seq<(u64, u64)>, x: u64) -> bool {
    exists|i: int| 0 <= i < rs.len() && (#[trigger] rs[i]).0 <= x < rs[i].1
}

/// No range of `rs1` overlaps a range of `rs2`.
pub open spec fn ranges_disjoint(rs1: Seq<(u64, u64)>, rs2: Seq<(u64, u64)>) -> bool {
    forall|i: int, j: int|
        0 <= i < rs1.len() && 0 <= j < rs2.len() ==> ((#[trigger] rs1[i]).1
            <= (#[trigger] rs2[j]).0 || rs2[j].1 <= rs1[i].0)
}

/// Consecutive runs of ids concatenate into one longer run.
pub proof fn lemma_id_range_concat(lo: u64, a: nat, b: nat)
    requires
        lo + a + b <= u64::MAX,
    ensures
        id_range(lo, a) + id_range((lo + a) as u64, b) == id_range(lo, a + b),
{
    assert(id_range(lo, a) + id_range((lo + a) as u64, b) =~= id_range(lo, a + b));
}

/// An id inside some range of `rs` is still inside one after `rs` grows.
pub proof fn lemma_in_ranges_push(rs: Seq<(u64, u64)>, r: (u64, u64), x: u64)
    requires
        in_ranges(rs, x),
    ensures
        in_ranges(rs.push(r), x),
{
    let i = choose|i: int| 0 <= i < rs.len() && (#[trigger] rs[i]).0 <= x < rs[i].1;
    assert(rs.push(r)[i] == rs[i]);
}

/// A strictly increasing emission sequence never repeats an id: within one
/// process, no two ids handed out for one tag are equal.
pub proof fn lemma_no_duplicates(s: Seq<u64>)
    requires
        strictly_increasing(s),
    ensures
        forall|i: int, j: int|
            0 <= i < s.len() && 0 <= j < s.len() && i != j ==> s[i] != s[j],
{
}

/// Appending a block of ids that all sit at or above a bound dominating `s`
/// keeps the whole sequence strictly increasing.
pub proof fn lemma_append_increasing(s: Seq<u64>, t: Seq<u64>, bound: u64)
    requires
        strictly_increasing(s),
        strictly_increasing(t),
        all_below(s, bound),
        forall|i: int| 0 <= i < t.len() ==> bound <= #[trigger] t[i],
    ensures
        strictly_increasing(s + t),
{
    assert forall|i: int, j: int| 0 <= i < j < (s + t).len() implies (s + t)[i] < (s + t)[j] by {
        if j < s.len() {
            assert(s[i] < s[j]);
        } else if i >= s.len() {
            assert(t[i - s.len()] < t[j - s.len()]);
        } else {
            assert(s[i] < bound);
            assert(bound <= t[j - s.len()]);
        }
    }
}

/// Every suffix of a strictly increasing sequence is strictly increasing.
pub proof fn lemma_increasing_suffix(s: Seq<u64>, k: int)
    requires
        strictly_increasing(s),
        0 <= k <= s.len(),
    ensures
        strictly_increasing(s.skip(k)),
{
    assert forall|i: int, j: int| 0 <= i < j < s.skip(k).len() implies s.skip(k)[i] < s.skip(
        k,
    )[j] by {
        assert(s.skip(k)[i] == s[k + i]);
        assert(s.skip(k)[j] == s[k + j]);
    }
}

} // verus!
