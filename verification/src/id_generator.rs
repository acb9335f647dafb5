//! The per-tag issuance engine. An `IdSegment` serves ids from a reserved
//! range at memory speed; a `SegmentBuffer` keeps two slots of them (one
//! active, one standby) so that reserving the next range can overlap with
//! consumption of the current one; an `IdGenerator` maps each business tag to
//! its buffer, materializing one on first use.

use vstd::prelude::*;

use crate::models::IdError;
use crate::store::{DrsModel, RowModel, budget_ok};
use crate::{all_below, id_range, in_ranges, lemma_in_ranges_push, lemma_increasing_suffix, ranges_disjoint, strictly_increasing};

verus! {

broadcast use vstd::string::to_string_from_display_ensures_for_str;

/// A contiguous reserved range in memory: ids `[next_id, max_id)` are still
/// unissued; `step` records the size the range had when installed.
#[derive(Clone, Copy, Debug)]
pub struct IdSegment {
    pub max_id: u64,
    pub step: u64,
    pub next_id: u64,
}

impl IdSegment {
    /// The cursor never passes the exclusive ceiling.
    pub open spec fn wf(self) -> bool {
        self.next_id <= self.max_id
    }

    /// Ids still available in this segment.
    pub open spec fn avail(self) -> int {
        self.max_id - self.next_id
    }

    /// A fresh segment covering `[initial_id, initial_id + step)`.
    pub fn new(initial_id: u64, step: u64) -> (r: IdSegment)
        requires
            initial_id + step <= u64::MAX,
        ensures
            r.next_id == initial_id,
            r.step == step,
            r.max_id == initial_id + step,
            r.wf(),
    {
        IdSegment { max_id: initial_id + step, step, next_id: initial_id }
    }
}

/// Ids still available in a slot.
pub open spec fn slot_avail(s: Option<IdSegment>) -> int {
    match s {
        Some(a) => a.avail(),
        None => 0,
    }
}

/// The double-buffered per-tag allocator. One slot is active (serving ids),
/// the other is standby (empty, being refilled, or pre-filled). The ghost
/// `emitted` sequence records every id ever claimed from this buffer, in
/// order; `frontier` is a concrete lower bound on every id the buffer may
/// still issue, so a refill can be checked against it at run time.
pub struct SegmentBuffer {
    biz_tag: String,
    slot0: Option<IdSegment>,
    slot1: Option<IdSegment>,
    index: usize,
    refill0: bool,
    refill1: bool,
    frontier: u64,
    emitted: Ghost<Seq<u64>>,
    owned: Ghost<Seq<(u64, u64)>>,
}

/// Every range the store granted between `res_pre` and `res_post` served at
/// least one id of the batch `ids`: no range was reserved beyond the demand.
/// Some id of `ids` lies inside the half-open range `r`.
pub open spec fn range_served(r: (u64, u64), ids: Seq<u64>) -> bool {
    exists|p: int| 0 <= p < ids.len() && r.0 <= #[trigger] ids[p] && ids[p] < r.1
}

pub open spec fn batch_covers(
    res_pre: Seq<(u64, u64)>,
    res_post: Seq<(u64, u64)>,
    ids: Seq<u64>,
) -> bool {
    forall|q: int|
        res_pre.len() <= q < res_post.len() ==> range_served(#[trigger] res_post[q], ids)
}

/// Every id the segment may still issue lies inside one of the ranges `rs`.
pub open spec fn seg_covered(rs: Seq<(u64, u64)>, s: IdSegment) -> bool {
    exists|i: int| 0 <= i < rs.len() && (#[trigger] rs[i]).0 <= s.next_id && s.max_id <= rs[i].1
}

impl SegmentBuffer {
    /// The tag this buffer serves.
    pub closed spec fn tag(self) -> Seq<char> {
        self.biz_tag@
    }

    /// Every id this buffer has claimed so far, in claim order.
    pub closed spec fn emitted_ids(self) -> Seq<u64> {
        self.emitted@
    }

    /// The ranges this buffer has ever had installed: everything it emits
    /// comes out of these, and of no other ids.
    pub closed spec fn owned_ranges(self) -> Seq<(u64, u64)> {
        self.owned@
    }

    /// The contents of the physical slot `i`.
    pub closed spec fn slot_of(self, i: int) -> Option<IdSegment> {
        if i == 0 {
            self.slot0
        } else {
            self.slot1
        }
    }

    /// The refill-in-flight guard of the physical slot `i`.
    pub closed spec fn flag_of(self, i: int) -> bool {
        if i == 0 {
            self.refill0
        } else {
            self.refill1
        }
    }

    /// The index of the active slot.
    pub closed spec fn index_of(self) -> int {
        self.index as int
    }

    /// The index of the standby slot.
    pub open spec fn standby_index(self) -> int {
        1 - self.index_of()
    }

    /// The segment currently serving ids, if any.
    pub open spec fn active_seg(self) -> Option<IdSegment> {
        self.slot_of(self.index_of())
    }

    /// The standby slot's segment, if any.
    pub open spec fn standby_seg(self) -> Option<IdSegment> {
        self.slot_of(self.standby_index())
    }

    /// Whether a refill of the standby slot is in flight.
    pub open spec fn standby_refilling(self) -> bool {
        self.flag_of(self.standby_index())
    }

    /// The lowest id this buffer may still issue.
    pub closed spec fn frontier_of(self) -> u64 {
        self.frontier
    }

    /// The active slot holds a non-exhausted segment.
    pub open spec fn active_is_ready(self) -> bool {
        match self.active_seg() {
            Some(a) => a.next_id < a.max_id,
            None => false,
        }
    }

    /// Ids sitting in the two slots, not yet claimed.
    pub open spec fn buffered(self) -> int {
        slot_avail(self.slot_of(0)) + slot_avail(self.slot_of(1))
    }

    /// The buffer is flush with the store `m`: the ids it will serve run
    /// consecutively from its cursor up to the store's reservation frontier,
    /// with no reserved-but-dropped ids in between. A cold buffer is flush,
    /// and issuance keeps a flush buffer flush.
    pub open spec fn flush_with(self, m: Map<Seq<char>, RowModel>) -> bool {
        match (self.active_seg(), self.standby_seg()) {
            (None, None) => true,
            (Some(a), None) => a.max_id == m[self.tag()].max_id,
            (None, Some(s)) => s.max_id == m[self.tag()].max_id,
            (Some(a), Some(s)) => a.max_id == s.next_id && s.max_id == m[self.tag()].max_id,
        }
    }

    /// The next id this buffer will serve: the active cursor if it can still
    /// serve, else the standby's cursor, else the store's frontier.
    pub open spec fn next_cursor(self, m: Map<Seq<char>, RowModel>) -> u64 {
        match self.active_seg() {
            Some(a) => if a.next_id < a.max_id {
                a.next_id
            } else {
                match self.standby_seg() {
                    Some(s) => s.next_id,
                    None => m[self.tag()].max_id,
                }
            },
            None => match self.standby_seg() {
                Some(s) => s.next_id,
                None => m[self.tag()].max_id,
            },
        }
    }

    /// The buffer invariant.
    ///
    /// - the emission history is strictly increasing (per-process
    ///   monotonicity), and every issued id lies strictly below the cursor of
    ///   every installed segment and below `frontier`;
    /// - when both slots are full the active segment sits entirely below the
    ///   standby one, so a swap keeps emission increasing;
    /// - the standby slot is never exhausted: a drained segment is discarded
    ///   at swap time, and only fresh segments are installed.
    pub closed spec fn wf(self) -> bool {
        &&& self.index <= 1
        &&& (self.slot0 matches Some(s) ==> s.wf() && all_below(self.emitted@, s.next_id))
        &&& (self.slot1 matches Some(s) ==> s.wf() && all_below(self.emitted@, s.next_id))
        &&& strictly_increasing(self.emitted@)
        &&& all_below(self.emitted@, self.frontier)
        &&& (match (self.active_seg(), self.standby_seg()) {
            (Some(a), Some(s)) => a.max_id <= s.next_id,
            _ => true,
        })
        &&& (self.standby_seg() matches Some(s) ==> s.next_id < s.max_id)
        &&& (forall|p: int|
            0 <= p < self.emitted@.len() ==> in_ranges(self.owned@, #[trigger] self.emitted@[p]))
        &&& (self.slot0 matches Some(s) ==> seg_covered(self.owned@, s))
        &&& (self.slot1 matches Some(s) ==> seg_covered(self.owned@, s))
    }

    /// The buffer agrees with the durable store: its tag has a row, every
    /// installed segment lies at or below the row's reservation frontier, and
    /// so does the buffer's own frontier.
    pub closed spec fn coupled(self, m: Map<Seq<char>, RowModel>) -> bool {
        &&& m.contains_key(self.tag())
        &&& (self.slot0 matches Some(s) ==> s.max_id <= m[self.tag()].max_id)
        &&& (self.slot1 matches Some(s) ==> s.max_id <= m[self.tag()].max_id)
        &&& self.frontier <= m[self.tag()].max_id
    }

    /// A fresh buffer for `biz_tag`: both slots empty, nothing emitted. It is
    /// coupled with any store that has a row for the tag.
    pub fn new(biz_tag: String) -> (r: SegmentBuffer)
        ensures
            r.wf(),
            r.tag() == biz_tag@,
            r.emitted_ids() == Seq::<u64>::empty(),
            r.owned_ranges() == Seq::<(u64, u64)>::empty(),
            r.active_seg() is None,
            r.standby_seg() is None,
            !r.standby_refilling(),
            forall|m: Map<Seq<char>, RowModel>|
                m.contains_key(biz_tag@) ==> #[trigger] r.coupled(m),
    {
        SegmentBuffer {
            biz_tag,
            slot0: None,
            slot1: None,
            index: 0,
            refill0: false,
            refill1: false,
            frontier: 0,
            emitted: Ghost(Seq::empty()),
            owned: Ghost(Seq::empty()),
        }
    }

    /// The buffer's tag, for registry lookup.
    pub fn tag_name(&self) -> (r: &String)
        ensures
            r@ == self.tag(),
    {
        &self.biz_tag
    }

    /// Whether the active slot can serve at least one id right now.
    pub fn active_ready(&self) -> (r: bool)
        ensures
            r == self.active_is_ready(),
    {
        let seg = if self.index == 0 {
            self.slot0
        } else {
            self.slot1
        };
        match seg {
            Some(a) => a.next_id < a.max_id,
            None => false,
        }
    }

    /// The fast path: claim up to `want` ids from the active segment by
    /// advancing its cursor in one step. Returns the claimed ids, exactly
    /// `min(want, available)` of them, consecutive from the old cursor; an
    /// empty or missing active segment yields none and changes nothing.
    pub fn claim_from_active(&mut self, want: usize) -> (ids: Vec<u64>)
        requires
            old(self).wf(),
        ensures
            final(self).wf(),
            final(self).tag() == old(self).tag(),
            final(self).index_of() == old(self).index_of(),
            final(self).standby_seg() == old(self).standby_seg(),
            final(self).flag_of(0) == old(self).flag_of(0),
            final(self).flag_of(1) == old(self).flag_of(1),
            final(self).owned_ranges() == old(self).owned_ranges(),
            final(self).emitted_ids() == old(self).emitted_ids() + ids@,
            strictly_increasing(ids@),
            ids@.len() <= want,
            match old(self).active_seg() {
                Some(a) => {
                    &&& ids@.len() == vstd::math::min(want as int, a.avail())
                    &&& ids@ == id_range(a.next_id, ids@.len())
                    &&& final(self).active_seg() == (Some(
                        IdSegment {
                            max_id: a.max_id,
                            step: a.step,
                            next_id: (a.next_id + ids@.len()) as u64,
                        },
                    ))
                    &&& final(self).frontier_of() == (a.next_id + ids@.len()) as u64
                },
                None => ids@ == Seq::<u64>::empty() && *final(self) == *old(self),
            },
    {
        let seg = if self.index == 0 {
            self.slot0
        } else {
            self.slot1
        };
        match seg {
            None => Vec::new(),
            Some(a) => {
                let rem: u64 = a.max_id - a.next_id;
                let want64: u64 = want as u64;
                let k: u64 = if want64 <= rem {
                    want64
                } else {
                    rem
                };
                let mut ids: Vec<u64> = Vec::new();
                let mut j: u64 = 0;
                while j < k
                    invariant
                        j <= k,
                        k <= rem,
                        rem == a.max_id - a.next_id,
                        a.next_id + rem <= u64::MAX,
                        ids@ == id_range(a.next_id, j as nat),
                    decreases k - j,
                {
                    ids.push(a.next_id + j);
                    j = j + 1;
                    proof {
                        assert(ids@ =~= id_range(a.next_id, j as nat));
                    }
                }
                let new_next = a.next_id + k;
                let updated = IdSegment { max_id: a.max_id, step: a.step, next_id: new_next };
                if self.index == 0 {
                    self.slot0 = Some(updated);
                } else {
                    self.slot1 = Some(updated);
                }
                self.frontier = new_next;
                proof {
                    assert forall|p: int, q: int| 0 <= p < q < ids@.len() implies ids@[p]
                        < ids@[q] by {
                        assert(ids@[p] == a.next_id + p);
                        assert(ids@[q] == a.next_id + q);
                    }
                    assert forall|p: int| 0 <= p < ids@.len() implies a.next_id
                        <= #[trigger] ids@[p] by {
                        assert(ids@[p] == a.next_id + p);
                    }
                    crate::lemma_append_increasing(self.emitted@, ids@, a.next_id);
                }
                self.emitted = Ghost(self.emitted@ + ids@);
                proof {
                    let ghost pre = old(self).emitted@;
                    assert forall|p: int| 0 <= p < self.emitted@.len() implies
                        #[trigger] self.emitted@[p] < new_next by {
                        if p < pre.len() {
                            assert(pre[p] < a.next_id);
                        } else {
                            assert(self.emitted@[p] == ids@[p - pre.len()]);
                            assert(ids@[p - pre.len()] == a.next_id + (p - pre.len()));
                        }
                    }
                    assert(seg_covered(self.owned@, a));
                    let ghost cov = choose|i: int|
                        0 <= i < self.owned@.len() && self.owned@[i].0 <= a.next_id
                            && a.max_id <= self.owned@[i].1;
                    assert forall|p: int| 0 <= p < self.emitted@.len() implies in_ranges(
                        self.owned@,
                        #[trigger] self.emitted@[p],
                    ) by {
                        if p >= pre.len() {
                            assert(self.emitted@[p] == a.next_id + (p - pre.len()));
                            assert(self.owned@[cov].0 <= self.emitted@[p]
                                < self.owned@[cov].1);
                        }
                    }
                    assert(self.owned@[cov].0 <= updated.next_id
                        && updated.max_id <= self.owned@[cov].1);
                }
                ids
            },
        }
    }

    /// The swap: when the active slot is drained and the standby holds a
    /// ready segment, the standby becomes active and the drained segment is
    /// discarded (its slot becomes empty, awaiting the next refill). Returns
    /// whether the swap happened; when it does not, nothing changes.
    pub fn try_swap(&mut self) -> (r: bool)
        requires
            old(self).wf(),
        ensures
            final(self).wf(),
            final(self).tag() == old(self).tag(),
            final(self).emitted_ids() == old(self).emitted_ids(),
            final(self).frontier_of() == old(self).frontier_of(),
            final(self).owned_ranges() == old(self).owned_ranges(),
            r == (!old(self).active_is_ready() && old(self).standby_seg() is Some),
            if r {
                &&& final(self).index_of() == old(self).standby_index()
                &&& final(self).active_seg() == old(self).standby_seg()
                &&& final(self).standby_seg() is None
                &&& final(self).standby_refilling() == old(self).flag_of(old(self).index_of())
                &&& final(self).flag_of(0) == old(self).flag_of(0)
                &&& final(self).flag_of(1) == old(self).flag_of(1)
                &&& final(self).active_is_ready()
            } else {
                *final(self) == *old(self)
            },
    {
        let ready = self.active_ready();
        let standby_some = if self.index == 0 {
            self.slot1.is_some()
        } else {
            self.slot0.is_some()
        };
        if !ready && standby_some {
            if self.index == 0 {
                self.slot0 = None;
                self.index = 1;
            } else {
                self.slot1 = None;
                self.index = 0;
            }
            true
        } else {
            false
        }
    }

    /// Claims the standby slot for one refill task. Succeeds exactly when
    /// the standby is empty and no refill is already in flight for it: at
    /// most one refill per slot can ever be underway. On success the slot's
    /// guard is raised and its index returned; otherwise nothing changes.
    pub fn begin_refill(&mut self) -> (r: Option<usize>)
        requires
            old(self).wf(),
        ensures
            final(self).wf(),
            final(self).tag() == old(self).tag(),
            final(self).emitted_ids() == old(self).emitted_ids(),
            final(self).frontier_of() == old(self).frontier_of(),
            final(self).index_of() == old(self).index_of(),
            final(self).slot_of(0) == old(self).slot_of(0),
            final(self).slot_of(1) == old(self).slot_of(1),
            final(self).owned_ranges() == old(self).owned_ranges(),
            match r {
                Some(t) => {
                    &&& t as int == old(self).standby_index()
                    &&& old(self).standby_seg() is None
                    &&& !old(self).standby_refilling()
                    &&& final(self).standby_refilling()
                    &&& final(self).flag_of(old(self).index_of()) == old(self).flag_of(
                        old(self).index_of(),
                    )
                },
                None => {
                    &&& *final(self) == *old(self)
                    &&& (old(self).standby_seg() is Some || old(self).standby_refilling())
                },
            },
    {
        let t: usize = if self.index == 0 {
            1
        } else {
            0
        };
        let standby_none = if t == 0 {
            self.slot0.is_none()
        } else {
            self.slot1.is_none()
        };
        let flag = if t == 0 {
            self.refill0
        } else {
            self.refill1
        };
        if standby_none && !flag {
            if t == 0 {
                self.refill0 = true;
            } else {
                self.refill1 = true;
            }
            Some(t)
        } else {
            None
        }
    }

    /// The conditions under which a reserved range `[lo, hi)` may be
    /// published into slot `target`: the slot is the standby, its refill
    /// guard is up, it is empty, the range is non-empty, and the range lies
    /// at or above everything this buffer has issued or installed.
    pub open spec fn install_ok(self, target: int, lo: u64, hi: u64) -> bool {
        &&& target == self.standby_index()
        &&& self.standby_refilling()
        &&& self.standby_seg() is None
        &&& lo < hi
        &&& self.frontier_of() <= lo
        &&& (self.active_seg() matches Some(a) ==> a.max_id <= lo)
    }

    /// Publishes a freshly reserved range into slot `target` and lowers the
    /// slot's refill guard. A violated precondition — installing over a live
    /// segment, out of order, or without the guard — answers `Internal` and
    /// installs nothing; the guard is lowered on every exit path.
    pub fn install_segment(&mut self, target: usize, lo: u64, hi: u64) -> (r: Result<
        (),
        IdError,
    >)
        requires
            old(self).wf(),
            target <= 1,
        ensures
            final(self).wf(),
            final(self).tag() == old(self).tag(),
            final(self).emitted_ids() == old(self).emitted_ids(),
            final(self).frontier_of() == old(self).frontier_of(),
            final(self).index_of() == old(self).index_of(),
            final(self).flag_of(target as int) == false,
            final(self).flag_of(1 - target as int) == old(self).flag_of(1 - target as int),
            match r {
                Ok(()) => {
                    &&& old(self).install_ok(target as int, lo, hi)
                    &&& final(self).slot_of(target as int) == (Some(
                        IdSegment { max_id: hi, step: (hi - lo) as u64, next_id: lo },
                    ))
                    &&& final(self).slot_of(1 - target as int) == old(self).slot_of(
                        1 - target as int,
                    )
                    &&& final(self).owned_ranges() == old(self).owned_ranges().push((lo, hi))
                },
                Err(e) => {
                    &&& e == IdError::Internal
                    &&& !old(self).install_ok(target as int, lo, hi)
                    &&& final(self).slot_of(0) == old(self).slot_of(0)
                    &&& final(self).slot_of(1) == old(self).slot_of(1)
                    &&& final(self).owned_ranges() == old(self).owned_ranges()
                },
            },
    {
        let standby: usize = if self.index == 0 {
            1
        } else {
            0
        };
        let flag = if standby == 0 {
            self.refill0
        } else {
            self.refill1
        };
        let slot_free = if standby == 0 {
            self.slot0.is_none()
        } else {
            self.slot1.is_none()
        };
        let active_seg = if self.index == 0 {
            self.slot0
        } else {
            self.slot1
        };
        let active_fits = match active_seg {
            Some(a) => a.max_id <= lo,
            None => true,
        };
        let ok = target == standby && flag && slot_free && lo < hi && self.frontier <= lo
            && active_fits;
        if target == 0 {
            self.refill0 = false;
        } else {
            self.refill1 = false;
        }
        if ok {
            let seg = IdSegment { max_id: hi, step: hi - lo, next_id: lo };
            let ghost pre_owned = self.owned@;
            self.owned = Ghost(self.owned@.push((lo, hi)));
            if standby == 0 {
                self.slot0 = Some(seg);
            } else {
                self.slot1 = Some(seg);
            }
            proof {
                assert forall|p: int| 0 <= p < self.emitted@.len() implies in_ranges(
                    self.owned@,
                    #[trigger] self.emitted@[p],
                ) by {
                    lemma_in_ranges_push(pre_owned, (lo, hi), self.emitted@[p]);
                }
                assert(self.owned@[pre_owned.len() as int] == (lo, hi));
                assert(seg_covered(self.owned@, seg));
                match old(self).active_seg() {
                    Some(act) => {
                        let cov = choose|i: int|
                            0 <= i < pre_owned.len() && pre_owned[i].0 <= act.next_id
                                && act.max_id <= pre_owned[i].1;
                        assert(self.owned@[cov] == pre_owned[cov]);
                        assert(seg_covered(self.owned@, act));
                    },
                    None => {},
                }
            }
            Ok(())
        } else {
            Err(IdError::Internal)
        }
    }

    /// A refill task that failed lowers the guard of its slot and leaves it
    /// empty; the next demand will schedule another attempt.
    pub fn refill_failed(&mut self, target: usize)
        requires
            old(self).wf(),
            target <= 1,
        ensures
            final(self).wf(),
            final(self).tag() == old(self).tag(),
            final(self).emitted_ids() == old(self).emitted_ids(),
            final(self).frontier_of() == old(self).frontier_of(),
            final(self).index_of() == old(self).index_of(),
            final(self).slot_of(0) == old(self).slot_of(0),
            final(self).slot_of(1) == old(self).slot_of(1),
            final(self).owned_ranges() == old(self).owned_ranges(),
            final(self).flag_of(target as int) == false,
            final(self).flag_of(1 - target as int) == old(self).flag_of(1 - target as int),
    {
        if target == 0 {
            self.refill0 = false;
        } else {
            self.refill1 = false;
        }
    }

    /// Whether a refill of the standby slot should be scheduled now: it is
    /// empty and no refill is already in flight.
    pub fn should_schedule_refill(&self) -> (r: bool)
        requires
            self.wf(),
        ensures
            r == (self.standby_seg() is None && !self.standby_refilling()),
    {
        let standby_none = if self.index == 0 {
            self.slot1.is_none()
        } else {
            self.slot0.is_none()
        };
        let flag = if self.index == 0 {
            self.refill1
        } else {
            self.refill0
        };
        standby_none && !flag
    }

    /// Issue exactly `n` ids for this buffer's tag, reserving fresh segments
    /// from the store as slots drain. The returned batch is strictly
    /// increasing and is appended, in order, to the buffer's emission
    /// history. On failure nothing is returned (ids already claimed become an
    /// acceptable gap) and the store rows are at worst advanced. Success is
    /// owed whenever the store is healthy and the demand fits the budget:
    /// `Transient` can only surface when a store failure was pending, and
    /// otherwise only `Exhausted` is possible.
    #[verifier::rlimit(100)]
    pub fn take(&mut self, n: usize, drs: &mut DrsModel) -> (r: Result<Vec<u64>, IdError>)
        requires
            old(self).wf(),
            old(drs).wf(),
            old(self).coupled(old(drs)@),
            n >= 1,
        ensures
            final(self).wf(),
            final(drs).wf(),
            final(self).coupled(final(drs)@),
            final(self).tag() == old(self).tag(),
            final(drs)@.dom() == old(drs)@.dom(),
            forall|k: Seq<char>|
                old(drs)@.contains_key(k) && k != old(self).tag() ==> final(drs)@[k] == old(
                    drs,
                )@[k],
            final(drs)@[old(self).tag()].step == old(drs)@[old(self).tag()].step,
            final(drs)@[old(self).tag()].initial == old(drs)@[old(self).tag()].initial,
            old(drs)@[old(self).tag()].max_id <= final(drs)@[old(self).tag()].max_id,
            final(drs).pending_failure() ==> old(drs).pending_failure(),
            old(self).owned_ranges().is_prefix_of(final(self).owned_ranges()),
            final(drs)@[old(self).tag()].reserved == old(drs)@[old(self).tag()].reserved
                + final(self).owned_ranges().skip(old(self).owned_ranges().len() as int),
            final(drs)@[old(self).tag()].max_id == old(drs)@[old(self).tag()].max_id
                + (final(self).owned_ranges().len() - old(self).owned_ranges().len())
                    * old(drs)@[old(self).tag()].step,
            match r {
                Ok(ids) => {
                    &&& ids@.len() == n
                    &&& strictly_increasing(ids@)
                    &&& final(self).emitted_ids() == old(self).emitted_ids() + ids@
                    &&& (old(drs).pending_failure() ==> n as int <= old(self).buffered())
                    &&& (old(self).flush_with(old(drs)@) ==> ids@ == id_range(
                        old(self).next_cursor(old(drs)@),
                        n as nat,
                    ) && final(self).flush_with(final(drs)@))
                    &&& batch_covers(
                        old(drs)@[old(self).tag()].reserved,
                        final(drs)@[old(self).tag()].reserved,
                        ids@,
                    )
                },
                Err(e) => {
                    &&& (e == IdError::Transient || e == IdError::Exhausted)
                    &&& (e == IdError::Transient <==> old(drs).pending_failure())
                    &&& (e == IdError::Transient ==> !final(drs).pending_failure())
                    &&& (e == IdError::Exhausted ==> final(drs)@[old(self).tag()].max_id
                        + final(drs)@[old(self).tag()].step > u64::MAX)
                    &&& old(self).emitted_ids().is_prefix_of(final(self).emitted_ids())
                },
            },
            (n as int <= old(self).buffered() || (!old(drs).pending_failure() && budget_ok(
                old(drs)@,
                old(self).tag(),
                n as int,
                old(self).buffered(),
            ))) ==> r is Ok,
    {
        let ghost tag0 = self.tag();
        let ghost m0 = drs@;
        let ghost p0 = drs.pending_failure();
        let ghost pre_emitted = self.emitted_ids();
        let ghost pre_owned = self.owned_ranges();
        let ghost stp0: int = m0[tag0].step as int;
        let ghost have0: int = self.buffered();
        let ghost fl0: bool = self.flush_with(m0);
        let ghost start: u64 = self.next_cursor(m0);
        let ghost h: bool = n as int <= have0 || (!p0 && budget_ok(m0, tag0, n as int, have0));
        proof {
            assert(pre_owned.subrange(0, pre_owned.len() as int) =~= pre_owned);
            assert(pre_owned.skip(pre_owned.len() as int) =~= Seq::<(u64, u64)>::empty());
            assert(m0[tag0].reserved + Seq::<(u64, u64)>::empty() =~= m0[tag0].reserved);
            assert(Seq::<u64>::empty() =~= id_range(start, 0));
        }
        let mut out: Vec<u64> = Vec::new();
        while out.len() < n
            invariant
                tag0 == old(self).tag(),
                m0 == old(drs)@,
                p0 == old(drs).pending_failure(),
                pre_emitted == old(self).emitted_ids(),
                pre_owned == old(self).owned_ranges(),
                pre_owned.is_prefix_of(self.owned_ranges()),
                stp0 == m0[tag0].step,
                have0 == old(self).buffered(),
                fl0 == old(self).flush_with(m0),
                start == old(self).next_cursor(m0),
                self.wf(),
                drs.wf(),
                self.coupled(drs@),
                self.tag() == tag0,
                n >= 1,
                out@.len() <= n,
                self.emitted_ids() == pre_emitted + out@,
                strictly_increasing(out@),
                drs@.dom() == m0.dom(),
                forall|k: Seq<char>|
                    m0.contains_key(k) && k != tag0 ==> drs@[k] == m0[k],
                drs@[tag0].step == m0[tag0].step,
                drs@[tag0].initial == m0[tag0].initial,
                m0[tag0].max_id <= drs@[tag0].max_id,
                drs.pending_failure() == p0,
                p0 ==> out@.len() + self.buffered() == have0,
                drs@[tag0].reserved == m0[tag0].reserved + self.owned_ranges().skip(
                    pre_owned.len() as int,
                ),
                drs@[tag0].max_id == m0[tag0].max_id + (self.owned_ranges().len()
                    - pre_owned.len()) * stp0,
                batch_covers(m0[tag0].reserved, drs@[tag0].reserved, out@),
                fl0 ==> self.flush_with(drs@),
                fl0 ==> (start + out@.len() <= u64::MAX && self.next_cursor(drs@) == (start
                    + out@.len()) as u64 && out@ == id_range(start, out@.len() as nat)),
                h ==> (n - out@.len() <= self.buffered() || (!drs.pending_failure()
                    && budget_ok(drs@, tag0, n - out@.len(), self.buffered()))),
                h == (n as int <= have0 || (!p0 && budget_ok(m0, tag0, n as int, have0))),
            decreases n - out@.len(),
        {
            let ghost stp: int = drs@[tag0].step as int;
            let ghost out_iter = out@;
            let ghost res_iter = drs@[tag0].reserved;
            let ghost owned_iter = self.owned_ranges();
            proof {
                drs.lemma_wf_inv();
                assert(stp >= 1);
            }
            if !self.active_ready() {
                if !self.try_swap() {
                    // the active slot is drained and the standby is empty:
                    // reserve the next segment and publish it into the standby
                    let target: usize = if self.index == 0 {
                        1
                    } else {
                        0
                    };
                    let _started = self.begin_refill();
                    let ghost need: int = n - out@.len();
                    let ghost m_pre = drs@;
                    match drs.reserve(self.biz_tag.as_str()) {
                        Err(e) => {
                            self.refill_failed(target);
                            proof {
                                assert(m_pre.contains_key(tag0));
                                assert(e != IdError::UnknownTag);
                                if h {
                                    assert(self.buffered() == 0);
                                    assert(need >= 1);
                                    assert(m_pre[tag0].max_id + need * stp <= u64::MAX);
                                    assert((need - 1) * stp >= 0) by (nonlinear_arith)
                                        requires
                                            need >= 1,
                                            stp >= 1,
                                    ;
                                    assert(need * stp == stp + (need - 1) * stp)
                                        by (nonlinear_arith);
                                    assert(m_pre[tag0].max_id + m_pre[tag0].step <= u64::MAX);
                                    assert(false);
                                }
                                assert((pre_emitted + out@).subrange(
                                    0,
                                    pre_emitted.len() as int,
                                ) =~= pre_emitted);
                            }
                            return Err(e);
                        },
                        Ok(range_pair) => {
                            let lo = range_pair.0;
                            let hi = range_pair.1;
                            proof {
                                assert(self.install_ok(target as int, lo, hi));
                            }
                            let res = self.install_segment(target, lo, hi);
                            match res {
                                Ok(()) => {},
                                Err(e2) => {
                                    proof {
                                        assert(false);
                                    }
                                    return Err(e2);
                                },
                            }
                            proof {
                                assert(drs@[tag0].reserved == res_iter.push((lo, hi)));
                                assert(drs@[tag0].reserved[res_iter.len() as int] == (lo, hi));
                                assert(self.owned_ranges() == owned_iter.push((lo, hi)));
                                assert(self.owned_ranges().subrange(
                                    0,
                                    pre_owned.len() as int,
                                ) =~= pre_owned);
                                assert(self.owned_ranges().skip(pre_owned.len() as int)
                                    =~= owned_iter.skip(pre_owned.len() as int).push((lo, hi)));
                                assert(m0[tag0].reserved + owned_iter.skip(
                                    pre_owned.len() as int,
                                ).push((lo, hi)) =~= (m0[tag0].reserved + owned_iter.skip(
                                    pre_owned.len() as int,
                                )).push((lo, hi)));
                                let d = owned_iter.len() - pre_owned.len();
                                assert((d + 1) * stp == d * stp + stp) by (nonlinear_arith);
                            }
                            let sw = self.try_swap();
                            proof {
                                assert(sw);
                                if h {
                                    // one reservation keeps the budget: the new
                                    // segment holds `step` ids and the row advanced
                                    // by the same amount
                                    assert(self.buffered() == stp);
                                    if need > stp {
                                        assert(m_pre[tag0].max_id + need * stp <= u64::MAX);
                                        assert(stp + (need - stp) * stp <= need * stp)
                                            by (nonlinear_arith)
                                            requires
                                                stp >= 1,
                                                need > stp,
                                        ;
                                    }
                                }
                            }
                        },
                    }
                }
            }
            let want = n - out.len();
            let ghost a_claim = self.active_seg()->0;
            let ghost cursor_claim = self.next_cursor(drs@);
            let mut chunk = self.claim_from_active(want);
            let ghost chunk_v = chunk@;
            proof {
                assert(chunk_v.len() >= 1);
            }
            out.append(&mut chunk);
            proof {
                assert(self.emitted_ids() =~= pre_emitted + out@);
                lemma_increasing_suffix(self.emitted_ids(), pre_emitted.len() as int);
                assert((pre_emitted + out@).skip(pre_emitted.len() as int) =~= out@);
                assert(chunk_v[0] == a_claim.next_id);
                if fl0 {
                    assert(cursor_claim == (start + out_iter.len()) as u64);
                    assert(a_claim.next_id == cursor_claim);
                    assert(a_claim.next_id + chunk_v.len() <= a_claim.max_id);
                    crate::lemma_id_range_concat(
                        start,
                        out_iter.len() as nat,
                        chunk_v.len() as nat,
                    );
                    assert(out@ == id_range(start, out@.len() as nat));
                    assert(self.next_cursor(drs@) == (start + out@.len()) as u64);
                    assert(self.flush_with(drs@));
                }
                if p0 {
                    assert(out@.len() + self.buffered() == have0);
                }
                assert forall|q: int|
                    m0[tag0].reserved.len() <= q < drs@[tag0].reserved.len() implies
                    range_served(#[trigger] drs@[tag0].reserved[q], out@) by {
                    assert(res_iter.len() <= drs@[tag0].reserved.len());
                    if q < res_iter.len() {
                        assert(drs@[tag0].reserved[q] == res_iter[q]);
                        assert(range_served(res_iter[q], out_iter));
                        let wp = choose|wp: int|
                            0 <= wp < out_iter.len() && res_iter[q].0 <= #[trigger] out_iter[wp]
                                && out_iter[wp] < res_iter[q].1;
                        assert(out@[wp] == out_iter[wp]);
                    } else {
                        // the range reserved this iteration served the first id
                        // claimed after the refill
                        assert(q == res_iter.len());
                        assert(drs@[tag0].reserved[q].0 == a_claim.next_id);
                        assert(out@[out_iter.len() as int] == chunk_v[0]);
                        assert(chunk_v[0] < drs@[tag0].reserved[q].1);
                    }
                }
                assert(batch_covers(m0[tag0].reserved, drs@[tag0].reserved, out@));
            }
        }
        proof {
            match self.slot_of(0) {
                Some(sg) => {
                    assert(sg.wf());
                },
                None => {},
            }
            match self.slot_of(1) {
                Some(sg) => {
                    assert(sg.wf());
                },
                None => {},
            }
            assert(self.buffered() >= 0);
            if p0 {
                assert(n as int <= have0);
            }
            if fl0 {
                assert(out@ == id_range(start, n as nat));
                assert(self.flush_with(drs@));
            }
        }
        Ok(out)
    }

    /// The original entry point: `count` defaults to one id.
    pub fn get_next_id(&mut self, count: Option<usize>, drs: &mut DrsModel) -> (r: Result<
        Vec<u64>,
        IdError,
    >)
        requires
            old(self).wf(),
            old(drs).wf(),
            old(self).coupled(old(drs)@),
            (count matches Some(c) ==> c >= 1),
        ensures
            final(self).wf(),
            final(drs).wf(),
            final(self).coupled(final(drs)@),
            final(self).tag() == old(self).tag(),
            final(drs)@.dom() == old(drs)@.dom(),
            forall|k: Seq<char>|
                old(drs)@.contains_key(k) && k != old(self).tag() ==> final(drs)@[k] == old(
                    drs,
                )@[k],
            final(drs)@[old(self).tag()].step == old(drs)@[old(self).tag()].step,
            final(drs)@[old(self).tag()].initial == old(drs)@[old(self).tag()].initial,
            old(drs)@[old(self).tag()].max_id <= final(drs)@[old(self).tag()].max_id,
            final(drs).pending_failure() ==> old(drs).pending_failure(),
            old(self).owned_ranges().is_prefix_of(final(self).owned_ranges()),
            final(drs)@[old(self).tag()].reserved == old(drs)@[old(self).tag()].reserved
                + final(self).owned_ranges().skip(old(self).owned_ranges().len() as int),
            final(drs)@[old(self).tag()].max_id == old(drs)@[old(self).tag()].max_id
                + (final(self).owned_ranges().len() - old(self).owned_ranges().len())
                    * old(drs)@[old(self).tag()].step,
            match r {
                Ok(ids) => {
                    &&& ids@.len() == count.unwrap_or(1)
                    &&& strictly_increasing(ids@)
                    &&& final(self).emitted_ids() == old(self).emitted_ids() + ids@
                    &&& (old(drs).pending_failure() ==> count.unwrap_or(1) as int <= old(
                        self,
                    ).buffered())
                    &&& (old(self).flush_with(old(drs)@) ==> ids@ == id_range(
                        old(self).next_cursor(old(drs)@),
                        count.unwrap_or(1) as nat,
                    ) && final(self).flush_with(final(drs)@))
                    &&& batch_covers(
                        old(drs)@[old(self).tag()].reserved,
                        final(drs)@[old(self).tag()].reserved,
                        ids@,
                    )
                },
                Err(e) => {
                    &&& (e == IdError::Transient || e == IdError::Exhausted)
                    &&& (e == IdError::Transient <==> old(drs).pending_failure())
                    &&& (e == IdError::Transient ==> !final(drs).pending_failure())
                    &&& (e == IdError::Exhausted ==> final(drs)@[old(self).tag()].max_id
                        + final(drs)@[old(self).tag()].step > u64::MAX)
                    &&& old(self).emitted_ids().is_prefix_of(final(self).emitted_ids())
                },
            },
            (count.unwrap_or(1) as int <= old(self).buffered() || (!old(
                drs,
            ).pending_failure() && budget_ok(
                old(drs)@,
                old(self).tag(),
                count.unwrap_or(1) as int,
                old(self).buffered(),
            ))) ==> r is Ok,
    {
        let n = match count {
            Some(c) => c,
            None => 1,
        };
        self.take(n, drs)
    }
}

/// The process-wide registry: one `SegmentBuffer` per business tag,
/// materialized on first use after validating the tag against the store.
pub struct IdGenerator {
    bufs: Vec<SegmentBuffer>,
}

impl IdGenerator {
    /// Every buffer is well-formed and no two buffers serve the same tag.
    pub closed spec fn wf(self) -> bool {
        &&& forall|i: int| 0 <= i < self.bufs@.len() ==> (#[trigger] self.bufs@[i]).wf()
        &&& forall|i: int, j: int|
            0 <= i < j < self.bufs@.len() ==> self.bufs@[i].tag() != self.bufs@[j].tag()
    }

    /// Every buffer agrees with the store view `m`.
    pub closed spec fn coupled(self, m: Map<Seq<char>, RowModel>) -> bool {
        forall|i: int| 0 <= i < self.bufs@.len() ==> (#[trigger] self.bufs@[i]).coupled(m)
    }

    /// A buffer for `tag` has been materialized.
    pub closed spec fn has_buffer(self, tag: Seq<char>) -> bool {
        exists|i: int| 0 <= i < self.bufs@.len() && self.bufs@[i].tag() == tag
    }

    /// The index of the buffer serving `tag`.
    pub closed spec fn buffer_index(self, tag: Seq<char>) -> int {
        choose|i: int| 0 <= i < self.bufs@.len() && self.bufs@[i].tag() == tag
    }

    /// The ids emitted so far for `tag` by this process, in order.
    pub closed spec fn emitted_for(self, tag: Seq<char>) -> Seq<u64> {
        if self.has_buffer(tag) {
            self.bufs@[self.buffer_index(tag)].emitted_ids()
        } else {
            Seq::empty()
        }
    }

    /// An index known to carry `tag` is the buffer the registry uses for it.
    proof fn lemma_buffer_index_is(self, tag: Seq<char>, i: int)
        requires
            self.wf(),
            0 <= i < self.bufs@.len(),
            self.bufs@[i].tag() == tag,
        ensures
            self.has_buffer(tag),
            self.buffer_index(tag) == i,
            self.emitted_for(tag) == self.bufs@[i].emitted_ids(),
    {
        assert(self.has_buffer(tag));
        let j = self.buffer_index(tag);
        assert(0 <= j < self.bufs@.len() && self.bufs@[j].tag() == tag);
    }

    /// An empty registry, ready for any store.
    pub fn new() -> (r: IdGenerator)
        ensures
            r.wf(),
            forall|m: Map<Seq<char>, RowModel>| #[trigger] r.coupled(m),
            forall|t: Seq<char>| !(#[trigger] r.has_buffer(t)),
            forall|t: Seq<char>| #[trigger] r.emitted_for(t) == Seq::<u64>::empty(),
    {
        IdGenerator { bufs: Vec::new() }
    }

    /// The index of the buffer carrying `tag`, if one exists.
    fn find_buffer(&self, tag: &String) -> (r: Option<usize>)
        requires
            self.wf(),
        ensures
            match r {
                Some(i) => i < self.bufs@.len() && self.bufs@[i as int].tag() == tag@,
                None => !self.has_buffer(tag@),
            },
    {
        let mut i: usize = 0;
        while i < self.bufs.len()
            invariant
                i <= self.bufs@.len(),
                forall|j: int| 0 <= j < i ==> self.bufs@[j].tag() != tag@,
            decreases self.bufs@.len() - i,
        {
            if *self.bufs[i].tag_name() == *tag {
                return Some(i);
            }
            i = i + 1;
        }
        None
    }

    /// Issue `count` ids (default one) for `biz_tag`, materializing the
    /// buffer on first use. An unknown tag answers `UnknownTag` exactly when
    /// the store has no row for it; otherwise issuance behaves as
    /// `SegmentBuffer::take`: a strictly increasing batch of exactly the
    /// requested length, appended to the tag's emission history, with
    /// success owed whenever the store is healthy and far enough from 64-bit
    /// exhaustion.
    pub fn get_id(&mut self, biz_tag: &str, count: Option<usize>, drs: &mut DrsModel) -> (r:
        Result<Vec<u64>, IdError>)
        requires
            old(self).wf(),
            old(drs).wf(),
            old(self).coupled(old(drs)@),
            (count matches Some(c) ==> c >= 1),
        ensures
            final(self).wf(),
            final(drs).wf(),
            final(self).coupled(final(drs)@),
            final(drs)@.dom() == old(drs)@.dom(),
            forall|k: Seq<char>|
                old(drs)@.contains_key(k) && k != biz_tag@ ==> final(drs)@[k] == old(drs)@[k],
            final(drs).pending_failure() ==> old(drs).pending_failure(),
            forall|t: Seq<char>|
                t != biz_tag@ ==> #[trigger] final(self).emitted_for(t) == old(
                    self,
                ).emitted_for(t),
            forall|t: Seq<char>|
                t != biz_tag@ ==> #[trigger] final(self).has_buffer(t) == old(self).has_buffer(
                    t,
                ),
            old(self).has_buffer(biz_tag@) ==> final(self).has_buffer(biz_tag@),
            old(drs)@.contains_key(biz_tag@) ==> final(drs)@[biz_tag@].max_id == old(
                drs,
            )@[biz_tag@].max_id + (final(drs)@[biz_tag@].reserved.len() - old(
                drs,
            )@[biz_tag@].reserved.len()) * old(drs)@[biz_tag@].step,
            old(drs)@.contains_key(biz_tag@) ==> old(drs)@[biz_tag@].max_id <= final(drs)@[biz_tag@].max_id,
            match r {
                Ok(ids) => {
                    &&& ids@.len() == count.unwrap_or(1)
                    &&& strictly_increasing(ids@)
                    &&& final(self).emitted_for(biz_tag@) == old(self).emitted_for(biz_tag@)
                        + ids@
                    &&& old(drs)@.contains_key(biz_tag@)
                    &&& final(self).has_buffer(biz_tag@)
                    &&& (!old(self).has_buffer(biz_tag@) ==> ids@ == id_range(
                        old(drs)@[biz_tag@].max_id,
                        count.unwrap_or(1) as nat,
                    ))
                    &&& batch_covers(
                        old(drs)@[biz_tag@].reserved,
                        final(drs)@[biz_tag@].reserved,
                        ids@,
                    )
                },
                Err(e) => {
                    &&& (e == IdError::UnknownTag || e == IdError::Transient || e
                        == IdError::Exhausted)
                    &&& (e == IdError::UnknownTag <==> !old(drs)@.contains_key(biz_tag@))
                    &&& (e == IdError::UnknownTag ==> *final(self) == *old(self) && final(drs)@ == old(drs)@)
                    &&& (e == IdError::Transient <==> (old(drs).pending_failure() && old(
                        drs,
                    )@.contains_key(biz_tag@)))
                    &&& (e == IdError::Transient ==> !final(drs).pending_failure())
                    &&& (e == IdError::Exhausted ==> final(drs)@[biz_tag@].max_id + final(drs)@[biz_tag@].step > u64::MAX)
                    &&& old(self).emitted_for(biz_tag@).is_prefix_of(
                        final(self).emitted_for(biz_tag@),
                    )
                },
            },
            (old(drs)@.contains_key(biz_tag@) && old(drs).pending_failure() && !old(
                self,
            ).has_buffer(biz_tag@)) ==> r is Err,
            (old(drs)@.contains_key(biz_tag@) && !old(drs).pending_failure() && old(
                drs,
            )@[biz_tag@].max_id + count.unwrap_or(1) * old(drs)@[biz_tag@].step <= u64::MAX)
                ==> r is Ok,
    {
        let key = biz_tag.to_string();
        let n: usize = match count {
            Some(c) => c,
            None => 1,
        };
        let ghost mut created: bool = false;
        let idx: usize;
        match self.find_buffer(&key) {
            Some(i) => {
                idx = i;
                proof {
                    old(self).lemma_buffer_index_is(key@, i as int);
                }
            },
            None => {
                match drs.get(biz_tag) {
                    Err(e) => {
                        proof {
                            let hist = old(self).emitted_for(biz_tag@);
                            assert(hist.subrange(0, hist.len() as int) =~= hist);
                        }
                        return Err(e);
                    },
                    Ok(_row) => {
                        let b = SegmentBuffer::new(biz_tag.to_string());
                        idx = self.bufs.len();
                        let ghost pre_bufs = self.bufs@;
                        self.bufs.push(b);
                        proof {
                            created = true;
                            assert forall|jj: int| 0 <= jj < pre_bufs.len() implies pre_bufs[jj].tag()
                                != key@ by {
                                if pre_bufs[jj].tag() == key@ {
                                    assert(old(self).has_buffer(key@));
                                }
                            }
                        }
                    },
                }
            },
        }
        let ghost mid_self = *self;
        let ghost m_mid = drs@;
        let ghost pre_hist = mid_self.bufs@[idx as int].emitted_ids();
        proof {
            mid_self.lemma_buffer_index_is(key@, idx as int);
            assert(mid_self.bufs@[idx as int].coupled(drs@));
            if created {
                assert(pre_hist == Seq::<u64>::empty());
                assert(old(self).emitted_for(biz_tag@) == Seq::<u64>::empty());
                assert(pre_hist + Seq::<u64>::empty() =~= pre_hist);
                // a fresh buffer is flush with the store and starts serving
                // at the row's reservation frontier
                assert(mid_self.bufs@[idx as int].buffered() == 0);
                assert(mid_self.bufs@[idx as int].flush_with(drs@));
                assert(mid_self.bufs@[idx as int].next_cursor(drs@) == drs@[biz_tag@].max_id);
            }
            assert(pre_hist == old(self).emitted_for(biz_tag@));
            if old(drs)@.contains_key(biz_tag@) && !old(drs).pending_failure() && old(
                drs,
            )@[biz_tag@].max_id + (n as int) * old(drs)@[biz_tag@].step <= u64::MAX {
                let have = mid_self.bufs@[idx as int].buffered();
                let stp = drs@[biz_tag@].step as int;
                drs.lemma_wf_inv();
                if n as int > have {
                    assert((n as int - have) * stp <= (n as int) * stp) by (nonlinear_arith)
                        requires
                            have >= 0,
                            stp >= 0,
                            n as int >= 0,
                    ;
                }
                assert(budget_ok(drs@, biz_tag@, n as int, have));
            }
        }
        let buf = &mut self.bufs[idx];
        let res = buf.take(n, drs);
        proof {
            let fin = self.bufs@[idx as int];
            assert(self.bufs@ == mid_self.bufs@.update(idx as int, fin));
            assert forall|i: int| 0 <= i < self.bufs@.len() implies (#[trigger] self.bufs@[i]).wf() by {
                if i != idx as int {
                    assert(self.bufs@[i] == mid_self.bufs@[i]);
                }
            }
            assert forall|i: int, j: int| 0 <= i < j < self.bufs@.len() implies self.bufs@[i].tag() != self.bufs@[j].tag() by {
                assert(mid_self.bufs@[i].tag() != mid_self.bufs@[j].tag());
            }
            assert forall|i: int| 0 <= i < self.bufs@.len() implies (#[trigger] self.bufs@[i]).coupled(drs@) by {
                if i != idx as int {
                    assert(self.bufs@[i] == mid_self.bufs@[i]);
                    assert(mid_self.bufs@[i].tag() != mid_self.bufs@[idx as int].tag());
                    lemma_coupled_stable(self.bufs@[i], m_mid, drs@);
                }
            }
            self.lemma_buffer_index_is(key@, idx as int);
            assert forall|t: Seq<char>| t != biz_tag@ implies #[trigger] self.emitted_for(t)
                == old(self).emitted_for(t) by {
                assert forall|j: int|
                    0 <= j < self.bufs@.len() && #[trigger] self.bufs@[j].tag() == t implies j
                    < old(self).bufs@.len() && old(self).bufs@[j] == self.bufs@[j] by {
                    assert(j != idx as int);
                    assert(self.bufs@[j] == mid_self.bufs@[j]);
                }
                assert forall|j: int|
                    0 <= j < old(self).bufs@.len() && #[trigger] old(self).bufs@[j].tag() == t
                    implies j < self.bufs@.len() && self.bufs@[j] == old(self).bufs@[j] by {
                    assert(mid_self.bufs@[j] == old(self).bufs@[j]);
                    assert(j != idx as int);
                }
                lemma_emitted_same(*self, *old(self), t);
            }
            assert forall|t: Seq<char>| t != biz_tag@ implies #[trigger] self.has_buffer(t)
                == old(self).has_buffer(t) by {
                assert forall|j: int|
                    0 <= j < self.bufs@.len() && #[trigger] self.bufs@[j].tag() == t implies j
                    < old(self).bufs@.len() && old(self).bufs@[j] == self.bufs@[j] by {
                    assert(j != idx as int);
                    assert(self.bufs@[j] == mid_self.bufs@[j]);
                }
                assert forall|j: int|
                    0 <= j < old(self).bufs@.len() && #[trigger] old(self).bufs@[j].tag() == t
                    implies j < self.bufs@.len() && self.bufs@[j] == old(self).bufs@[j] by {
                    assert(mid_self.bufs@[j] == old(self).bufs@[j]);
                    assert(j != idx as int);
                }
                lemma_emitted_same(*self, *old(self), t);
            }
        }
        res
    }
}

/// Two registries that hold the same buffers for a tag report the same
/// emission history for it.
proof fn lemma_emitted_same(a: IdGenerator, b: IdGenerator, t: Seq<char>)
    requires
        a.wf(),
        b.wf(),
        forall|j: int|
            0 <= j < a.bufs@.len() && #[trigger] a.bufs@[j].tag() == t ==> j < b.bufs@.len()
                && b.bufs@[j] == a.bufs@[j],
        forall|j: int|
            0 <= j < b.bufs@.len() && #[trigger] b.bufs@[j].tag() == t ==> j < a.bufs@.len()
                && a.bufs@[j] == b.bufs@[j],
    ensures
        a.emitted_for(t) == b.emitted_for(t),
        a.has_buffer(t) == b.has_buffer(t),
{
    if a.has_buffer(t) {
        let i = choose|i: int| 0 <= i < a.bufs@.len() && a.bufs@[i].tag() == t;
        a.lemma_buffer_index_is(t, i);
        b.lemma_buffer_index_is(t, i);
    } else if b.has_buffer(t) {
        let i = choose|i: int| 0 <= i < b.bufs@.len() && b.bufs@[i].tag() == t;
        assert(a.bufs@[i].tag() == t);
        assert(false);
    }
}

/// A buffer stays coupled with any store view that keeps its tag's row.
pub proof fn lemma_coupled_stable(
    b: SegmentBuffer,
    m1: Map<Seq<char>, RowModel>,
    m2: Map<Seq<char>, RowModel>,
)
    requires
        b.coupled(m1),
        m2.contains_key(b.tag()),
        m2[b.tag()] == m1[b.tag()],
    ensures
        b.coupled(m2),
{
}

/// Monotonicity per process: the ids a well-formed buffer has emitted for
/// its tag form a strictly increasing sequence.
pub proof fn lemma_emission_monotonic(sb: SegmentBuffer)
    requires
        sb.wf(),
    ensures
        strictly_increasing(sb.emitted_ids()),
{
}

/// Uniqueness within a process: a well-formed buffer never emits the same id
/// twice for its tag.
pub proof fn lemma_emission_unique(sb: SegmentBuffer)
    requires
        sb.wf(),
    ensures
        forall|i: int, j: int|
            0 <= i < sb.emitted_ids().len() && 0 <= j < sb.emitted_ids().len() && i != j
                ==> sb.emitted_ids()[i] != sb.emitted_ids()[j],
{
    crate::lemma_no_duplicates(sb.emitted_ids());
}

/// Every id a well-formed buffer has ever emitted lies inside one of the
/// ranges it owns — and those, per `take`'s contract, are exactly the ranges
/// the store granted it.
pub proof fn lemma_emitted_in_owned(sb: SegmentBuffer)
    requires
        sb.wf(),
    ensures
        forall|p: int|
            0 <= p < sb.emitted_ids().len() ==> in_ranges(
                sb.owned_ranges(),
                #[trigger] sb.emitted_ids()[p],
            ),
{
}

/// Uniqueness across processes: two allocators for one tag whose installed
/// ranges are disjoint — which is what the store's serialized reservations
/// hand out — can never emit the same id, whatever interleaving produced
/// their histories.
pub proof fn lemma_cross_buffer_uniqueness(b1: SegmentBuffer, b2: SegmentBuffer)
    requires
        b1.wf(),
        b2.wf(),
        ranges_disjoint(b1.owned_ranges(), b2.owned_ranges()),
    ensures
        forall|p: int, q: int|
            0 <= p < b1.emitted_ids().len() && 0 <= q < b2.emitted_ids().len()
                ==> b1.emitted_ids()[p] != b2.emitted_ids()[q],
{
    assert forall|p: int, q: int|
        0 <= p < b1.emitted_ids().len() && 0 <= q < b2.emitted_ids().len() implies b1.emitted_ids()[p]
        != b2.emitted_ids()[q] by {
        let x = b1.emitted_ids()[p];
        let y = b2.emitted_ids()[q];
        assert(in_ranges(b1.owned_ranges(), x));
        assert(in_ranges(b2.owned_ranges(), y));
        if x == y {
            let i = choose|i: int|
                0 <= i < b1.owned_ranges().len() && (#[trigger] b1.owned_ranges()[i]).0 <= x
                    < b1.owned_ranges()[i].1;
            let j = choose|j: int|
                0 <= j < b2.owned_ranges().len() && (#[trigger] b2.owned_ranges()[j]).0 <= y
                    < b2.owned_ranges()[j].1;
            assert(b1.owned_ranges()[i].1 <= b2.owned_ranges()[j].0 || b2.owned_ranges()[j].1
                <= b1.owned_ranges()[i].0);
            assert(false);
        }
    }
}

} // verus!
