//! The durable reservation store, modelled as a table of rows keyed by
//! business tag. `reserve` is the single serialization point: it advances a
//! row's `max_id` by exactly `step` and hands the caller ownership of the
//! half-open range `[old max_id, new max_id)`. The model keeps a ghost log of
//! every range it has handed out, so contiguity of the reservations is part
//! of the store's invariant.

use vstd::prelude::*;

use crate::models::{IdError, IdSegments};
use crate::{range_set, ranges_disjoint};

verus! {

broadcast use vstd::string::to_string_from_display_ensures_for_str;

/// The mathematical content of one row: the live columns (`max_id`, `step`)
/// together with the history the store never forgets — the id the row started
/// at and every range reserved so far.
pub ghost struct RowModel {
    pub max_id: u64,
    pub step: u64,
    pub initial: u64,
    pub reserved: Seq<(u64, u64)>,
}

/// The ranges in `rs` tile `[initial, maxid)` exactly: each range is
/// non-empty, starts where the previous one ended, and the last ends at
/// `maxid`.
pub open spec fn contiguous_from(initial: u64, rs: Seq<(u64, u64)>, maxid: u64) -> bool
    decreases rs.len(),
{
    if rs.len() == 0 {
        maxid == initial
    } else {
        &&& rs.first().0 == initial
        &&& rs.first().0 < rs.first().1
        &&& contiguous_from(rs.first().1, rs.drop_first(), maxid)
    }
}

/// The store's invariant, stated over its view: tags are non-empty, steps are
/// positive, and each row's reservation log tiles `[initial, max_id)`.
pub open spec fn drs_inv(m: Map<Seq<char>, RowModel>) -> bool {
    forall|k: Seq<char>| #[trigger] m.contains_key(k) ==> {
        &&& k.len() > 0
        &&& m[k].step >= 1
        &&& contiguous_from(m[k].initial, m[k].reserved, m[k].max_id)
    }
}

/// The row a freshly created tag starts with.
pub open spec fn fresh_row(initial_id: u64, step: u64) -> RowModel {
    RowModel { max_id: initial_id, step, initial: initial_id, reserved: Seq::empty() }
}

/// Exactly what one successful reservation does: it returns the current
/// `max_id` as `lo`, advances the row by `step` to `hi`, and appends
/// `[lo, hi)` to the row's log. Nothing else changes.
pub open spec fn reserve_transition(
    pre: Map<Seq<char>, RowModel>,
    post: Map<Seq<char>, RowModel>,
    tag: Seq<char>,
    lo: u64,
    hi: u64,
) -> bool {
    &&& pre.contains_key(tag)
    &&& lo == pre[tag].max_id
    &&& hi == lo + pre[tag].step
    &&& post == pre.insert(
        tag,
        RowModel {
            max_id: hi,
            step: pre[tag].step,
            initial: pre[tag].initial,
            reserved: pre[tag].reserved.push((lo, hi)),
        },
    )
}

/// The store can still cover a demand of `need` ids of which `have` are
/// already buffered in memory: either nothing more is owed, or reserving the
/// missing ids one step at a time stays within 64 bits.
pub open spec fn budget_ok(m: Map<Seq<char>, RowModel>, tag: Seq<char>, need: int, have: int) -> bool {
    need <= have || m[tag].max_id + (need - have) * m[tag].step <= u64::MAX
}

/// Some row in `rows` carries the tag `k`.
pub open spec fn row_exists(rows: Seq<IdSegments>, k: Seq<char>) -> bool {
    exists|i: int| 0 <= i < rows.len() && rows[i].biz_tag@ == k
}

/// The in-memory model of the durable reservation store. One row per tag;
/// `fail_next` lets a caller inject a single transient round-trip failure,
/// the way a network fault or a lost commit would surface.
pub struct DrsModel {
    rows: Vec<IdSegments>,
    fail_next: bool,
    model: Ghost<Map<Seq<char>, RowModel>>,
}

impl View for DrsModel {
    type V = Map<Seq<char>, RowModel>;

    closed spec fn view(&self) -> Map<Seq<char>, RowModel> {
        self.model@
    }
}

impl DrsModel {
    /// The table rows agree with the view, one row per tag, and the view
    /// satisfies the store invariant.
    pub closed spec fn wf(self) -> bool {
        &&& forall|i: int, j: int|
            0 <= i < j < self.rows@.len() ==> self.rows@[i].biz_tag@ != self.rows@[j].biz_tag@
        &&& forall|i: int| 0 <= i < self.rows@.len() ==> {
            &&& self.model@.contains_key(#[trigger] self.rows@[i].biz_tag@)
            &&& self.model@[self.rows@[i].biz_tag@].max_id == self.rows@[i].max_id
            &&& self.model@[self.rows@[i].biz_tag@].step == self.rows@[i].step
        }
        &&& forall|k: Seq<char>| #[trigger] self.model@.contains_key(k) ==> row_exists(
            self.rows@,
            k,
        )
        &&& drs_inv(self.model@)
    }

    /// The next reservation round-trip is doomed to fail.
    pub closed spec fn pending_failure(self) -> bool {
        self.fail_next
    }

    /// A well-formed store satisfies the open invariant over its view.
    pub proof fn lemma_wf_inv(&self)
        requires
            self.wf(),
        ensures
            drs_inv(self@),
    {
    }

    /// An empty store: no tags, no pending failure.
    pub fn new() -> (d: DrsModel)
        ensures
            d.wf(),
            d@ == Map::<Seq<char>, RowModel>::empty(),
            !d.pending_failure(),
    {
        DrsModel { rows: Vec::new(), fail_next: false, model: Ghost(Map::empty()) }
    }

    /// The index of the row carrying `tag`, if any.
    fn find_row(&self, tag: &String) -> (r: Option<usize>)
        requires
            self.wf(),
        ensures
            match r {
                Some(i) => i < self.rows@.len() && self.rows@[i as int].biz_tag@ == tag@,
                None => !self@.contains_key(tag@),
            },
    {
        let mut i: usize = 0;
        while i < self.rows.len()
            invariant
                self.wf(),
                i <= self.rows@.len(),
                forall|j: int| 0 <= j < i ==> self.rows@[j].biz_tag@ != tag@,
            decreases self.rows@.len() - i,
        {
            if self.rows[i].biz_tag == *tag {
                return Some(i);
            }
            i = i + 1;
        }
        proof {
            if self@.contains_key(tag@) {
                let w = choose|j: int| 0 <= j < self.rows@.len() && self.rows@[j].biz_tag@ == tag@;
                assert(self.rows@[w].biz_tag@ == tag@);
                assert(false);
            }
        }
        None
    }

    /// Administrative creation of a tag. Succeeds exactly when the tag is
    /// new; a collision always answers `AlreadyExists` and changes nothing.
    pub fn create(&mut self, tag: &str, initial_id: u64, step: u64) -> (r: Result<(), IdError>)
        requires
            old(self).wf(),
            step >= 1,
            tag@.len() > 0,
        ensures
            final(self).wf(),
            final(self).pending_failure() == old(self).pending_failure(),
            match r {
                Ok(()) => {
                    &&& !old(self)@.contains_key(tag@)
                    &&& final(self)@ == old(self)@.insert(tag@, fresh_row(initial_id, step))
                },
                Err(e) => {
                    &&& e == IdError::AlreadyExists
                    &&& old(self)@.contains_key(tag@)
                    &&& final(self)@ == old(self)@
                },
            },
    {
        let key = tag.to_string();
        match self.find_row(&key) {
            Some(_) => Err(IdError::AlreadyExists),
            None => {
                let ghost pre_rows = self.rows@;
                let row = IdSegments { biz_tag: key, max_id: initial_id, step };
                self.rows.push(row);
                self.model = Ghost(self.model@.insert(tag@, fresh_row(initial_id, step)));
                proof {
                    assert forall|k: Seq<char>| #[trigger] self.model@.contains_key(k) implies
                        row_exists(self.rows@, k) by {
                        if k == tag@ {
                            assert(self.rows@[pre_rows.len() as int].biz_tag@ == k);
                        } else {
                            let w = choose|i: int| 0 <= i < pre_rows.len() && pre_rows[i].biz_tag@
                                == k;
                            assert(self.rows@[w].biz_tag@ == k);
                        }
                    }
                }
                Ok(())
            },
        }
    }

    /// Unlocked read of a row, as the registry uses to validate a tag.
    pub fn get(&self, tag: &str) -> (r: Result<IdSegments, IdError>)
        requires
            self.wf(),
        ensures
            match r {
                Ok(row) => {
                    &&& self@.contains_key(tag@)
                    &&& row.biz_tag@ == tag@
                    &&& row.max_id == self@[tag@].max_id
                    &&& row.step == self@[tag@].step
                },
                Err(e) => e == IdError::UnknownTag && !self@.contains_key(tag@),
            },
    {
        let key = tag.to_string();
        match self.find_row(&key) {
            Some(i) => {
                let row = &self.rows[i];
                Ok(IdSegments { biz_tag: row.biz_tag.clone(), max_id: row.max_id, step: row.step })
            },
            None => Err(IdError::UnknownTag),
        }
    }

    /// The transactional reservation. On success the caller owns `[lo, hi)`
    /// exclusively, and the row has advanced by exactly `step`. Failures are
    /// exhaustive: `Transient` exactly when a failure was pending,
    /// `UnknownTag` exactly when the tag has no row, `Exhausted` exactly when
    /// one more step would overflow 64 bits. A failed call changes no row.
    pub fn reserve(&mut self, tag: &str) -> (r: Result<(u64, u64), IdError>)
        requires
            old(self).wf(),
        ensures
            final(self).wf(),
            !final(self).pending_failure(),
            match r {
                Ok(lohi) => {
                    &&& !old(self).pending_failure()
                    &&& reserve_transition(old(self)@, final(self)@, tag@, lohi.0, lohi.1)
                    &&& lohi.0 < lohi.1
                },
                Err(e) => {
                    &&& final(self)@ == old(self)@
                    &&& (e == IdError::Transient || e == IdError::UnknownTag || e
                        == IdError::Exhausted)
                    &&& (e == IdError::Transient <==> old(self).pending_failure())
                    &&& (e == IdError::UnknownTag <==> (!old(self).pending_failure() && !old(
                        self,
                    )@.contains_key(tag@)))
                    &&& (e == IdError::Exhausted <==> (!old(self).pending_failure() && old(
                        self,
                    )@.contains_key(tag@) && old(self)@[tag@].max_id + old(self)@[tag@].step
                        > u64::MAX))
                },
            },
    {
        if self.fail_next {
            self.fail_next = false;
            return Err(IdError::Transient);
        }
        let key = tag.to_string();
        match self.find_row(&key) {
            None => Err(IdError::UnknownTag),
            Some(i) => {
                let lo = self.rows[i].max_id;
                let step = self.rows[i].step;
                match lo.checked_add(step) {
                    None => Err(IdError::Exhausted),
                    Some(hi) => {
                        let ghost pre = self.model@;
                        let ghost pre_rows = self.rows@;
                        let row = &mut self.rows[i];
                        row.max_id = hi;
                        self.model = Ghost(
                            self.model@.insert(
                                tag@,
                                RowModel {
                                    max_id: hi,
                                    step: pre[tag@].step,
                                    initial: pre[tag@].initial,
                                    reserved: pre[tag@].reserved.push((lo, hi)),
                                },
                            ),
                        );
                        proof {
                            lemma_contiguous_push(
                                pre[tag@].initial,
                                pre[tag@].reserved,
                                lo,
                                hi,
                            );
                            assert forall|k: Seq<char>| #[trigger] self.model@.contains_key(k)
                                implies row_exists(self.rows@, k) by {
                                let w = choose|j: int| 0 <= j < pre_rows.len()
                                    && pre_rows[j].biz_tag@ == k;
                                assert(self.rows@[w].biz_tag@ == k);
                            }
                        }
                        Ok((lo, hi))
                    },
                }
            },
        }
    }

    /// Arms a single injected failure: the next `reserve` answers
    /// `Transient` and leaves every row untouched.
    pub fn fail_next_reserve(&mut self)
        requires
            old(self).wf(),
        ensures
            final(self).wf(),
            final(self)@ == old(self)@,
            final(self).pending_failure(),
    {
        self.fail_next = true;
    }
}

/// Appending the range `[lo, hi)` to a log that tiles `[initial, lo)` yields
/// a log that tiles `[initial, hi)`.
pub proof fn lemma_contiguous_push(initial: u64, rs: Seq<(u64, u64)>, lo: u64, hi: u64)
    requires
        contiguous_from(initial, rs, lo),
        lo < hi,
    ensures
        contiguous_from(initial, rs.push((lo, hi)), hi),
    decreases rs.len(),
{
    let ext = rs.push((lo, hi));
    assert(ext.first() == (if rs.len() == 0 { (lo, hi) } else { rs.first() }));
    if rs.len() == 0 {
        assert(ext.drop_first() =~= Seq::<(u64, u64)>::empty());
        assert(contiguous_from(hi, ext.drop_first(), hi));
    } else {
        lemma_contiguous_push(rs.first().1, rs.drop_first(), lo, hi);
        assert(ext.drop_first() =~= rs.drop_first().push((lo, hi)));
    }
}

/// The set of ids covered by the ranges in `rs`.
pub open spec fn union_of(rs: Seq<(u64, u64)>) -> Set<u64>
    decreases rs.len(),
{
    if rs.len() == 0 {
        Set::empty()
    } else {
        range_set(rs.first().0, rs.first().1).union(union_of(rs.drop_first()))
    }
}

/// A contiguous log covers exactly the ids between its initial id and the
/// current `max_id`: nothing is skipped and nothing is handed out twice as
/// far as coverage goes.
pub proof fn lemma_reserved_cover(initial: u64, rs: Seq<(u64, u64)>, maxid: u64)
    requires
        contiguous_from(initial, rs, maxid),
    ensures
        initial <= maxid,
        union_of(rs) =~= range_set(initial, maxid),
    decreases rs.len(),
{
    if rs.len() == 0 {
        assert(union_of(rs) =~= range_set(initial, maxid));
    } else {
        lemma_reserved_cover(rs.first().1, rs.drop_first(), maxid);
        assert(union_of(rs) =~= range_set(initial, maxid));
    }
}

/// The ranges of a contiguous log sit in order between `initial` and
/// `maxid`, and are pairwise disjoint: each ends no later than the next
/// begins. This is what makes every reserved range exclusive to its caller.
pub proof fn lemma_contiguous_ordered(initial: u64, rs: Seq<(u64, u64)>, maxid: u64)
    requires
        contiguous_from(initial, rs, maxid),
    ensures
        forall|i: int| 0 <= i < rs.len() ==> initial <= (#[trigger] rs[i]).0 && rs[i].1 <= maxid,
        forall|i: int, j: int| 0 <= i < j < rs.len() ==> rs[i].1 <= rs[j].0,
    decreases rs.len(),
{
    if rs.len() > 0 {
        let rest = rs.drop_first();
        lemma_contiguous_ordered(rs.first().1, rest, maxid);
        lemma_reserved_cover(rs.first().1, rest, maxid);
        assert forall|i: int| 0 <= i < rs.len() implies initial <= (#[trigger] rs[i]).0
            && rs[i].1 <= maxid by {
            if i > 0 {
                assert(rs[i] == rest[i - 1]);
            }
        }
        assert forall|i: int, j: int| 0 <= i < j < rs.len() implies rs[i].1 <= rs[j].0 by {
            assert(rs[j] == rest[j - 1]);
            if i > 0 {
                assert(rs[i] == rest[i - 1]);
            }
        }
    }
}

/// Two separate stretches of one contiguous reservation log cover disjoint
/// ranges: what the store granted one caller it never grants another. Two
/// allocators whose installed ranges are distinct stretches of the log can
/// therefore never share an id (see the buffer's cross-uniqueness lemma).
pub proof fn lemma_log_slices_disjoint(
    initial: u64,
    rs: Seq<(u64, u64)>,
    maxid: u64,
    i: int,
    j: int,
    k: int,
)
    requires
        contiguous_from(initial, rs, maxid),
        0 <= i <= j <= k <= rs.len(),
    ensures
        ranges_disjoint(rs.subrange(i, j), rs.subrange(j, k)),
{
    lemma_contiguous_ordered(initial, rs, maxid);
    let a = rs.subrange(i, j);
    let b = rs.subrange(j, k);
    assert forall|p: int, q: int| 0 <= p < a.len() && 0 <= q < b.len() implies ((
    #[trigger] a[p]).1 <= (#[trigger] b[q]).0 || b[q].1 <= a[p].0) by {
        assert(a[p] == rs[i + p]);
        assert(b[q] == rs[j + q]);
    }
}

/// Contiguity of reservation, per tag: in a well-formed store, the union of
/// the ranges handed out for a tag equals `[initial, max_id)` exactly.
pub proof fn lemma_store_contiguity(m: Map<Seq<char>, RowModel>, tag: Seq<char>)
    requires
        drs_inv(m),
        m.contains_key(tag),
    ensures
        union_of(m[tag].reserved) =~= range_set(m[tag].initial, m[tag].max_id),
{
    lemma_reserved_cover(m[tag].initial, m[tag].reserved, m[tag].max_id);
}

/// Two successive reservations for one tag abut (`lo2 == hi1`) and never
/// overlap: the ranges they own are disjoint.
pub proof fn lemma_reserve_disjoint(
    pre: Map<Seq<char>, RowModel>,
    mid: Map<Seq<char>, RowModel>,
    post: Map<Seq<char>, RowModel>,
    tag: Seq<char>,
    lo1: u64,
    hi1: u64,
    lo2: u64,
    hi2: u64,
)
    requires
        reserve_transition(pre, mid, tag, lo1, hi1),
        reserve_transition(mid, post, tag, lo2, hi2),
    ensures
        lo2 == hi1,
        range_set(lo1, hi1).disjoint(range_set(lo2, hi2)),
{
    assert(range_set(lo1, hi1).intersect(range_set(lo2, hi2)) =~= Set::empty());
}

} // verus!
