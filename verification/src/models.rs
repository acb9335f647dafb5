use vstd::prelude::*;

verus! {

broadcast use vstd::string::to_string_from_display_ensures_for_str;

/// The failure kinds the allocator surfaces to its callers.
///
/// `UnknownTag`: the durable store has no row for the tag.
/// `AlreadyExists`: creating a tag collided with an existing row.
/// `Transient`: a store round-trip failed; the next demand retries.
/// `Exhausted`: reserving one more segment would overflow 64 bits; the tag is dead.
/// `Internal`: a violated invariant, such as installing over a live segment.
#[derive(Clone, Copy, PartialEq, Eq, Structural, Debug)]
pub enum IdError {
    UnknownTag,
    AlreadyExists,
    Transient,
    Exhausted,
    Internal,
}

/// One durable row: a business tag together with the next unreserved id
/// (`max_id`) and the size of one reservation (`step`).
#[derive(Debug)]
pub struct IdSegments {
    pub biz_tag: String,
    pub max_id: u64,
    pub step: u64,
}

impl IdSegments {
    /// A fresh row for `biz_tag` whose first segment will start at `initial_id`.
    pub fn new(biz_tag: &str, initial_id: u64, step: u64) -> (r: IdSegments)
        ensures
            r.biz_tag@ == biz_tag@,
            r.max_id == initial_id,
            r.step == step,
    {
        IdSegments { biz_tag: biz_tag.to_string(), max_id: initial_id, step }
    }

    /// The range that the reservation which produced this row granted its
    /// caller: the last `step` ids below the advanced `max_id`.
    pub fn granted_range(&self) -> (r: (u64, u64))
        requires
            self.step <= self.max_id,
        ensures
            r.0 == self.max_id - self.step,
            r.1 == self.max_id,
    {
        (self.max_id - self.step, self.max_id)
    }
}

} // verus!
