use vstd::prelude::*;

verus! {

/// Default first id of a freshly created tag.
pub const DEFAULT_INITIAL_ID: u64 = 1;

/// Default reservation granularity of a freshly created tag.
pub const DEFAULT_STEP: u64 = 10000;

/// A request to create a tag; `step` and `initial_id` are optional.
pub struct CreateIdRequest {
    pub biz_tag: String,
    pub step: Option<u64>,
    pub initial_id: Option<u64>,
}

impl CreateIdRequest {
    /// The first id the tag will hand out, defaulting to one.
    pub fn effective_initial_id(&self) -> (r: u64)
        ensures
            r == self.initial_id.unwrap_or(DEFAULT_INITIAL_ID),
    {
        match self.initial_id {
            Some(v) => v,
            None => DEFAULT_INITIAL_ID,
        }
    }

    /// The reservation granularity, defaulting to ten thousand.
    pub fn effective_step(&self) -> (r: u64)
        ensures
            r == self.step.unwrap_or(DEFAULT_STEP),
    {
        match self.step {
            Some(v) => v,
            None => DEFAULT_STEP,
        }
    }
}

/// The outcome of a tag creation.
pub struct CreateIdResponse {
    pub success: bool,
    pub message: String,
}

/// A request for a single id.
pub struct GetIdRequest {
    pub biz_tag: String,
}

/// A single issued id.
pub struct GetIdResponse {
    pub id: u64,
}

/// A request for a batch of ids; `count` defaults to one.
pub struct BatchGetIdRequest {
    pub biz_tag: String,
    pub count: Option<usize>,
}

/// A batch of issued ids, strictly increasing.
pub struct BatchGetIdResponse {
    pub ids: Vec<u64>,
}

} // verus!
