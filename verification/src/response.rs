//! The response envelope shared by the edge services.
use vstd::prelude::*;

verus! {

/// Whether a request succeeded, with a message for the caller.
#[derive(Debug, Clone)]
pub struct CommonResponse {
    pub success: bool,
    pub message: String,
}

} // verus!
