//! The adapter that turns [`PtProcMsg`](super::interface::PtProcMsg) values into frames and back.
use vstd::prelude::*;

verus! {

/// Encodes and decodes the messages of a connection.
#[derive(Clone, Copy, Debug)]
pub struct PtProcMsgAdapter {}

impl PtProcMsgAdapter {
    /// The adapter.
    pub fn new() -> (r: Self) {
        PtProcMsgAdapter {}
    }
}

} // verus!
