//! The messages that the server and the decoding clients exchange.
use std::collections::HashMap;
use vstd::prelude::*;
use crate::post_proc::InsInfo;

verus! {

/// A message between the server, which traces a process, and a client that
/// decodes trace data for it.
#[derive(Debug)]
pub enum PtProcMsg {
    /// A client registers with its id.
    RegReq(u32),
    /// The server confirms a registration.
    RegRsp(u32),
    /// A client leaves.
    UnReg(u32),
    /// The client resets its state.
    Init(),
    /// Trace data to decode.
    DataReq(Vec<u8>),
    /// Execution counts found in trace data: by page, the non-zero counts by offset.
    DataRsp(HashMap<usize, HashMap<u16, InsInfo>>),
    /// A read of memory of the traced process: address and length.
    MemReq(usize, usize),
    /// The memory read at an address.
    MemRsp(usize, Vec<u8>),
}

} // verus!
