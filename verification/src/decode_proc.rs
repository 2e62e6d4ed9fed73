//! The decisions of the trace decoding loop.
use std::collections::HashMap;
use vstd::prelude::*;
use crate::post_proc::{PageCounts, exec_count, record_exec};
use crate::mem_cacher::page_of;

verus! {

/// Why the decoder could not give the next instruction.
#[derive(Clone, Copy, Debug, PartialEq, Eq, Structural)]
pub enum DecodeErrorKind {
    /// The decoder lost synchronization with the trace.
    Nosync,
    /// The decoder was asked something the trace cannot answer here.
    BadQuery,
    /// Any other error, the end of the trace among them.
    Other,
}

/// What the decoder gave.
#[derive(Clone, Copy, Debug, PartialEq, Eq, Structural)]
pub enum DecodeEvent {
    /// An instruction at this address was executed.
    Instruction(usize),
    /// No instruction, for this reason.
    Error(DecodeErrorKind),
}

/// What the decoding loop does next.
#[derive(Clone, Copy, Debug, PartialEq, Eq, Structural)]
pub enum DecodeNext {
    /// Drain pending events and decode the next instruction.
    Continue,
    /// Synchronize forward to the next sync point, and stop if that fails.
    Resync,
    /// Stop decoding.
    Stop,
}

/// One step of decoding: an executed instruction is counted in `data` (whose
/// pages become the old ones and that of the instruction) and in the number
/// of instructions `cnt`; a lost synchronization or a bad query
/// leads to a resync; any other error stops the loop.
pub fn decode_step(cnt: usize, data: &mut HashMap<usize, PageCounts>, event: DecodeEvent) -> (r: (usize, DecodeNext))
    requires
        event matches DecodeEvent::Instruction(ip) ==> cnt < usize::MAX && exec_count(old(data)@, ip as int) < usize::MAX,
    ensures
        match event {
            DecodeEvent::Instruction(ip) => r.0 == cnt + 1 && r.1 == DecodeNext::Continue
                && final(data)@.dom() == old(data)@.dom().insert(page_of(ip as int) as usize) && forall|a: int|
                0 <= a <= usize::MAX ==> #[trigger] exec_count(final(data)@, a) == exec_count(old(data)@, a)
                    + if a == ip {
                    1int
                } else {
                    0int
                },
            DecodeEvent::Error(DecodeErrorKind::Other) => r == (cnt, DecodeNext::Stop) && final(data)@ == old(data)@,
            DecodeEvent::Error(_) => r == (cnt, DecodeNext::Resync) && final(data)@ == old(data)@,
        },
{
    match event {
        DecodeEvent::Instruction(ip) => {
            record_exec(data, ip);
            (cnt + 1, DecodeNext::Continue)
        },
        DecodeEvent::Error(DecodeErrorKind::Other) => (cnt, DecodeNext::Stop),
        DecodeEvent::Error(_) => (cnt, DecodeNext::Resync),
    }
}

} // verus!
