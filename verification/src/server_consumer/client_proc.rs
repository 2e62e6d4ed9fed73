//! The decisions of a decoding client.
use vstd::prelude::*;
use super::interface::PtProcMsg;

verus! {

/// What the client does with a message from the server.
#[derive(Debug)]
pub enum ServerAction {
    /// Reset the decoding state.
    Reset,
    /// Nothing to do.
    Ignore,
    /// Decode this trace data.
    Process(Vec<u8>),
    /// Hand the memory read at this address to whoever asked for it.
    Deliver(usize, Vec<u8>),
}

/// A message that the client expects from the server.
pub open spec fn expected_by_client(msg: PtProcMsg) -> bool {
    msg is Init || msg is RegRsp || msg is DataReq || msg is MemRsp
}

/// Whether the client expects `msg` from the server.
pub fn expected_message(msg: &PtProcMsg) -> (r: bool)
    ensures
        r == expected_by_client(*msg),
{
    match msg {
        PtProcMsg::Init() | PtProcMsg::RegRsp(_) | PtProcMsg::DataReq(_) | PtProcMsg::MemRsp(_, _) => true,
        _ => false,
    }
}

/// The client's decision for a message from the server.
pub fn client_step(msg: PtProcMsg) -> (r: ServerAction)
    requires
        expected_by_client(msg),
    ensures
        match msg {
            PtProcMsg::Init() => r is Reset,
            PtProcMsg::RegRsp(_) => r is Ignore,
            PtProcMsg::DataReq(data) => r == ServerAction::Process(data),
            PtProcMsg::MemRsp(addr, data) => r == ServerAction::Deliver(addr, data),
            _ => false,
        },
{
    match msg {
        PtProcMsg::Init() => ServerAction::Reset,
        PtProcMsg::RegRsp(_) => ServerAction::Ignore,
        PtProcMsg::DataReq(data) => ServerAction::Process(data),
        PtProcMsg::MemRsp(addr, data) => ServerAction::Deliver(addr, data),
        _ => ServerAction::Ignore,
    }
}

/// Copies the memory that came back for a read of `len` bytes into
/// `output_buff`, where it fits in both; otherwise `output_buff` is left as it
/// is. Returns whether it was copied.
pub fn copy_mem_response(output_buff: &mut [u8], len: usize, data: &Vec<u8>) -> (r: bool)
    ensures
        r == (data@.len() <= len && data@.len() <= old(output_buff)@.len()),
        data@.len() <= len && data@.len() <= old(output_buff)@.len() ==> final(output_buff)@
            == data@ + old(output_buff)@.subrange(data@.len() as int, old(output_buff)@.len() as int),
        !(data@.len() <= len && data@.len() <= old(output_buff)@.len()) ==> final(output_buff)@
            == old(output_buff)@,
{
    let n: usize = data.len();
    if n <= len && n <= output_buff.len() {
        let mut i: usize = 0;
        while i < n
            invariant
                n == data@.len(),
                n <= output_buff@.len(),
                output_buff@.len() == old(output_buff)@.len(),
                i <= n,
                forall|j: int| 0 <= j < i ==> #[trigger] output_buff@[j] == data@[j],
                forall|j: int| i <= j < output_buff@.len() ==> #[trigger] output_buff@[j] == old(output_buff)@[j],
            decreases n - i,
        {
            output_buff[i] = data[i];
            i = i + 1;
        }
        assert(output_buff@ =~= data@ + old(output_buff)@.subrange(n as int, old(output_buff)@.len() as int));
        true
    } else {
        false
    }
}

} // verus!
