//! The decisions of the server's agent for one connected client.
use vstd::prelude::*;
use super::interface::PtProcMsg;

verus! {

/// Where the connection with a client stands.
#[derive(PartialEq, Eq, Debug, Clone, Copy, Structural)]
pub enum ClientState {
    Connected,
    Activate,
    Working,
    InActivate,
    DisConnect,
}

/// What happened on the connection with a client.
pub enum AgentEvent {
    /// The client sent a message.
    Received(PtProcMsg),
    /// The connection can no longer be read.
    Closed,
}

/// What the agent does next.
#[derive(Debug)]
pub enum AgentAction {
    /// Confirm the registration of the client with this id.
    ConfirmRegistration(u32),
    /// Read memory of the traced process (address, length) and send it back.
    ServeMemory(usize, usize),
    /// Add the execution counts the client found to the collected results.
    MergeCounts,
    /// Stop serving this client.
    Stop,
}

/// The number of bytes the agent sends back for every memory read.
pub const MEM_RSP_SIZE: usize = 8192;

/// The agent's step: from its state and an event to its next state and action.
/// A registration activates the client and is confirmed; a memory read is
/// served and a result is merged, the state unchanged; any other message, or a
/// closed connection, stops the agent and leaves the state as it is.
pub fn client_agent_step(state: ClientState, event: &AgentEvent) -> (r: (ClientState, AgentAction))
    ensures
        match event {
            AgentEvent::Received(PtProcMsg::RegReq(id)) => r.0 == ClientState::Activate && r.1
                == AgentAction::ConfirmRegistration(*id),
            AgentEvent::Received(PtProcMsg::MemReq(addr, size)) => r.0 == state && r.1
                == AgentAction::ServeMemory(*addr, *size),
            AgentEvent::Received(PtProcMsg::DataRsp(_)) => r.0 == state && r.1 == AgentAction::MergeCounts,
            _ => r.0 == state && r.1 == AgentAction::Stop,
        },
{
    match event {
        AgentEvent::Received(msg) => match msg {
            PtProcMsg::RegReq(id) => (ClientState::Activate, AgentAction::ConfirmRegistration(*id)),
            PtProcMsg::MemReq(addr, size) => (state, AgentAction::ServeMemory(*addr, *size)),
            PtProcMsg::DataRsp(_) => (state, AgentAction::MergeCounts),
            _ => (state, AgentAction::Stop),
        },
        AgentEvent::Closed => (state, AgentAction::Stop),
    }
}

/// Whether the agent takes no more trace data: it does not while the client is
/// not active, and otherwise when its queue (`queue_full`) is full.
pub fn agent_is_full(state: ClientState, queue_full: bool) -> (r: bool)
    ensures
        r == (state != ClientState::Activate || queue_full),
{
    if state != ClientState::Activate {
        return true;
    }
    queue_full
}

/// Whether the client is gone.
pub fn is_disconnected_state(state: ClientState) -> (r: bool)
    ensures
        r == (state == ClientState::DisConnect),
{
    state == ClientState::DisConnect
}

} // verus!
