use ptkgenerator::server_consumer::client_agent::{agent_is_full, client_agent_step, is_disconnected_state, AgentAction, AgentEvent, ClientState, MEM_RSP_SIZE};
use ptkgenerator::server_consumer::client_pool::{select_client, should_stop_accepting};
use ptkgenerator::server_consumer::client_proc::{client_step, copy_mem_response, expected_message, ServerAction};
use ptkgenerator::server_consumer::interface::PtProcMsg;
use ptkgenerator::server_consumer::msg_adapter::PtProcMsgAdapter;
use std::collections::HashMap;

#[test]
fn registration_activates_client() {
    let (s, a) = client_agent_step(ClientState::Connected, &AgentEvent::Received(PtProcMsg::RegReq(1)));
    assert_eq!(s, ClientState::Activate);
    assert!(matches!(a, AgentAction::ConfirmRegistration(1)));
}

#[test]
fn memory_request_is_served() {
    let (s, a) = client_agent_step(ClientState::Activate, &AgentEvent::Received(PtProcMsg::MemReq(0x1000, 10)));
    assert_eq!(s, ClientState::Activate);
    assert!(matches!(a, AgentAction::ServeMemory(0x1000, 10)));
}

#[test]
fn result_is_merged() {
    let (s, a) = client_agent_step(ClientState::Activate, &AgentEvent::Received(PtProcMsg::DataRsp(HashMap::new())));
    assert_eq!(s, ClientState::Activate);
    assert!(matches!(a, AgentAction::MergeCounts));
}

#[test]
fn unexpected_message_or_close_stops_agent() {
    let (s, a) = client_agent_step(ClientState::Activate, &AgentEvent::Received(PtProcMsg::Init()));
    assert_eq!(s, ClientState::Activate);
    assert!(matches!(a, AgentAction::Stop));
    let (s2, a2) = client_agent_step(ClientState::Connected, &AgentEvent::Closed);
    assert_eq!(s2, ClientState::Connected);
    assert!(matches!(a2, AgentAction::Stop));
}

#[test]
fn fullness_of_agent() {
    assert!(agent_is_full(ClientState::Connected, false));
    assert!(!agent_is_full(ClientState::Activate, false));
    assert!(agent_is_full(ClientState::Activate, true));
    assert!(is_disconnected_state(ClientState::DisConnect));
    assert!(!is_disconnected_state(ClientState::Working));
}

#[test]
fn client_selection() {
    assert_eq!(select_client(&vec![Some(true), None, Some(false), Some(false)]), Some(2));
    assert_eq!(select_client(&vec![Some(true), Some(true)]), Some(0));
    assert_eq!(select_client(&vec![None, Some(true)]), None);
    assert_eq!(select_client(&vec![]), None);
}

#[test]
fn accepting_stops() {
    assert!(!should_stop_accepting(32, false));
    assert!(should_stop_accepting(33, false));
    assert!(should_stop_accepting(1, true));
}

#[test]
fn client_dispatch() {
    assert!(matches!(client_step(PtProcMsg::Init()), ServerAction::Reset));
    assert!(matches!(client_step(PtProcMsg::RegRsp(3)), ServerAction::Ignore));
    match client_step(PtProcMsg::DataReq(vec![1, 2])) {
        ServerAction::Process(d) => assert_eq!(d, vec![1, 2]),
        _ => panic!("expected Process"),
    }
    match client_step(PtProcMsg::MemRsp(5, vec![3])) {
        ServerAction::Deliver(a, d) => assert_eq!((a, d), (5, vec![3])),
        _ => panic!("expected Deliver"),
    }
}

#[test]
fn memory_response_copy() {
    let mut out = vec![0u8; 4];
    assert!(copy_mem_response(&mut out, 4, &vec![1, 2]));
    assert_eq!(out, vec![1, 2, 0, 0]);
    let mut out2 = vec![0u8; 4];
    assert!(!copy_mem_response(&mut out2, 4, &vec![9u8; 8192]));
    assert_eq!(out2, vec![0u8; 4]);
}

#[test]
fn adapter_is_constructed() {
    let _a = PtProcMsgAdapter::new();
    assert_eq!(MEM_RSP_SIZE, 8192);
}

#[test]
fn client_expects_server_messages_only() {
    assert!(expected_message(&PtProcMsg::Init()));
    assert!(expected_message(&PtProcMsg::RegRsp(1)));
    assert!(expected_message(&PtProcMsg::DataReq(vec![])));
    assert!(expected_message(&PtProcMsg::MemRsp(0, vec![])));
    assert!(!expected_message(&PtProcMsg::RegReq(1)));
    assert!(!expected_message(&PtProcMsg::MemReq(0, 1)));
}
