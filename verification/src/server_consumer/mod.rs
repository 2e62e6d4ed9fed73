pub mod interface;
pub mod msg_adapter;
pub mod client_agent;
pub mod client_pool;
pub mod client_proc;
