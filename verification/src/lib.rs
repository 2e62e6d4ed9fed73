pub mod mem_cacher;
pub mod post_proc;
pub mod native_helper;
pub mod pt_ctrl;
pub mod server_consumer;
pub mod data_spliter;
pub mod decode_proc;
pub mod process_util;
