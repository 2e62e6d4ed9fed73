[package]
name = "ptkgenerator"
version = "0.1.0"
edition = "2021"
publish = false

[dependencies]
bytes = "1"
clap = "2"
crossbeam = "0.8"
futures = "0.3"
lazy_static = "1"
libipt = "*"
libloading = "0.7"
postcard = { version = "1", features = ["use-std"] }
serde = { version = "1", features = ["derive"] }
serde_json = "1"
sysinfo = "0.20"
tokio = { version = "1", features = ["full"] }
tokio-util = { version = "0.7", features = ["codec"] }
winapi = { version = "0.3", features = ["errhandlingapi", "fileapi", "handleapi", "winnt", "minwindef", "winnls", "stringapiset", "winioctl", "ioapiset", "processthreadsapi", "memoryapi", "basetsd"] }
