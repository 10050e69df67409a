[package]
name = "multi_wechat_rs"
version = "0.1.0"
edition = "2021"
publish = false

[dependencies]
clap = { version = "4", features = ["derive"] }
serde = { version = "1", features = ["derive"] }
serde_json = "1"
thiserror = "2"
ntapi = "0.4"
winapi = { version = "0.3", features = ["ntdef", "minwindef", "ntstatus", "processthreadsapi", "securitybaseapi", "winbase", "handleapi", "tlhelp32", "psapi", "winnt", "memoryapi", "winreg", "winuser"] }
