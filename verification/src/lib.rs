//! Patching WeChat's Mach-O binary from version-specific configurations,
//! plus the pure parts of the Windows multi-instance helper.

pub mod text;
pub mod macos;
pub mod process;
pub mod system;
pub mod utils;
