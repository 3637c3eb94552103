//! rsTerminal core: the terminal escape-sequence parser, the screen model with
//! its scrollback, and the data types and pure helpers of the connection,
//! file-manager and settings layers.

pub mod ble;
pub mod config;
pub mod connection;
pub mod files;
pub mod fonts;
pub mod i18n;
pub mod platform;
pub mod process;
pub mod serial;
pub mod session;
pub mod ssh;
pub mod storage;
pub mod terminal;
pub mod text;
