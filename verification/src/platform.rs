//! The platforms the application runs on.

use vstd::prelude::*;

verus! {

/// Linux, macOS and Windows: local terminal, serial and BLE are available.
#[derive(Debug, Clone, Copy, PartialEq, Eq, Structural)]
pub struct DesktopPlatform;

/// Android: no local terminal; serial through USB devices under `/dev`.
#[derive(Debug, Clone, Copy, PartialEq, Eq, Structural)]
pub struct AndroidPlatform;

/// What a platform offers.
#[derive(Debug, Clone, Copy, PartialEq, Eq, Structural)]
pub struct Capabilities {
    pub local_terminal: bool,
    pub ble: bool,
    pub serial: bool,
}

impl DesktopPlatform {
    pub fn capabilities(&self) -> (c: Capabilities)
        ensures
            c == (Capabilities { local_terminal: true, ble: true, serial: true }),
    {
        Capabilities { local_terminal: true, ble: true, serial: true }
    }
}

impl AndroidPlatform {
    pub fn capabilities(&self) -> (c: Capabilities)
        ensures
            c == (Capabilities { local_terminal: false, ble: true, serial: true }),
    {
        Capabilities { local_terminal: false, ble: true, serial: true }
    }
}

} // verus!
