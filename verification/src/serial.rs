//! Serial port listing: the label shown for each port, and their order.

use vstd::prelude::*;

use crate::storage::SavedConnection;
use crate::text::{has_prefix, key_sorted, sort_by_text_key, stable_reorder, str_chars, TextKey};

verus! {

/// A port path and the label shown for it.
#[derive(Clone, Debug)]
pub struct SerialDevice {
    pub path: String,
    pub label: String,
}

/// What kind of port the operating system reports.
#[derive(Clone, Debug)]
pub enum PortKind {
    Usb { product: Option<String>, manufacturer: Option<String> },
    Bluetooth,
    Pci,
    Unknown,
}

/// A port as the operating system lists it.
#[derive(Clone, Debug)]
pub struct PortInfo {
    pub name: String,
    pub kind: PortKind,
}

pub open spec fn nonempty(o: Option<String>) -> bool {
    o matches Some(s) && s@.len() > 0
}

/// The kind shown in a port's label; on Windows an unknown port is plainly
/// a serial port.
pub open spec fn kind_label(kind: PortKind, windows: bool) -> Seq<char> {
    match kind {
        PortKind::Usb { product, manufacturer } => if nonempty(product) {
            "USB \u{b7} "@ + product.unwrap()@
        } else if nonempty(manufacturer) {
            "USB \u{b7} "@ + manufacturer.unwrap()@
        } else {
            "USB"@
        },
        PortKind::Bluetooth => "Bluetooth"@,
        PortKind::Pci => "PCI"@,
        PortKind::Unknown => if windows { "Serial"@ } else { "Unknown"@ },
    }
}

fn is_nonempty(o: &Option<String>) -> (b: bool)
    ensures
        b == nonempty(*o),
{
    match o {
        Some(s) => str_chars(s.as_str()).len() > 0,
        None => false,
    }
}

pub fn serial_port_kind_label(kind: &PortKind, windows: bool) -> (s: String)
    ensures
        s@ == kind_label(*kind, windows),
{
    match kind {
        PortKind::Usb { product, manufacturer } => {
            if is_nonempty(product) {
                match product {
                    Some(p) => String::from_str("USB \u{b7} ").concat(p.as_str()),
                    None => String::new(),
                }
            } else if is_nonempty(manufacturer) {
                match manufacturer {
                    Some(m) => String::from_str("USB \u{b7} ").concat(m.as_str()),
                    None => String::new(),
                }
            } else {
                String::from_str("USB")
            }
        },
        PortKind::Bluetooth => String::from_str("Bluetooth"),
        PortKind::Pci => String::from_str("PCI"),
        PortKind::Unknown => if windows {
            String::from_str("Serial")
        } else {
            String::from_str("Unknown")
        },
    }
}

/// The entry listed for a port: its name, labelled `name (kind)`.
pub open spec fn device_for(p: PortInfo, windows: bool) -> (Seq<char>, Seq<char>) {
    (p.name@, p.name@ + " ("@ + kind_label(p.kind, windows) + ")"@)
}

pub open spec fn device_view(d: SerialDevice) -> (Seq<char>, Seq<char>) {
    (d.path@, d.label@)
}

pub fn serial_device(port: PortInfo, windows: bool) -> (d: SerialDevice)
    ensures
        device_view(d) == device_for(port, windows),
{
    let kind = serial_port_kind_label(&port.kind, windows);
    let label = String::from_str(port.name.as_str()).concat(" (").concat(kind.as_str()).concat(")");
    SerialDevice { path: port.name, label }
}

impl TextKey for PortInfo {
    open spec fn key_view(&self) -> Seq<char> {
        self.name@
    }

    fn key_chars(&self) -> (k: Vec<char>) {
        str_chars(self.name.as_str())
    }
}

/// The listed ports, sorted by name (ports of the same name keep their
/// order), each labelled with its kind.
pub fn serial_devices(ports: Vec<PortInfo>, windows: bool) -> (r: Vec<SerialDevice>)
    ensures
        exists|s: Seq<PortInfo>| {
            &&& s.to_multiset() == ports@.to_multiset()
            &&& key_sorted(s)
            &&& exists|idx: Seq<int>| stable_reorder(ports@, s, idx)
            &&& r@.len() == s.len()
            &&& forall|i: int| 0 <= i < s.len() ==> device_view(#[trigger] r@[i]) == device_for(s[i], windows)
        },
{
    let sorted = sort_by_text_key(ports);
    let ghost s = sorted@;
    let mut rest = sorted;
    let mut devices: Vec<SerialDevice> = Vec::new();
    let ghost mut k: int = 0;
    while rest.len() > 0
        invariant
            0 <= k <= s.len(),
            rest@ == s.subrange(k, s.len() as int),
            devices@.len() == k,
            forall|i: int| 0 <= i < k ==> device_view(#[trigger] devices@[i]) == device_for(s[i], windows),
        decreases rest.len(),
    {
        let p = rest.remove(0);
        assert(p == s[k]);
        let d = serial_device(p, windows);
        devices.push(d);
        proof {
            k = k + 1;
            assert(rest@ =~= s.subrange(k, s.len() as int));
        }
    }
    devices
}

/// Device names under `/dev` that are serial ports on Android.
pub open spec fn android_serial(name: Seq<char>) -> bool {
    ||| "ttyUSB"@.is_prefix_of(name)
    ||| "ttyACM"@.is_prefix_of(name)
    ||| "ttyGS"@.is_prefix_of(name)
    ||| "ttyS"@.is_prefix_of(name)
}

pub fn android_serial_name(name: &str) -> (b: bool)
    ensures
        b == android_serial(name@),
{
    let n = str_chars(name);
    let usb = str_chars("ttyUSB");
    let acm = str_chars("ttyACM");
    let gs = str_chars("ttyGS");
    let s = str_chars("ttyS");
    has_prefix(n.as_slice(), usb.as_slice()) || has_prefix(n.as_slice(), acm.as_slice())
        || has_prefix(n.as_slice(), gs.as_slice()) || has_prefix(n.as_slice(), s.as_slice())
}

/// The baud rate of a serial profile that sets none.
pub const SERIAL_DEFAULT_BAUD: u32 = 115200;

/// The port and baud rate a saved serial profile opens: the port is
/// required, the baud rate defaults to 115200.
pub fn serial_settings(config: &SavedConnection) -> (r: Result<(String, u32), String>)
    ensures
        match config.serial_port {
            None => r matches Err(e) && e@ == "Serial port not configured"@,
            Some(p) => r matches Ok((name, baud)) && name@ == p@
                && baud == match config.serial_baud { Some(b) => b, None => SERIAL_DEFAULT_BAUD },
        },
{
    match &config.serial_port {
        None => Err(String::from_str("Serial port not configured")),
        Some(p) => {
            let baud = match config.serial_baud {
                Some(b) => b,
                None => SERIAL_DEFAULT_BAUD,
            };
            Ok((String::from_str(p.as_str()), baud))
        },
    }
}

} // verus!
