use rsterminal::config::{default_profile_index, find_profile, CursorStyle, Rgba, TerminalTheme};
use rsterminal::connection::{
    burst_step, encode_mux_frame, pty_dims, winch_targets, BurstStep, ConnOut, ConnectionState, MuxDecoder, MUX_FRAME_DATA,
};
use rsterminal::files::{
    check_rename, format_time, format_unix_mode, format_unix_time, join_remote, remote_entries, sort_entries, EntryInfo,
    FileEntry, RemoteItem,
};
use rsterminal::fonts::{monospace_catalog_status, monospace_stack, needs_braille_font, MonoFamily, MonospaceCatalog,
    MonospaceCatalogStatus, MonospaceFontEntry};
use rsterminal::i18n::{locale_for_system, prefers_dark, Language, UiTheme};
use rsterminal::process::{
    foreground_command_for_pid, format_cmdline, hostname_from, is_interactive_shell, parse_children, parse_cmdline,
    ssh_user_at_host, title_is_idle_host, truncate_label,
};
use rsterminal::serial::{android_serial_name, serial_devices, serial_port_kind_label, PortInfo, PortKind};
use rsterminal::session::{tab_label, FileActivePane, FileManagerMode, InfoDialog, PaneState, RenameDialog};
use rsterminal::storage::{local_connection_index, ConnectionType, SavedConnection};
use rsterminal::ssh::{
    auth_failed_message, auth_methods, keyboard_answers, on_channel_event, on_outgoing, pty_size, ssh_target,
    AuthMethod, ChannelEvent, SessionStep,
};
use rsterminal::text::{is_whitespace, trim_str};

#[test]
fn mux_frame_layout() {
    assert_eq!(encode_mux_frame(2, MUX_FRAME_DATA, b"hi"), vec![2, 1, 2, 0, b'h', b'i']);
    let big = vec![7u8; 300];
    let f = encode_mux_frame(0, 1, &big);
    assert_eq!(&f[..4], &[0, 1, 44, 1]);
    assert_eq!(f.len(), 304);
}

#[test]
fn mux_round_trip() {
    let mut bytes = encode_mux_frame(1, MUX_FRAME_DATA, b"abc");
    bytes.extend(encode_mux_frame(3, 2, b""));
    let mut d = MuxDecoder::new();
    let frames = d.push(&bytes);
    assert_eq!(frames, vec![(1, 1, b"abc".to_vec()), (3, 2, vec![])]);
}

#[test]
fn mux_decoder_waits_for_whole_frame() {
    let bytes = encode_mux_frame(4, MUX_FRAME_DATA, b"hello");
    let mut d = MuxDecoder::default();
    assert!(d.push(&bytes[..3]).is_empty());
    assert!(d.push(&bytes[3..6]).is_empty());
    assert_eq!(d.push(&bytes[6..]), vec![(4, 1, b"hello".to_vec())]);
    assert!(d.push(&[]).is_empty());
}

#[test]
fn connection_status_text() {
    assert_eq!(ConnectionState::Connecting.status_text(), "Connecting...");
    assert_eq!(ConnectionState::Connected.status_text(), "Connected");
    assert_eq!(ConnectionState::Disconnected.status_text(), "Disconnected");
    assert_eq!(ConnectionState::Error("boom".to_string()).status_text(), "Error: boom");
}

#[test]
fn palette_entries() {
    let t = TerminalTheme::default();
    assert_eq!(t.ansi_color(1), Rgba { r: 205, g: 49, b: 49, a: 255 });
    assert_eq!(t.ansi_color(15), Rgba { r: 255, g: 255, b: 255, a: 255 });
    assert_eq!(t.indexed_color(16), Rgba { r: 0, g: 0, b: 0, a: 255 });
    assert_eq!(t.indexed_color(196), Rgba { r: 255, g: 0, b: 0, a: 255 });
    assert_eq!(t.indexed_color(21), Rgba { r: 0, g: 0, b: 255, a: 255 });
    assert_eq!(t.indexed_color(17), Rgba { r: 0, g: 0, b: 95, a: 255 });
    assert_eq!(t.indexed_color(231), Rgba { r: 255, g: 255, b: 255, a: 255 });
    assert_eq!(t.indexed_color(232), Rgba { r: 8, g: 8, b: 8, a: 255 });
    assert_eq!(t.indexed_color(255), Rgba { r: 238, g: 238, b: 238, a: 255 });
    assert_eq!(t.ansi_color(100), t.indexed_color(100));
    assert_eq!(t.indexed_color(3), t.yellow);
    assert_eq!(t.selection, Rgba { r: 100, g: 100, b: 255, a: 128 });
}

#[test]
fn cursor_style_default_is_bar() {
    assert_eq!(CursorStyle::default(), CursorStyle::Bar);
    assert_eq!(CursorStyle::all(), [CursorStyle::Bar, CursorStyle::Block, CursorStyle::Underline]);
}

#[test]
fn language_and_theme_defaults() {
    assert_eq!(Language::default(), Language::System);
    assert_eq!(UiTheme::default(), UiTheme::System);
    assert_eq!(Language::ZhCN.locale_code(), "zh-CN");
    assert_eq!(Language::En.locale_code(), "en");
    let sys = Language::System.locale_code();
    assert!(sys == "en" || sys == "zh-CN");
}

#[test]
fn system_locale_mapping() {
    assert_eq!(locale_for_system(Some("zh-TW".to_string())), "zh-CN");
    assert_eq!(locale_for_system(Some("en-US".to_string())), "en");
    assert_eq!(locale_for_system(None), "en");
}

#[test]
fn dark_theme_detection() {
    assert!(prefers_dark(Some("15;0"), None));
    assert!(prefers_dark(Some("0"), None));
    assert!(!prefers_dark(Some("0;15"), None));
    assert!(prefers_dark(None, Some("Adwaita:dark")));
    assert!(prefers_dark(None, Some("Yaru-Dark")));
    assert!(!prefers_dark(None, Some("Adwaita")));
    assert!(!prefers_dark(None, None));
}

#[test]
fn user_at_host() {
    assert_eq!(ssh_user_at_host("root", "example.org"), "root@example.org");
}

#[test]
fn truncation() {
    assert_eq!(truncate_label("  hello  ", 10), "hello");
    assert_eq!(truncate_label("hello world", 5), "hell\u{2026}");
    assert_eq!(truncate_label("abc", 0), "\u{2026}");
    assert_eq!(truncate_label("abc", 3), "abc");
}

#[test]
fn idle_host_titles() {
    assert!(title_is_idle_host("", "me@box"));
    assert!(title_is_idle_host("  me@box ", "me@box"));
    assert!(title_is_idle_host("me@box: ~/src", "me@box"));
    assert!(title_is_idle_host("me@box ~", "me@box"));
    assert!(!title_is_idle_host("vim main.rs", "me@box"));
    assert!(!title_is_idle_host("me@boxer", "me@box"));
}

#[test]
fn command_lines() {
    let args = vec!["/usr/bin/vim".to_string()];
    assert_eq!(format_cmdline(&args), "vim");
    let args = vec!["/usr/bin/python3".to_string(), "/tmp/x/run.py".to_string()];
    assert_eq!(format_cmdline(&args), "python3 run.py");
    let args = vec!["/bin/ls".to_string(), "-l".to_string(), "/".to_string()];
    assert_eq!(format_cmdline(&args), "ls \u{2026}");
}

#[test]
fn interactive_shells() {
    assert!(is_interactive_shell("bash"));
    assert!(is_interactive_shell("/usr/bin/zsh"));
    assert!(is_interactive_shell("nu"));
    assert!(!is_interactive_shell("vim"));
    assert!(!is_interactive_shell("bashful"));
}

#[test]
fn foreground_job_is_newest_non_shell_child() {
    let children = [10, 11, 12];
    let cmdlines = vec![
        Some(vec!["/usr/bin/top".to_string()]),
        Some(vec!["/usr/bin/htop".to_string()]),
        Some(vec!["/bin/bash".to_string()]),
    ];
    assert_eq!(foreground_command_for_pid(1, &children, &cmdlines), Some("htop".to_string()));
    let unreadable = vec![Some(vec!["/usr/bin/top".to_string()]), None, Some(vec!["bash".to_string()])];
    assert_eq!(foreground_command_for_pid(1, &children, &unreadable), None);
    assert_eq!(foreground_command_for_pid(1, &[], &[]), None);
    let with_self = [1];
    let own = vec![Some(vec!["/usr/bin/less".to_string()])];
    assert_eq!(foreground_command_for_pid(1, &with_self, &own), None);
}

#[test]
fn unix_modes() {
    assert_eq!(format_unix_mode(0o755), "rwxr-xr-x (755)");
    assert_eq!(format_unix_mode(0o100644), "rw-r--r-- (100644)");
    assert_eq!(format_unix_mode(0), "--------- (0)");
}

#[test]
fn utc_times() {
    assert_eq!(format_unix_time(0), "1970-01-01 00:00:00 UTC");
    assert_eq!(format_unix_time(951782400), "2000-02-29 00:00:00 UTC");
    assert_eq!(format_unix_time(1700000000), "2023-11-14 22:13:20 UTC");
    assert_eq!(format_time(None), "\u{2014}");
    assert_eq!(format_time(Some(86399)), "1970-01-01 23:59:59 UTC");
    assert_eq!(format_time(Some(1700000000)), "2023-11-14 22:13:20 UTC");
    assert_eq!(format_time(Some(-1)), "\u{2014}");
}

#[test]
fn remote_paths() {
    assert_eq!(join_remote("/home/me", "a.txt"), "/home/me/a.txt");
    assert_eq!(join_remote("/", "etc"), "/etc");
    assert_eq!(join_remote("", "x"), "/x");
}

#[test]
fn rename_checks() {
    assert_eq!(check_rename("a", "   "), Err("Name cannot be empty".to_string()));
    assert_eq!(check_rename("a", "x/y"), Err("Invalid name".to_string()));
    assert_eq!(check_rename("a", "x\\y"), Err("Invalid name".to_string()));
    assert_eq!(check_rename("a", ".."), Err("Invalid name".to_string()));
    assert_eq!(check_rename("a", " a "), Ok(None));
    assert_eq!(check_rename("a", " b "), Ok(Some("b".to_string())));
}

fn entry(name: &str, is_dir: bool) -> FileEntry {
    FileEntry { name: name.to_string(), is_dir, size: 0, modified: None }
}

#[test]
fn listing_order() {
    let sorted = sort_entries(vec![entry("b.txt", false), entry("Zeta", true), entry("A.txt", false), entry("alpha", true)]);
    let names: Vec<&str> = sorted.iter().map(|e| e.name.as_str()).collect();
    assert_eq!(names, vec!["alpha", "Zeta", "A.txt", "b.txt"]);
    assert_eq!(entry("Dir", true).sort_key(), (0, "dir".to_string()));
    assert_eq!(entry("F", false).sort_key(), (1, "f".to_string()));
}

#[test]
fn whitespace_and_trim() {
    assert!(is_whitespace('\u{3000}'));
    assert!(is_whitespace('\t'));
    assert!(!is_whitespace('x'));
    assert_eq!(trim_str("\u{a0} x y \n"), "x y");
}

#[test]
fn connection_types() {
    assert_eq!(ConnectionType::Local.label(), "Local Terminal");
    assert_eq!(ConnectionType::Ble.label(), "BLE Serial");
    assert_eq!(ConnectionType::Serial.icon(), "\u{1f50c}");
}

#[test]
fn saved_connections() {
    let c = SavedConnection::new_ssh("srv", "host", 22, "me");
    assert_eq!(c.conn_type, ConnectionType::Ssh);
    assert_eq!(c.ssh_host.as_deref(), Some("host"));
    assert_eq!(c.ssh_port, Some(22));
    assert_eq!(c.id.len(), 36);
    assert_eq!(c.id.chars().nth(14), Some('4'));
    let d = SavedConnection::new_ssh("srv", "host", 22, "me");
    assert_ne!(c.id, d.id);
    let l = SavedConnection::new_local("local", Some("/bin/zsh"));
    assert_eq!(l.shell.as_deref(), Some("/bin/zsh"));
    assert!(l.ssh_host.is_none());
    let s = SavedConnection::new_serial("tty", "/dev/ttyUSB0", 115200);
    assert_eq!(s.serial_baud, Some(115200));
    let b = SavedConnection::new_ble("ble", "dev");
    assert_eq!(b.ble_device.as_deref(), Some("dev"));
}

#[test]
fn rename_dialog() {
    let mut d = RenameDialog::default();
    assert!(!d.open);
    d.open_for(FileActivePane::Remote, "notes.txt");
    assert!(d.open);
    assert_eq!(d.old_name(), "notes.txt");
    assert_eq!(d.new_name, "notes.txt");
    assert!(d.pane == FileActivePane::Remote);
}

#[test]
fn info_dialog_lines() {
    let mut d = InfoDialog::default();
    let info = EntryInfo {
        path: "/tmp/a".to_string(),
        name: "a".to_string(),
        kind: "File".to_string(),
        size: 3,
        permissions: "rw-r--r-- (644)".to_string(),
        modified: "\u{2014}".to_string(),
    };
    d.show(info, "3 B".to_string());
    assert!(d.open);
    let captions: Vec<&str> = d.lines.iter().map(|l| l.0.as_str()).collect();
    assert_eq!(captions, vec!["Name", "Type", "Size", "Permissions", "Modified", "Path"]);
    assert_eq!(d.lines[2].1, "3 B");
}

#[test]
fn new_pane_is_loading() {
    let p = PaneState::new_local(std::path::PathBuf::from("/tmp"));
    assert!(p.loading);
    assert!(p.entries.is_empty());
    assert!(p.selected.is_empty());
}

#[test]
fn braille_range() {
    assert!(needs_braille_font('\u{2800}'));
    assert!(needs_braille_font('\u{28ff}'));
    assert!(!needs_braille_font('\u{2900}'));
    assert!(!needs_braille_font('a'));
}

#[test]
fn font_stack_order() {
    assert_eq!(monospace_stack(true, true), vec![MonoFamily::UserMono, MonoFamily::FallbackLatin, MonoFamily::Cjk]);
    assert_eq!(monospace_stack(false, false), vec![MonoFamily::FallbackLatin]);
}

#[test]
fn font_catalog_scans_once() {
    let mut c = MonospaceCatalog::Idle;
    let (status, start) = monospace_catalog_status(&mut c);
    assert!(start);
    assert!(matches!(status, MonospaceCatalogStatus::Loading));
    let (_, again) = monospace_catalog_status(&mut c);
    assert!(!again);
    c.finish(vec![MonospaceFontEntry { path: String::new(), label: "Auto".to_string() }]);
    match monospace_catalog_status(&mut c) {
        (MonospaceCatalogStatus::Ready(list), false) => assert_eq!(list[0].label, "Auto"),
        _ => panic!("catalogue should be ready"),
    }
}

#[test]
fn serial_labels() {
    let usb = PortKind::Usb { product: Some("CP2102".to_string()), manufacturer: Some("SiLabs".to_string()) };
    assert_eq!(serial_port_kind_label(&usb, false), "USB \u{b7} CP2102");
    let mfr = PortKind::Usb { product: Some(String::new()), manufacturer: Some("FTDI".to_string()) };
    assert_eq!(serial_port_kind_label(&mfr, false), "USB \u{b7} FTDI");
    assert_eq!(serial_port_kind_label(&PortKind::Usb { product: None, manufacturer: None }, false), "USB");
    assert_eq!(serial_port_kind_label(&PortKind::Unknown, true), "Serial");
    assert_eq!(serial_port_kind_label(&PortKind::Unknown, false), "Unknown");
    let ports = vec![
        PortInfo { name: "/dev/ttyUSB1".to_string(), kind: PortKind::Pci },
        PortInfo { name: "/dev/ttyACM0".to_string(), kind: PortKind::Bluetooth },
    ];
    let devs = serial_devices(ports, false);
    assert_eq!(devs[0].path, "/dev/ttyACM0");
    assert_eq!(devs[0].label, "/dev/ttyACM0 (Bluetooth)");
    assert_eq!(devs[1].label, "/dev/ttyUSB1 (PCI)");
}

#[test]
fn android_serial_names() {
    assert!(android_serial_name("ttyUSB0"));
    assert!(android_serial_name("ttyS1"));
    assert!(!android_serial_name("tty0"));
}

use rsterminal::ble::{
    build_from_known_profile, build_from_properties, discover_uart, known_ble_profiles, pair_characteristics,
    parse_ble_uuid, port_for_notification_uuid, prefer_notify_score, prefer_write_score,
    writes_without_response, BleDiscovery, BlePort, BleProtocol, CharInfo, ConnectionPortKind,
    KnownBleProfile, KnownPortPair, ScannedDevice, ServiceInfo,
};
use rsterminal::ble::{
    ble_device_labels, device_name_matches, find_port, on_notification, plan_ble_write, unsubscribe_list,
    write_payload_len,
};
use rsterminal::connection::mux_data_frames;

fn ch(uuid: u128, notify: bool, indicate: bool, write: bool, wwr: bool) -> CharInfo {
    CharInfo { uuid, notify, indicate, write, write_without_response: wwr }
}

#[test]
fn ble_scores() {
    assert_eq!(prefer_notify_score(&ch(1, true, true, false, false)), 0);
    assert_eq!(prefer_notify_score(&ch(1, false, true, false, false)), 1);
    assert_eq!(prefer_write_score(&ch(1, false, false, true, true)), 0);
    assert_eq!(prefer_write_score(&ch(1, false, false, true, false)), 1);
    assert!(writes_without_response(&ch(1, false, false, false, true)));
}

#[test]
fn ble_pairing_prefers_distinct_characteristics() {
    let chars = vec![
        ch(5, false, true, false, false),
        ch(3, true, false, false, false),
        ch(3, false, false, true, false),
        ch(9, false, false, false, true),
    ];
    let ports = pair_characteristics(&chars, 8);
    assert_eq!(ports.len(), 2);
    assert_eq!(ports[0].0.uuid, 3);
    assert_eq!(ports[0].1.uuid, 9);
    assert_eq!(ports[1].0.uuid, 5);
    assert_eq!(ports[1].1.uuid, 3);
    assert_eq!(pair_characteristics(&chars, 1).len(), 1);
    assert!(pair_characteristics(&[ch(1, true, false, false, false)], 8).is_empty());
}

const NUS_SERVICE: u128 = 0x6E400001_B5A3_F393_E0A9_E50E24DCCA9E;
const NUS_RX: u128 = 0x6E400002_B5A3_F393_E0A9_E50E24DCCA9E;
const NUS_TX: u128 = 0x6E400003_B5A3_F393_E0A9_E50E24DCCA9E;

#[test]
fn ble_uuid_short_forms() {
    assert_eq!(parse_ble_uuid("FFE1"), Some(0x0000FFE1_0000_1000_8000_00805F9B34FB));
    assert_eq!(parse_ble_uuid(" 0000DFB1 "), Some(0x0000DFB1_0000_1000_8000_00805F9B34FB));
    assert_eq!(parse_ble_uuid("6E400001-B5A3-F393-E0A9-E50E24DCCA9E"), Some(NUS_SERVICE));
    assert_eq!(parse_ble_uuid("not a uuid"), None);
    assert_eq!(parse_ble_uuid("FFE"), None);
}

#[test]
fn ble_known_profile() {
    let service = ServiceInfo {
        uuid: 0xFFF0,
        chars: vec![ch(0x0000FFF1_0000_1000_8000_00805F9B34FB, true, false, false, false), ch(0x0000FFF2_0000_1000_8000_00805F9B34FB, false, false, true, false)],
    };
    let profile = KnownBleProfile {
        service_uuid: "FFF0",
        protocol: BleProtocol::MultiCharacteristic,
        ports: vec![
            KnownPortPair { port: 0, name: "A", kind: ConnectionPortKind::Serial, tx_uuid: "FFF1", rx_uuid: "FFF2" },
            KnownPortPair { port: 1, name: "B", kind: ConnectionPortKind::Serial, tx_uuid: "FFF3", rx_uuid: "FFF4" },
        ],
    };
    let found = build_from_known_profile(&service, &profile).unwrap();
    assert_eq!(found.service_uuid, 0xFFF0);
    assert_eq!(found.protocol, BleProtocol::MultiCharacteristic);
    assert_eq!(
        found.ports,
        vec![BlePort { port: 0, name: "A".to_string(), kind: ConnectionPortKind::Serial, tx: service.chars[0], rx: service.chars[1] }]
    );
    assert_eq!(port_for_notification_uuid(&found.ports, 0x0000FFF1_0000_1000_8000_00805F9B34FB), Some(0));
    assert_eq!(port_for_notification_uuid(&found.ports, 0x0000FFF2_0000_1000_8000_00805F9B34FB), None);
    let empty = ServiceInfo { uuid: 0xFFF0, chars: vec![] };
    assert_eq!(build_from_known_profile(&empty, &profile), None);
}

#[test]
fn ble_properties_number_ports() {
    let service = ServiceInfo {
        uuid: 7,
        chars: vec![
            ch(5, false, true, false, false),
            ch(3, true, false, false, false),
            ch(3, false, false, true, false),
            ch(9, false, false, false, true),
        ],
    };
    let found = build_from_properties(&service, 8).unwrap();
    assert_eq!(found.protocol, BleProtocol::MultiCharacteristic);
    assert_eq!(found.ports.len(), 2);
    assert_eq!(found.ports[0].port, 0);
    assert_eq!(found.ports[0].name, "BLE port 0");
    assert_eq!(found.ports[1].port, 1);
    assert_eq!(found.ports[1].name, "BLE port 1");
    assert_eq!(found.ports[1].kind, ConnectionPortKind::Serial);
    assert_eq!((found.ports[1].tx.uuid, found.ports[1].rx.uuid), (5, 3));
    let only_notify = ServiceInfo { uuid: 7, chars: vec![ch(1, true, false, false, false)] };
    assert_eq!(build_from_properties(&only_notify, 8), None);
}

#[test]
fn ble_known_profile_table() {
    let profiles = known_ble_profiles();
    assert_eq!(profiles.len(), 7);
    assert_eq!(profiles[0].ports.len(), 2);
    assert_eq!(profiles[1].protocol, BleProtocol::MuxFrames);
    assert_eq!(parse_ble_uuid(profiles[2].service_uuid), Some(NUS_SERVICE));
    assert_eq!(profiles[4].ports[0].name, "HM-10");
}

#[test]
fn ble_discovers_nordic_uart() {
    let nus = ServiceInfo {
        uuid: NUS_SERVICE,
        chars: vec![ch(NUS_RX, false, false, true, true), ch(NUS_TX, true, false, false, false)],
    };
    let other = ServiceInfo { uuid: 0x1234, chars: vec![ch(1, true, false, false, false), ch(2, false, false, true, false)] };
    let found = discover_uart(&[other.clone(), nus.clone()]).unwrap();
    assert_eq!(found.service_uuid, NUS_SERVICE);
    assert_eq!(found.ports.len(), 1);
    assert_eq!(found.ports[0].name, "NUS");
    assert_eq!(found.ports[0].tx.uuid, NUS_TX);
    assert_eq!(found.ports[0].rx.uuid, NUS_RX);
}

#[test]
fn ble_discovery_falls_back_to_best_service() {
    let single = ServiceInfo { uuid: 0x10, chars: vec![ch(1, true, false, false, false), ch(2, false, false, false, true)] };
    let double = ServiceInfo {
        uuid: 0x20,
        chars: vec![
            ch(3, true, false, false, false),
            ch(4, true, false, false, false),
            ch(5, false, false, true, false),
            ch(6, false, false, true, false),
        ],
    };
    let found: BleDiscovery = discover_uart(&[single.clone(), double.clone()]).unwrap();
    assert_eq!(found.service_uuid, 0x20);
    assert_eq!(found.ports.len(), 2);
    let found = discover_uart(&[single.clone()]).unwrap();
    assert_eq!(found.service_uuid, 0x10);
    assert_eq!(discover_uart(&[]), None);
}

#[test]
fn mux_writes_decode_back() {
    let data: Vec<u8> = (0..50u8).collect();
    let frames = mux_data_frames(2, &data, 20);
    assert_eq!(frames.len(), 4);
    assert_eq!(frames[0].len(), 20);
    let mut d = MuxDecoder::new();
    let mut payload = Vec::new();
    for f in &frames {
        for (port, kind, p) in d.push(f) {
            assert_eq!((port, kind), (2, MUX_FRAME_DATA));
            payload.extend(p);
        }
    }
    assert_eq!(payload, data);
    assert_eq!(mux_data_frames(0, b"ab", 3).len(), 2);
}

#[test]
fn utc_dates_across_leap_days() {
    assert_eq!(format_unix_time(4107542400), "2100-03-01 00:00:00 UTC");
    assert_eq!(format_unix_time(1709164800), "2024-02-29 00:00:00 UTC");
    assert_eq!(format_unix_time(253402300799), "9999-12-31 23:59:59 UTC");
}

#[test]
fn file_manager_tab_labels() {
    assert_eq!(tab_label(FileManagerMode::SshSftp, "Remote: box", Some("/srv"), None), "box:/srv");
    assert_eq!(tab_label(FileManagerMode::SshSftp, "box", Some("/"), None), "box:/");
    assert_eq!(tab_label(FileManagerMode::SshSftp, "Remote: box", None, None), "Remote: box");
    assert_eq!(tab_label(FileManagerMode::LocalDual, "x", None, Some("/home".to_string())), "/home");
    assert_eq!(tab_label(FileManagerMode::LocalDual, "x", None, None), "File Manager");
}

#[test]
fn local_terminal_config_choice() {
    let ssh = SavedConnection::new_ssh("box", "example.org", 22, "me");
    let a = SavedConnection::new_local("A", None);
    let b = SavedConnection::new_local("B", Some("/bin/zsh"));
    let saved = vec![ssh.clone(), a.clone(), b.clone()];
    assert_eq!(local_connection_index(&saved, &None), Some(1));
    assert_eq!(local_connection_index(&saved, &Some(b.id.clone())), Some(2));
    assert_eq!(local_connection_index(&saved, &Some(ssh.id.clone())), Some(1));
    assert_eq!(local_connection_index(&saved, &Some("missing".to_string())), Some(1));
    assert_eq!(local_connection_index(&[ssh], &None), None);
}

fn seen(name: Option<&str>, id: &str) -> ScannedDevice {
    ScannedDevice { local_name: name.map(|n| n.to_string()), id: id.to_string() }
}

#[test]
fn ble_scan_labels_unique_and_sorted() {
    let found = vec![
        seen(Some("beta"), "id1"),
        seen(Some(""), "AA:BB"),
        seen(None, "Alpha"),
        seen(Some("beta"), "id2"),
        seen(Some("Beta"), "id3"),
    ];
    assert_eq!(ble_device_labels(&found), vec!["AA:BB", "Alpha", "beta", "Beta"]);
    assert!(ble_device_labels(&[]).is_empty());
}

#[test]
fn profiles_found_by_name() {
    let names = vec!["Default".to_string(), "Dark".to_string(), "Dark".to_string()];
    assert_eq!(find_profile(&names, "Dark"), Some(1));
    assert_eq!(find_profile(&names, "dark"), None);
    assert_eq!(default_profile_index(&names, "Dark"), 1);
    assert_eq!(default_profile_index(&names, "Missing"), 0);
}

#[test]
fn pty_burst_steps() {
    assert_eq!(burst_step(0, 0, true), BurstStep::Read);
    assert_eq!(burst_step(100, 100, false), BurstStep::Sleep);
    assert_eq!(burst_step(100, 500, false), BurstStep::Stop);
    assert_eq!(burst_step(3000, 0, true), BurstStep::Stop);
    assert_eq!(burst_step(2999, 10_000, true), BurstStep::Read);
}

#[test]
fn winch_goes_to_group_then_shell() {
    assert_eq!(winch_targets(42, Some(7), Some(9), false), vec![-42]);
    assert_eq!(winch_targets(0, Some(7), None, false), vec![7]);
    assert_eq!(winch_targets(-1, None, None, true), Vec::<i32>::new());
    assert_eq!(winch_targets(42, Some(7), Some(9), true), vec![-42, 9, 7]);
    assert_eq!(winch_targets(0, Some(7), None, true), vec![7, 7]);
}

fn remote(name: &str, is_dir: bool, size: Option<u64>, mtime: Option<u64>) -> RemoteItem {
    RemoteItem { name: name.to_string(), is_dir, size, mtime }
}

#[test]
fn remote_listing_skips_links_and_sorts() {
    let items = vec![
        remote(".", true, None, None),
        remote("b.txt", false, Some(10), Some(0)),
        remote("..", true, None, None),
        remote("Zdir", true, None, None),
        remote("a.txt", false, None, None),
        remote("huge", false, None, Some(u64::MAX)),
    ];
    let entries = remote_entries(&items);
    let names: Vec<&str> = entries.iter().map(|e| e.name.as_str()).collect();
    assert_eq!(names, vec!["Zdir", "a.txt", "b.txt", "huge"]);
    assert_eq!(entries[3].modified, None);
    assert_eq!(entries[1].size, 0);
    assert_eq!(entries[2].size, 10);
    assert!(entries[1].modified.is_none());
    assert_eq!(entries[2].modified, Some(0));
}

fn ssh_profile(host: Option<&str>, port: Option<u16>, user: Option<&str>) -> SavedConnection {
    let mut c = SavedConnection::new_ssh("x", "h", 22, "u");
    c.ssh_host = host.map(|h| h.to_string());
    c.ssh_port = port;
    c.ssh_user = user.map(|u| u.to_string());
    c
}

#[test]
fn ssh_target_needs_host_and_user() {
    let t = ssh_target(&ssh_profile(Some("example.org"), None, Some("me"))).unwrap();
    assert_eq!((t.host.as_str(), t.port, t.user.as_str()), ("example.org", 22, "me"));
    let t = ssh_target(&ssh_profile(Some("example.org"), Some(2222), Some("me"))).unwrap();
    assert_eq!(t.port, 2222);
    assert_eq!(ssh_target(&ssh_profile(None, None, None)).unwrap_err(), "SSH host not configured");
    assert_eq!(ssh_target(&ssh_profile(Some("h"), None, None)).unwrap_err(), "SSH user not configured");
}

#[test]
fn ssh_login_order() {
    assert_eq!(
        auth_methods(2, Some("pw")),
        vec![
            AuthMethod::PublicKey(0),
            AuthMethod::PublicKey(1),
            AuthMethod::Password,
            AuthMethod::KeyboardInteractive,
            AuthMethod::NoAuth
        ]
    );
    assert_eq!(auth_methods(0, Some("")), vec![AuthMethod::NoAuth]);
    assert_eq!(auth_methods(1, None), vec![AuthMethod::PublicKey(0), AuthMethod::NoAuth]);
    assert_eq!(keyboard_answers(2, "pw"), vec!["pw".to_string(), "pw".to_string()]);
    assert!(auth_failed_message().starts_with("SSH authentication failed"));
}

#[test]
fn ssh_session_steps() {
    assert_eq!(on_channel_event(ChannelEvent::Data(vec![1, 2])), SessionStep::Show(vec![1, 2]));
    assert_eq!(on_channel_event(ChannelEvent::ExtendedData(vec![3])), SessionStep::Show(vec![3]));
    assert_eq!(on_channel_event(ChannelEvent::Eof), SessionStep::Stop);
    assert_eq!(on_channel_event(ChannelEvent::Other), SessionStep::Ignore);
    assert_eq!(on_outgoing(Some(ConnOut::Data(vec![9]))), SessionStep::Send(vec![9]));
    assert_eq!(on_outgoing(Some(ConnOut::Resize(0, 100))), SessionStep::WindowChange(100, 1));
    assert_eq!(on_outgoing(Some(ConnOut::Winch)), SessionStep::Ignore);
    assert_eq!(on_outgoing(None), SessionStep::Stop);
    assert_eq!(pty_size(24, 0), (1, 24));
}

#[test]
fn proc_children_are_read_as_numbers() {
    assert_eq!(parse_children("12 345\n"), Some(vec![12, 345]));
    assert_eq!(parse_children("  +7 x 4294967295 4294967296 -1 "), Some(vec![7, 4294967295]));
    assert_eq!(parse_children(" \n"), None);
    assert_eq!(parse_children("abc"), None);
}

#[test]
fn proc_cmdline_splits_on_nul() {
    assert_eq!(
        parse_cmdline(b"vim\0-R\0\0file.txt\0"),
        Some(vec!["vim".to_string(), "-R".to_string(), "file.txt".to_string()])
    );
    assert_eq!(parse_cmdline(b"a\xffb"), Some(vec!["a\u{fffd}b".to_string()]));
    assert_eq!(parse_cmdline(b"\0\0"), None);
    assert_eq!(parse_cmdline(b""), None);
}

#[test]
fn host_name_from_buffer() {
    assert_eq!(hostname_from(b" box \0junk"), "box");
    assert_eq!(hostname_from(b"\0"), "localhost");
    assert_eq!(hostname_from(b"  "), "localhost");
    assert_eq!(hostname_from(b"host"), "host");
}

fn port(n: u8, tx: u128, rx: u128) -> BlePort {
    BlePort {
        port: n,
        name: format!("p{n}"),
        kind: ConnectionPortKind::Serial,
        tx: ch(tx, true, false, false, false),
        rx: ch(rx, false, false, true, false),
    }
}

#[test]
fn ble_device_names_and_payload() {
    assert!(device_name_matches("ESP32 Terminal", "ESP32"));
    assert!(device_name_matches("ESP32", "ESP32"));
    assert!(!device_name_matches("ESP", "ESP32"));
    assert_eq!(write_payload_len(247), 244);
    assert_eq!(write_payload_len(23), 20);
    assert_eq!(write_payload_len(0), 20);
}

#[test]
fn ble_write_plans() {
    let ports = vec![port(0, 1, 2), port(1, 3, 4)];
    let (k, writes) = plan_ble_write(BleProtocol::MultiCharacteristic, &ports, Some(1), &[1, 2, 3, 4, 5], 2).unwrap();
    assert_eq!(k, 1);
    assert_eq!(writes, vec![vec![1, 2], vec![3, 4], vec![5]]);
    assert_eq!(
        plan_ble_write(BleProtocol::MultiCharacteristic, &ports, Some(7), &[1], 20).unwrap_err(),
        "BLE port 7 is not available"
    );
    assert_eq!(
        plan_ble_write(BleProtocol::MultiCharacteristic, &[], None, &[1], 20).unwrap_err(),
        "BLE port 0 is not available"
    );
    assert_eq!(
        plan_ble_write(BleProtocol::MuxFrames, &[], Some(3), &[1], 20).unwrap_err(),
        "BLE MUX write port is not available"
    );
    let (k, writes) = plan_ble_write(BleProtocol::MuxFrames, &ports, Some(2), &[9, 8, 7], 6).unwrap();
    assert_eq!(k, 0);
    assert_eq!(writes, vec![vec![2, 1, 2, 0, 9, 8], vec![2, 1, 1, 0, 7]]);
    let (_, writes) = plan_ble_write(BleProtocol::MuxFrames, &ports, None, &[9], 3).unwrap();
    assert_eq!(writes, vec![vec![0, 1, 1], vec![0, 9]]);
    assert_eq!(find_port(&ports, 1), Some(1));
    assert_eq!(find_port(&ports, 5), None);
}

#[test]
fn ble_notifications_reach_their_port() {
    let ports = vec![port(0, 1, 2), port(1, 3, 4)];
    let mut decoder = MuxDecoder::default();
    assert_eq!(
        on_notification(BleProtocol::MultiCharacteristic, &ports, &mut decoder, 3, vec![7, 7]),
        vec![(1, vec![7, 7])]
    );
    assert!(on_notification(BleProtocol::MultiCharacteristic, &ports, &mut decoder, 2, vec![7]).is_empty());
    assert!(on_notification(BleProtocol::MuxFrames, &ports, &mut decoder, 1, vec![1, 1, 2, 0, 5]).is_empty());
    assert_eq!(
        on_notification(BleProtocol::MuxFrames, &ports, &mut decoder, 1, vec![6, 2, 9, 0, 0, 4, 1, 1, 0, 8]),
        vec![(1, vec![5, 6]), (4, vec![8])]
    );
}

#[test]
fn ble_close_unsubscribes_each_characteristic_once() {
    let ports = vec![port(0, 1, 2), port(1, 1, 4), port(2, 3, 4)];
    let list: Vec<u128> = unsubscribe_list(&ports).iter().map(|c| c.uuid).collect();
    assert_eq!(list, vec![1, 3]);
}

#[test]
fn ble_mux_writes_decode_to_the_data() {
    let ports = vec![port(0, 1, 2)];
    let data: Vec<u8> = (0..50u8).collect();
    let (_, writes) = plan_ble_write(BleProtocol::MuxFrames, &ports, Some(2), &data, 7).unwrap();
    let stream: Vec<u8> = writes.concat();
    let mut decoder = MuxDecoder::default();
    let frames = decoder.push(&stream);
    assert!(frames.iter().all(|f| f.0 == 2 && f.1 == MUX_FRAME_DATA));
    let payload: Vec<u8> = frames.iter().flat_map(|f| f.2.clone()).collect();
    assert_eq!(payload, data);
    let (_, raw) = plan_ble_write(BleProtocol::MultiCharacteristic, &ports, None, &data, 7).unwrap();
    assert_eq!(raw.concat(), data);
}

#[test]
fn local_pty_dimensions() {
    let d = pty_dims(0, 0);
    assert_eq!((d.rows, d.cols, d.pixel_width, d.pixel_height), (1, 1, 8, 16));
    let d = pty_dims(24, 80);
    assert_eq!((d.rows, d.cols, d.pixel_width, d.pixel_height), (24, 80, 640, 384));
    let d = pty_dims(5000, 9000);
    assert_eq!((d.pixel_width, d.pixel_height), (u16::MAX, u16::MAX));
}

#[test]
fn serial_profile_settings() {
    let c = SavedConnection::new_serial("dev", "/dev/ttyUSB0", 9600);
    assert_eq!(rsterminal::serial::serial_settings(&c).unwrap(), ("/dev/ttyUSB0".to_string(), 9600));
    let mut d = c.clone();
    d.serial_baud = None;
    assert_eq!(rsterminal::serial::serial_settings(&d).unwrap().1, 115200);
    d.serial_port = None;
    assert_eq!(rsterminal::serial::serial_settings(&d).unwrap_err(), "Serial port not configured");
}

#[test]
fn ble_profile_device() {
    let c = SavedConnection::new_ble("b", "ESP32");
    assert_eq!(rsterminal::ble::ble_device_name(&c).unwrap(), "ESP32");
    let mut d = c.clone();
    d.ble_device = None;
    assert_eq!(rsterminal::ble::ble_device_name(&d).unwrap_err(), "BLE device not configured");
}

#[test]
fn mux_frames_survive_any_cuts() {
    let mut stream = Vec::new();
    stream.extend(encode_mux_frame(1, MUX_FRAME_DATA, b"hello"));
    stream.extend(encode_mux_frame(2, 7, b""));
    stream.extend(encode_mux_frame(3, MUX_FRAME_DATA, &[9u8; 300]));
    for cut in [1usize, 2, 3, 5, 7, 64, 1000] {
        let mut d = MuxDecoder::default();
        let mut frames = Vec::new();
        for chunk in stream.chunks(cut) {
            frames.extend(d.push(chunk));
        }
        assert_eq!(frames.len(), 3);
        assert_eq!(frames[0], (1, MUX_FRAME_DATA, b"hello".to_vec()));
        assert_eq!(frames[1], (2, 7, vec![]));
        assert_eq!(frames[2], (3, MUX_FRAME_DATA, vec![9u8; 300]));
    }
}
