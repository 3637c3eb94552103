//! Saved connection profiles.

use vstd::prelude::*;

verus! {

/// The kinds of connection a profile can open.
#[derive(Debug, Clone, Copy, PartialEq, Eq, Structural)]
pub enum ConnectionType {
    Local,
    Ssh,
    Serial,
    Ble,
}

impl ConnectionType {
    pub open spec fn label_view(self) -> Seq<char> {
        match self {
            ConnectionType::Local => "Local Terminal"@,
            ConnectionType::Ssh => "SSH"@,
            ConnectionType::Serial => "Serial Port"@,
            ConnectionType::Ble => "BLE Serial"@,
        }
    }

    pub open spec fn icon_view(self) -> Seq<char> {
        match self {
            ConnectionType::Local => "\u{1f4bb}"@,
            ConnectionType::Ssh => "\u{1f310}"@,
            ConnectionType::Serial => "\u{1f50c}"@,
            ConnectionType::Ble => "\u{1f4f6}"@,
        }
    }

    /// The name shown for this kind of connection.
    pub fn label(&self) -> (s: &'static str)
        ensures
            s@ == self.label_view(),
    {
        match self {
            ConnectionType::Local => "Local Terminal",
            ConnectionType::Ssh => "SSH",
            ConnectionType::Serial => "Serial Port",
            ConnectionType::Ble => "BLE Serial",
        }
    }

    /// The icon shown for this kind of connection.
    pub fn icon(&self) -> (s: &'static str)
        ensures
            s@ == self.icon_view(),
    {
        match self {
            ConnectionType::Local => "\u{1f4bb}",
            ConnectionType::Ssh => "\u{1f310}",
            ConnectionType::Serial => "\u{1f50c}",
            ConnectionType::Ble => "\u{1f4f6}",
        }
    }
}

/// The text of a random (version 4) UUID: 36 characters, lowercase hex
/// digits in groups of 8, 4, 4, 4 and 12 separated by hyphens, the version
/// digit being 4.
pub open spec fn uuid_v4_text(s: Seq<char>) -> bool {
    &&& s.len() == 36
    &&& forall|i: int| 0 <= i < 36 ==> if i == 8 || i == 13 || i == 18 || i == 23 {
        #[trigger] s[i] == '-'
    } else {
        ('0' <= s[i] && s[i] <= '9') || ('a' <= s[i] && s[i] <= 'f')
    }
    &&& s[14] == '4'
}

/// A fresh random identifier: `uuid::Uuid::new_v4()` as text.
///
/// Trusted: the value is random; what is stated is the shape of every such
/// text, as the uuid crate's hyphenated lowercase `Display` writes it.
#[verifier::external_body]
fn new_connection_id() -> (s: String)
    ensures
        uuid_v4_text(s@),
{
    uuid::Uuid::new_v4().to_string()
}

/// A saved connection profile.
#[derive(Debug, Clone)]
pub struct SavedConnection {
    pub id: String,
    pub name: String,
    pub conn_type: ConnectionType,
    pub favorite: bool,
    pub last_connected: Option<String>,
    /// Local: shell path.
    pub shell: Option<String>,
    /// Local: initial working directory.
    pub working_dir: Option<String>,
    pub ssh_host: Option<String>,
    pub ssh_port: Option<u16>,
    pub ssh_user: Option<String>,
    /// Optional password (stored locally in the settings file).
    pub ssh_password: Option<String>,
    pub serial_port: Option<String>,
    pub serial_baud: Option<u32>,
    pub ble_device: Option<String>,
}

pub open spec fn opt_view(o: Option<String>) -> Option<Seq<char>> {
    match o {
        Some(s) => Some(s@),
        None => None,
    }
}

impl SavedConnection {
    /// A profile with a fresh id, the given name and kind, and nothing else set.
    pub open spec fn blank(self, name: Seq<char>, conn_type: ConnectionType) -> bool {
        &&& uuid_v4_text(self.id@)
        &&& self.name@ == name
        &&& self.conn_type == conn_type
        &&& !self.favorite
        &&& self.last_connected is None
        &&& self.working_dir is None
        &&& self.ssh_password is None
    }

    pub fn new_local(name: &str, shell: Option<&str>) -> (c: Self)
        ensures
            c.blank(name@, ConnectionType::Local),
            opt_view(c.shell) == (match shell { Some(s) => Some(s@), None => None }),
            c.ssh_host is None && c.ssh_port is None && c.ssh_user is None,
            c.serial_port is None && c.serial_baud is None && c.ble_device is None,
    {
        SavedConnection {
            id: new_connection_id(),
            name: String::from_str(name),
            conn_type: ConnectionType::Local,
            favorite: false,
            last_connected: None,
            shell: match shell {
                Some(s) => Some(String::from_str(s)),
                None => None,
            },
            working_dir: None,
            ssh_host: None,
            ssh_port: None,
            ssh_user: None,
            ssh_password: None,
            serial_port: None,
            serial_baud: None,
            ble_device: None,
        }
    }

    pub fn new_ssh(name: &str, host: &str, port: u16, user: &str) -> (c: Self)
        ensures
            c.blank(name@, ConnectionType::Ssh),
            c.shell is None,
            opt_view(c.ssh_host) == Some(host@),
            c.ssh_port == Some(port),
            opt_view(c.ssh_user) == Some(user@),
            c.serial_port is None && c.serial_baud is None && c.ble_device is None,
    {
        SavedConnection {
            id: new_connection_id(),
            name: String::from_str(name),
            conn_type: ConnectionType::Ssh,
            favorite: false,
            last_connected: None,
            shell: None,
            working_dir: None,
            ssh_host: Some(String::from_str(host)),
            ssh_port: Some(port),
            ssh_user: Some(String::from_str(user)),
            ssh_password: None,
            serial_port: None,
            serial_baud: None,
            ble_device: None,
        }
    }

    pub fn new_serial(name: &str, port: &str, baud: u32) -> (c: Self)
        ensures
            c.blank(name@, ConnectionType::Serial),
            c.shell is None,
            c.ssh_host is None && c.ssh_port is None && c.ssh_user is None,
            opt_view(c.serial_port) == Some(port@),
            c.serial_baud == Some(baud),
            c.ble_device is None,
    {
        SavedConnection {
            id: new_connection_id(),
            name: String::from_str(name),
            conn_type: ConnectionType::Serial,
            favorite: false,
            last_connected: None,
            shell: None,
            working_dir: None,
            ssh_host: None,
            ssh_port: None,
            ssh_user: None,
            ssh_password: None,
            serial_port: Some(String::from_str(port)),
            serial_baud: Some(baud),
            ble_device: None,
        }
    }

    pub fn new_ble(name: &str, device: &str) -> (c: Self)
        ensures
            c.blank(name@, ConnectionType::Ble),
            c.shell is None,
            c.ssh_host is None && c.ssh_port is None && c.ssh_user is None,
            c.serial_port is None && c.serial_baud is None,
            opt_view(c.ble_device) == Some(device@),
    {
        SavedConnection {
            id: new_connection_id(),
            name: String::from_str(name),
            conn_type: ConnectionType::Ble,
            favorite: false,
            last_connected: None,
            shell: None,
            working_dir: None,
            ssh_host: None,
            ssh_port: None,
            ssh_user: None,
            ssh_password: None,
            serial_port: None,
            serial_baud: None,
            ble_device: Some(String::from_str(device)),
        }
    }
}

/// The first saved connection from position `j` on that is a local
/// terminal and, where `id` is given, has that id.
pub open spec fn first_local(saved: Seq<SavedConnection>, id: Option<Seq<char>>, j: int) -> Option<int>
    decreases saved.len() - j,
{
    if j < 0 || j >= saved.len() {
        None
    } else if saved[j].conn_type == ConnectionType::Local && (match id {
        Some(i) => saved[j].id@ == i,
        None => true,
    }) {
        Some(j)
    } else {
        first_local(saved, id, j + 1)
    }
}

/// The saved connection a local terminal opens with: the default one where
/// it is set and names a saved local terminal, else the first saved local
/// terminal; `None` where there is none.
pub open spec fn local_choice(saved: Seq<SavedConnection>, default_id: Option<Seq<char>>) -> Option<int> {
    match default_id {
        Some(i) => match first_local(saved, Some(i), 0) {
            Some(k) => Some(k),
            None => first_local(saved, None, 0),
        },
        None => first_local(saved, None, 0),
    }
}

fn find_local(saved: &[SavedConnection], id: Option<&String>) -> (r: Option<usize>)
    ensures
        match r {
            Some(k) => first_local(saved@, match id { Some(i) => Some(i@), None => None }, 0) == Some(k as int),
            None => first_local(saved@, match id { Some(i) => Some(i@), None => None }, 0) is None,
        },
{
    let ghost want = match id { Some(i) => Some(i@), None => None };
    let mut j: usize = 0;
    while j < saved.len()
        invariant
            j <= saved@.len(),
            want == match id { Some(i) => Some(i@), None => None::<Seq<char>> },
            first_local(saved@, want, 0) == first_local(saved@, want, j as int),
        decreases saved.len() - j,
    {
        let c = &saved[j];
        let id_ok = match id {
            Some(i) => c.id == *i,
            None => true,
        };
        if c.conn_type == ConnectionType::Local && id_ok {
            return Some(j);
        }
        j = j + 1;
    }
    None
}

/// Which saved connection a local terminal opens with (see `local_choice`);
/// `None` where no local terminal is saved, and a new one is made.
pub fn local_connection_index(saved: &[SavedConnection], default_id: &Option<String>) -> (r: Option<usize>)
    ensures
        match r {
            Some(k) => local_choice(saved@, opt_view(*default_id)) == Some(k as int),
            None => local_choice(saved@, opt_view(*default_id)) is None,
        },
{
    match default_id {
        Some(i) => match find_local(saved, Some(i)) {
            Some(k) => Some(k),
            None => find_local(saved, None),
        },
        None => find_local(saved, None),
    }
}

} // verus!
