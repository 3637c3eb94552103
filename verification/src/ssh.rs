//! The decisions of an SSH session: where to connect, which login methods
//! to try in which order, and what the session loop does with each message.

use vstd::prelude::*;
use vstd::string::StringExecFns;

use crate::connection::ConnOut;
use crate::storage::{opt_view, SavedConnection};

verus! {

/// Where and as whom an SSH session logs in.
#[derive(Debug, Clone)]
pub struct SshTarget {
    pub host: String,
    pub port: u16,
    pub user: String,
    pub password: Option<String>,
}

/// The port SSH listens on unless a profile says otherwise.
pub const SSH_DEFAULT_PORT: u16 = 22;

/// The target of a saved SSH profile: its host and user are required (host
/// first), the port defaults to 22, the saved password is kept.
pub fn ssh_target(config: &SavedConnection) -> (r: Result<SshTarget, String>)
    ensures
        match config.ssh_host {
            None => r matches Err(e) && e@ == "SSH host not configured"@,
            Some(h) => match config.ssh_user {
                None => r matches Err(e) && e@ == "SSH user not configured"@,
                Some(u) => r matches Ok(t) && {
                    &&& t.host@ == h@
                    &&& t.port == match config.ssh_port { Some(p) => p, None => SSH_DEFAULT_PORT }
                    &&& t.user@ == u@
                    &&& opt_view(t.password) == opt_view(config.ssh_password)
                },
            },
        },
{
    let host = match &config.ssh_host {
        Some(h) => String::from_str(h.as_str()),
        None => {
            return Err(String::from_str("SSH host not configured"));
        },
    };
    let port = match config.ssh_port {
        Some(p) => p,
        None => SSH_DEFAULT_PORT,
    };
    let user = match &config.ssh_user {
        Some(u) => String::from_str(u.as_str()),
        None => {
            return Err(String::from_str("SSH user not configured"));
        },
    };
    let password = match &config.ssh_password {
        Some(p) => Some(String::from_str(p.as_str())),
        None => None,
    };
    Ok(SshTarget { host, port, user, password })
}

/// A way of logging in.
#[derive(Debug, Clone, Copy, PartialEq, Eq, Structural)]
pub enum AuthMethod {
    /// The private key at this position among the default key paths.
    PublicKey(usize),
    Password,
    KeyboardInteractive,
    /// The "none" method, which some servers accept.
    NoAuth,
}

/// The login methods in the order they are tried: each default key, then,
/// with a non-empty password, the password and keyboard-interactive, then
/// "none". The first that the server accepts ends the login.
pub open spec fn auth_plan(keys: nat, has_password: bool) -> Seq<AuthMethod> {
    Seq::new(keys, |i: int| AuthMethod::PublicKey(i as usize))
        + (if has_password { seq![AuthMethod::Password, AuthMethod::KeyboardInteractive] } else { Seq::empty() })
        + seq![AuthMethod::NoAuth]
}

/// The login methods to try (see `auth_plan`), with `keys` default key
/// paths and the password, if any.
pub fn auth_methods(keys: usize, password: Option<&str>) -> (v: Vec<AuthMethod>)
    ensures
        v@ == auth_plan(keys as nat, match password { Some(p) => p@.len() > 0, None => false }),
{
    let mut v: Vec<AuthMethod> = Vec::new();
    let mut i: usize = 0;
    while i < keys
        invariant
            i <= keys,
            v@ == Seq::new(i as nat, |j: int| AuthMethod::PublicKey(j as usize)),
        decreases keys - i,
    {
        v.push(AuthMethod::PublicKey(i));
        assert(v@ =~= Seq::new((i + 1) as nat, |j: int| AuthMethod::PublicKey(j as usize)));
        i = i + 1;
    }
    let has_password = match password {
        Some(p) => p.unicode_len() > 0,
        None => false,
    };
    if has_password {
        v.push(AuthMethod::Password);
        v.push(AuthMethod::KeyboardInteractive);
    }
    v.push(AuthMethod::NoAuth);
    assert(v@ =~= auth_plan(keys as nat, has_password));
    v
}

/// What a login that no method passed reports.
pub fn auth_failed_message() -> (s: String)
    ensures
        s@ == "SSH authentication failed (tried public keys, password, and keyboard-interactive)"@,
{
    String::from_str("SSH authentication failed (tried public keys, password, and keyboard-interactive)")
}

/// The answers to a keyboard-interactive request: the password for every
/// prompt.
pub fn keyboard_answers(prompts: usize, password: &str) -> (v: Vec<String>)
    ensures
        v@.len() == prompts,
        forall|i: int| 0 <= i < prompts ==> (#[trigger] v@[i])@ == password@,
{
    let mut v: Vec<String> = Vec::new();
    let mut i: usize = 0;
    while i < prompts
        invariant
            i <= prompts,
            v@.len() == i,
            forall|k: int| 0 <= k < i ==> (#[trigger] v@[k])@ == password@,
        decreases prompts - i,
    {
        v.push(String::from_str(password));
        i = i + 1;
    }
    v
}

/// The terminal size asked of the server, as (columns, rows), each at
/// least 1.
pub fn pty_size(rows: u16, cols: u16) -> (r: (u32, u32))
    ensures
        r.0 == (if cols == 0 { 1 } else { cols as u32 }),
        r.1 == (if rows == 0 { 1 } else { rows as u32 }),
{
    let c: u32 = if cols == 0 { 1 } else { cols as u32 };
    let r: u32 = if rows == 0 { 1 } else { rows as u32 };
    (c, r)
}

/// A message from the server's session channel.
#[derive(Debug, Clone)]
pub enum ChannelEvent {
    Data(Vec<u8>),
    ExtendedData(Vec<u8>),
    Eof,
    Close,
    /// The channel ended without a message.
    Ended,
    /// A message the terminal has no use for.
    Other,
}

/// What the session loop does next.
#[derive(Debug, Clone, PartialEq, Eq)]
pub enum SessionStep {
    /// Show these bytes on the terminal.
    Show(Vec<u8>),
    /// Send these bytes to the server.
    Send(Vec<u8>),
    /// Tell the server the terminal is now (columns, rows).
    WindowChange(u32, u32),
    /// Nothing to do.
    Ignore,
    /// Close the session.
    Stop,
}

/// The step for a message from the server: its data (standard or error
/// stream) is shown; end of file, close or the end of the channel stop the
/// session; anything else is ignored.
pub fn on_channel_event(e: ChannelEvent) -> (s: SessionStep)
    ensures
        match e {
            ChannelEvent::Data(d) => s == SessionStep::Show(d),
            ChannelEvent::ExtendedData(d) => s == SessionStep::Show(d),
            ChannelEvent::Eof | ChannelEvent::Close | ChannelEvent::Ended => s == SessionStep::Stop,
            ChannelEvent::Other => s == SessionStep::Ignore,
        },
{
    match e {
        ChannelEvent::Data(d) => SessionStep::Show(d),
        ChannelEvent::ExtendedData(d) => SessionStep::Show(d),
        ChannelEvent::Eof | ChannelEvent::Close | ChannelEvent::Ended => SessionStep::Stop,
        ChannelEvent::Other => SessionStep::Ignore,
    }
}

/// The step for a request from the terminal (`None` once the terminal is
/// gone): data goes to the server, a resize becomes a window change of at
/// least 1 by 1, a repeated size signal needs nothing, a close or a gone
/// terminal stops the session.
pub fn on_outgoing(o: Option<ConnOut>) -> (s: SessionStep)
    ensures
        match o {
            Some(ConnOut::Data(d)) => s == SessionStep::Send(d),
            Some(ConnOut::Resize(rows, cols)) => s == SessionStep::WindowChange(
                if cols == 0 { 1 } else { cols as u32 },
                if rows == 0 { 1 } else { rows as u32 },
            ),
            Some(ConnOut::Winch) => s == SessionStep::Ignore,
            Some(ConnOut::Close) | None => s == SessionStep::Stop,
        },
{
    match o {
        Some(ConnOut::Data(d)) => SessionStep::Send(d),
        Some(ConnOut::Resize(rows, cols)) => {
            let (c, r) = pty_size(rows, cols);
            SessionStep::WindowChange(c, r)
        },
        Some(ConnOut::Winch) => SessionStep::Ignore,
        Some(ConnOut::Close) | None => SessionStep::Stop,
    }
}

} // verus!
