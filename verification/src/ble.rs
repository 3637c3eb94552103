//! BLE terminal links: finding the serial link of a peripheral (known
//! profiles, or characteristics paired up into ports by their properties),
//! what its notifications give each port, and how writes go out.

use vstd::prelude::*;
use vstd::string::StringExecFns;
use vstd::utf8::encode_utf8;

use crate::connection::{
    byte_views, chunks_of, data_frames, decode_frames, frame_payload_size, joined, lemma_mux_data_round_trip,
    mux_data_frames, MuxDecoder, MuxFrameView, MUX_FRAME_DATA, MUX_MAX_PAYLOAD,
};
use crate::files::{digits, push_digits};
use crate::text::{
    chars_to_string, contains_text, has_infix, key_sorted, lowercase, sort_by_text_key, stable_reorder, str_chars,
    text_le, to_lower, trim_str, trimmed, TextKey,
};

verus! {

/// What the transport needs of a GATT characteristic: its UUID (as a
/// 128-bit number, ordered as UUIDs are) and its properties.
#[derive(Debug, Clone, Copy, PartialEq, Eq, Structural)]
pub struct CharInfo {
    pub uuid: u128,
    pub notify: bool,
    pub indicate: bool,
    pub write: bool,
    pub write_without_response: bool,
}

/// A characteristic the peripheral sends data on.
pub open spec fn notifiable(c: CharInfo) -> bool {
    c.notify || c.indicate
}

/// A characteristic the central can write data to.
pub open spec fn writable(c: CharInfo) -> bool {
    c.write || c.write_without_response
}

pub fn is_notifiable(c: &CharInfo) -> (b: bool)
    ensures
        b == notifiable(*c),
{
    c.notify || c.indicate
}

pub fn is_writable(c: &CharInfo) -> (b: bool)
    ensures
        b == writable(*c),
{
    c.write || c.write_without_response
}

/// Notifications are preferred to indications.
pub open spec fn notify_score(c: CharInfo) -> u8 {
    if c.notify { 0 } else if c.indicate { 1 } else { 2 }
}

/// Writes without response are preferred to acknowledged writes.
pub open spec fn write_score(c: CharInfo) -> u8 {
    if c.write_without_response { 0 } else if c.write { 1 } else { 2 }
}

pub fn prefer_notify_score(c: &CharInfo) -> (s: u8)
    ensures
        s == notify_score(*c),
{
    if c.notify { 0 } else if c.indicate { 1 } else { 2 }
}

pub fn prefer_write_score(c: &CharInfo) -> (s: u8)
    ensures
        s == write_score(*c),
{
    if c.write_without_response { 0 } else if c.write { 1 } else { 2 }
}

/// Whether writes to `rx` go without response (else they wait for one).
pub fn writes_without_response(rx: &CharInfo) -> (b: bool)
    ensures
        b == rx.write_without_response,
{
    rx.write_without_response
}

/// The order candidates are tried in: by preference score, then by UUID.
pub open spec fn cand_key(c: CharInfo, tx: bool) -> int {
    (if tx { notify_score(c) } else { write_score(c) }) as int * 0x1_0000_0000_0000_0000_0000_0000_0000_0000int + c.uuid as int
}

pub open spec fn cand_sorted(s: Seq<CharInfo>, tx: bool) -> bool {
    forall|i: int, j: int| 0 <= i < j < s.len() ==> cand_key(#[trigger] s[i], tx) <= cand_key(#[trigger] s[j], tx)
}

fn key_le(a: &CharInfo, b: &CharInfo, tx: bool) -> (r: bool)
    ensures
        r == (cand_key(*a, tx) <= cand_key(*b, tx)),
{
    let sa = if tx { prefer_notify_score(a) } else { prefer_write_score(a) };
    let sb = if tx { prefer_notify_score(b) } else { prefer_write_score(b) };
    sa < sb || (sa == sb && a.uuid <= b.uuid)
}

/// Where `c` goes among ordered candidates `s`, looking from `j` on: before
/// the first candidate whose key is greater, after all others.
pub open spec fn insert_pos(s: Seq<CharInfo>, c: CharInfo, tx: bool, j: int) -> int
    decreases s.len() - j,
{
    if j < 0 || j >= s.len() {
        s.len() as int
    } else if cand_key(s[j], tx) > cand_key(c, tx) {
        j
    } else {
        insert_pos(s, c, tx, j + 1)
    }
}

/// Candidates in the order they are tried: a stable sort by `cand_key`,
/// each candidate placed after those before it with a key not greater.
pub open spec fn sorted_cands(s: Seq<CharInfo>, tx: bool) -> Seq<CharInfo>
    decreases s.len(),
{
    if s.len() == 0 {
        Seq::empty()
    } else {
        let r = sorted_cands(s.drop_last(), tx);
        r.insert(insert_pos(r, s.last(), tx, 0), s.last())
    }
}

proof fn lemma_insert_pos(s: Seq<CharInfo>, c: CharInfo, tx: bool, j: int)
    requires
        0 <= j <= s.len(),
        forall|k: int| 0 <= k < j ==> cand_key(#[trigger] s[k], tx) <= cand_key(c, tx),
    ensures
        j <= insert_pos(s, c, tx, j) <= s.len(),
        forall|k: int| 0 <= k < insert_pos(s, c, tx, j) ==> cand_key(#[trigger] s[k], tx) <= cand_key(c, tx),
        insert_pos(s, c, tx, j) < s.len() ==> cand_key(s[insert_pos(s, c, tx, j)], tx) > cand_key(c, tx),
    decreases s.len() - j,
{
    if j < s.len() && cand_key(s[j], tx) <= cand_key(c, tx) {
        lemma_insert_pos(s, c, tx, j + 1);
    }
}

/// The candidate order is sorted by key and holds each candidate once.
pub proof fn lemma_sorted_cands(s: Seq<CharInfo>, tx: bool)
    ensures
        cand_sorted(sorted_cands(s, tx), tx),
        sorted_cands(s, tx).to_multiset() == s.to_multiset(),
    decreases s.len(),
{
    broadcast use vstd::seq_lib::group_to_multiset_ensures;
    if s.len() > 0 {
        let r = sorted_cands(s.drop_last(), tx);
        let c = s.last();
        lemma_sorted_cands(s.drop_last(), tx);
        lemma_insert_pos(r, c, tx, 0);
        let p = insert_pos(r, c, tx, 0);
        let out = r.insert(p, c);
        r.insert_ensures(p, c);
        vstd::seq_lib::to_multiset_insert(r, p, c);
        assert(s =~= s.drop_last().push(c));
        assert forall|i: int, j: int| 0 <= i < j < out.len() implies cand_key(#[trigger] out[i], tx) <= cand_key(#[trigger] out[j], tx) by {
            if j < p {
                assert(out[i] == r[i] && out[j] == r[j]);
            } else if j == p {
                assert(out[i] == r[i]);
            } else if i < p {
                assert(out[i] == r[i] && out[j] == r[j - 1]);
                assert(cand_key(r[p], tx) <= cand_key(r[j - 1], tx));
            } else if i == p {
                assert(out[j] == r[j - 1]);
                assert(cand_key(r[p], tx) <= cand_key(r[j - 1], tx));
            } else {
                assert(out[i] == r[i - 1] && out[j] == r[j - 1]);
            }
        }
    }
}

/// Where `c` goes among the ordered candidates `r`.
fn find_insert_pos(r: &Vec<CharInfo>, c: &CharInfo, tx: bool) -> (p: usize)
    ensures
        p == insert_pos(r@, *c, tx, 0),
{
    let mut j: usize = 0;
    while j < r.len()
        invariant
            j <= r@.len(),
            insert_pos(r@, *c, tx, 0) == insert_pos(r@, *c, tx, j as int),
        decreases r.len() - j,
    {
        if !key_le(&r[j], c, tx) {
            return j;
        }
        j = j + 1;
    }
    j
}

/// Sort candidates by preference, then UUID, keeping ties in their order.
fn sort_candidates(items: &Vec<CharInfo>, tx: bool) -> (r: Vec<CharInfo>)
    ensures
        r@ == sorted_cands(items@, tx),
{
    let mut r: Vec<CharInfo> = Vec::new();
    let mut i: usize = 0;
    assert(items@.take(0) =~= Seq::<CharInfo>::empty());
    while i < items.len()
        invariant
            i <= items@.len(),
            r@ == sorted_cands(items@.take(i as int), tx),
        decreases items.len() - i,
    {
        let c = items[i];
        let p = find_insert_pos(&r, &c, tx);
        proof {
            lemma_insert_pos(r@, c, tx, 0);
            assert(items@.take(i + 1).drop_last() =~= items@.take(i as int));
            assert(items@.take(i + 1).last() == c);
        }
        r.insert(p, c);
        i = i + 1;
    }
    assert(items@.take(items@.len() as int) =~= items@);
    r
}

/// The write characteristic paired with a notifying one whose UUID is `t`:
/// the first unused one with another UUID (`same` false), or failing that
/// the first unused one with the same UUID (`same` true).
pub open spec fn first_rx(rx: Seq<CharInfo>, used: Seq<u128>, t: u128, same: bool, j: int) -> Option<CharInfo>
    decreases rx.len() - j,
{
    if j < 0 || j >= rx.len() {
        None
    } else if !used.contains(rx[j].uuid) && ((rx[j].uuid == t) == same) {
        Some(rx[j])
    } else {
        first_rx(rx, used, t, same, j + 1)
    }
}

pub open spec fn pick_rx(rx: Seq<CharInfo>, used: Seq<u128>, t: u128) -> Option<CharInfo> {
    match first_rx(rx, used, t, false, 0) {
        Some(r) => Some(r),
        None => first_rx(rx, used, t, true, 0),
    }
}

/// Pair notifying characteristics (in order, from `i` on) with write
/// characteristics, each used at most once, until `max_ports` ports exist.
pub open spec fn pairs_from(
    tx: Seq<CharInfo>,
    rx: Seq<CharInfo>,
    max_ports: usize,
    i: int,
    used_tx: Seq<u128>,
    used_rx: Seq<u128>,
    acc: Seq<(CharInfo, CharInfo)>,
) -> Seq<(CharInfo, CharInfo)>
    decreases tx.len() - i,
{
    if i < 0 || i >= tx.len() || acc.len() >= max_ports {
        acc
    } else if used_tx.contains(tx[i].uuid) {
        pairs_from(tx, rx, max_ports, i + 1, used_tx, used_rx, acc)
    } else {
        match pick_rx(rx, used_rx, tx[i].uuid) {
            None => pairs_from(tx, rx, max_ports, i + 1, used_tx, used_rx, acc),
            Some(r) => pairs_from(tx, rx, max_ports, i + 1, used_tx.push(tx[i].uuid), used_rx.push(r.uuid), acc.push((tx[i], r))),
        }
    }
}

fn contains_uuid(v: &Vec<u128>, u: u128) -> (b: bool)
    ensures
        b == v@.contains(u),
{
    let mut i: usize = 0;
    while i < v.len()
        invariant
            i <= v@.len(),
            forall|k: int| 0 <= k < i ==> v@[k] != u,
        decreases v.len() - i,
    {
        if v[i] == u {
            return true;
        }
        i = i + 1;
    }
    false
}

fn find_rx(rx: &Vec<CharInfo>, used: &Vec<u128>, t: u128, same: bool) -> (r: Option<CharInfo>)
    ensures
        r == first_rx(rx@, used@, t, same, 0),
{
    let mut j: usize = 0;
    while j < rx.len()
        invariant
            j <= rx@.len(),
            first_rx(rx@, used@, t, same, 0) == first_rx(rx@, used@, t, same, j as int),
        decreases rx.len() - j,
    {
        let c = rx[j];
        if !contains_uuid(used, c.uuid) && ((c.uuid == t) == same) {
            return Some(c);
        }
        j = j + 1;
    }
    None
}

fn filter_notifiable(chars: &[CharInfo]) -> (r: Vec<CharInfo>)
    ensures
        r@ == notifying_of(chars@),
{
    let ghost pred = |c: CharInfo| notifiable(c);
    let mut r: Vec<CharInfo> = Vec::new();
    let mut i: usize = 0;
    assert(chars@.subrange(0, 0) =~= Seq::<CharInfo>::empty());
    proof {
        reveal(Seq::filter);
    }
    while i < chars.len()
        invariant
            i <= chars@.len(),
            pred == (|c: CharInfo| notifiable(c)),
            r@ == chars@.subrange(0, i as int).filter(pred),
        decreases chars.len() - i,
    {
        let c = chars[i];
        proof {
            assert(chars@.subrange(0, i + 1) =~= chars@.subrange(0, i as int).push(c));
            chars@.subrange(0, i as int).lemma_filter_push(c, pred);
        }
        if is_notifiable(&c) {
            r.push(c);
        }
        i = i + 1;
    }
    assert(chars@.subrange(0, chars@.len() as int) =~= chars@);
    r
}

fn filter_writable(chars: &[CharInfo]) -> (r: Vec<CharInfo>)
    ensures
        r@ == writing_of(chars@),
{
    let ghost pred = |c: CharInfo| writable(c);
    let mut r: Vec<CharInfo> = Vec::new();
    let mut i: usize = 0;
    assert(chars@.subrange(0, 0) =~= Seq::<CharInfo>::empty());
    proof {
        reveal(Seq::filter);
    }
    while i < chars.len()
        invariant
            i <= chars@.len(),
            pred == (|c: CharInfo| writable(c)),
            r@ == chars@.subrange(0, i as int).filter(pred),
        decreases chars.len() - i,
    {
        let c = chars[i];
        proof {
            assert(chars@.subrange(0, i + 1) =~= chars@.subrange(0, i as int).push(c));
            chars@.subrange(0, i as int).lemma_filter_push(c, pred);
        }
        if is_writable(&c) {
            r.push(c);
        }
        i = i + 1;
    }
    assert(chars@.subrange(0, chars@.len() as int) =~= chars@);
    r
}

/// The characteristics of `s` that can notify, in their order.
pub open spec fn notifying_of(s: Seq<CharInfo>) -> Seq<CharInfo> {
    s.filter(|c: CharInfo| notifiable(c))
}

/// The characteristics of `s` that can be written, in their order.
pub open spec fn writing_of(s: Seq<CharInfo>) -> Seq<CharInfo> {
    s.filter(|c: CharInfo| writable(c))
}

/// Pair a service's characteristics into at most `max_ports` ports
/// (notifying, writable): notifying candidates by preference then UUID, each
/// with the first unused writable candidate of another UUID, or else of the
/// same UUID.
pub fn pair_characteristics(chars: &[CharInfo], max_ports: usize) -> (ports: Vec<(CharInfo, CharInfo)>)
    ensures
        ports@ == pairs_from(
            sorted_cands(notifying_of(chars@), true),
            sorted_cands(writing_of(chars@), false),
            max_ports, 0, Seq::empty(), Seq::empty(), Seq::empty(),
        ),
{
    let ftx = filter_notifiable(chars);
    let frx = filter_writable(chars);
    let txc = sort_candidates(&ftx, true);
    let rxc = sort_candidates(&frx, false);
    let mut used_tx: Vec<u128> = Vec::new();
    let mut used_rx: Vec<u128> = Vec::new();
    let mut ports: Vec<(CharInfo, CharInfo)> = Vec::new();
    let ghost target = pairs_from(txc@, rxc@, max_ports, 0, Seq::empty(), Seq::empty(), Seq::empty());
    let mut i: usize = 0;
    while i < txc.len()
        invariant
            i <= txc@.len(),
            target == pairs_from(txc@, rxc@, max_ports, i as int, used_tx@, used_rx@, ports@),
        ensures
            target == ports@,
        decreases txc.len() - i,
    {
        if ports.len() >= max_ports {
            break;
        }
        let t = txc[i];
        if !contains_uuid(&used_tx, t.uuid) {
            let pick = match find_rx(&rxc, &used_rx, t.uuid, false) {
                Some(r) => Some(r),
                None => find_rx(&rxc, &used_rx, t.uuid, true),
            };
            match pick {
                Some(r) => {
                    used_tx.push(t.uuid);
                    used_rx.push(r.uuid);
                    ports.push((t, r));
                },
                None => {},
            }
        }
        i = i + 1;
    }
    assert(ports@ == pairs_from(txc@, rxc@, max_ports, 0, Seq::empty(), Seq::empty(), Seq::empty()));
    ports
}

/// How data travels over a discovered link.
#[derive(Debug, Clone, Copy, PartialEq, Eq, Structural)]
pub enum BleProtocol {
    /// One notify/write characteristic pair per port.
    MultiCharacteristic,
    /// One pair carrying multiplexed frames.
    MuxFrames,
}

/// What a port of a connection carries.
#[derive(Debug, Clone, Copy, PartialEq, Eq, Structural)]
pub enum ConnectionPortKind {
    Serial,
    Terminal,
}

/// A port of a known BLE profile: its number, name and kind, and the UUID
/// texts of its notifying (tx) and writable (rx) characteristics.
#[derive(Debug, Clone, Copy)]
pub struct KnownPortPair {
    pub port: u8,
    pub name: &'static str,
    pub kind: ConnectionPortKind,
    pub tx_uuid: &'static str,
    pub rx_uuid: &'static str,
}

/// A known BLE terminal profile: the UUID text of its service, how it
/// carries data, and its ports.
#[derive(Debug, Clone)]
pub struct KnownBleProfile {
    pub service_uuid: &'static str,
    pub protocol: BleProtocol,
    pub ports: Vec<KnownPortPair>,
}

/// A GATT service of a peripheral: its UUID and characteristics.
#[derive(Debug, Clone)]
pub struct ServiceInfo {
    pub uuid: u128,
    pub chars: Vec<CharInfo>,
}

/// A port found on a peripheral.
#[derive(Debug, Clone, PartialEq, Eq)]
pub struct BlePort {
    pub port: u8,
    pub name: String,
    pub kind: ConnectionPortKind,
    pub tx: CharInfo,
    pub rx: CharInfo,
}

/// A serial link found on a peripheral: the service that carries it, how,
/// and its ports.
#[derive(Debug, Clone, PartialEq, Eq)]
pub struct BleDiscovery {
    pub service_uuid: u128,
    pub protocol: BleProtocol,
    pub ports: Vec<BlePort>,
}

pub open spec fn pair_view(p: KnownPortPair) -> (u8, Seq<char>, ConnectionPortKind, Seq<char>, Seq<char>) {
    (p.port, p.name@, p.kind, p.tx_uuid@, p.rx_uuid@)
}

pub open spec fn profile_view(p: KnownBleProfile) -> (Seq<char>, BleProtocol, Seq<(u8, Seq<char>, ConnectionPortKind, Seq<char>, Seq<char>)>) {
    (p.service_uuid@, p.protocol, p.ports@.map_values(|q: KnownPortPair| pair_view(q)))
}

pub open spec fn port_view(p: BlePort) -> (u8, Seq<char>, ConnectionPortKind, CharInfo, CharInfo) {
    (p.port, p.name@, p.kind, p.tx, p.rx)
}

pub open spec fn discovery_view(d: BleDiscovery) -> (u128, BleProtocol, Seq<(u8, Seq<char>, ConnectionPortKind, CharInfo, CharInfo)>) {
    (d.service_uuid, d.protocol, d.ports@.map_values(|p: BlePort| port_view(p)))
}

pub open spec fn found_view(r: Option<BleDiscovery>) -> Option<(u128, BleProtocol, Seq<(u8, Seq<char>, ConnectionPortKind, CharInfo, CharInfo)>)> {
    match r {
        Some(d) => Some(discovery_view(d)),
        None => None,
    }
}

/// The UUID that `Uuid::parse_str` reads from a text, as a 128-bit number;
/// `None` where the text is no UUID.
pub uninterp spec fn uuid_of_text(s: Seq<char>) -> Option<u128>;

/// `uuid::Uuid::parse_str`, then `Uuid::as_u128`.
///
/// Trusted: the result is the UUID read from the text (`uuid_of_text`), a
/// function of the text alone; the grammar the parser accepts is not stated.
#[verifier::external_body]
fn parse_uuid_text(s: &str) -> (r: Option<u128>)
    ensures
        r == uuid_of_text(s@),
{
    match uuid::Uuid::parse_str(s) {
        Ok(u) => Some(u.as_u128()),
        Err(_) => None,
    }
}

/// The text a BLE UUID is read from: trimmed, and a 16-bit (4 bytes) or
/// 32-bit (8 bytes) short form completed with the Bluetooth base UUID.
pub open spec fn full_uuid_text(s: Seq<char>) -> Seq<char> {
    let t = trimmed(s);
    let n = encode_utf8(t).len() as usize;
    if n == 4 {
        "0000"@ + t + "-0000-1000-8000-00805F9B34FB"@
    } else if n == 8 {
        t + "-0000-1000-8000-00805F9B34FB"@
    } else {
        t
    }
}

pub open spec fn ble_uuid(s: Seq<char>) -> Option<u128> {
    uuid_of_text(full_uuid_text(s))
}

/// Read a BLE UUID, accepting the 16-bit and 32-bit short forms.
pub fn parse_ble_uuid(s: &str) -> (r: Option<u128>)
    ensures
        r == ble_uuid(s@),
{
    let t = trim_str(s);
    let n = t.as_str().len();
    if n == 4 {
        let mut full = String::from_str("0000");
        full.append(t.as_str());
        full.append("-0000-1000-8000-00805F9B34FB");
        parse_uuid_text(full.as_str())
    } else if n == 8 {
        let mut full = String::from_str(t.as_str());
        full.append("-0000-1000-8000-00805F9B34FB");
        parse_uuid_text(full.as_str())
    } else {
        parse_uuid_text(t.as_str())
    }
}

/// The first characteristic with UUID `u` that passes the notify (`tx`) or
/// write test, from position `j` on.
pub open spec fn first_char(chars: Seq<CharInfo>, u: u128, tx: bool, j: int) -> Option<CharInfo>
    decreases chars.len() - j,
{
    if j < 0 || j >= chars.len() {
        None
    } else if chars[j].uuid == u && (if tx { notifiable(chars[j]) } else { writable(chars[j]) }) {
        Some(chars[j])
    } else {
        first_char(chars, u, tx, j + 1)
    }
}

fn find_char(chars: &[CharInfo], u: u128, tx: bool) -> (r: Option<CharInfo>)
    ensures
        r == first_char(chars@, u, tx, 0),
{
    let mut j: usize = 0;
    while j < chars.len()
        invariant
            j <= chars@.len(),
            first_char(chars@, u, tx, 0) == first_char(chars@, u, tx, j as int),
        decreases chars.len() - j,
    {
        let c = chars[j];
        let ok = if tx { is_notifiable(&c) } else { is_writable(&c) };
        if c.uuid == u && ok {
            return Some(c);
        }
        j = j + 1;
    }
    None
}

/// The ports of a known profile that a service offers, in the profile's
/// order: each needs both UUIDs to read and its notifying and its writable
/// characteristic present.
pub open spec fn known_ports(
    chars: Seq<CharInfo>,
    pairs: Seq<(u8, Seq<char>, ConnectionPortKind, Seq<char>, Seq<char>)>,
) -> Seq<(u8, Seq<char>, ConnectionPortKind, CharInfo, CharInfo)>
    decreases pairs.len(),
{
    if pairs.len() == 0 {
        Seq::empty()
    } else {
        let prev = known_ports(chars, pairs.drop_last());
        let p = pairs.last();
        match (ble_uuid(p.3), ble_uuid(p.4)) {
            (Some(t), Some(r)) => match (first_char(chars, t, true, 0), first_char(chars, r, false, 0)) {
                (Some(tx), Some(rx)) => prev.push((p.0, p.1, p.2, tx, rx)),
                _ => prev,
            },
            _ => prev,
        }
    }
}

/// What a known profile finds on a service: `None` where no port is there.
pub open spec fn known_discovery(
    uuid: u128,
    chars: Seq<CharInfo>,
    profile: (Seq<char>, BleProtocol, Seq<(u8, Seq<char>, ConnectionPortKind, Seq<char>, Seq<char>)>),
) -> Option<(u128, BleProtocol, Seq<(u8, Seq<char>, ConnectionPortKind, CharInfo, CharInfo)>)> {
    let ports = known_ports(chars, profile.2);
    if ports.len() == 0 {
        None
    } else {
        Some((uuid, profile.1, ports))
    }
}

/// The ports of a known profile found on a service.
pub fn build_from_known_profile(service: &ServiceInfo, profile: &KnownBleProfile) -> (r: Option<BleDiscovery>)
    ensures
        found_view(r) == known_discovery(service.uuid, service.chars@, profile_view(*profile)),
{
    let ghost pairs = profile_view(*profile).2;
    let mut ports: Vec<BlePort> = Vec::new();
    let mut i: usize = 0;
    while i < profile.ports.len()
        invariant
            i <= profile.ports@.len(),
            pairs == profile.ports@.map_values(|q: KnownPortPair| pair_view(q)),
            ports@.map_values(|p: BlePort| port_view(p)) == known_ports(service.chars@, pairs.take(i as int)),
        decreases profile.ports.len() - i,
    {
        let p = profile.ports[i];
        proof {
            assert(pairs.take(i + 1).drop_last() =~= pairs.take(i as int));
            assert(pairs.take(i + 1).last() == pair_view(p));
        }
        let ghost before = ports@;
        match (parse_ble_uuid(p.tx_uuid), parse_ble_uuid(p.rx_uuid)) {
            (Some(t), Some(u)) => {
                let tx = find_char(service.chars.as_slice(), t, true);
                let rx = find_char(service.chars.as_slice(), u, false);
                match (tx, rx) {
                    (Some(a), Some(b)) => {
                        let port = BlePort { port: p.port, name: String::from_str(p.name), kind: p.kind, tx: a, rx: b };
                        ports.push(port);
                        assert(ports@.map_values(|x: BlePort| port_view(x)) =~= before.map_values(|x: BlePort| port_view(x)).push(port_view(port)));
                    },
                    _ => {},
                }
            },
            _ => {},
        }
        i = i + 1;
    }
    assert(pairs.take(pairs.len() as int) =~= pairs);
    if ports.len() == 0 {
        None
    } else {
        Some(BleDiscovery { service_uuid: service.uuid, protocol: profile.protocol, ports })
    }
}

/// The port whose notifying characteristic has UUID `u`.
pub open spec fn port_for_uuid(ports: Seq<BlePort>, u: u128, j: int) -> Option<u8>
    decreases ports.len() - j,
{
    if j < 0 || j >= ports.len() {
        None
    } else if ports[j].tx.uuid == u {
        Some(ports[j].port)
    } else {
        port_for_uuid(ports, u, j + 1)
    }
}

/// Which port a notification on characteristic `u` belongs to.
pub fn port_for_notification_uuid(ports: &[BlePort], u: u128) -> (r: Option<u8>)
    ensures
        r == port_for_uuid(ports@, u, 0),
{
    let mut j: usize = 0;
    while j < ports.len()
        invariant
            j <= ports@.len(),
            port_for_uuid(ports@, u, 0) == port_for_uuid(ports@, u, j as int),
        decreases ports.len() - j,
    {
        if ports[j].tx.uuid == u {
            return Some(ports[j].port);
        }
        j = j + 1;
    }
    None
}

/// The name of the `k`-th port found by properties.
pub open spec fn port_label(k: int) -> Seq<char> {
    "BLE port "@ + digits((k % 256) as nat, 10)
}

/// Pairs numbered as ports in their order.
pub open spec fn numbered_ports(pairs: Seq<(CharInfo, CharInfo)>) -> Seq<(u8, Seq<char>, ConnectionPortKind, CharInfo, CharInfo)> {
    Seq::new(pairs.len(), |k: int| (((k % 256) as u8), port_label(k), ConnectionPortKind::Serial, pairs[k].0, pairs[k].1))
}

/// The (notifying, writable) pairs that properties alone give a service.
pub open spec fn property_pairs(chars: Seq<CharInfo>, max_ports: usize) -> Seq<(CharInfo, CharInfo)> {
    pairs_from(
        sorted_cands(notifying_of(chars), true),
        sorted_cands(writing_of(chars), false),
        max_ports, 0, Seq::empty(), Seq::empty(), Seq::empty(),
    )
}

/// What properties alone find on a service: `None` where no pair is there.
pub open spec fn property_discovery(uuid: u128, chars: Seq<CharInfo>, max_ports: usize)
    -> Option<(u128, BleProtocol, Seq<(u8, Seq<char>, ConnectionPortKind, CharInfo, CharInfo)>)>
{
    let pairs = property_pairs(chars, max_ports);
    if pairs.len() == 0 {
        None
    } else {
        Some((uuid, BleProtocol::MultiCharacteristic, numbered_ports(pairs)))
    }
}

/// Ports found on a service by characteristic properties alone, numbered
/// from 0 and named after their number.
pub fn build_from_properties(service: &ServiceInfo, max_ports: usize) -> (r: Option<BleDiscovery>)
    ensures
        found_view(r) == property_discovery(service.uuid, service.chars@, max_ports),
        r matches Some(d) ==> d.ports@.len() > 0,
{
    let pairs = pair_characteristics(service.chars.as_slice(), max_ports);
    let mut ports: Vec<BlePort> = Vec::new();
    let mut k: usize = 0;
    while k < pairs.len()
        invariant
            k <= pairs@.len(),
            ports@.map_values(|p: BlePort| port_view(p)) == numbered_ports(pairs@).take(k as int),
        decreases pairs.len() - k,
    {
        let number: u8 = (k % 256) as u8;
        let mut label = str_chars("BLE port ");
        push_digits(&mut label, number as u64, 10);
        let name = chars_to_string(label.as_slice());
        let (t, x) = pairs[k];
        let port = BlePort { port: number, name, kind: ConnectionPortKind::Serial, tx: t, rx: x };
        let ghost before = ports@;
        ports.push(port);
        proof {
            assert(port_view(port) == numbered_ports(pairs@)[k as int]);
            assert(numbered_ports(pairs@).take(k + 1) =~= numbered_ports(pairs@).take(k as int).push(port_view(port)));
            assert(ports@.map_values(|x: BlePort| port_view(x)) =~= before.map_values(|x: BlePort| port_view(x)).push(port_view(port)));
        }
        k = k + 1;
    }
    assert(numbered_ports(pairs@).take(pairs@.len() as int) =~= numbered_ports(pairs@));
    if ports.len() == 0 {
        None
    } else {
        Some(BleDiscovery { service_uuid: service.uuid, protocol: BleProtocol::MultiCharacteristic, ports })
    }
}

/// The known BLE terminal profiles, tried in this order.
pub open spec fn known_profile_table() -> Seq<(Seq<char>, BleProtocol, Seq<(u8, Seq<char>, ConnectionPortKind, Seq<char>, Seq<char>)>)> {
    seq![
        ("B7E40001-B5A3-F393-E0A9-E50E24DCCA9E"@, BleProtocol::MultiCharacteristic, seq![
            (0u8, "UART0"@, ConnectionPortKind::Serial, "B7E40002-B5A3-F393-E0A9-E50E24DCCA9E"@, "B7E40003-B5A3-F393-E0A9-E50E24DCCA9E"@),
            (1u8, "UART1"@, ConnectionPortKind::Serial, "B7E40004-B5A3-F393-E0A9-E50E24DCCA9E"@, "B7E40005-B5A3-F393-E0A9-E50E24DCCA9E"@),
        ]),
        ("7A6E0001-B5A3-F393-E0A9-E50E24DCCA9E"@, BleProtocol::MuxFrames, seq![
            (0u8, "MUX"@, ConnectionPortKind::Terminal, "7A6E0003-B5A3-F393-E0A9-E50E24DCCA9E"@, "7A6E0002-B5A3-F393-E0A9-E50E24DCCA9E"@),
        ]),
        ("6E400001-B5A3-F393-E0A9-E50E24DCCA9E"@, BleProtocol::MultiCharacteristic, seq![
            (0u8, "NUS"@, ConnectionPortKind::Serial, "6E400003-B5A3-F393-E0A9-E50E24DCCA9E"@, "6E400002-B5A3-F393-E0A9-E50E24DCCA9E"@),
        ]),
        ("FFF0"@, BleProtocol::MultiCharacteristic, seq![
            (0u8, "TI UART"@, ConnectionPortKind::Serial, "FFF1"@, "FFF2"@),
        ]),
        ("FFE0"@, BleProtocol::MultiCharacteristic, seq![
            (0u8, "HM-10"@, ConnectionPortKind::Serial, "FFE1"@, "FFE1"@),
        ]),
        ("ADAFAF00-C464-4BDA-B3B2-2241514ADF3C"@, BleProtocol::MultiCharacteristic, seq![
            (0u8, "Bluefruit UART"@, ConnectionPortKind::Serial, "ADAFAF01-C464-4BDA-B3B2-2241514ADF3C"@, "ADAFAF02-C464-4BDA-B3B2-2241514ADF3C"@),
        ]),
        ("0000DFB0-0000-1000-8000-00805F9B34FB"@, BleProtocol::MultiCharacteristic, seq![
            (0u8, "DFB UART"@, ConnectionPortKind::Serial, "0000DFB1-0000-1000-8000-00805F9B34FB"@, "0000DFB2-0000-1000-8000-00805F9B34FB"@),
        ]),
    ]
}

fn known_pair(port: u8, name: &'static str, kind: ConnectionPortKind, tx_uuid: &'static str, rx_uuid: &'static str) -> (p: KnownPortPair)
    ensures
        pair_view(p) == (port, name@, kind, tx_uuid@, rx_uuid@),
{
    KnownPortPair { port, name, kind, tx_uuid, rx_uuid }
}

fn one_port_profile(service_uuid: &'static str, protocol: BleProtocol, pair: KnownPortPair) -> (p: KnownBleProfile)
    ensures
        profile_view(p) == (service_uuid@, protocol, seq![pair_view(pair)]),
{
    let mut ports: Vec<KnownPortPair> = Vec::new();
    ports.push(pair);
    let p = KnownBleProfile { service_uuid, protocol, ports };
    assert(p.ports@.map_values(|q: KnownPortPair| pair_view(q)) =~= seq![pair_view(pair)]);
    p
}

/// The known BLE terminal profiles (see `known_profile_table`).
pub fn known_ble_profiles() -> (v: Vec<KnownBleProfile>)
    ensures
        v@.map_values(|p: KnownBleProfile| profile_view(p)) == known_profile_table(),
{
    let mut uart: Vec<KnownPortPair> = Vec::new();
    let u0 = known_pair(0, "UART0", ConnectionPortKind::Serial, "B7E40002-B5A3-F393-E0A9-E50E24DCCA9E", "B7E40003-B5A3-F393-E0A9-E50E24DCCA9E");
    let u1 = known_pair(1, "UART1", ConnectionPortKind::Serial, "B7E40004-B5A3-F393-E0A9-E50E24DCCA9E", "B7E40005-B5A3-F393-E0A9-E50E24DCCA9E");
    uart.push(u0);
    uart.push(u1);
    let multi = KnownBleProfile {
        service_uuid: "B7E40001-B5A3-F393-E0A9-E50E24DCCA9E",
        protocol: BleProtocol::MultiCharacteristic,
        ports: uart,
    };
    assert(multi.ports@.map_values(|q: KnownPortPair| pair_view(q)) =~= seq![pair_view(u0), pair_view(u1)]);
    let mux = one_port_profile("7A6E0001-B5A3-F393-E0A9-E50E24DCCA9E", BleProtocol::MuxFrames,
        known_pair(0, "MUX", ConnectionPortKind::Terminal, "7A6E0003-B5A3-F393-E0A9-E50E24DCCA9E", "7A6E0002-B5A3-F393-E0A9-E50E24DCCA9E"));
    let nus = one_port_profile("6E400001-B5A3-F393-E0A9-E50E24DCCA9E", BleProtocol::MultiCharacteristic,
        known_pair(0, "NUS", ConnectionPortKind::Serial, "6E400003-B5A3-F393-E0A9-E50E24DCCA9E", "6E400002-B5A3-F393-E0A9-E50E24DCCA9E"));
    let ti = one_port_profile("FFF0", BleProtocol::MultiCharacteristic,
        known_pair(0, "TI UART", ConnectionPortKind::Serial, "FFF1", "FFF2"));
    let hm10 = one_port_profile("FFE0", BleProtocol::MultiCharacteristic,
        known_pair(0, "HM-10", ConnectionPortKind::Serial, "FFE1", "FFE1"));
    let adafruit = one_port_profile("ADAFAF00-C464-4BDA-B3B2-2241514ADF3C", BleProtocol::MultiCharacteristic,
        known_pair(0, "Bluefruit UART", ConnectionPortKind::Serial, "ADAFAF01-C464-4BDA-B3B2-2241514ADF3C", "ADAFAF02-C464-4BDA-B3B2-2241514ADF3C"));
    let dfb = one_port_profile("0000DFB0-0000-1000-8000-00805F9B34FB", BleProtocol::MultiCharacteristic,
        known_pair(0, "DFB UART", ConnectionPortKind::Serial, "0000DFB1-0000-1000-8000-00805F9B34FB", "0000DFB2-0000-1000-8000-00805F9B34FB"));
    let ghost views = seq![profile_view(multi), profile_view(mux), profile_view(nus), profile_view(ti), profile_view(hm10), profile_view(adafruit), profile_view(dfb)];
    let mut v: Vec<KnownBleProfile> = Vec::new();
    v.push(multi);
    v.push(mux);
    v.push(nus);
    v.push(ti);
    v.push(hm10);
    v.push(adafruit);
    v.push(dfb);
    assert(v@.map_values(|p: KnownBleProfile| profile_view(p)) =~= views);
    assert(views =~= known_profile_table());
    v
}

/// The first service (from position `j` on) with UUID `u`.
pub open spec fn first_service(services: Seq<ServiceInfo>, u: u128, j: int) -> Option<ServiceInfo>
    decreases services.len() - j,
{
    if j < 0 || j >= services.len() {
        None
    } else if services[j].uuid == u {
        Some(services[j])
    } else {
        first_service(services, u, j + 1)
    }
}

fn find_service(services: &[ServiceInfo], u: u128) -> (r: Option<usize>)
    ensures
        match r {
            Some(k) => k < services@.len() && first_service(services@, u, 0) == Some(services@[k as int]),
            None => first_service(services@, u, 0) is None,
        },
{
    let mut j: usize = 0;
    while j < services.len()
        invariant
            j <= services@.len(),
            first_service(services@, u, 0) == first_service(services@, u, j as int),
        decreases services.len() - j,
    {
        if services[j].uuid == u {
            return Some(j);
        }
        j = j + 1;
    }
    None
}

/// How a discovery found by properties ranks among others (smaller is
/// better): links of several ports first, then by the first port's write
/// and notify preference, then by service UUID.
pub open spec fn disc_key(d: (u128, BleProtocol, Seq<(u8, Seq<char>, ConnectionPortKind, CharInfo, CharInfo)>)) -> int {
    let first = d.2[0];
    let b = 0x1_0000_0000_0000_0000_0000_0000_0000_0000int;
    (if d.2.len() == 1 { 1int } else { 0int }) * 9 * b + write_score(first.4) as int * 3 * b
        + notify_score(first.3) as int * b + d.0 as int
}

fn disc_less(a: &BleDiscovery, b: &BleDiscovery) -> (r: bool)
    requires
        a.ports@.len() > 0,
        b.ports@.len() > 0,
    ensures
        r == (disc_key(discovery_view(*a)) < disc_key(discovery_view(*b))),
{
    let sa = a.ports.len() == 1;
    let sb = b.ports.len() == 1;
    let wa = prefer_write_score(&a.ports[0].rx);
    let wb = prefer_write_score(&b.ports[0].rx);
    let na = prefer_notify_score(&a.ports[0].tx);
    let nb = prefer_notify_score(&b.ports[0].tx);
    proof {
        assert(discovery_view(*a).2[0] == port_view(a.ports@[0]));
        assert(discovery_view(*b).2[0] == port_view(b.ports@[0]));
    }
    if sa != sb {
        sb
    } else if wa != wb {
        wa < wb
    } else if na != nb {
        na < nb
    } else {
        a.service_uuid < b.service_uuid
    }
}

/// The best link that properties alone find on the services from `j` on,
/// `best` being the best before: the first of those of least `disc_key`.
pub open spec fn best_fallback(
    services: Seq<ServiceInfo>,
    j: int,
    best: Option<(u128, BleProtocol, Seq<(u8, Seq<char>, ConnectionPortKind, CharInfo, CharInfo)>)>,
) -> Option<(u128, BleProtocol, Seq<(u8, Seq<char>, ConnectionPortKind, CharInfo, CharInfo)>)>
    decreases services.len() - j,
{
    if j < 0 || j >= services.len() {
        best
    } else {
        match property_discovery(services[j].uuid, services[j].chars@, 8) {
            None => best_fallback(services, j + 1, best),
            Some(d) => match best {
                Some(b) if disc_key(b) <= disc_key(d) => best_fallback(services, j + 1, best),
                _ => best_fallback(services, j + 1, Some(d)),
            },
        }
    }
}

/// The link found on a peripheral: the first profile (from position `i`
/// on) whose service is there and yields ports, by its own ports or, for a
/// multi-characteristic profile, by properties; failing all, the best link
/// found by properties on any service.
pub open spec fn discovered(
    services: Seq<ServiceInfo>,
    profiles: Seq<(Seq<char>, BleProtocol, Seq<(u8, Seq<char>, ConnectionPortKind, Seq<char>, Seq<char>)>)>,
    i: int,
) -> Option<(u128, BleProtocol, Seq<(u8, Seq<char>, ConnectionPortKind, CharInfo, CharInfo)>)>
    decreases profiles.len() - i,
{
    if i < 0 || i >= profiles.len() {
        best_fallback(services, 0, None)
    } else {
        let p = profiles[i];
        let next = discovered(services, profiles, i + 1);
        match ble_uuid(p.0) {
            None => next,
            Some(u) => match first_service(services, u, 0) {
                None => next,
                Some(s) => match known_discovery(s.uuid, s.chars@, p) {
                    Some(d) => Some(d),
                    None => if p.1 == BleProtocol::MultiCharacteristic {
                        match property_discovery(s.uuid, s.chars@, 8) {
                            Some(d) => Some(d),
                            None => next,
                        }
                    } else {
                        next
                    },
                },
            },
        }
    }
}

/// Find the serial link of a peripheral among its services.
pub fn discover_uart(services: &[ServiceInfo]) -> (r: Option<BleDiscovery>)
    ensures
        found_view(r) == discovered(services@, known_profile_table(), 0),
{
    let profiles = known_ble_profiles();
    let ghost table = known_profile_table();
    let mut i: usize = 0;
    while i < profiles.len()
        invariant
            i <= profiles@.len(),
            table == known_profile_table(),
            profiles@.map_values(|p: KnownBleProfile| profile_view(p)) == table,
            discovered(services@, table, 0) == discovered(services@, table, i as int),
        decreases profiles.len() - i,
    {
        let p = &profiles[i];
        assert(profile_view(*p) == table[i as int]);
        match parse_ble_uuid(p.service_uuid) {
            None => {},
            Some(u) => match find_service(services, u) {
                None => {},
                Some(k) => {
                    let s = &services[k];
                    match build_from_known_profile(s, p) {
                        Some(d) => {
                            return Some(d);
                        },
                        None => {},
                    }
                    let multi = match p.protocol {
                        BleProtocol::MultiCharacteristic => true,
                        BleProtocol::MuxFrames => false,
                    };
                    if multi {
                        match build_from_properties(s, 8) {
                            Some(d) => {
                                return Some(d);
                            },
                            None => {},
                        }
                    }
                },
            },
        }
        i = i + 1;
    }
    let mut best: Option<BleDiscovery> = None;
    let mut j: usize = 0;
    while j < services.len()
        invariant
            j <= services@.len(),
            best_fallback(services@, 0, None) == best_fallback(services@, j as int, found_view(best)),
            best matches Some(b) ==> b.ports@.len() > 0,
        decreases services.len() - j,
    {
        match build_from_properties(&services[j], 8) {
            None => {},
            Some(d) => {
                let take = match &best {
                    None => true,
                    Some(b) => disc_less(&d, b),
                };
                if take {
                    best = Some(d);
                }
            },
        }
        j = j + 1;
    }
    best
}

/// A peripheral seen by a scan: its advertised local name, if any, and its
/// platform id.
#[derive(Debug, Clone)]
pub struct ScannedDevice {
    pub local_name: Option<String>,
    pub id: String,
}

/// The name a scanned peripheral is listed under: its local name where it
/// has a non-empty one, else its id.
pub open spec fn device_label(d: ScannedDevice) -> Seq<char> {
    match d.local_name {
        Some(n) if n@.len() > 0 => n@,
        _ => d.id@,
    }
}

/// The labels of a scan in its order, each kept once (where first seen).
pub open spec fn distinct_labels(found: Seq<ScannedDevice>) -> Seq<Seq<char>>
    decreases found.len(),
{
    if found.len() == 0 {
        Seq::empty()
    } else {
        let prev = distinct_labels(found.drop_last());
        let l = device_label(found.last());
        if prev.contains(l) {
            prev
        } else {
            prev.push(l)
        }
    }
}

/// `out` is `input` ordered by lowercase text (`idx` giving each label's
/// position in `input`), labels of equal lowercase text in input order.
pub open spec fn sorted_by_lowercase(input: Seq<Seq<char>>, out: Seq<Seq<char>>, idx: Seq<int>) -> bool {
    &&& idx.len() == out.len()
    &&& out.len() == input.len()
    &&& forall|k: int| 0 <= k < out.len() ==> 0 <= #[trigger] idx[k] < input.len() && out[k] == input[idx[k]]
    &&& forall|k: int, l: int| 0 <= k < l < out.len() ==> #[trigger] idx[k] != #[trigger] idx[l]
    &&& forall|k: int, l: int| 0 <= k < l < out.len() ==> text_le(lowercase(#[trigger] out[k]), lowercase(#[trigger] out[l]))
    &&& forall|k: int, l: int| 0 <= k < l < out.len() && lowercase(#[trigger] out[k]) == lowercase(#[trigger] out[l]) ==> idx[k] < idx[l]
}

/// A label, listed by its lowercase text.
pub struct DeviceLabel {
    pub text: String,
}

impl TextKey for DeviceLabel {
    open spec fn key_view(&self) -> Seq<char> {
        lowercase(self.text@)
    }

    fn key_chars(&self) -> (k: Vec<char>) {
        let lower = to_lower(self.text.as_str());
        str_chars(lower.as_str())
    }
}

fn label_of(d: &ScannedDevice) -> (s: String)
    ensures
        s@ == device_label(*d),
{
    match &d.local_name {
        Some(n) => {
            if n.as_str().unicode_len() > 0 {
                return String::from_str(n.as_str());
            }
        },
        None => {},
    }
    String::from_str(d.id.as_str())
}

fn has_label(labels: &Vec<DeviceLabel>, l: &String) -> (b: bool)
    ensures
        b == labels@.map_values(|x: DeviceLabel| x.text@).contains(l@),
{
    let ghost texts = labels@.map_values(|x: DeviceLabel| x.text@);
    let mut i: usize = 0;
    while i < labels.len()
        invariant
            i <= labels@.len(),
            texts == labels@.map_values(|x: DeviceLabel| x.text@),
            forall|k: int| 0 <= k < i ==> texts[k] != l@,
        decreases labels.len() - i,
    {
        if labels[i].text == *l {
            assert(texts[i as int] == l@);
            return true;
        }
        i = i + 1;
    }
    false
}

/// The texts of strings.
pub open spec fn texts_of(v: Seq<String>) -> Seq<Seq<char>> {
    v.map_values(|x: String| x@)
}

/// The names a BLE scan lists: each peripheral's label (see
/// `device_label`) once, ordered by lowercase text, labels of equal
/// lowercase text in scan order.
pub fn ble_device_labels(found: &[ScannedDevice]) -> (r: Vec<String>)
    ensures
        exists|idx: Seq<int>| #[trigger] sorted_by_lowercase(distinct_labels(found@), texts_of(r@), idx),
{
    let mut labels: Vec<DeviceLabel> = Vec::new();
    let mut i: usize = 0;
    assert(found@.take(0) =~= Seq::<ScannedDevice>::empty());
    while i < found.len()
        invariant
            i <= found@.len(),
            labels@.map_values(|x: DeviceLabel| x.text@) == distinct_labels(found@.take(i as int)),
        decreases found.len() - i,
    {
        let l = label_of(&found[i]);
        proof {
            assert(found@.take(i + 1).drop_last() =~= found@.take(i as int));
            assert(found@.take(i + 1).last() == found@[i as int]);
        }
        if !has_label(&labels, &l) {
            let ghost before = labels@;
            let item = DeviceLabel { text: l };
            labels.push(item);
            assert(labels@.map_values(|x: DeviceLabel| x.text@) =~= before.map_values(|x: DeviceLabel| x.text@).push(item.text@));
        }
        i = i + 1;
    }
    assert(found@.take(found@.len() as int) =~= found@);
    let ghost input = labels@;
    let sorted = sort_by_text_key(labels);
    let ghost s = sorted@;
    let mut rest = sorted;
    let mut r: Vec<String> = Vec::new();
    let ghost mut k: int = 0;
    while rest.len() > 0
        invariant
            0 <= k <= s.len(),
            rest@ == s.subrange(k, s.len() as int),
            r@.map_values(|x: String| x@) == s.take(k).map_values(|x: DeviceLabel| x.text@),
        decreases rest.len(),
    {
        let d = rest.remove(0);
        assert(d == s[k]);
        let ghost before = r@;
        r.push(d.text);
        proof {
            assert(s.take(k + 1) =~= s.take(k).push(d));
            assert(r@.map_values(|x: String| x@) =~= before.map_values(|x: String| x@).push(d.text@));
            assert(s.take(k + 1).map_values(|x: DeviceLabel| x.text@) =~= s.take(k).map_values(|x: DeviceLabel| x.text@).push(d.text@));
            k = k + 1;
            assert(rest@ =~= s.subrange(k, s.len() as int));
        }
    }
    proof {
        assert(s.take(s.len() as int) =~= s);
        let idx = choose|idx: Seq<int>| stable_reorder(input, s, idx);
        let out = texts_of(r@);
        let inp = input.map_values(|x: DeviceLabel| x.text@);
        assert forall|a: int| 0 <= a < out.len() implies out[a] == s[a].text@ && lowercase(out[a]) == s[a].key_view() by {}
        assert(sorted_by_lowercase(inp, out, idx));
    }
    r
}

/// Whether a peripheral's advertised name picks it for the configured
/// device name: the same name, or one that contains it.
pub fn device_name_matches(name: &str, target: &str) -> (b: bool)
    ensures
        b == (name@ == target@ || contains_text(name@, target@)),
{
    let n = str_chars(name);
    let t = str_chars(target);
    proof {
        if n@ == t@ {
            assert(n@.subrange(0, t@.len() as int) =~= t@);
            assert(crate::text::occurs_at(n@, t@, 0));
        }
    }
    has_infix(n.as_slice(), t.as_slice())
}

/// The bytes one write may carry on a link of this MTU: the MTU less the
/// 3-byte ATT header, at least 20.
pub fn write_payload_len(mtu: u16) -> (n: usize)
    ensures
        n == (if mtu >= 23 { (mtu - 3) as usize } else { 20 }),
{
    if mtu >= 23 { (mtu - 3) as usize } else { 20 }
}

/// The position of the first port numbered `port`, from `j` on.
pub open spec fn port_index(ports: Seq<BlePort>, port: u8, j: int) -> Option<int>
    decreases ports.len() - j,
{
    if j < 0 || j >= ports.len() {
        None
    } else if ports[j].port == port {
        Some(j)
    } else {
        port_index(ports, port, j + 1)
    }
}

/// Find a port by its number.
pub fn find_port(ports: &[BlePort], port: u8) -> (r: Option<usize>)
    ensures
        match r {
            Some(k) => port_index(ports@, port, 0) == Some(k as int),
            None => port_index(ports@, port, 0) is None,
        },
{
    let mut j: usize = 0;
    while j < ports.len()
        invariant
            j <= ports@.len(),
            port_index(ports@, port, 0) == port_index(ports@, port, j as int),
        decreases ports.len() - j,
    {
        if ports[j].port == port {
            return Some(j);
        }
        j = j + 1;
    }
    None
}

/// Cut `data` into writes of at most `c` bytes.
fn split_chunks(data: &[u8], c: usize) -> (v: Vec<Vec<u8>>)
    requires
        c > 0,
    ensures
        byte_views(v@) == chunks_of(data@, c as nat),
{
    let ghost cn = c as nat;
    let mut v: Vec<Vec<u8>> = Vec::new();
    let mut pos: usize = 0;
    let n = data.len();
    assert(data@.subrange(0, n as int) =~= data@);
    while pos < n
        invariant
            c > 0,
            cn == c as nat,
            pos <= n == data@.len(),
            byte_views(v@) + chunks_of(data@.subrange(pos as int, n as int), cn) == chunks_of(data@, cn),
        decreases n - pos,
    {
        let end = if n - pos > c { pos + c } else { n };
        let mut chunk: Vec<u8> = Vec::new();
        let mut i = pos;
        while i < end
            invariant
                pos <= i <= end <= n == data@.len(),
                chunk@ == data@.subrange(pos as int, i as int),
            decreases end - i,
        {
            chunk.push(data[i]);
            i = i + 1;
        }
        let ghost before = v@;
        let ghost piece = chunk@;
        v.push(chunk);
        proof {
            let rest = data@.subrange(pos as int, n as int);
            let tail = data@.subrange(end as int, n as int);
            assert(byte_views(v@) =~= byte_views(before).push(piece));
            if rest.len() <= cn {
                assert(piece =~= rest);
                assert(tail =~= Seq::<u8>::empty());
                assert(chunks_of(tail, cn) =~= Seq::<Seq<u8>>::empty());
            } else {
                assert(rest.subrange(0, cn as int) =~= piece);
                assert(rest.subrange(cn as int, rest.len() as int) =~= tail);
            }
            assert(chunks_of(rest, cn) =~= seq![piece] + chunks_of(tail, cn));
            assert(byte_views(v@) + chunks_of(tail, cn) =~= byte_views(before) + chunks_of(rest, cn));
        }
        pos = end;
    }
    assert(chunks_of(Seq::<u8>::empty(), cn) =~= Seq::<Seq<u8>>::empty());
    assert(byte_views(v@) + Seq::<Seq<u8>>::empty() =~= byte_views(v@));
    v
}

/// The writes that carry frames: each frame cut into writes of at most
/// `max` bytes, in order.
pub open spec fn frame_writes(frames: Seq<Seq<u8>>, max: nat) -> Seq<Seq<u8>>
    decreases frames.len(),
{
    if frames.len() == 0 {
        Seq::empty()
    } else {
        frame_writes(frames.drop_last(), max) + chunks_of(frames.last(), max)
    }
}

/// The port a write goes out on: the requested port (0 for terminal data)
/// with one characteristic pair per port, port 0 for the multiplexed stream.
pub open spec fn write_port(protocol: BleProtocol, to: Option<u8>) -> u8 {
    match protocol {
        BleProtocol::MultiCharacteristic => match to { Some(p) => p, None => 0 },
        BleProtocol::MuxFrames => 0,
    }
}

/// What is reported when the port a write needs is missing.
pub open spec fn unavailable_text(protocol: BleProtocol, to: Option<u8>) -> Seq<char> {
    match to {
        None => "BLE port 0 is not available"@,
        Some(p) => match protocol {
            BleProtocol::MultiCharacteristic => "BLE port "@ + digits(p as nat, 10) + " is not available"@,
            BleProtocol::MuxFrames => "BLE MUX write port is not available"@,
        },
    }
}

/// The writes that carry `data` to port `to` (`None`: the terminal, port 0):
/// raw chunks of at most `max` bytes, or data frames for that logical port,
/// each cut to at most `max` bytes.
pub open spec fn planned_writes(protocol: BleProtocol, to: Option<u8>, data: Seq<u8>, max: usize) -> Seq<Seq<u8>> {
    match protocol {
        BleProtocol::MultiCharacteristic => chunks_of(data, max as nat),
        BleProtocol::MuxFrames => frame_writes(
            data_frames(match to { Some(p) => p, None => 0 }, data, frame_payload_size(max)),
            max as nat,
        ),
    }
}

/// Plan a write of `data` to port `to` (`None`: the terminal, port 0): the
/// position of the port to write to and the writes, or what to report when
/// that port is missing.
pub fn plan_ble_write(protocol: BleProtocol, ports: &[BlePort], to: Option<u8>, data: &[u8], max_payload_len: usize)
    -> (r: Result<(usize, Vec<Vec<u8>>), String>)
    requires
        max_payload_len > 0,
    ensures
        match port_index(ports@, write_port(protocol, to), 0) {
            None => r matches Err(e) && e@ == unavailable_text(protocol, to),
            Some(k) => r matches Ok((i, w)) && i == k && byte_views(w@) == planned_writes(protocol, to, data@, max_payload_len),
        },
{
    let target: u8 = match protocol {
        BleProtocol::MultiCharacteristic => match to { Some(p) => p, None => 0 },
        BleProtocol::MuxFrames => 0,
    };
    let k = match find_port(ports, target) {
        Some(k) => k,
        None => {
            let msg = match to {
                None => String::from_str("BLE port 0 is not available"),
                Some(p) => match protocol {
                    BleProtocol::MultiCharacteristic => {
                        let mut text = str_chars("BLE port ");
                        push_digits(&mut text, p as u64, 10);
                        let mut tail = str_chars(" is not available");
                        text.append(&mut tail);
                        chars_to_string(text.as_slice())
                    },
                    BleProtocol::MuxFrames => String::from_str("BLE MUX write port is not available"),
                },
            };
            return Err(msg);
        },
    };
    match protocol {
        BleProtocol::MultiCharacteristic => Ok((k, split_chunks(data, max_payload_len))),
        BleProtocol::MuxFrames => {
            let logical: u8 = match to { Some(p) => p, None => 0 };
            let frames = mux_data_frames(logical, data, max_payload_len);
            let ghost fv = byte_views(frames@);
            let mut writes: Vec<Vec<u8>> = Vec::new();
            let mut i: usize = 0;
            assert(fv.take(0) =~= Seq::<Seq<u8>>::empty());
            while i < frames.len()
                invariant
                    i <= frames@.len(),
                    max_payload_len > 0,
                    fv == byte_views(frames@),
                    byte_views(writes@) == frame_writes(fv.take(i as int), max_payload_len as nat),
                decreases frames.len() - i,
            {
                let ghost before = byte_views(writes@);
                let mut pieces = split_chunks(frames[i].as_slice(), max_payload_len);
                let ghost pv = byte_views(pieces@);
                writes.append(&mut pieces);
                proof {
                    assert(byte_views(writes@) =~= before + pv);
                    assert(fv.take(i + 1).drop_last() =~= fv.take(i as int));
                    assert(fv.take(i + 1).last() == frames@[i as int]@);
                }
                i = i + 1;
            }
            assert(fv.take(fv.len() as int) =~= fv);
            Ok((k, writes))
        },
    }
}

proof fn lemma_joined_append(a: Seq<Seq<u8>>, b: Seq<Seq<u8>>)
    ensures
        joined(a + b) == joined(a) + joined(b),
    decreases a.len(),
{
    if a.len() == 0 {
        assert(a + b =~= b);
        assert(joined(a) + joined(b) =~= joined(b));
    } else {
        assert((a + b).drop_first() =~= a.drop_first() + b);
        lemma_joined_append(a.drop_first(), b);
        assert(joined(a) + joined(b) =~= a[0] + (joined(a.drop_first()) + joined(b)));
    }
}

proof fn lemma_joined_chunks(f: Seq<u8>, c: nat)
    requires
        c >= 1,
    ensures
        joined(chunks_of(f, c)) == f,
    decreases f.len(),
{
    if f.len() == 0 {
        assert(chunks_of(f, c) =~= Seq::<Seq<u8>>::empty());
        assert(f =~= Seq::<u8>::empty());
    } else if f.len() <= c {
        let ch = chunks_of(f, c);
        assert(ch == seq![f]);
        assert(ch.drop_first() =~= Seq::<Seq<u8>>::empty());
        assert(joined(ch.drop_first()) == Seq::<u8>::empty());
        assert(joined(ch) == ch[0] + joined(ch.drop_first()));
        assert(f + Seq::<u8>::empty() =~= f);
    } else {
        let rest = f.subrange(c as int, f.len() as int);
        lemma_joined_chunks(rest, c);
        let ch = chunks_of(f, c);
        assert(ch == seq![f.subrange(0, c as int)] + chunks_of(rest, c));
        assert(ch.drop_first() =~= chunks_of(rest, c));
        assert(ch[0] == f.subrange(0, c as int));
        assert(joined(ch) == ch[0] + joined(ch.drop_first()));
        assert(f.subrange(0, c as int) + rest =~= f);
    }
}

proof fn lemma_frame_writes_joined(frames: Seq<Seq<u8>>, max: nat)
    requires
        max >= 1,
    ensures
        joined(frame_writes(frames, max)) == joined(frames),
    decreases frames.len(),
{
    if frames.len() > 0 {
        let init = frames.drop_last();
        let last = frames.last();
        lemma_frame_writes_joined(init, max);
        lemma_joined_append(frame_writes(init, max), chunks_of(last, max));
        lemma_joined_chunks(last, max);
        assert(frames =~= init + seq![last]);
        lemma_joined_append(init, seq![last]);
        assert(seq![last].drop_first() =~= Seq::<Seq<u8>>::empty());
        assert(joined(seq![last].drop_first()) == Seq::<u8>::empty());
        assert(joined(seq![last]) == seq![last][0] + joined(seq![last].drop_first()));
        assert(last + Seq::<u8>::empty() =~= last);
    }
}

/// What the terminal writes over a BLE link arrives intact: put together,
/// the planned writes are the data on a link of one characteristic pair per
/// port; on the multiplexed stream they decode, with nothing left over, to
/// data frames for the requested port whose payloads put together are the
/// data.
pub proof fn lemma_ble_write_round_trip(to: Option<u8>, data: Seq<u8>, max: usize)
    requires
        max > 0,
        frame_payload_size(max) <= MUX_MAX_PAYLOAD,
    ensures
        joined(planned_writes(BleProtocol::MultiCharacteristic, to, data, max)) == data,
        ({
            let port: u8 = match to { Some(p) => p, None => 0 };
            let c = frame_payload_size(max);
            let d = decode_frames(joined(planned_writes(BleProtocol::MuxFrames, to, data, max)));
            &&& d.1 == Seq::<u8>::empty()
            &&& d.0 == chunks_of(data, c).map_values(|p: Seq<u8>| (port, MUX_FRAME_DATA, p))
            &&& joined(chunks_of(data, c)) == data
        }),
{
    lemma_joined_chunks(data, max as nat);
    let port: u8 = match to { Some(p) => p, None => 0 };
    let c = frame_payload_size(max);
    lemma_frame_writes_joined(data_frames(port, data, c), max as nat);
    lemma_mux_data_round_trip(port, data, c);
}

/// The (port, payload) of each data frame, in order; frames of other types
/// are dropped.
pub open spec fn data_payloads(frames: Seq<MuxFrameView>) -> Seq<(u8, Seq<u8>)>
    decreases frames.len(),
{
    if frames.len() == 0 {
        Seq::empty()
    } else {
        let prev = data_payloads(frames.drop_last());
        let f = frames.last();
        if f.1 == MUX_FRAME_DATA { prev.push((f.0, f.2)) } else { prev }
    }
}

pub open spec fn port_data_view(v: Seq<(u8, Vec<u8>)>) -> Seq<(u8, Seq<u8>)> {
    v.map_values(|d: (u8, Vec<u8>)| (d.0, d.1@))
}

/// What a notification on characteristic `uuid` carrying `value` gives the
/// terminal, as (port, data): with one characteristic pair per port, the
/// value for the port of that characteristic (nothing for another one);
/// on the multiplexed stream, the payload of every data frame it completes.
pub fn on_notification(protocol: BleProtocol, ports: &[BlePort], decoder: &mut MuxDecoder, uuid: u128, value: Vec<u8>)
    -> (out: Vec<(u8, Vec<u8>)>)
    ensures
        match protocol {
            BleProtocol::MultiCharacteristic => {
                &&& final(decoder)@ == old(decoder)@
                &&& port_data_view(out@) == match port_for_uuid(ports@, uuid, 0) {
                    Some(p) => seq![(p, value@)],
                    None => Seq::empty(),
                }
            },
            BleProtocol::MuxFrames => {
                &&& final(decoder)@ == decode_frames(old(decoder)@ + value@).1
                &&& port_data_view(out@) == data_payloads(decode_frames(old(decoder)@ + value@).0)
            },
        },
{
    let mut out: Vec<(u8, Vec<u8>)> = Vec::new();
    match protocol {
        BleProtocol::MultiCharacteristic => {
            match port_for_notification_uuid(ports, uuid) {
                Some(p) => {
                    let ghost v = value@;
                    out.push((p, value));
                    assert(port_data_view(out@) =~= seq![(p, v)]);
                },
                None => {
                    assert(port_data_view(out@) =~= Seq::<(u8, Seq<u8>)>::empty());
                },
            }
        },
        BleProtocol::MuxFrames => {
            let frames = decoder.push(value.as_slice());
            let ghost fv = crate::connection::frames_view(frames@);
            let mut rest = frames;
            let ghost mut k: int = 0;
            assert(fv.take(0) =~= Seq::<MuxFrameView>::empty());
            assert(port_data_view(out@) =~= Seq::<(u8, Seq<u8>)>::empty());
            while rest.len() > 0
                invariant
                    0 <= k <= fv.len(),
                    rest@.len() + k == fv.len(),
                    crate::connection::frames_view(rest@) == fv.subrange(k, fv.len() as int),
                    port_data_view(out@) == data_payloads(fv.take(k)),
                decreases rest.len(),
            {
                let ghost old_rest = rest@;
                let (port, kind, payload) = rest.remove(0);
                proof {
                    assert(crate::connection::frames_view(old_rest)[0] == fv.subrange(k, fv.len() as int)[0]);
                    assert(fv[k] == (port, kind, payload@));
                    assert forall|j: int| 0 <= j < rest@.len() implies
                        #[trigger] crate::connection::frames_view(rest@)[j] == fv.subrange(k + 1, fv.len() as int)[j] by {
                        assert(rest@[j] == old_rest[j + 1]);
                        assert(crate::connection::frames_view(old_rest)[j + 1] == fv.subrange(k, fv.len() as int)[j + 1]);
                    }
                    assert(crate::connection::frames_view(rest@) =~= fv.subrange(k + 1, fv.len() as int));
                    assert(fv.take(k + 1).drop_last() =~= fv.take(k));
                    assert(fv.take(k + 1).last() == fv[k]);
                }
                if kind == MUX_FRAME_DATA {
                    let ghost before = out@;
                    let ghost pv = payload@;
                    out.push((port, payload));
                    assert(port_data_view(out@) =~= port_data_view(before).push((port, pv)));
                }
                proof {
                    k = k + 1;
                }
            }
            assert(fv.take(fv.len() as int) =~= fv);
        },
    }
    out
}

/// The notifying characteristics to unsubscribe from when closing: each
/// port's, once per UUID, in port order.
pub open spec fn unsubscribe_order(ports: Seq<BlePort>) -> Seq<CharInfo>
    decreases ports.len(),
{
    if ports.len() == 0 {
        Seq::empty()
    } else {
        let prev = unsubscribe_order(ports.drop_last());
        let t = ports.last().tx;
        if prev.map_values(|c: CharInfo| c.uuid).contains(t.uuid) { prev } else { prev.push(t) }
    }
}

pub fn unsubscribe_list(ports: &[BlePort]) -> (v: Vec<CharInfo>)
    ensures
        v@ == unsubscribe_order(ports@),
{
    let mut v: Vec<CharInfo> = Vec::new();
    let mut seen: Vec<u128> = Vec::new();
    let mut i: usize = 0;
    assert(ports@.take(0) =~= Seq::<BlePort>::empty());
    while i < ports.len()
        invariant
            i <= ports@.len(),
            v@ == unsubscribe_order(ports@.take(i as int)),
            seen@ == v@.map_values(|c: CharInfo| c.uuid),
        decreases ports.len() - i,
    {
        let t = ports[i].tx;
        proof {
            assert(ports@.take(i + 1).drop_last() =~= ports@.take(i as int));
            assert(ports@.take(i + 1).last().tx == t);
        }
        if !contains_uuid(&seen, t.uuid) {
            let ghost before = v@;
            v.push(t);
            seen.push(t.uuid);
            assert(v@.map_values(|c: CharInfo| c.uuid) =~= before.map_values(|c: CharInfo| c.uuid).push(t.uuid));
        }
        i = i + 1;
    }
    assert(ports@.take(ports@.len() as int) =~= ports@);
    v
}

/// The device name a saved BLE profile connects to; it is required.
pub fn ble_device_name(config: &crate::storage::SavedConnection) -> (r: Result<String, String>)
    ensures
        match config.ble_device {
            None => r matches Err(e) && e@ == "BLE device not configured"@,
            Some(d) => r matches Ok(n) && n@ == d@,
        },
{
    match &config.ble_device {
        None => Err(String::from_str("BLE device not configured")),
        Some(d) => Ok(String::from_str(d.as_str())),
    }
}

} // verus!
