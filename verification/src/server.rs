//! The HTTP face of the backend, as data and decisions: the route table and
//! which routes are guarded, the address the backend binds and advertises, and
//! the status each failure answers with. Serving the routes is the caller's.

use vstd::prelude::*;
use crate::audio::{spec_audio_error_message, AudioError};
use crate::auth::{opt_str_view, pair_error_message, spec_bearer_opt, AuthStore, PairError};
use crate::text::{
    chars_of, decimal_digits, is_digit, parse_u32, spec_digit_char, push_char, push_decimal, spec_parse_u32,
    str_eq, string_of_range,
};

verus! {

/// One route of the HTTP API: its method, its path template and whether it is
/// reachable without a bearer token.
#[derive(Debug, Clone, Copy, PartialEq, Eq)]
pub struct RouteSpec {
    /// HTTP method, upper-case (`"GET"`, `"POST"`).
    pub method: &'static str,
    /// Path template, e.g. `/devices/{addr}/connect`.
    pub path: &'static str,
    /// Whether the route answers without `Authorization: Bearer <token>`.
    pub public: bool,
}

/// A route's method, path and publicity as plain values.
pub open spec fn route_view(r: RouteSpec) -> (Seq<char>, Seq<char>, bool) {
    (r.method@, r.path@, r.public)
}

/// Every route the backend serves, in the order the router mounts them.
pub open spec fn route_table() -> Seq<(Seq<char>, Seq<char>, bool)> {
    seq![
        ("GET"@, "/health"@, true),
        ("POST"@, "/pair"@, true),
        ("GET"@, "/adapters"@, false),
        ("GET"@, "/devices"@, false),
        ("POST"@, "/devices/{addr}/connect"@, false),
        ("POST"@, "/devices/{addr}/disconnect"@, false),
        ("POST"@, "/devices/{addr}/select"@, false),
        ("POST"@, "/devices/{addr}/deselect"@, false),
        ("POST"@, "/devices/{addr}/offset"@, false),
        ("GET"@, "/targets"@, false),
        ("GET"@, "/scan"@, false),
        ("POST"@, "/play"@, false),
        ("POST"@, "/pause"@, false),
        ("POST"@, "/stop"@, false),
        ("POST"@, "/volume"@, false),
        ("GET"@, "/playback"@, false),
        ("POST"@, "/spotify/start"@, false),
        ("POST"@, "/spotify/stop"@, false),
        ("GET"@, "/spotify/status"@, false),
        ("GET"@, "/spotify/auth/url"@, false),
        ("POST"@, "/spotify/auth/callback"@, false),
        ("GET"@, "/spotify/auth/status"@, false),
        ("POST"@, "/spotify/play"@, false),
        ("POST"@, "/spotify/pause"@, false),
        ("POST"@, "/spotify/next"@, false),
        ("POST"@, "/spotify/previous"@, false),
        ("GET"@, "/spotify/now-playing"@, false),
        ("POST"@, "/client/presence"@, false),
        ("GET"@, "/config"@, false),
        ("POST"@, "/config"@, false),
    ]
}

fn route(method: &'static str, path: &'static str, public: bool) -> (r: RouteSpec)
    ensures
        r.method == method,
        r.path == path,
        r.public == public,
{
    RouteSpec { method, path, public }
}

/// Every route the backend serves. The router is built from this table and
/// nothing else, so a route can only exist by being listed here with its
/// publicity declared.
pub fn routes() -> (table: Vec<RouteSpec>)
    ensures
        table@.map_values(|r: RouteSpec| route_view(r)) == route_table(),
{
    let table = vec![
        route("GET", "/health", true),
        route("POST", "/pair", true),
        route("GET", "/adapters", false),
        route("GET", "/devices", false),
        route("POST", "/devices/{addr}/connect", false),
        route("POST", "/devices/{addr}/disconnect", false),
        route("POST", "/devices/{addr}/select", false),
        route("POST", "/devices/{addr}/deselect", false),
        route("POST", "/devices/{addr}/offset", false),
        route("GET", "/targets", false),
        route("GET", "/scan", false),
        route("POST", "/play", false),
        route("POST", "/pause", false),
        route("POST", "/stop", false),
        route("POST", "/volume", false),
        route("GET", "/playback", false),
        route("POST", "/spotify/start", false),
        route("POST", "/spotify/stop", false),
        route("GET", "/spotify/status", false),
        route("GET", "/spotify/auth/url", false),
        route("POST", "/spotify/auth/callback", false),
        route("GET", "/spotify/auth/status", false),
        route("POST", "/spotify/play", false),
        route("POST", "/spotify/pause", false),
        route("POST", "/spotify/next", false),
        route("POST", "/spotify/previous", false),
        route("GET", "/spotify/now-playing", false),
        route("POST", "/client/presence", false),
        route("GET", "/config", false),
        route("POST", "/config", false),
    ];
    assert(table@.map_values(|r: RouteSpec| route_view(r)) =~= route_table());
    table
}

/// Only `GET /health` and `POST /pair` answer without a bearer token: every
/// other route of the table is guarded.
pub proof fn law_only_health_and_pair_are_public(i: int)
    requires
        0 <= i < route_table().len(),
    ensures
        route_table()[i].2 <==> ((route_table()[i].0 == "GET"@ && route_table()[i].1 == "/health"@)
            || (route_table()[i].0 == "POST"@ && route_table()[i].1 == "/pair"@)),
{
    reveal_strlit("GET");
    reveal_strlit("POST");
    reveal_strlit("/health");
    reveal_strlit("/pair");
    reveal_strlit("/adapters");
    reveal_strlit("/devices");
    reveal_strlit("/devices/{addr}/connect");
    reveal_strlit("/devices/{addr}/disconnect");
    reveal_strlit("/devices/{addr}/select");
    reveal_strlit("/devices/{addr}/deselect");
    reveal_strlit("/devices/{addr}/offset");
    reveal_strlit("/targets");
    reveal_strlit("/scan");
    reveal_strlit("/play");
    reveal_strlit("/pause");
    reveal_strlit("/stop");
    reveal_strlit("/volume");
    reveal_strlit("/playback");
    reveal_strlit("/spotify/start");
    reveal_strlit("/spotify/stop");
    reveal_strlit("/spotify/status");
    reveal_strlit("/spotify/auth/url");
    reveal_strlit("/spotify/auth/callback");
    reveal_strlit("/spotify/auth/status");
    reveal_strlit("/spotify/play");
    reveal_strlit("/spotify/pause");
    reveal_strlit("/spotify/next");
    reveal_strlit("/spotify/previous");
    reveal_strlit("/spotify/now-playing");
    reveal_strlit("/client/presence");
    reveal_strlit("/config");
    // Each case evaluates one entry and tells it apart from both public ones,
    // by a length or by one character.
    if i < 2 {
    } else if i == 2 {
        assert(route_table()[i].1.len() != "/health"@.len());
        assert(route_table()[i].0.len() != "POST"@.len());
    } else if i == 3 {
        assert(route_table()[i].1.len() != "/health"@.len());
        assert(route_table()[i].0.len() != "POST"@.len());
    } else if i == 4 {
        assert(route_table()[i].0.len() != "GET"@.len());
        assert(route_table()[i].1.len() != "/pair"@.len());
    } else if i == 5 {
        assert(route_table()[i].0.len() != "GET"@.len());
        assert(route_table()[i].1.len() != "/pair"@.len());
    } else if i == 6 {
        assert(route_table()[i].0.len() != "GET"@.len());
        assert(route_table()[i].1.len() != "/pair"@.len());
    } else if i == 7 {
        assert(route_table()[i].0.len() != "GET"@.len());
        assert(route_table()[i].1.len() != "/pair"@.len());
    } else if i == 8 {
        assert(route_table()[i].0.len() != "GET"@.len());
        assert(route_table()[i].1.len() != "/pair"@.len());
    } else if i == 9 {
        assert(route_table()[i].1.len() != "/health"@.len());
        assert(route_table()[i].0.len() != "POST"@.len());
    } else if i == 10 {
        assert(route_table()[i].1.len() != "/health"@.len());
        assert(route_table()[i].0.len() != "POST"@.len());
    } else if i == 11 {
        assert(route_table()[i].0.len() != "GET"@.len());
        assert(route_table()[i].1[2] != "/pair"@[2]);
    } else if i == 12 {
        assert(route_table()[i].0.len() != "GET"@.len());
        assert(route_table()[i].1.len() != "/pair"@.len());
    } else if i == 13 {
        assert(route_table()[i].0.len() != "GET"@.len());
        assert(route_table()[i].1[1] != "/pair"@[1]);
    } else if i == 14 {
        assert(route_table()[i].0.len() != "GET"@.len());
        assert(route_table()[i].1.len() != "/pair"@.len());
    } else if i == 15 {
        assert(route_table()[i].1.len() != "/health"@.len());
        assert(route_table()[i].0.len() != "POST"@.len());
    } else if i == 16 {
        assert(route_table()[i].0.len() != "GET"@.len());
        assert(route_table()[i].1.len() != "/pair"@.len());
    } else if i == 17 {
        assert(route_table()[i].0.len() != "GET"@.len());
        assert(route_table()[i].1.len() != "/pair"@.len());
    } else if i == 18 {
        assert(route_table()[i].1.len() != "/health"@.len());
        assert(route_table()[i].0.len() != "POST"@.len());
    } else if i == 19 {
        assert(route_table()[i].1.len() != "/health"@.len());
        assert(route_table()[i].0.len() != "POST"@.len());
    } else if i == 20 {
        assert(route_table()[i].0.len() != "GET"@.len());
        assert(route_table()[i].1.len() != "/pair"@.len());
    } else if i == 21 {
        assert(route_table()[i].1.len() != "/health"@.len());
        assert(route_table()[i].0.len() != "POST"@.len());
    } else if i == 22 {
        assert(route_table()[i].0.len() != "GET"@.len());
        assert(route_table()[i].1.len() != "/pair"@.len());
    } else if i == 23 {
        assert(route_table()[i].0.len() != "GET"@.len());
        assert(route_table()[i].1.len() != "/pair"@.len());
    } else if i == 24 {
        assert(route_table()[i].0.len() != "GET"@.len());
        assert(route_table()[i].1.len() != "/pair"@.len());
    } else if i == 25 {
        assert(route_table()[i].0.len() != "GET"@.len());
        assert(route_table()[i].1.len() != "/pair"@.len());
    } else if i == 26 {
        assert(route_table()[i].1.len() != "/health"@.len());
        assert(route_table()[i].0.len() != "POST"@.len());
    } else if i == 27 {
        assert(route_table()[i].0.len() != "GET"@.len());
        assert(route_table()[i].1.len() != "/pair"@.len());
    } else if i == 28 {
        assert(route_table()[i].1[1] != "/health"@[1]);
        assert(route_table()[i].0.len() != "POST"@.len());
    } else if i == 29 {
        assert(route_table()[i].0.len() != "GET"@.len());
        assert(route_table()[i].1.len() != "/pair"@.len());
    }
}

/// Whether a request on `route` carrying the `Authorization` header value
/// `header` is let through: public routes always are, guarded ones only with
/// the API token as a bearer credential.
pub fn admits(route: &RouteSpec, auth: &AuthStore, header: Option<&str>) -> (ok: bool)
    ensures
        ok == (route.public || spec_bearer_opt(opt_str_view(header)) == Some(auth@.token)),
{
    route.public || auth.authorises(header)
}

/// TCP port the backend listens on.
pub const DEFAULT_PORT: u16 = 4000;

/// Bind address of last resort: every interface, used only when no LAN
/// address can be resolved.
pub const DEFAULT_BIND: &'static str = "0.0.0.0:4000";

/// An IPv4 address, by its four octets.
#[derive(Clone, Copy, Debug, PartialEq, Eq, Structural)]
pub struct Ipv4Addr(pub u8, pub u8, pub u8, pub u8);

impl Ipv4Addr {
    /// The address `a.b.c.d`.
    pub fn new(a: u8, b: u8, c: u8, d: u8) -> (addr: Self)
        ensures
            addr == Ipv4Addr(a, b, c, d),
    {
        Ipv4Addr(a, b, c, d)
    }
}

/// Whether `a` can serve as the host's LAN address: not loopback (127/8), not
/// link-local (169.254/16, a failed DHCP) and not the unspecified `0.0.0.0`.
pub open spec fn is_lan_candidate(a: Ipv4Addr) -> bool {
    &&& a.0 != 127
    &&& !(a.0 == 169 && a.1 == 254)
    &&& !(a.0 == 0 && a.1 == 0 && a.2 == 0 && a.3 == 0)
}

/// The first LAN candidate among `s`, in order.
pub open spec fn first_lan_address(s: Seq<Ipv4Addr>) -> Option<Ipv4Addr>
    decreases s.len(),
{
    if s.len() == 0 {
        None
    } else if is_lan_candidate(s[0]) {
        Some(s[0])
    } else {
        first_lan_address(s.drop_first())
    }
}

/// The best LAN IPv4 among the host's addresses: the first that is neither
/// loopback, link-local nor unspecified. `None` when there is none.
pub fn preferred_lan_ipv4(candidates: &[Ipv4Addr]) -> (lan: Option<Ipv4Addr>)
    ensures
        lan == first_lan_address(candidates@),
{
    let mut i: usize = 0;
    assert(candidates@.skip(0) =~= candidates@);
    while i < candidates.len()
        invariant
            0 <= i <= candidates@.len(),
            first_lan_address(candidates@.skip(i as int)) == first_lan_address(candidates@),
        decreases candidates.len() - i,
    {
        let a = candidates[i];
        assert(candidates@.skip(i as int)[0] == a);
        assert(candidates@.skip(i as int).drop_first() =~= candidates@.skip(i + 1));
        if a.0 != 127 && !(a.0 == 169 && a.1 == 254) && !(a.0 == 0 && a.1 == 0 && a.2 == 0 && a.3
            == 0) {
            return Some(a);
        }
        i = i + 1;
    }
    assert(candidates@.skip(i as int).len() == 0);
    None
}

/// The address as `a.b.c.d`.
pub open spec fn ipv4_text(a: Ipv4Addr) -> Seq<char> {
    decimal_digits(a.0 as nat).push('.') + decimal_digits(a.1 as nat).push('.') + decimal_digits(
        a.2 as nat,
    ).push('.') + decimal_digits(a.3 as nat)
}

/// Append `a.b.c.d` to `s`.
fn push_ipv4(s: &mut String, a: Ipv4Addr)
    ensures
        final(s)@ == old(s)@ + ipv4_text(a),
{
    push_decimal(s, a.0 as u32);
    push_char(s, '.');
    push_decimal(s, a.1 as u32);
    push_char(s, '.');
    push_decimal(s, a.2 as u32);
    push_char(s, '.');
    push_decimal(s, a.3 as u32);
    assert(final(s)@ =~= old(s)@ + ipv4_text(a));
}

impl Ipv4Addr {
    /// The address as `a.b.c.d`.
    pub fn to_string(&self) -> (text: String)
        ensures
            text@ == ipv4_text(*self),
    {
        let mut s = String::new();
        push_ipv4(&mut s, *self);
        assert(s@ =~= ipv4_text(*self));
        s
    }
}

/// `host:port` for the standard port.
pub open spec fn lan_bind_text(lan: Ipv4Addr) -> Seq<char> {
    ipv4_text(lan).push(':') + decimal_digits(DEFAULT_PORT as nat)
}

/// The bind address chosen from an operator override and a detected LAN
/// address.
pub open spec fn spec_bind_address(override_addr: Option<Seq<char>>, detected: Option<Ipv4Addr>) -> Seq<char> {
    match (override_addr, detected) {
        (Some(addr), _) => addr,
        (None, Some(lan)) => lan_bind_text(lan),
        (None, None) => DEFAULT_BIND@,
    }
}

/// The view of an optional owned string.
pub open spec fn opt_string_view(s: Option<String>) -> Option<Seq<char>> {
    match s {
        None => None,
        Some(s) => Some(s@),
    }
}

/// Pick the bind address: an explicit override always wins, otherwise the
/// detected LAN address on [`DEFAULT_PORT`], otherwise every interface.
pub fn bind_address(override_addr: Option<String>, detected: Option<Ipv4Addr>) -> (addr: String)
    ensures
        addr@ == spec_bind_address(opt_string_view(override_addr), detected),
{
    match (override_addr, detected) {
        (Some(addr), _) => addr,
        (None, Some(lan)) => {
            let mut s = String::new();
            push_ipv4(&mut s, lan);
            push_char(&mut s, ':');
            push_decimal(&mut s, DEFAULT_PORT as u32);
            assert(s@ =~= lan_bind_text(lan));
            s
        },
        (None, None) => String::from_str(DEFAULT_BIND),
    }
}

/// The index of the last `c` in `s`, or `-1` when there is none.
pub open spec fn last_index_of(s: Seq<char>, c: char) -> int
    decreases s.len(),
{
    if s.len() == 0 {
        -1
    } else if s.last() == c {
        s.len() - 1
    } else {
        last_index_of(s.drop_last(), c)
    }
}

/// The index of the last `c` in `v`.
fn rfind_char(v: &Vec<char>, c: char) -> (k: Option<usize>)
    ensures
        match k {
            Some(k) => k < v@.len() && k == last_index_of(v@, c),
            None => last_index_of(v@, c) == -1,
        },
{
    let mut i = v.len();
    assert(v@.take(i as int) =~= v@);
    while i > 0
        invariant
            i <= v@.len(),
            last_index_of(v@.take(i as int), c) == last_index_of(v@, c),
        decreases i,
    {
        assert(v@.take(i as int).last() == v@[i - 1]);
        if v[i - 1] == c {
            return Some(i - 1);
        }
        assert(v@.take(i as int).drop_last() =~= v@.take(i - 1));
        i = i - 1;
    }
    None
}

/// What `str::parse::<u16>` accepts: the `u32` syntax, with a value that
/// fits in a `u16`.
pub open spec fn spec_parse_u16(s: Seq<char>) -> Option<u16> {
    match spec_parse_u32(s) {
        Some(n) => if n <= u16::MAX {
            Some(n as u16)
        } else {
            None
        },
        None => None,
    }
}

/// Whether a bind host stands for every interface rather than one address.
pub open spec fn is_wildcard_host(host: Seq<char>) -> bool {
    host == "0.0.0.0"@ || host == "[::]"@
}

/// The host to advertise for a backend bound to `host`: a wildcard gives way
/// to the detected LAN address, when there is one.
pub open spec fn advertised_host(host: Seq<char>, detected: Option<Ipv4Addr>) -> Seq<char> {
    match detected {
        Some(lan) => if is_wildcard_host(host) {
            ipv4_text(lan)
        } else {
            host
        },
        None => host,
    }
}

/// The host and port a backend bound to `bind` is reached at: `bind` is split
/// at its last `:`, and the part after it must be a `u16`. `None` when there
/// is no `:` or no such port.
pub open spec fn spec_endpoint(bind: Seq<char>, detected: Option<Ipv4Addr>) -> Option<(Seq<char>, u16)> {
    let k = last_index_of(bind, ':');
    if k < 0 {
        None
    } else {
        match spec_parse_u16(bind.skip(k + 1)) {
            Some(port) => Some((advertised_host(bind.take(k), detected), port)),
            None => None,
        }
    }
}

/// The view of an optional host and port.
pub open spec fn endpoint_view(e: Option<(String, u16)>) -> Option<(Seq<char>, u16)> {
    match e {
        Some((host, port)) => Some((host@, port)),
        None => None,
    }
}

/// The host and TCP port a backend bound to `bind_addr` should be reached at,
/// or `None` when the bind address carries no numeric port. A wildcard host
/// (`0.0.0.0`, `[::]`) is replaced by the detected LAN address; with none
/// detected, the bind host stands as it is.
pub fn advertised_endpoint_from(bind_addr: &str, detected: Option<Ipv4Addr>) -> (endpoint: Option<(String, u16)>)
    ensures
        endpoint_view(endpoint) == spec_endpoint(bind_addr@, detected),
{
    let v = chars_of(bind_addr);
    let n = v.len();
    let k = match rfind_char(&v, ':') {
        Some(k) => k,
        None => return None,
    };
    assert(v@.subrange(k + 1, v@.len() as int) =~= v@.skip(k + 1));
    let port = match parse_u32(&v, k + 1, n) {
        Some(n) => if n <= 65535 {
            n as u16
        } else {
            return None;
        },
        None => return None,
    };
    let host = string_of_range(&v, 0, k);
    assert(v@.subrange(0, k as int) =~= v@.take(k as int));
    match detected {
        Some(lan) => {
            if str_eq(host.as_str(), "0.0.0.0") || str_eq(host.as_str(), "[::]") {
                Some((lan.to_string(), port))
            } else {
                Some((host, port))
            }
        },
        None => Some((host, port)),
    }
}

/// The URL the pairing QR and the mDNS record carry for a backend bound to
/// `bind`.
pub open spec fn spec_advertised_url(bind: Seq<char>, detected: Option<Ipv4Addr>) -> Seq<char> {
    match spec_endpoint(bind, detected) {
        Some((host, port)) => "http://"@ + host.push(':') + decimal_digits(port as nat),
        None => "http://"@ + bind,
    }
}

/// The URL a pairing QR carries for a backend bound to `bind_addr`:
/// `http://host:port` from [`advertised_endpoint_from`], or the bind address
/// verbatim behind `http://` when it has no numeric port.
pub fn advertised_url_from(bind_addr: &str, detected: Option<Ipv4Addr>) -> (url: String)
    ensures
        url@ == spec_advertised_url(bind_addr@, detected),
{
    let mut url = String::from_str("http://");
    match advertised_endpoint_from(bind_addr, detected) {
        Some((host, port)) => {
            url.append(host.as_str());
            push_char(&mut url, ':');
            push_decimal(&mut url, port as u32);
            assert(url@ =~= spec_advertised_url(bind_addr@, detected));
        },
        None => {
            url.append(bind_addr);
        },
    }
    url
}

/// TXT key under which the backend's stable id is published.
pub const TXT_KEY_ID: &'static str = "id";

/// TXT key under which the backend's name is published.
pub const TXT_KEY_NAME: &'static str = "name";

/// What the backend publishes over mDNS: the address the phone must call and
/// the TXT records identifying the machine.
#[derive(Debug, Clone, PartialEq, Eq)]
pub struct AdvertisedService {
    /// Base URL the app will store, e.g. `http://192.168.1.107:4000`.
    pub url: String,
    /// The same address as host and port; `None` when the bind address has no
    /// numeric port, which is nothing an mDNS record could announce.
    pub endpoint: Option<(String, u16)>,
    /// TXT records, as key and value.
    pub txt: Vec<(String, String)>,
}

/// The views of a list of key and value pairs.
pub open spec fn pairs_view(list: Seq<(String, String)>) -> Seq<(Seq<char>, Seq<char>)> {
    list.map_values(|p: (String, String)| (p.0@, p.1@))
}

/// Build the mDNS record for a backend bound to `bind_addr`: the same URL as
/// the pairing QR, its host and port, and the `id` and `name` TXT records.
pub fn advertised_service_from(bind_addr: &str, detected: Option<Ipv4Addr>, id: &str, name: &str) -> (record: AdvertisedService)
    ensures
        record.url@ == spec_advertised_url(bind_addr@, detected),
        endpoint_view(record.endpoint) == spec_endpoint(bind_addr@, detected),
        pairs_view(record.txt@) == seq![(TXT_KEY_ID@, id@), (TXT_KEY_NAME@, name@)],
{
    let txt = vec![
        (String::from_str(TXT_KEY_ID), String::from_str(id)),
        (String::from_str(TXT_KEY_NAME), String::from_str(name)),
    ];
    assert(pairs_view(txt@) =~= seq![(TXT_KEY_ID@, id@), (TXT_KEY_NAME@, name@)]);
    AdvertisedService {
        url: advertised_url_from(bind_addr, detected),
        endpoint: advertised_endpoint_from(bind_addr, detected),
        txt,
    }
}

/// Why a connect attempt failed: at the pairing step, or anywhere else. Each
/// carries the Bluetooth stack's own message.
#[derive(Debug, Clone, PartialEq, Eq)]
pub enum ConnectError {
    /// Pairing failed, or the pairing agent could not be registered for it.
    Pairing(String),
    /// Any other Bluetooth failure: no adapter, connect refused, properties
    /// unreadable.
    Bluetooth(String),
}

/// The text of a connect failure: the pairing arm says at which step it
/// happened, and both keep the stack's message.
pub open spec fn connect_error_text(e: ConnectError) -> Seq<char> {
    match e {
        ConnectError::Pairing(m) => "pairing failed: "@ + m@,
        ConnectError::Bluetooth(m) => m@,
    }
}

impl ConnectError {
    /// The text describing the failure.
    pub fn to_string(&self) -> (text: String)
        ensures
            text@ == connect_error_text(*self),
    {
        match self {
            ConnectError::Pairing(m) => {
                let mut s = String::from_str("pairing failed: ");
                s.append(m.as_str());
                s
            },
            ConnectError::Bluetooth(m) => m.clone(),
        }
    }
}

/// A request that failed, as the HTTP status and the message it answers with.
#[derive(Debug, Clone, PartialEq, Eq)]
pub struct HttpError {
    /// The HTTP status code.
    pub status: u16,
    /// The response body.
    pub message: String,
}

/// The message a guarded route answers a request without the token with.
pub open spec fn not_paired_message() -> Seq<char> {
    "not paired — pair this app with the backend first"@
}

impl HttpError {
    /// A refused connect: a bond the speaker refused collides with its own
    /// state (409), any other failure is the server's (500). Never 502, which
    /// stays the answer of a failed upstream exchange.
    pub fn from_connect_error(e: &ConnectError) -> (err: Self)
        ensures
            err.status == (if e is Pairing { 409u16 } else { 500u16 }),
            err.message@ == connect_error_text(*e),
    {
        let message = e.to_string();
        match e {
            ConnectError::Pairing(_) => HttpError { status: 409, message },
            ConnectError::Bluetooth(_) => HttpError { status: 500, message },
        }
    }

    /// Any other Bluetooth failure: a server fault carrying the stack's message.
    pub fn from_bluetooth(message: String) -> (err: Self)
        ensures
            err.status == 500,
            err.message@ == message@,
    {
        HttpError { status: 500, message }
    }

    /// An audio failure: no connected speaker is the client's precondition
    /// (400), a decode or PipeWire failure the server's (500).
    pub fn from_audio_error(e: &AudioError) -> (err: Self)
        ensures
            err.status == (if *e is NoSpeakerConnected { 400u16 } else { 500u16 }),
            err.message@ == spec_audio_error_message(*e),
    {
        let message = e.to_string();
        match e {
            AudioError::NoSpeakerConnected => HttpError { status: 400, message },
            _ => HttpError { status: 500, message },
        }
    }

    /// The answer of a guarded route to a request without the API token.
    pub fn not_paired() -> (err: Self)
        ensures
            err.status == 401,
            err.message@ == not_paired_message(),
    {
        HttpError {
            status: 401,
            message: String::from_str("not paired — pair this app with the backend first"),
        }
    }

    /// The answer to a refused pairing code: one status and one message for
    /// every refusal, so a caller cannot tell why it was refused.
    pub fn pair_refused(e: PairError) -> (err: Self)
        ensures
            err.status == 401,
            err.message@ == pair_error_message(),
    {
        HttpError { status: 401, message: e.to_string() }
    }

    /// The answer to a pairing request whose body could not be read: a client
    /// error, distinct from a refused code since nothing was guessed.
    pub fn invalid_pair_body(detail: &str) -> (err: Self)
        ensures
            err.status == 400,
            err.message@ == "invalid pair body: "@ + detail@,
    {
        let mut message = String::from_str("invalid pair body: ");
        message.append(detail);
        HttpError { status: 400, message }
    }
}

/// The decimal spelling of `n` has one character exactly when `n < 10`, and
/// starts with a decimal digit.
proof fn lemma_decimal_digits_shape(n: nat)
    ensures
        decimal_digits(n).len() >= 1,
        n < 10 ==> decimal_digits(n) == seq![spec_digit_char(n as int)],
        n >= 10 ==> decimal_digits(n).len() >= 2,
        is_digit(decimal_digits(n)[0]),
    decreases n,
{
    if n >= 10 {
        lemma_decimal_digits_shape(n / 10);
    }
}

/// The spelling of a LAN candidate is neither `0.0.0.0` nor `[::]`.
proof fn lemma_lan_text_is_no_wildcard(lan: Ipv4Addr)
    requires
        is_lan_candidate(lan),
    ensures
        !is_wildcard_host(ipv4_text(lan)),
{
    reveal_strlit("0.0.0.0");
    reveal_strlit("[::]");
    lemma_decimal_digits_shape(lan.0 as nat);
    lemma_decimal_digits_shape(lan.1 as nat);
    lemma_decimal_digits_shape(lan.2 as nat);
    lemma_decimal_digits_shape(lan.3 as nat);
    let t = ipv4_text(lan);
    assert(t[0] == decimal_digits(lan.0 as nat)[0]);
    assert(t.len() == decimal_digits(lan.0 as nat).len() + decimal_digits(lan.1 as nat).len()
        + decimal_digits(lan.2 as nat).len() + decimal_digits(lan.3 as nat).len() + 3);
    if t == "0.0.0.0"@ {
        assert(lan.0 < 10 && lan.1 < 10 && lan.2 < 10 && lan.3 < 10);
        assert(t =~= seq![
            spec_digit_char(lan.0 as int), '.', spec_digit_char(lan.1 as int), '.',
            spec_digit_char(lan.2 as int), '.', spec_digit_char(lan.3 as int),
        ]);
        assert(t[0] == '0' && t[2] == '0' && t[4] == '0' && t[6] == '0');
        assert(false);
    }
}

/// A backend bound to every interface, with a LAN address detected, never
/// advertises the wildcard: the endpoint it announces is always an address a
/// phone could call.
pub proof fn law_wildcard_is_never_advertised(bind: Seq<char>, lan: Ipv4Addr)
    requires
        is_lan_candidate(lan),
    ensures
        spec_endpoint(bind, Some(lan)) matches Some((host, _)) ==> !is_wildcard_host(host),
{
    lemma_lan_text_is_no_wildcard(lan);
}

/// The pairing QR and the mDNS record point at the same place: whenever there
/// is an endpoint, the advertised URL is `http://host:port` of that endpoint.
pub proof fn law_url_carries_the_endpoint(bind: Seq<char>, detected: Option<Ipv4Addr>)
    ensures
        spec_endpoint(bind, detected) matches Some((host, port)) ==> spec_advertised_url(bind, detected)
            == "http://"@ + host.push(':') + decimal_digits(port as nat),
{
}

/// The preferred LAN address is one of the candidates, and a LAN candidate;
/// there is none only when no candidate qualifies.
pub proof fn law_preferred_lan_address_is_a_lan_candidate(candidates: Seq<Ipv4Addr>)
    ensures
        first_lan_address(candidates) matches Some(a) ==> is_lan_candidate(a) && candidates.contains(a),
        first_lan_address(candidates) is None <==> forall|i: int|
            0 <= i < candidates.len() ==> !is_lan_candidate(#[trigger] candidates[i]),
    decreases candidates.len(),
{
    if candidates.len() > 0 {
        let rest = candidates.drop_first();
        law_preferred_lan_address_is_a_lan_candidate(rest);
        if !is_lan_candidate(candidates[0]) {
            if let Some(a) = first_lan_address(rest) {
                let k = choose|k: int| 0 <= k < rest.len() && rest[k] == a;
                assert(candidates[k + 1] == a);
            }
            assert forall|i: int| 0 <= i < candidates.len() && first_lan_address(rest) is None implies !is_lan_candidate(#[trigger] candidates[i]) by {
                if i > 0 {
                    assert(candidates[i] == rest[i - 1]);
                }
            }
            if first_lan_address(rest) is Some {
                let k = choose|k: int| 0 <= k < rest.len() && is_lan_candidate(rest[k]);
                assert(is_lan_candidate(candidates[k + 1]));
            }
        } else {
            assert(candidates.contains(candidates[0]));
        }
    }
}

} // verus!
