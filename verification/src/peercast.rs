//! Talking to the local PeerCast (PeerCast YT / PeerCastStation): URLs, credentials,
//! and what its answers mean.
use vstd::prelude::*;
use vstd::string::StringSliceAdditionalSpecFns;
use crate::config::{base_url_spec, host_of, port_of, PeerCastConfig, PeerCastKind};
use crate::text::{
    contains_seq, dec_nat, find_char, from_chars, has_char, has_sub, push_char, push_dec, push_str, to_chars,
    upper_chars, upper_seq,
};

verus! {

/// An address for use in a URL: with `:` and not yet bracketed, it is put in `[]`.
pub open spec fn host_for_url_spec(h: Seq<char>) -> Seq<char> {
    if has_char(h, ':') && !(h.len() > 0 && h[0] == '[') {
        seq!['['] + h + seq![']']
    } else {
        h
    }
}

/// Puts an IPv6 address in brackets.
pub fn host_for_url(host: &str) -> (r: String)
    ensures
        r@ == host_for_url_spec(host@),
{
    let v = to_chars(host);
    let colon = find_char(&v, 0, v.len(), ':');
    proof {
        match colon {
            Some(i) => {
                assert(v@[i as int] == ':');
            },
            None => {},
        }
    }
    if colon.is_some() && !(v.len() > 0 && v[0] == '[') {
        let mut s = String::new();
        push_char(&mut s, '[');
        push_str(&mut s, host);
        push_char(&mut s, ']');
        s
    } else {
        host.to_string()
    }
}

/// `http://host:port` of the configured PeerCast.
pub open spec fn peercast_base_spec(address: Seq<char>) -> Seq<char> {
    "http://"@ + host_for_url_spec(host_of(address)) + seq![':'] + dec_nat(port_of(address) as nat)
}

/// `http://host:port` of the configured PeerCast, for building URLs.
pub fn peercast_base(cfg: &PeerCastConfig) -> (r: String)
    ensures
        r@ == peercast_base_spec(cfg.address@),
{
    let h = cfg.host();
    let hu = host_for_url(h.as_str());
    let mut s = String::new();
    push_str(&mut s, "http://");
    push_str(&mut s, hu.as_str());
    push_char(&mut s, ':');
    push_dec(&mut s, cfg.port() as u64);
    assert(s@ =~= peercast_base_spec(cfg.address@));
    s
}

/// The admin page of PeerCast, to open in a browser.
pub fn admin_url(cfg: &PeerCastConfig) -> (r: String)
    ensures
        r@ == peercast_base_spec(cfg.address@) + seq!['/'],
{
    let mut s = peercast_base(cfg);
    push_char(&mut s, '/');
    s
}

/// The JSON-RPC endpoint of PeerCast (`/api/1`).
pub fn rpc_url(cfg: &PeerCastConfig) -> (r: String)
    ensures
        r@ == peercast_base_spec(cfg.address@) + "/api/1"@,
{
    let mut s = peercast_base(cfg);
    push_str(&mut s, "/api/1");
    s
}

// ------------------------------------------------------------------ Base64

/// The Base64 digit for a value below 64.
pub open spec fn b64_digit(n: nat) -> char {
    if n < 26 {
        ('A' as u32 + n) as char
    } else if n < 52 {
        ('a' as u32 + (n - 26)) as char
    } else if n < 62 {
        ('0' as u32 + (n - 52)) as char
    } else if n == 62 {
        '+'
    } else {
        '/'
    }
}

/// The four characters for up to three bytes (missing bytes count as zero and their
/// characters become `=`).
pub open spec fn b64_block(c: Seq<u8>) -> Seq<char> {
    let b0 = c[0] as nat;
    let b1 = if c.len() > 1 {
        c[1] as nat
    } else {
        0
    };
    let b2 = if c.len() > 2 {
        c[2] as nat
    } else {
        0
    };
    let n = b0 * 65536 + b1 * 256 + b2;
    seq![
        b64_digit(n / 262144),
        b64_digit((n / 4096) % 64),
        if c.len() > 1 {
            b64_digit((n / 64) % 64)
        } else {
            '='
        },
        if c.len() > 2 {
            b64_digit(n % 64)
        } else {
            '='
        },
    ]
}

/// Base64 (RFC 4648, with padding) of `b`.
pub open spec fn base64_spec(b: Seq<u8>) -> Seq<char>
    decreases b.len(),
{
    if b.len() == 0 {
        seq![]
    } else if b.len() <= 3 {
        b64_block(b)
    } else {
        b64_block(b.take(3)) + base64_spec(b.skip(3))
    }
}

/// The admin page is the base URL of the settings followed by `/`, unless the host
/// read from the address already starts with `[` (then only the base URL brackets it).
pub proof fn law_admin_url_is_base_url(address: Seq<char>)
    requires
        !(host_of(address).len() > 0 && host_of(address)[0] == '['),
    ensures
        peercast_base_spec(address) + seq!['/'] == base_url_spec(address) + seq!['/'],
        peercast_base_spec(address) == base_url_spec(address),
{
}

/// Base64 writes four characters for every three bytes begun.
pub proof fn law_base64_length(b: Seq<u8>)
    ensures
        base64_spec(b).len() == 4 * ((b.len() + 2) / 3),
    decreases b.len(),
{
    if b.len() > 3 {
        law_base64_length(b.skip(3));
    }
}

fn b64_digit_of(n: u32) -> (c: char)
    requires
        n < 64,
    ensures
        c == b64_digit(n as nat),
{
    if n < 26 {
        crate::text::char_of_ascii(65 + n)
    } else if n < 52 {
        crate::text::char_of_ascii(97 + (n - 26))
    } else if n < 62 {
        crate::text::char_of_ascii(48 + (n - 52))
    } else if n == 62 {
        '+'
    } else {
        '/'
    }
}

/// Base64 of `input` (for HTTP Basic authentication).
pub fn base64(input: &[u8]) -> (r: String)
    ensures
        r@ == base64_spec(input@),
{
    let mut out = String::new();
    let mut i: usize = 0;
    assert(input@.skip(0) =~= input@);
    while i < input.len()
        invariant
            i <= input@.len(),
            base64_spec(input@) == out@ + base64_spec(input@.skip(i as int)),
        decreases input@.len() - i,
    {
        let ghost rest = input@.skip(i as int);
        let left = input.len() - i;
        let b0 = input[i] as u32;
        let b1 = if left > 1 {
            input[i + 1] as u32
        } else {
            0
        };
        let b2 = if left > 2 {
            input[i + 2] as u32
        } else {
            0
        };
        let n: u32 = b0 * 65536 + b1 * 256 + b2;
        let ghost block = if rest.len() <= 3 {
            rest
        } else {
            rest.take(3)
        };
        assert(block[0] == b0);
        assert(block.len() > 1 ==> block[1] == b1);
        assert(block.len() > 2 ==> block[2] == b2);
        assert(n / 262144 < 64);
        let c0 = b64_digit_of(n / 262144);
        let c1 = b64_digit_of((n / 4096) % 64);
        let c2 = if left > 1 {
            b64_digit_of((n / 64) % 64)
        } else {
            '='
        };
        let c3 = if left > 2 {
            b64_digit_of(n % 64)
        } else {
            '='
        };
        push_char(&mut out, c0);
        push_char(&mut out, c1);
        push_char(&mut out, c2);
        push_char(&mut out, c3);
        assert(seq![c0, c1, c2, c3] =~= b64_block(block));
        if left <= 3 {
            assert(base64_spec(rest) == b64_block(block));
            assert(input@.skip(input@.len() as int) =~= Seq::<u8>::empty());
            i = input.len();
        } else {
            assert(rest.skip(3) =~= input@.skip(i + 3));
            i = i + 3;
        }
    }
    assert(input@.skip(i as int) =~= Seq::<u8>::empty());
    out
}

/// The `Authorization` value for a user and password; none when both are empty.
pub open spec fn auth_header_spec(user: Seq<char>, password: Seq<char>) -> Option<Seq<char>> {
    if user.len() == 0 && password.len() == 0 {
        None
    } else {
        Some("Basic "@ + base64_spec(vstd::utf8::encode_utf8(user + seq![':'] + password)))
    }
}

/// `Basic <base64 of user:password>`, or `None` when no credentials are set.
pub fn auth_header(user: &str, password: &str) -> (r: Option<String>)
    ensures
        match (r, auth_header_spec(user@, password@)) {
            (Some(a), Some(b)) => a@ == b,
            (None, None) => true,
            _ => false,
        },
{
    if user.is_empty() && password.is_empty() {
        return None;
    }
    let mut up = String::new();
    push_str(&mut up, user);
    push_char(&mut up, ':');
    push_str(&mut up, password);
    assert(up@ =~= user@ + seq![':'] + password@);
    let bytes = up.as_str().as_bytes();
    let enc = base64(bytes);
    let mut s = String::new();
    push_str(&mut s, "Basic ");
    push_str(&mut s, enc.as_str());
    Some(s)
}

/// What an HTTP status of a JSON-RPC call means: 200 is fine, 401 and 403 ask for
/// credentials, anything else is an error.
pub open spec fn rpc_status_spec(status: u16) -> Result<(), Seq<char>> {
    if status == 401 || status == 403 {
        Err("認証が必要です (HTTP "@ + dec_nat(status as nat)
            + ")。PeerCast の設定でユーザー名とパスワードを確かめてください"@)
    } else if status != 200 {
        Err("HTTP "@ + dec_nat(status as nat))
    } else {
        Ok(())
    }
}

/// Checks the HTTP status of a JSON-RPC answer.
pub fn rpc_status(status: u16) -> (r: Result<(), String>)
    ensures
        match (r, rpc_status_spec(status)) {
            (Ok(()), Ok(())) => true,
            (Err(a), Err(b)) => a@ == b,
            _ => false,
        },
{
    if status == 401 || status == 403 {
        let mut s = String::new();
        push_str(&mut s, "認証が必要です (HTTP ");
        push_dec(&mut s, status as u64);
        push_str(&mut s, ")。PeerCast の設定でユーザー名とパスワードを確かめてください");
        Err(s)
    } else if status != 200 {
        let mut s = String::new();
        push_str(&mut s, "HTTP ");
        push_dec(&mut s, status as u64);
        Err(s)
    } else {
        Ok(())
    }
}

/// The error of a JSON-RPC call whose answer holds an error object: the method, then
/// the object's message (or a general one when it has none).
pub open spec fn rpc_error_spec(method: Seq<char>, message: Option<Seq<char>>) -> Seq<char> {
    method + ": "@ + match message {
        Some(m) => m,
        None => "不明なエラー"@,
    }
}

/// The error text for a JSON-RPC answer that reports an error.
pub fn rpc_error_text(method: &str, message: Option<String>) -> (r: String)
    ensures
        r@ == rpc_error_spec(
            method@,
            match message {
                Some(m) => Some(m@),
                None => None,
            },
        ),
{
    let mut s = String::new();
    push_str(&mut s, method);
    push_str(&mut s, ": ");
    match message {
        Some(m) => push_str(&mut s, m.as_str()),
        None => push_str(&mut s, "不明なエラー"),
    }
    s
}

// ------------------------------------------------------------------ kinds and channels

/// The kind of PeerCast that an agent name belongs to.
pub open spec fn detect_kind_spec(agent: Seq<char>) -> PeerCastKind {
    if contains_seq(agent, "PeerCastStation"@) {
        PeerCastKind::PeerCastStation
    } else if contains_seq(agent, "PeerCast"@) {
        PeerCastKind::PeerCastYt
    } else {
        PeerCastKind::Auto
    }
}

/// Tells PeerCastStation from PeerCast YT by the agent name.
pub fn detect_kind(agent: &str) -> (r: PeerCastKind)
    ensures
        r == detect_kind_spec(agent@),
{
    let v = to_chars(agent);
    if has_sub(&v, &to_chars("PeerCastStation")) {
        PeerCastKind::PeerCastStation
    } else if has_sub(&v, &to_chars("PeerCast")) {
        PeerCastKind::PeerCastYt
    } else {
        PeerCastKind::Auto
    }
}

/// The agent name of PeerCast and its kind.
#[derive(Clone, Debug)]
pub struct VersionInfo {
    pub agent: String,
    pub kind: PeerCastKind,
}

/// The version information that an agent name gives.
pub fn version_info_of(agent: String) -> (r: VersionInfo)
    ensures
        r.agent@ == agent@,
        r.kind == detect_kind_spec(agent@),
{
    let kind = detect_kind(agent.as_str());
    VersionInfo { agent, kind }
}

/// A channel that PeerCast is connected to (one entry of `getChannels`).
#[derive(Clone, Debug)]
pub struct RelayChannel {
    pub id: String,
    pub name: String,
    pub status: String,
    pub listeners: i64,
    pub relays: i64,
    pub bitrate: i64,
    pub content_type: String,
}

impl Default for RelayChannel {
    fn default() -> (r: RelayChannel)
        ensures
            r.id@.len() == 0 && r.name@.len() == 0 && r.status@.len() == 0,
            r.content_type@.len() == 0,
            r.listeners == 0 && r.relays == 0 && r.bitrate == 0,
    {
        RelayChannel {
            id: String::new(),
            name: String::new(),
            status: String::new(),
            listeners: 0,
            relays: 0,
            bitrate: 0,
            content_type: String::new(),
        }
    }
}

impl RelayChannel {
    /// An entry of `getChannels` from the values read out of it; the channel ID is
    /// kept in upper case, as the YPs write it.
    pub fn from_fields(
        id: &str,
        name: String,
        status: String,
        listeners: i64,
        relays: i64,
        bitrate: i64,
        content_type: String,
    ) -> (r: RelayChannel)
        ensures
            r.id@ == upper_seq(id@),
            r.name == name && r.status == status && r.content_type == content_type,
            r.listeners == listeners && r.relays == relays && r.bitrate == bitrate,
    {
        let v = to_chars(id);
        let u = upper_chars(&v);
        RelayChannel { id: from_chars(&u), name, status, listeners, relays, bitrate, content_type }
    }
}

} // verus!
