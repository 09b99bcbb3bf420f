//! Settings: YP list, local PeerCast, players, notices and tray, and their rules.
use vstd::prelude::*;
use vstd::string::StringSliceAdditionalSpecFns;
use crate::text::{
    count_char, count_chars, dec_nat, lemma_dec_digits, eq_ignore_case, eq_ignore_case_chars, eq_str, has_char,
    index_of, index_of_char, lower_chars, lower_seq, occurs_at, parse_uint, parse_uint_chars,
    push_char, push_dec, push_str, split, split_ranges, starts_with_str, sub_string, to_chars,
    trim, trim_bounds, trim_chars,
};

verus! {

pub const APP_NAME: &'static str = "pcyp-rust";

pub const CONFIG_FILE: &'static str = "pcyp-rust.json";

pub const FILTER_FILE: &'static str = "channelFilters.json";

/// Shortest automatic update interval (minutes), to spare the YP servers.
pub const MIN_AUTO_INTERVAL_MIN: u32 = 2;

/// Automatic update interval when nothing is set (minutes).
pub const DEFAULT_AUTO_INTERVAL_MIN: u32 = 5;

/// Seconds that must pass between manual updates.
pub const MANUAL_INTERVAL_SEC: u64 = 30;

/// Port of the local PeerCast when the address names none.
pub const DEFAULT_PEERCAST_PORT: u16 = 7144;

/// Template of a freely written play URL (the same shape as `/stream/`).
pub const DEFAULT_CUSTOM_URL: &'static str = "$BASE/stream/$ID$EXT?tip=$TIP";

/// One YP (channel directory) to read.
#[derive(Clone, Debug, PartialEq)]
pub struct YpEntry {
    pub name: String,
    pub url: String,
    pub enabled: bool,
}

impl Default for YpEntry {
    fn default() -> (r: YpEntry)
        ensures
            r.name@.len() == 0,
            r.url@.len() == 0,
            r.enabled,
    {
        YpEntry { name: String::new(), url: String::new(), enabled: true }
    }
}

impl YpEntry {
    fn new(name: &str, url: &str) -> (r: YpEntry)
        ensures
            r.name@ == name@,
            r.url@ == url@,
            r.enabled,
    {
        YpEntry { name: name.to_string(), url: url.to_string(), enabled: true }
    }
}

/// The YPs of a fresh installation.
pub fn default_yps() -> (r: Vec<YpEntry>)
    ensures
        r@.len() == 5,
        r@[0].name@ == "SP"@ && r@[0].url@ == "http://bayonet.ddo.jp/sp/index.txt"@,
        r@[1].name@ == "平成"@ && r@[1].url@ == "http://yp.pcgw.pgw.jp/index.txt"@,
        r@[2].name@ == "P@"@ && r@[2].url@ == "https://p-at.net/index.txt"@,
        r@[3].name@ == "YPv6"@ && r@[3].url@ == "http://ypv6.pecastation.org/index.txt"@,
        r@[4].name@ == "Event YP"@ && r@[4].url@ == "http://eventyp.xrea.jp/index.txt"@,
        forall|i: int| 0 <= i < 5 ==> (#[trigger] r@[i]).enabled,
{
    let mut v: Vec<YpEntry> = Vec::new();
    v.push(YpEntry::new("SP", "http://bayonet.ddo.jp/sp/index.txt"));
    v.push(YpEntry::new("平成", "http://yp.pcgw.pgw.jp/index.txt"));
    v.push(YpEntry::new("P@", "https://p-at.net/index.txt"));
    v.push(YpEntry::new("YPv6", "http://ypv6.pecastation.org/index.txt"));
    v.push(YpEntry::new("Event YP", "http://eventyp.xrea.jp/index.txt"));
    v
}

/// Which URL a player is given.
#[derive(Clone, Copy, Debug, PartialEq, Eq)]
pub enum PlayUrlKind {
    /// `/stream/<ID><ext>?tip=`
    Stream,
    /// `/pls/<ID>?tip=`
    Playlist,
    /// Made from the template `custom_url`
    Custom,
}

/// The kinds of PeerCast that the JSON-RPC client tells apart.
#[derive(Clone, Copy, Debug, PartialEq, Eq)]
pub enum PeerCastKind {
    Auto,
    PeerCastYt,
    PeerCastStation,
}

/// The local PeerCast.
#[derive(Clone, Debug, PartialEq)]
pub struct PeerCastConfig {
    /// `host:port` (e.g. `127.0.0.1:7144`, `[::1]:7144`); without a port, 7144.
    pub address: String,
    /// For JSON-RPC; no authentication when empty.
    pub user: String,
    pub password: String,
    /// The PeerCast executable; not started when empty.
    pub exe_path: String,
    pub launch_on_start: bool,
    pub url_kind: PlayUrlKind,
    /// Template of the play URL when `url_kind` is `Custom` (`$BASE` `$ID` `$EXT` `$TIP`).
    pub custom_url: String,
}

impl Default for PeerCastConfig {
    fn default() -> (r: PeerCastConfig)
        ensures
            r.address@ == "127.0.0.1:7144"@,
            r.user@.len() == 0 && r.password@.len() == 0 && r.exe_path@.len() == 0,
            !r.launch_on_start,
            r.url_kind == PlayUrlKind::Stream,
            r.custom_url@ == DEFAULT_CUSTOM_URL@,
    {
        PeerCastConfig {
            address: "127.0.0.1:7144".to_string(),
            user: String::new(),
            password: String::new(),
            exe_path: String::new(),
            launch_on_start: false,
            url_kind: PlayUrlKind::Stream,
            custom_url: DEFAULT_CUSTOM_URL.to_string(),
        }
    }
}

// ------------------------------------------------------------------ addresses

/// Number of trailing `/`.
pub open spec fn trail_slashes(s: Seq<char>) -> nat
    decreases s.len(),
{
    if s.len() > 0 && s.last() == '/' {
        1 + trail_slashes(s.drop_last())
    } else {
        0
    }
}

/// The address without blanks around it, a leading `http://` and trailing `/`.
pub open spec fn address_core(s: Seq<char>) -> Seq<char> {
    let t = trim(s);
    let t1 = if occurs_at(t, 0, "http://"@) {
        t.skip("http://"@.len() as int)
    } else {
        t
    };
    t1.take(t1.len() - trail_slashes(t1))
}

pub open spec fn empty_address_msg() -> Seq<char> {
    "PeerCast のアドレスが空です"@
}

pub open spec fn bad_address_msg(s: Seq<char>) -> Seq<char> {
    "PeerCast のアドレスが正しくありません: "@ + trim(s) + " (例 127.0.0.1:7144)"@
}

/// Host and optional port text; `None` when the brackets of an IPv6 address are wrong.
/// An address with more than one `:` and no brackets is an IPv6 address without port.
pub open spec fn split_host_port(t: Seq<char>) -> Option<(Seq<char>, Option<Seq<char>>)> {
    if t.len() > 0 && t[0] == '[' {
        let rest = t.skip(1);
        match index_of_char(rest, ']') {
            None => None,
            Some(i) => {
                let after = rest.skip(i + 1);
                if after.len() == 0 {
                    Some((rest.take(i), None))
                } else if after[0] == ':' {
                    Some((rest.take(i), Some(after.skip(1))))
                } else {
                    None
                }
            },
        }
    } else if count_char(t, ':') > 1 {
        Some((t, None))
    } else {
        match index_of_char(t, ':') {
            Some(i) => Some((t.take(i), Some(t.skip(i + 1)))),
            None => Some((t, None)),
        }
    }
}

/// Characters that a host name may not hold.
pub open spec fn bad_host_char(c: char) -> bool {
    c == '/' || c == ' ' || c == '?' || c == '#' || c == '@'
}

pub open spec fn bad_host(h: Seq<char>) -> bool {
    h.len() == 0 || exists|i: int| 0 <= i < h.len() && bad_host_char(#[trigger] h[i])
}

/// `host:port` split into host and port, or the message that explains what is wrong.
pub open spec fn parse_address_spec(s: Seq<char>) -> Result<(Seq<char>, u16), Seq<char>> {
    let t = address_core(s);
    if t.len() == 0 {
        Err(empty_address_msg())
    } else {
        match split_host_port(t) {
            None => Err(bad_address_msg(s)),
            Some((h, p)) => if bad_host(h) {
                Err(bad_address_msg(s))
            } else {
                match p {
                    None => Ok((h, DEFAULT_PEERCAST_PORT)),
                    Some(ps) => match parse_uint(ps, 10, 65535) {
                        Some(n) => if n != 0 {
                            Ok((h, n as u16))
                        } else {
                            Err(bad_address_msg(s))
                        },
                        None => Err(bad_address_msg(s)),
                    },
                }
            },
        }
    }
}

proof fn lemma_trail_slashes(s: Seq<char>, i: int)
    requires
        0 <= i <= s.len(),
        forall|j: int| s.len() - i <= j < s.len() ==> #[trigger] s[j] == '/',
        i == s.len() || s[s.len() - i - 1] != '/',
    ensures
        trail_slashes(s) == i,
    decreases i,
{
    if i > 0 {
        lemma_trail_slashes(s.drop_last(), i - 1);
    }
}

fn bad_address(s: &str) -> (r: String)
    ensures
        r@ == bad_address_msg(s@),
{
    let t = trim_chars(s);
    let mut m = String::new();
    push_str(&mut m, "PeerCast のアドレスが正しくありません: ");
    let ts = sub_string(&t, 0, t.len());
    assert(t@.subrange(0, t@.len() as int) =~= t@);
    push_str(&mut m, ts.as_str());
    push_str(&mut m, " (例 127.0.0.1:7144)");
    m
}

fn host_is_bad(v: &[char], from: usize, to: usize) -> (r: bool)
    requires
        from <= to <= v.len(),
    ensures
        r == bad_host(v@.subrange(from as int, to as int)),
{
    if from == to {
        return true;
    }
    let mut i = from;
    while i < to
        invariant
            from <= i <= to <= v.len(),
            forall|j: int| from <= j < i ==> !bad_host_char(#[trigger] v@[j]),
        decreases to - i,
    {
        let c = v[i];
        if c == '/' || c == ' ' || c == '?' || c == '#' || c == '@' {
            assert(bad_host_char(v@.subrange(from as int, to as int)[i - from]));
            return true;
        }
        i += 1;
    }
    false
}

/// Bounds of `address_core(s)` within the characters `v` of `s`.
fn address_bounds(v: &[char]) -> (r: (usize, usize))
    ensures
        r.0 <= r.1 <= v@.len(),
        v@.subrange(r.0 as int, r.1 as int) == address_core(v@),
{
    let (a0, b0) = trim_bounds(v, 0, v.len());
    assert(v@.subrange(0, v@.len() as int) =~= v@);
    let ghost t = trim(v@);
    proof {
        reveal_strlit("http://");
    }
    let a = if starts_with_str_at(v, a0, b0, "http://") {
        a0 + 7
    } else {
        a0
    };
    proof {
        let t1 = if occurs_at(t, 0, "http://"@) {
            t.skip(7)
        } else {
            t
        };
        assert(t1 =~= v@.subrange(a as int, b0 as int));
    }
    let mut b = b0;
    while b > a && v[b - 1] == '/'
        invariant
            a <= b <= b0 <= v.len(),
            forall|j: int| b <= j < b0 ==> #[trigger] v@[j] == '/',
        decreases b - a,
    {
        b -= 1;
    }
    proof {
        let t1 = v@.subrange(a as int, b0 as int);
        assert forall|j: int| t1.len() - (b0 - b) <= j < t1.len() implies #[trigger] t1[j]
            == '/' by {
            assert(t1[j] == v@[a + j]);
        }
        lemma_trail_slashes(t1, b0 - b);
        assert(address_core(v@) =~= v@.subrange(a as int, b as int));
    }
    (a, b)
}

/// `split_host_port` of `v[a..b]`, as positions: host `[.0, .1)`, and the port text
/// `[.3, b)` when `.2`.
fn host_port_bounds(v: &[char], a: usize, b: usize) -> (r: Option<(usize, usize, bool, usize)>)
    requires
        a < b <= v.len(),
    ensures
        match (r, split_host_port(v@.subrange(a as int, b as int))) {
            (None, None) => true,
            (Some((ha, hb, has_port, pa)), Some((h, p))) => {
                &&& ha <= hb <= v@.len()
                &&& pa <= b
                &&& h == v@.subrange(ha as int, hb as int)
                &&& p == if has_port {
                    Some(v@.subrange(pa as int, b as int))
                } else {
                    None
                }
            },
            _ => false,
        },
{
    let ghost core = v@.subrange(a as int, b as int);
    if v[a] == '[' {
        assert(core.skip(1) =~= v@.subrange(a + 1, b as int));
        match index_of(v, a + 1, b, ']') {
            None => None,
            Some(i) => {
                assert(core.skip(1).take(i - (a + 1)) =~= v@.subrange(a + 1, i as int));
                assert(core.skip(1).skip(i - (a + 1) + 1) =~= v@.subrange(i + 1, b as int));
                if i + 1 == b {
                    Some((a + 1, i, false, b))
                } else if v[i + 1] == ':' {
                    assert(v@.subrange(i + 1, b as int).skip(1) =~= v@.subrange(
                        i + 2,
                        b as int,
                    ));
                    Some((a + 1, i, true, i + 2))
                } else {
                    None
                }
            },
        }
    } else if count_chars(v, a, b, ':') > 1 {
        Some((a, b, false, b))
    } else {
        match index_of(v, a, b, ':') {
            Some(i) => {
                assert(core.take(i - a) =~= v@.subrange(a as int, i as int));
                assert(core.skip(i - a + 1) =~= v@.subrange(i + 1, b as int));
                Some((a, i, true, i + 1))
            },
            None => Some((a, b, false, b)),
        }
    }
}

/// Splits `host:port`: blanks around it, a leading `http://` and trailing `/` are
/// dropped; IPv6 addresses are written `[addr]:port`; without a port, 7144.
pub fn parse_address(s: &str) -> (r: Result<(String, u16), String>)
    ensures
        match r {
            Ok((h, p)) => parse_address_spec(s@) == Ok::<(Seq<char>, u16), Seq<char>>((h@, p)),
            Err(e) => parse_address_spec(s@) == Err::<(Seq<char>, u16), Seq<char>>(e@),
        },
{
    let v = to_chars(s);
    let (a, b) = address_bounds(&v);
    if a == b {
        let mut m = String::new();
        push_str(&mut m, "PeerCast のアドレスが空です");
        return Err(m);
    }
    let (ha, hb, has_port, pa) = match host_port_bounds(&v, a, b) {
        None => {
            return Err(bad_address(s));
        },
        Some(x) => x,
    };
    if host_is_bad(&v, ha, hb) {
        return Err(bad_address(s));
    }
    let port: u16 = if has_port {
        match parse_uint_chars(&v, pa, b, 10, 65535) {
            Some(n) => {
                if n == 0 {
                    return Err(bad_address(s));
                }
                n as u16
            },
            None => {
                return Err(bad_address(s));
            },
        }
    } else {
        DEFAULT_PEERCAST_PORT
    };
    Ok((sub_string(&v, ha, hb), port))
}

/// Whether `p` occurs at `from` within `v[from..to]`.
fn starts_with_str_at(v: &[char], from: usize, to: usize, p: &str) -> (r: bool)
    requires
        from <= to <= v.len(),
    ensures
        r == occurs_at(v@.subrange(from as int, to as int), 0, p@),
{
    let w = crate::text::slice_of(v, from, to);
    starts_with_str(&w, p)
}

/// The host of an address, falling back to `127.0.0.1`.
pub open spec fn host_of(address: Seq<char>) -> Seq<char> {
    match parse_address_spec(address) {
        Ok((h, _)) => h,
        Err(_) => "127.0.0.1"@,
    }
}

/// The port of an address, falling back to 7144.
pub open spec fn port_of(address: Seq<char>) -> u16 {
    match parse_address_spec(address) {
        Ok((_, p)) => p,
        Err(_) => DEFAULT_PEERCAST_PORT,
    }
}

/// The host as it stands in a URL: IPv6 addresses in brackets.
pub open spec fn url_host(h: Seq<char>) -> Seq<char> {
    if has_char(h, ':') {
        seq!['['] + h + seq![']']
    } else {
        h
    }
}

pub open spec fn base_url_spec(address: Seq<char>) -> Seq<char> {
    "http://"@ + url_host(host_of(address)) + seq![':'] + dec_nat(port_of(address) as nat)
}

impl PeerCastConfig {
    /// The host of `address`; `127.0.0.1` when it cannot be read.
    pub fn host(&self) -> (r: String)
        ensures
            r@ == host_of(self.address@),
    {
        match parse_address(self.address.as_str()) {
            Ok((h, _)) => h,
            Err(_) => "127.0.0.1".to_string(),
        }
    }

    /// The port of `address`; 7144 when it cannot be read.
    pub fn port(&self) -> (r: u16)
        ensures
            r == port_of(self.address@),
    {
        match parse_address(self.address.as_str()) {
            Ok((_, p)) => p,
            Err(_) => DEFAULT_PEERCAST_PORT,
        }
    }

    /// `http://host:port` (an IPv6 host in brackets).
    pub fn base_url(&self) -> (r: String)
        ensures
            r@ == base_url_spec(self.address@),
    {
        let h = self.host();
        let hv = to_chars(h.as_str());
        assert(hv@.subrange(0, hv@.len() as int) =~= hv@);
        let colon = crate::text::find_char(&hv, 0, hv.len(), ':');
        let mut s = String::new();
        push_str(&mut s, "http://");
        proof {
            match colon {
                Some(i) => {
                    assert(hv@[i as int] == ':');
                },
                None => {
                    assert(!has_char(hv@, ':'));
                },
            }
        }
        if colon.is_some() {
            push_char(&mut s, '[');
            push_str(&mut s, h.as_str());
            push_char(&mut s, ']');
        } else {
            push_str(&mut s, h.as_str());
        }
        push_char(&mut s, ':');
        push_dec(&mut s, self.port() as u64);
        assert(s@ =~= base_url_spec(self.address@));
        s
    }
}

// ------------------------------------------------------------------ players

/// A player for some content types.
#[derive(Clone, Debug, PartialEq)]
pub struct PlayerEntry {
    /// Content types separated by commas (e.g. `FLV,MKV`); `*` is every type.
    pub types: String,
    pub exe: String,
    pub args: String,
}

impl Default for PlayerEntry {
    fn default() -> (r: PlayerEntry)
        ensures
            r.types@ == "*"@,
            r.exe@.len() == 0,
            r.args@ == "\"$URL\""@,
    {
        PlayerEntry { types: "*".to_string(), exe: String::new(), args: "\"$URL\"".to_string() }
    }
}

/// The comma-separated `types` list names `content_type` (in any case) or `*`.
pub open spec fn player_matches(types: Seq<char>, content_type: Seq<char>) -> bool {
    exists|i: int|
        0 <= i < split(types, seq![',']).len() && {
            let t = trim(#[trigger] split(types, seq![','])[i]);
            t == "*"@ || eq_ignore_case(t, content_type)
        }
}

impl PlayerEntry {
    /// Whether this player is for `content_type`.
    pub fn matches(&self, content_type: &str) -> (r: bool)
        ensures
            r == player_matches(self.types@, content_type@),
    {
        let v = to_chars(self.types.as_str());
        let ct = to_chars(content_type);
        let mut comma: Vec<char> = Vec::new();
        comma.push(',');
        assert(comma@ =~= seq![',']);
        let parts = split_ranges(&v, &comma);
        let ghost ps = split(v@, seq![',']);
        let mut k: usize = 0;
        while k < parts.len()
            invariant
                k <= parts@.len(),
                parts@.len() == ps.len(),
                ps == split(self.types@, seq![',']),
                v@ == self.types@,
                ct@ == content_type@,
                forall|j: int|
                    #![trigger parts@[j]]
                    #![trigger ps[j]]
                    0 <= j < parts@.len() ==> {
                        &&& parts@[j].0 <= parts@[j].1 <= v@.len()
                        &&& ps[j] == v@.subrange(parts@[j].0 as int, parts@[j].1 as int)
                    },
                forall|j: int|
                    0 <= j < k ==> !({
                        let t = trim(#[trigger] ps[j]);
                        t == "*"@ || eq_ignore_case(t, content_type@)
                    }),
            decreases parts@.len() - k,
        {
            let (a, b) = parts[k];
            let (ta, tb) = trim_bounds(&v, a, b);
            let t = crate::text::slice_of(&v, ta, tb);
            if eq_str(&t, "*") || eq_ignore_case_chars(&t, &ct) {
                assert(trim(ps[k as int]) == t@);
                return true;
            }
            assert(trim(ps[k as int]) == t@);
            k += 1;
        }
        false
    }
}

/// The players of a fresh installation.
pub fn default_players() -> (r: Vec<PlayerEntry>)
    ensures
        r@.len() == 1,
        r@[0].types@ == "*"@,
        r@[0].exe@ == "mpv.exe"@,
        r@[0].args@ == "--force-media-title=\"$NAME\" \"$URL\""@,
{
    let mut v: Vec<PlayerEntry> = Vec::new();
    v.push(
        PlayerEntry {
            types: "*".to_string(),
            exe: "mpv.exe".to_string(),
            args: "--force-media-title=\"$NAME\" \"$URL\"".to_string(),
        },
    );
    v
}

// ------------------------------------------------------------------ notices, tray, columns

#[derive(Clone, Debug, PartialEq)]
pub struct NotifyConfig {
    /// Tell when a favorite channel starts.
    pub enabled: bool,
    /// Tell already on the first fetch after start.
    pub on_first_fetch: bool,
}

impl Default for NotifyConfig {
    fn default() -> (r: NotifyConfig)
        ensures
            r.enabled && !r.on_first_fetch,
    {
        NotifyConfig { enabled: true, on_first_fetch: false }
    }
}

#[derive(Clone, Debug, PartialEq)]
pub struct TrayConfig {
    /// Show an icon in the task tray (takes effect after a restart).
    pub enabled: bool,
    pub minimize_to_tray: bool,
    pub close_to_tray: bool,
    pub start_minimized: bool,
}

impl Default for TrayConfig {
    fn default() -> (r: TrayConfig)
        ensures
            r.enabled && r.minimize_to_tray && !r.close_to_tray && !r.start_minimized,
    {
        TrayConfig {
            enabled: true,
            minimize_to_tray: true,
            close_to_tray: false,
            start_minimized: false,
        }
    }
}

/// Which columns the channel list shows.
#[derive(Clone, Debug, PartialEq)]
pub struct Columns {
    pub name: bool,
    pub summary: bool,
    pub listeners: bool,
    pub bitrate: bool,
    pub uptime: bool,
    pub content_type: bool,
    pub yp: bool,
    pub track: bool,
}

impl Default for Columns {
    fn default() -> (r: Columns)
        ensures
            r.name && r.summary && r.listeners && r.bitrate && r.uptime && r.content_type && r.yp,
            !r.track,
    {
        Columns {
            name: true,
            summary: true,
            listeners: true,
            bitrate: true,
            uptime: true,
            content_type: true,
            yp: true,
            track: false,
        }
    }
}

/// A value read from a settings file, and what the user should be told about it
/// (a broken file moved aside, and so on).
pub struct Loaded<T> {
    pub value: T,
    pub notices: Vec<String>,
}

/// The automatic update interval in seconds: the minutes, at least two.
pub fn update_interval_sec(update_interval_min: u32) -> (r: u64)
    ensures
        r == 60 * (if update_interval_min < MIN_AUTO_INTERVAL_MIN {
            MIN_AUTO_INTERVAL_MIN
        } else {
            update_interval_min
        }),
        r >= 120,
{
    let m = if update_interval_min < MIN_AUTO_INTERVAL_MIN {
        MIN_AUTO_INTERVAL_MIN
    } else {
        update_interval_min
    };
    m as u64 * 60
}

// ------------------------------------------------------------------ YP URLs

/// Accepted as a YP URL: http or https, with something after the scheme.
pub open spec fn valid_yp_url_spec(url: Seq<char>) -> bool {
    let t = trim(url);
    let l = lower_seq(t);
    (occurs_at(l, 0, "http://"@) || occurs_at(l, 0, "https://"@)) && (crate::text::utf8_len(t)
        as usize) > 8
}

/// Whether `url` is accepted as a YP URL (http and https only).
pub fn valid_yp_url(url: &str) -> (r: bool)
    ensures
        r == valid_yp_url_spec(url@),
{
    let t = trim_chars(url);
    let l = lower_chars(&t);
    let ts = crate::text::from_chars(&t);
    let n = ts.as_str().len();
    proof {
        reveal_strlit("https://");
    }
    (starts_with_str(&l, "http://") || starts_with_str(&l, "https://")) && n > 8
}


// ------------------------------------------------------------------ checking a settings dialog

/// The entry `n` is `o` with its URL and name trimmed.
pub open spec fn entry_trimmed(n: YpEntry, o: YpEntry) -> bool {
    &&& n.url@ == trim(o.url@)
    &&& n.name@ == trim(o.name@)
    &&& n.enabled == o.enabled
}

/// An entry is accepted when, trimmed, its URL is an http(s) URL and its name is not empty.
pub open spec fn entry_ok(e: YpEntry) -> bool {
    valid_yp_url_spec(trim(e.url@)) && trim(e.name@).len() > 0
}

/// What is wrong with an entry that is not accepted.
pub open spec fn entry_error(e: YpEntry) -> Seq<char> {
    if !valid_yp_url_spec(trim(e.url@)) {
        "YP「"@ + trim(e.name@) + "」の URL は http:// か https:// で始めてください"@
    } else {
        "YP ("@ + trim(e.url@) + ") の名前が空です"@
    }
}

/// The first entry that is not accepted.
pub open spec fn first_bad(es: Seq<YpEntry>) -> Option<int>
    decreases es.len(),
{
    if es.len() == 0 {
        None
    } else {
        match first_bad(es.drop_last()) {
            Some(k) => Some(k),
            None => if !entry_ok(es.last()) {
                Some(es.len() - 1)
            } else {
                None
            },
        }
    }
}

/// The first URL that an earlier one repeats.
pub open spec fn first_repeat(urls: Seq<Seq<char>>) -> Option<int>
    decreases urls.len(),
{
    if urls.len() == 0 {
        None
    } else {
        match first_repeat(urls.drop_last()) {
            Some(k) => Some(k),
            None => if urls.drop_last().contains(urls.last()) {
                Some(urls.len() - 1)
            } else {
                None
            },
        }
    }
}

pub open spec fn trimmed_urls(es: Seq<YpEntry>) -> Seq<Seq<char>> {
    es.map_values(|e: YpEntry| trim(e.url@))
}

pub open spec fn repeat_msg(url: Seq<char>) -> Seq<char> {
    "同じ URL の YP が 2 つあります: "@ + url
}

fn trimmed_string(s: &String) -> (r: String)
    ensures
        r@ == trim(s@),
{
    let v = trim_chars(s.as_str());
    crate::text::from_chars(&v)
}

fn has_url_before(yps: &Vec<YpEntry>, j: usize) -> (r: bool)
    requires
        j < yps@.len(),
    ensures
        r == exists|i: int| 0 <= i < j && #[trigger] yps@[i].url@ == yps@[j as int].url@,
{
    let mut i: usize = 0;
    while i < j
        invariant
            j < yps@.len(),
            i <= j,
            forall|m: int| 0 <= m < i ==> #[trigger] yps@[m].url@ != yps@[j as int].url@,
        decreases j - i,
    {
        if yps[i].url == yps[j].url {
            return true;
        }
        i += 1;
    }
    false
}

proof fn lemma_first_bad_prefix(es: Seq<YpEntry>, n: int)
    requires
        0 <= n < es.len(),
        first_bad(es.take(n)) is None,
    ensures
        first_bad(es.take(n + 1)) == (if entry_ok(es[n]) {
            None
        } else {
            Some(n)
        }),
{
    assert(es.take(n + 1).drop_last() =~= es.take(n));
}

proof fn lemma_first_bad_extends(es: Seq<YpEntry>, n: int, k: int)
    requires
        0 <= n <= es.len(),
        first_bad(es.take(n)) == Some(k),
    ensures
        first_bad(es) == Some(k),
    decreases es.len() - n,
{
    if n < es.len() {
        assert(es.take(n + 1).drop_last() =~= es.take(n));
        lemma_first_bad_extends(es, n + 1, k);
    } else {
        assert(es.take(n) =~= es);
    }
}

proof fn lemma_first_repeat_extends(u: Seq<Seq<char>>, n: int, k: int)
    requires
        0 <= n <= u.len(),
        first_repeat(u.take(n)) == Some(k),
    ensures
        first_repeat(u) == Some(k),
    decreases u.len() - n,
{
    if n < u.len() {
        assert(u.take(n + 1).drop_last() =~= u.take(n));
        lemma_first_repeat_extends(u, n + 1, k);
    } else {
        assert(u.take(n) =~= u);
    }
}

/// Checks the settings of the dialog before they are used: each YP's URL and name are
/// trimmed (up to the first one refused) and must be an http(s) URL and a name; no
/// two YPs may have the same URL; the PeerCast address must read; then the address is
/// trimmed and the update interval raised to its least value.
#[verifier::spinoff_prover]
pub fn validate(yps: &mut Vec<YpEntry>, address: &mut String, interval_min: &mut u32) -> (r: Result<(), String>)
    ensures
        final(yps)@.len() == old(yps)@.len(),
        match first_bad(old(yps)@) {
            Some(k) => {
                &&& r is Err
                &&& r->Err_0@ == entry_error(old(yps)@[k])
                &&& forall|j: int| 0 <= j <= k ==> #[trigger] entry_trimmed(final(yps)@[j], old(yps)@[j])
                &&& forall|j: int| k < j < old(yps)@.len() ==> #[trigger] final(yps)@[j] == old(yps)@[j]
                &&& *final(address) == *old(address)
                &&& *final(interval_min) == *old(interval_min)
            },
            None => {
                &&& forall|j: int|
                    0 <= j < old(yps)@.len() ==> #[trigger] entry_trimmed(final(yps)@[j], old(yps)@[j])
                &&& match first_repeat(trimmed_urls(old(yps)@)) {
                    Some(j) => {
                        &&& r is Err
                        &&& r->Err_0@ == repeat_msg(trim(old(yps)@[j].url@))
                        &&& *final(address) == *old(address)
                        &&& *final(interval_min) == *old(interval_min)
                    },
                    None => match parse_address_spec(old(address)@) {
                        Err(e) => {
                            &&& r is Err
                            &&& r->Err_0@ == e
                            &&& *final(address) == *old(address)
                            &&& *final(interval_min) == *old(interval_min)
                        },
                        Ok(_) => {
                            &&& r is Ok
                            &&& final(address)@ == trim(old(address)@)
                            &&& *final(interval_min) == if *old(interval_min) < MIN_AUTO_INTERVAL_MIN {
                                MIN_AUTO_INTERVAL_MIN
                            } else {
                                *old(interval_min)
                            }
                        },
                    },
                }
            },
        },
{
    let ghost es = yps@;
    let mut i: usize = 0;
    assert(es.take(0) =~= Seq::<YpEntry>::empty());
    while i < yps.len()
        invariant
            i <= es.len(),
            yps@.len() == es.len(),
            es == old(yps)@,
            first_bad(es.take(i as int)) is None,
            forall|j: int| 0 <= j < i ==> #[trigger] entry_trimmed(yps@[j], es[j]),
            forall|j: int| i <= j < es.len() ==> #[trigger] yps@[j] == es[j],
            *address == *old(address),
            *interval_min == *old(interval_min),
        decreases es.len() - i,
    {
        let u = trimmed_string(&yps[i].url);
        let n = trimmed_string(&yps[i].name);
        yps[i].url = u;
        yps[i].name = n;
        proof {
            lemma_first_bad_prefix(es, i as int);
        }
        if !valid_yp_url(yps[i].url.as_str()) {
            let mut m = String::new();
            push_str(&mut m, "YP「");
            push_str(&mut m, yps[i].name.as_str());
            push_str(&mut m, "」の URL は http:// か https:// で始めてください");
            proof {
                assert(trim(trim(es[i as int].url@)) == trim(es[i as int].url@)) by {
                    crate::text::lemma_trim_idempotent(es[i as int].url@);
                }
                lemma_first_bad_extends(es, i + 1, i as int);
            }
            return Err(m);
        }
        if yps[i].name.as_str().is_empty() {
            let mut m = String::new();
            push_str(&mut m, "YP (");
            push_str(&mut m, yps[i].url.as_str());
            push_str(&mut m, ") の名前が空です");
            proof {
                crate::text::lemma_trim_idempotent(es[i as int].url@);
                lemma_first_bad_extends(es, i + 1, i as int);
            }
            return Err(m);
        }
        proof {
            crate::text::lemma_trim_idempotent(es[i as int].url@);
            assert(es.take(i + 1).drop_last() =~= es.take(i as int));
        }
        i += 1;
    }
    assert(es.take(es.len() as int) =~= es);
    let ghost tu = trimmed_urls(es);
    let mut j: usize = 0;
    assert(tu.take(0) =~= Seq::<Seq<char>>::empty());
    while j < yps.len()
        invariant
            j <= es.len(),
            yps@.len() == es.len(),
            tu == trimmed_urls(es),
            es == old(yps)@,
            first_bad(es) is None,
            forall|m: int| 0 <= m < es.len() ==> #[trigger] entry_trimmed(yps@[m], es[m]),
            first_repeat(tu.take(j as int)) is None,
            *address == *old(address),
            *interval_min == *old(interval_min),
        decreases es.len() - j,
    {
        let dup = has_url_before(yps, j);
        proof {
            assert(tu.take(j + 1).drop_last() =~= tu.take(j as int));
            assert(entry_trimmed(yps@[j as int], es[j as int]));
            assert(tu.take(j + 1).last() == yps@[j as int].url@);
            if dup {
                let m = choose|m: int| 0 <= m < j && #[trigger] yps@[m].url@ == yps@[j as int].url@;
                assert(entry_trimmed(yps@[m], es[m]));
                assert(tu.take(j as int)[m] == yps@[m].url@);
            } else {
                assert forall|m: int| 0 <= m < j implies tu.take(j as int)[m] != yps@[j as int].url@ by {
                    assert(entry_trimmed(yps@[m], es[m]));
                    assert(tu.take(j as int)[m] == yps@[m].url@);
                }
            }
        }
        if dup {
            let mut m = String::new();
            push_str(&mut m, "同じ URL の YP が 2 つあります: ");
            push_str(&mut m, yps[j].url.as_str());
            proof {
                lemma_first_repeat_extends(tu, j + 1, j as int);
            }
            return Err(m);
        }
        j += 1;
    }
    assert(tu.take(es.len() as int) =~= tu);
    match parse_address(address.as_str()) {
        Err(e) => {
            return Err(e);
        },
        Ok(_) => {},
    }
    let t = trimmed_string(address);
    *address = t;
    if *interval_min < MIN_AUTO_INTERVAL_MIN {
        *interval_min = MIN_AUTO_INTERVAL_MIN;
    }
    Ok(())
}


// ------------------------------------------------------------------ reading a settings file again

/// What reading a settings file gave (the value itself stays with the caller).
pub enum ReadResult {
    Missing,
    Parsed,
    Bad(String),
}

/// The notice after the file `name` could not be read (`e`), and was moved aside
/// under the name `Ok(..)`, or could not be moved (`Err(..)`).
pub open spec fn broken_notice_spec(name: Seq<char>, e: Seq<char>, moved: Result<Seq<char>, Seq<char>>) -> Seq<char> {
    match moved {
        Ok(b) => name + " を読めなかったので、"@ + b + " という名前で残しました ("@ + e + ")"@,
        Err(re) => name + " を読めません ("@ + e + ")。退避もできませんでした: "@ + re,
    }
}

/// The notice after the file `name` could not be read (`e`) and was moved aside, or not.
pub fn broken_notice(name: &str, e: &str, moved: &Result<String, String>) -> (r: String)
    ensures
        r@ == broken_notice_spec(
            name@,
            e@,
            match moved {
                Ok(b) => Ok(b@),
                Err(re) => Err(re@),
            },
        ),
{
    let mut m = String::new();
    push_str(&mut m, name);
    match moved {
        Ok(b) => {
            push_str(&mut m, " を読めなかったので、");
            push_str(&mut m, b.as_str());
            push_str(&mut m, " という名前で残しました (");
            push_str(&mut m, e);
            push_str(&mut m, ")");
        },
        Err(re) => {
            push_str(&mut m, " を読めません (");
            push_str(&mut m, e);
            push_str(&mut m, ")。退避もできませんでした: ");
            push_str(&mut m, re.as_str());
        },
    }
    m
}

/// After the file `name` itself gave nothing (it was missing, or broken when
/// `main_broken`): whether its backup `.bak` is used, and what to tell the user.
pub open spec fn backup_outcome_spec(name: Seq<char>, main_broken: bool, bak: ReadResult) -> (bool, Option<Seq<char>>) {
    match bak {
        ReadResult::Parsed => (
            true,
            Some(
                name + " "@ + (if main_broken {
                    "は"@
                } else {
                    "がなかったので"@
                }) + "、1 つ前に保存した控え ("@ + name + ".bak) から読みました"@,
            ),
        ),
        ReadResult::Missing => (
            false,
            if main_broken {
                Some(name + " は初期値にしました"@)
            } else {
                None
            },
        ),
        ReadResult::Bad(e) => (false, Some(name + ".bak も読めないので ("@ + e@ + ")、"@ + name + " は初期値にしました"@)),
    }
}

/// After the file `name` itself gave nothing (missing, or broken when `main_broken`):
/// `true` when its backup is to be used, and the notice to add, if any. A first
/// start, with neither file there, is quiet.
pub fn backup_outcome(name: &str, main_broken: bool, bak: &ReadResult) -> (r: (bool, Option<String>))
    ensures
        (r.0, match r.1 {
            Some(m) => Some(m@),
            None => None,
        }) == backup_outcome_spec(name@, main_broken, *bak),
{
    match bak {
        ReadResult::Parsed => {
            let mut m = String::new();
            push_str(&mut m, name);
            push_str(&mut m, " ");
            if main_broken {
                push_str(&mut m, "は");
            } else {
                push_str(&mut m, "がなかったので");
            }
            push_str(&mut m, "、1 つ前に保存した控え (");
            push_str(&mut m, name);
            push_str(&mut m, ".bak) から読みました");
            (true, Some(m))
        },
        ReadResult::Missing => {
            if main_broken {
                let mut m = String::new();
                push_str(&mut m, name);
                push_str(&mut m, " は初期値にしました");
                (false, Some(m))
            } else {
                (false, None)
            }
        },
        ReadResult::Bad(e) => {
            let mut m = String::new();
            push_str(&mut m, name);
            push_str(&mut m, ".bak も読めないので (");
            push_str(&mut m, e.as_str());
            push_str(&mut m, ")、");
            push_str(&mut m, name);
            push_str(&mut m, " は初期値にしました");
            (false, Some(m))
        },
    }
}


// ------------------------------------------------------------------ laws

/// A YP URL that is accepted is an http(s) URL as the channel directory reads URLs.
pub proof fn law_yp_url_is_http(url: Seq<char>)
    requires
        valid_yp_url_spec(url),
    ensures
        crate::chandir::is_http_url_spec(url),
{
    reveal_strlit("http://");
    reveal_strlit("https://");
    let ts = crate::text::trim_start(url);
    let t = trim(url);
    crate::text::lemma_trim_prefix(url);
    let lt = lower_seq(t);
    let ls = lower_seq(ts);
    if occurs_at(lt, 0, "http://"@) {
        assert(lt.subrange(0, 7) =~= ls.subrange(0, 7));
    } else {
        assert(occurs_at(lt, 0, "https://"@));
        assert(lt.subrange(0, 8) =~= ls.subrange(0, 8));
    }
}

proof fn lemma_no_bad_entry(es: Seq<YpEntry>)
    requires
        first_bad(es) is None,
    ensures
        forall|i: int| 0 <= i < es.len() ==> entry_ok(#[trigger] es[i]),
    decreases es.len(),
{
    if es.len() > 0 {
        let p = es.drop_last();
        lemma_no_bad_entry(p);
        assert forall|i: int| 0 <= i < es.len() implies entry_ok(#[trigger] es[i]) by {
            if i < p.len() {
                assert(es[i] == p[i]);
            }
        }
    }
}

proof fn lemma_no_repeat(u: Seq<Seq<char>>)
    requires
        first_repeat(u) is None,
    ensures
        forall|i: int, j: int| 0 <= i < j < u.len() ==> u[i] != u[j],
    decreases u.len(),
{
    if u.len() > 0 {
        let p = u.drop_last();
        lemma_no_repeat(p);
        assert forall|i: int, j: int| 0 <= i < j < u.len() implies u[i] != u[j] by {
            assert(u[i] == p[i]);
            if j < p.len() {
                assert(u[j] == p[j]);
            } else if u[i] == u[j] {
                assert(p.contains(u.last()));
            }
        }
    }
}

/// Settings that pass the check have YPs with http(s) URLs and names, and no two YPs
/// with the same URL.
pub proof fn law_accepted_yps_are_usable(es: Seq<YpEntry>)
    requires
        first_bad(es) is None,
        first_repeat(trimmed_urls(es)) is None,
    ensures
        forall|i: int| 0 <= i < es.len() ==> valid_yp_url_spec(trim((#[trigger] es[i]).url@)) && trim(es[i].name@).len() > 0,
        forall|i: int, j: int| 0 <= i < j < es.len() ==> trim(es[i].url@) != trim(es[j].url@),
{
    lemma_no_bad_entry(es);
    lemma_no_repeat(trimmed_urls(es));
    assert forall|i: int| 0 <= i < es.len() implies valid_yp_url_spec(trim((#[trigger] es[i]).url@)) && trim(
        es[i].name@,
    ).len() > 0 by {
        assert(entry_ok(es[i]));
    }
    assert forall|i: int, j: int| 0 <= i < j < es.len() implies trim(es[i].url@) != trim(es[j].url@) by {
        assert(trimmed_urls(es)[i] == trim(es[i].url@));
        assert(trimmed_urls(es)[j] == trim(es[j].url@));
    }
}


proof fn lemma_count_none(s: Seq<char>, c: char)
    requires
        !has_char(s, c),
    ensures
        count_char(s, c) == 0,
    decreases s.len(),
{
    if s.len() > 0 {
        assert(!has_char(s.drop_last(), c)) by {
            if has_char(s.drop_last(), c) {
                let i = choose|i: int| 0 <= i < s.drop_last().len() && s.drop_last()[i] == c;
                assert(s[i] == c);
            }
        }
        lemma_count_none(s.drop_last(), c);
        assert(s.last() == s[s.len() - 1]);
    }
}

proof fn lemma_count_concat(a: Seq<char>, b: Seq<char>, c: char)
    ensures
        count_char(a + b, c) == count_char(a, c) + count_char(b, c),
    decreases b.len(),
{
    if b.len() > 0 {
        lemma_count_concat(a, b.drop_last(), c);
        assert((a + b).drop_last() =~= a + b.drop_last());
        assert((a + b).last() == b.last());
    } else {
        assert(a + b =~= a);
    }
}

proof fn lemma_parse_dec(n: nat)
    requires
        0 < n <= 65535,
    ensures
        crate::text::parse_uint(dec_nat(n), 10, 65535) == Some(n),
{
    lemma_dec_digits(n);
    let d = dec_nat(n);
    assert(d[0] != '+');
    assert forall|i: int| 0 <= i < d.len() implies crate::text::valid_digit(#[trigger] d[i], 10) by {
        assert('0' <= d[i] <= '9');
    }
}

/// `http://` and then `t`, as the address parser reads it before splitting.
proof fn lemma_core_of_url(t: Seq<char>)
    requires
        t.len() > 0,
        !crate::text::is_ws(t.last()),
        t.last() != '/',
    ensures
        address_core("http://"@ + t) == t,
{
    reveal_strlit("http://");
    let u = "http://"@ + t;
    assert(u[0] == 'h');
    assert(u.last() == t.last());
    assert(crate::text::lead_ws(u) == 0);
    assert(crate::text::trail_ws(u) == 0);
    assert(crate::text::trim_start(u) =~= u);
    assert(trim(u) =~= u);
    assert(u.subrange(0, 7) =~= "http://"@);
    assert(u.skip(7) =~= t);
    assert(trail_slashes(t) == 0);
    assert(t.take(t.len() as int) =~= t);
}

/// How the host and the port of a base URL split apart again.
proof fn lemma_split_url_host(h: Seq<char>, d: Seq<char>)
    requires
        h.len() > 0,
        !has_char(h, '['),
        !has_char(h, ']'),
        !has_char(d, ':'),
    ensures
        split_host_port(url_host(h) + seq![':'] + d) == Some((h, Some(d))),
{
    let t = url_host(h) + seq![':'] + d;
    if has_char(h, ':') {
        assert(t[0] == '[');
        let rest = t.skip(1);
        assert(rest =~= h + seq![']'] + seq![':'] + d);
        assert(rest[h.len() as int] == ']');
        crate::text::lemma_index_of_char(rest, ']', Some(h.len() as int));
        assert(rest.skip(h.len() as int + 1) =~= seq![':'] + d);
        assert(rest.take(h.len() as int) =~= h);
        assert((seq![':'] + d).skip(1) =~= d);
    } else {
        assert(t =~= h + seq![':'] + d);
        assert(t[0] == h[0]);
        assert(h[0] != '[');
        lemma_count_none(h, ':');
        lemma_count_none(d, ':');
        lemma_count_concat(h + seq![':'], d, ':');
        lemma_count_concat(h, seq![':'], ':');
        let one: Seq<char> = seq![':'];
        assert(one.len() == 1 && one.last() == ':');
        assert(count_char(one.drop_last(), ':') == 0) by {
            assert(one.drop_last().len() == 0);
        }
        assert(count_char(one, ':') == 1);
        assert(t[h.len() as int] == ':');
        crate::text::lemma_index_of_char(t, ':', Some(h.len() as int));
        assert(t.take(h.len() as int) =~= h);
        assert(t.skip(h.len() as int + 1) =~= d);
    }
}

/// An address and its base URL name the same host and port: the base URL reads back
/// as the address did (for a host without brackets in it).
pub proof fn law_base_url_reads_back(a: Seq<char>, h: Seq<char>, p: u16)
    requires
        parse_address_spec(a) == Ok::<(Seq<char>, u16), Seq<char>>((h, p)),
        !has_char(h, '['),
        !has_char(h, ']'),
    ensures
        parse_address_spec(base_url_spec(a)) == Ok::<(Seq<char>, u16), Seq<char>>((h, p)),
{
    let d = dec_nat(p as nat);
    lemma_dec_digits(p as nat);
    assert(host_of(a) == h && port_of(a) == p);
    let t = url_host(h) + seq![':'] + d;
    assert(base_url_spec(a) == "http://"@ + t);
    assert(t.last() == d.last());
    assert('0' <= d[d.len() - 1] <= '9');
    lemma_core_of_url(t);
    assert(!bad_host(h));
    assert(!has_char(d, ':')) by {
        if has_char(d, ':') {
            let i = choose|i: int| 0 <= i < d.len() && d[i] == ':';
            assert('0' <= d[i] <= '9');
        }
    }
    lemma_split_url_host(h, d);
    lemma_parse_dec(p as nat);
}

} // verus!
