//! Reading a YP's `index.txt`: one channel per line, fields separated by `<>`.
use vstd::prelude::*;
use vstd::string::StringSliceAdditionalSpecFns;
use vstd::arithmetic::div_mod::{
    lemma_add_mod_noop,
    lemma_fundamental_div_mod,
    lemma_fundamental_div_mod_converse,
    lemma_mul_mod_noop_left,
};
use crate::text::{
    char_of_ascii, dec_nat, digit_value, digits_value, is_ws, lemma_dec_digits, lemma_index_of_char, lemma_lead_ws, split, split_ranges, eq_str, from_chars, index_of, is_hex_digit, parse_uint, parse_uint_chars, index_of_char, is_digit, last_index_of,
    last_index_of_char, lower_chars, lower_seq, occurs_at, push_char, push_str, skip_ws, slice_of,
    starts_with_str, sub_string, to_chars, trim_start, upper_chars, upper_seq,
};

verus! {

/// Number of `<>`-separated fields on a channel line.
pub const NUM_FIELDS: usize = 19;

/// The ID of information lines that announce something rather than a channel.
pub const ZERO_ID: &'static str = "00000000000000000000000000000000";

/// One channel of a YP's directory.
#[derive(Clone, Debug, PartialEq)]
pub struct Channel {
    pub name: String,
    pub id: String,
    pub tip: String,
    pub url: String,
    pub genre: String,
    pub desc: String,
    pub listeners: i32,
    pub relays: i32,
    pub bitrate: i32,
    pub content_type: String,
    pub track_artist: String,
    pub track_album: String,
    pub track_title: String,
    pub track_contact: String,
    pub encoded_name: String,
    pub uptime: String,
    pub status: String,
    pub comment: String,
    pub direct: i32,
    pub feed_url: String,
}

/// The contents of a [`Channel`], each text as a sequence of characters.
pub struct ChannelModel {
    pub name: Seq<char>,
    pub id: Seq<char>,
    pub tip: Seq<char>,
    pub url: Seq<char>,
    pub genre: Seq<char>,
    pub desc: Seq<char>,
    pub listeners: i32,
    pub relays: i32,
    pub bitrate: i32,
    pub content_type: Seq<char>,
    pub track_artist: Seq<char>,
    pub track_album: Seq<char>,
    pub track_title: Seq<char>,
    pub track_contact: Seq<char>,
    pub encoded_name: Seq<char>,
    pub uptime: Seq<char>,
    pub status: Seq<char>,
    pub comment: Seq<char>,
    pub direct: i32,
    pub feed_url: Seq<char>,
}

impl View for Channel {
    type V = ChannelModel;

    open spec fn view(&self) -> ChannelModel {
        ChannelModel {
            name: self.name@,
            id: self.id@,
            tip: self.tip@,
            url: self.url@,
            genre: self.genre@,
            desc: self.desc@,
            listeners: self.listeners,
            relays: self.relays,
            bitrate: self.bitrate,
            content_type: self.content_type@,
            track_artist: self.track_artist@,
            track_album: self.track_album@,
            track_title: self.track_title@,
            track_contact: self.track_contact@,
            encoded_name: self.encoded_name@,
            uptime: self.uptime@,
            status: self.status@,
            comment: self.comment@,
            direct: self.direct,
            feed_url: self.feed_url@,
        }
    }
}

impl Default for Channel {
    fn default() -> (c: Channel)
        ensures
            c@.name.len() == 0 && c@.id.len() == 0 && c@.tip.len() == 0 && c@.url.len() == 0,
            c@.genre.len() == 0 && c@.desc.len() == 0 && c@.content_type.len() == 0,
            c@.track_artist.len() == 0 && c@.track_album.len() == 0 && c@.track_title.len() == 0,
            c@.track_contact.len() == 0 && c@.encoded_name.len() == 0 && c@.uptime.len() == 0,
            c@.status.len() == 0 && c@.comment.len() == 0 && c@.feed_url.len() == 0,
            c.listeners == 0 && c.relays == 0 && c.bitrate == 0 && c.direct == 0,
    {
        Channel {
            name: String::new(),
            id: String::new(),
            tip: String::new(),
            url: String::new(),
            genre: String::new(),
            desc: String::new(),
            listeners: 0,
            relays: 0,
            bitrate: 0,
            content_type: String::new(),
            track_artist: String::new(),
            track_album: String::new(),
            track_title: String::new(),
            track_contact: String::new(),
            encoded_name: String::new(),
            uptime: String::new(),
            status: String::new(),
            comment: String::new(),
            direct: 0,
            feed_url: String::new(),
        }
    }
}

impl Channel {
    /// A copy of the channel, field by field.
    pub(crate) fn copy(&self) -> (r: Channel)
        ensures
            r@ == self@,
    {
        Channel {
            name: self.name.clone(),
            id: self.id.clone(),
            tip: self.tip.clone(),
            url: self.url.clone(),
            genre: self.genre.clone(),
            desc: self.desc.clone(),
            listeners: self.listeners,
            relays: self.relays,
            bitrate: self.bitrate,
            content_type: self.content_type.clone(),
            track_artist: self.track_artist.clone(),
            track_album: self.track_album.clone(),
            track_title: self.track_title.clone(),
            track_contact: self.track_contact.clone(),
            encoded_name: self.encoded_name.clone(),
            uptime: self.uptime.clone(),
            status: self.status.clone(),
            comment: self.comment.clone(),
            direct: self.direct,
            feed_url: self.feed_url.clone(),
        }
    }
}

// ------------------------------------------------------------------ numbers

/// Number of leading ASCII digits.
pub open spec fn lead_digits(s: Seq<char>) -> nat
    decreases s.len(),
{
    if s.len() > 0 && is_digit(s[0]) {
        1 + lead_digits(s.drop_first())
    } else {
        0
    }
}

proof fn lemma_lead_digits(s: Seq<char>, i: int)
    requires
        0 <= i <= s.len(),
        forall|j: int| 0 <= j < i ==> is_digit(#[trigger] s[j]),
        i == s.len() || !is_digit(s[i]),
    ensures
        lead_digits(s) == i,
    decreases i,
{
    if i > 0 {
        lemma_lead_digits(s.drop_first(), i - 1);
    }
}

/// The `i32` that two's-complement arithmetic leaves of `x`.
pub open spec fn wrap_i32(x: int) -> i32 {
    let m = x % 0x1_0000_0000;
    if m >= 0x8000_0000 {
        (m - 0x1_0000_0000) as i32
    } else {
        m as i32
    }
}

/// `x` clamped to the range of `i32`.
pub open spec fn sat_i32(x: int) -> i32 {
    if x > i32::MAX {
        i32::MAX
    } else if x < i32::MIN {
        i32::MIN
    } else {
        x as i32
    }
}

/// C's `atoi`: leading white space, an optional sign, then the leading digits, with
/// the value wrapping around like `i32` arithmetic; 0 when there are no digits.
pub open spec fn atoi_spec(s: Seq<char>) -> i32 {
    let t = trim_start(s);
    let neg = t.len() > 0 && t[0] == '-';
    let d = if t.len() > 0 && (t[0] == '-' || t[0] == '+') {
        t.skip(1)
    } else {
        t
    };
    let v = digits_value(d.take(lead_digits(d) as int), 10) as int;
    wrap_i32(
        if neg {
            -v
        } else {
            v
        },
    )
}

proof fn lemma_mod_step(x: int, d: int)
    requires
        x >= 0,
        0 <= d < 10,
    ensures
        (x * 10 + d) % 0x1_0000_0000 == ((x % 0x1_0000_0000) * 10 + d) % 0x1_0000_0000,
{
    let m: int = 0x1_0000_0000;
    lemma_add_mod_noop(x * 10, d, m);
    lemma_add_mod_noop((x % m) * 10, d, m);
    lemma_mul_mod_noop_left(x, 10, m);
}

proof fn lemma_neg_mod(v: int)
    requires
        v >= 0,
    ensures
        (-v) % 0x1_0000_0000 == if v % 0x1_0000_0000 == 0 {
            0
        } else {
            0x1_0000_0000 - v % 0x1_0000_0000
        },
{
    let m: int = 0x1_0000_0000;
    lemma_fundamental_div_mod(v, m);
    let q = v / m;
    let a = v % m;
    if a == 0 {
        assert(-v == (-q) * m + 0) by (nonlinear_arith)
            requires
                v == m * q + a,
                a == 0,
        ;
        lemma_fundamental_div_mod_converse(-v, m, -q, 0);
    } else {
        assert(-v == (-q - 1) * m + (m - a)) by (nonlinear_arith)
            requires
                v == m * q + a,
        ;
        lemma_fundamental_div_mod_converse(-v, m, -q - 1, m - a);
    }
}

/// C's `atoi`: reads the leading number and ignores the rest; 0 if there is none.
pub fn atoi(s: &str) -> (r: i32)
    ensures
        r == atoi_spec(s@),
{
    let v = to_chars(s);
    let a = skip_ws(&v, 0, v.len());
    assert(v@.subrange(0, v@.len() as int) =~= v@);
    let ghost t = trim_start(s@);
    assert(t =~= v@.skip(a as int));
    let mut neg = false;
    let mut i = a;
    if i < v.len() && v[i] == '-' {
        neg = true;
        i += 1;
    } else if i < v.len() && v[i] == '+' {
        i += 1;
    }
    let ghost d = if t.len() > 0 && (t[0] == '-' || t[0] == '+') {
        t.skip(1)
    } else {
        t
    };
    assert(d =~= v@.skip(i as int));
    let start = i;
    let mut acc: u64 = 0;
    assert(d.take(0) =~= Seq::<char>::empty());
    while i < v.len() && '0' <= v[i] && v[i] <= '9'
        invariant
            start <= i <= v.len(),
            d == v@.skip(start as int),
            acc < 0x1_0000_0000,
            acc == digits_value(d.take(i - start), 10) % 0x1_0000_0000,
            forall|j: int| 0 <= j < i - start ==> is_digit(#[trigger] d[j]),
        decreases v.len() - i,
    {
        let dv: u64 = (v[i] as u32 - '0' as u32) as u64;
        proof {
            let k = i - start;
            assert(d.take(k + 1).drop_last() =~= d.take(k));
            assert(d[k] == v@[i as int]);
            lemma_mod_step(digits_value(d.take(k), 10) as int, dv as int);
        }
        acc = (acc * 10 + dv) % 0x1_0000_0000;
        i += 1;
    }
    proof {
        lemma_lead_digits(d, i - start);
    }
    let m: u64 = if neg {
        if acc == 0 {
            0
        } else {
            0x1_0000_0000 - acc
        }
    } else {
        acc
    };
    proof {
        let val = digits_value(d.take(i - start), 10) as int;
        if neg {
            lemma_neg_mod(val);
        }
        assert(m as int == (if neg {
            -val
        } else {
            val
        }) % 0x1_0000_0000);
    }
    if m >= 0x8000_0000 {
        (m as i64 - 0x1_0000_0000) as i32
    } else {
        m as i32
    }
}

/// A number written after white space, with or without a sign, and followed by
/// anything that does not start with a digit, reads back as that number (negated
/// after `-`), for every number up to `i32::MAX`.
pub proof fn law_atoi_reads_number(w: Seq<char>, n: nat, t: Seq<char>)
    requires
        forall|i: int| 0 <= i < w.len() ==> is_ws(#[trigger] w[i]),
        n <= i32::MAX,
        t.len() == 0 || !is_digit(t[0]),
    ensures
        atoi_spec(w + dec_nat(n) + t) == n as i32,
        atoi_spec(w + "+"@ + dec_nat(n) + t) == n as i32,
        atoi_spec(w + "-"@ + dec_nat(n) + t) == (-(n as int)) as i32,
{
    lemma_dec_digits(n);
    let d = dec_nat(n);
    let x = d + t;
    lemma_lead_digits(x, d.len() as int);
    assert(x.take(d.len() as int) =~= d);
    assert(wrap_i32(n as int) == n as i32);
    lemma_neg_mod(n as int);
    assert(wrap_i32(-(n as int)) == (-(n as int)) as i32);
    let s0 = w + d + t;
    assert(s0 =~= w + x);
    lemma_lead_ws(s0, w.len() as int);
    assert(trim_start(s0) =~= x);
    reveal_strlit("+");
    reveal_strlit("-");
    assert("+"@ =~= seq!['+']);
    assert("-"@ =~= seq!['-']);
    let plus = seq!['+'] + x;
    let s1 = w + "+"@ + d + t;
    assert(s1 =~= w + plus);
    lemma_lead_ws(s1, w.len() as int);
    assert(trim_start(s1) =~= plus);
    assert(plus.skip(1) =~= x);
    let minus = seq!['-'] + x;
    let s2 = w + "-"@ + d + t;
    assert(s2 =~= w + minus);
    lemma_lead_ws(s2, w.len() as int);
    assert(trim_start(s2) =~= minus);
    assert(minus.skip(1) =~= x);
}

fn sat_of(x: i64) -> (r: i32)
    ensures
        r == sat_i32(x as int),
{
    if x > i32::MAX as i64 {
        i32::MAX
    } else if x < i32::MIN as i64 {
        i32::MIN
    } else {
        x as i32
    }
}

/// Broadcast time in minutes: `h:mm` gives `h * 60 + mm`, a bare number counts hours;
/// arithmetic saturates.
pub open spec fn uptime_minutes_spec(u: Seq<char>) -> i32 {
    match index_of_char(u, ':') {
        Some(i) => sat_i32(
            sat_i32(atoi_spec(u.take(i)) * 60) + atoi_spec(u.skip(i + 1)),
        ),
        None => sat_i32(atoi_spec(u) * 60),
    }
}

// ------------------------------------------------------------------ URLs

/// Starts with `http://` or `https://`.
pub open spec fn has_http_prefix(l: Seq<char>) -> bool {
    occurs_at(l, 0, "http://"@) || occurs_at(l, 0, "https://"@)
}

/// An http(s) URL, ignoring leading white space and the case of the scheme.
pub open spec fn is_http_url_spec(s: Seq<char>) -> bool {
    has_http_prefix(lower_seq(trim_start(s)))
}

fn http_prefix(v: &[char]) -> (r: bool)
    ensures
        r == has_http_prefix(v@),
{
    starts_with_str(v, "http://") || starts_with_str(v, "https://")
}

/// Whether `s` is an http or https URL (scheme in any case, leading blanks ignored).
pub fn is_http_url(s: &str) -> (r: bool)
    ensures
        r == is_http_url_spec(s@),
{
    let v = to_chars(s);
    let a = skip_ws(&v, 0, v.len());
    assert(v@.subrange(0, v@.len() as int) =~= v@);
    let t = slice_of(&v, a, v.len());
    assert(t@ =~= trim_start(s@));
    let l = lower_chars(&t);
    http_prefix(&l)
}

pub open spec fn http_or_empty(s: Seq<char>) -> Seq<char> {
    if is_http_url_spec(s) {
        s
    } else {
        seq![]
    }
}

/// `s` itself if it is an http(s) URL, else the empty string.
pub fn http_url_or_empty(s: &str) -> (r: String)
    ensures
        r@ == http_or_empty(s@),
{
    if is_http_url(s) {
        s.to_string()
    } else {
        String::new()
    }
}

/// The page `file` next to `feed_url` (an http(s) URL), for the channel `encoded_name`.
pub open spec fn side_url_spec(feed: Seq<char>, file: Seq<char>, enc: Seq<char>) -> Seq<char> {
    if enc.len() == 0 {
        seq![]
    } else {
        match last_index_of_char(feed, '/') {
            Some(i) => if is_http_url_spec(feed) {
                feed.take(i) + seq!['/'] + file + "?cn="@ + enc
            } else {
                seq![]
            },
            None => seq![],
        }
    }
}

/// `feed_url` up to its last `/`, then `/<file>?cn=<encoded_name>`; empty when the
/// name is empty or `feed_url` is not an http(s) URL with a `/`.
pub fn side_url(feed_url: &str, file: &str, encoded_name: &str) -> (r: String)
    ensures
        r@ == side_url_spec(feed_url@, file@, encoded_name@),
{
    if encoded_name.is_empty() {
        return String::new();
    }
    let v = to_chars(feed_url);
    assert(v@.subrange(0, v@.len() as int) =~= v@);
    match last_index_of(&v, 0, v.len(), '/') {
        Some(i) => {
            if is_http_url(feed_url) {
                let mut s = sub_string(&v, 0, i);
                push_char(&mut s, '/');
                push_str(&mut s, file);
                push_str(&mut s, "?cn=");
                push_str(&mut s, encoded_name);
                assert(v@.subrange(0, i as int) =~= feed_url@.take(i as int));
                s
            } else {
                String::new()
            }
        },
        None => String::new(),
    }
}

/// Characters that stay as they are in a query value.
pub open spec fn unreserved(b: u8) -> bool {
    ||| (65 <= b && b <= 90)
    ||| (97 <= b && b <= 122)
    ||| (48 <= b && b <= 57)
    ||| b == 45
    ||| b == 95
    ||| b == 46
    ||| b == 126
    ||| b == 58
    ||| b == 91
    ||| b == 93
}

/// Upper-case hexadecimal digit of `d` (below 16).
pub open spec fn hex_upper(d: u8) -> char {
    if d < 10 {
        (48 + d) as char
    } else {
        (55 + d) as char
    }
}

pub open spec fn encode_byte(b: u8) -> Seq<char> {
    if unreserved(b) {
        seq![b as char]
    } else {
        seq!['%', hex_upper(b / 16), hex_upper(b % 16)]
    }
}

/// Percent-encoding of bytes: unreserved bytes stay, others become `%XX`.
pub open spec fn url_encode_spec(b: Seq<u8>) -> Seq<char>
    decreases b.len(),
{
    if b.len() == 0 {
        seq![]
    } else {
        url_encode_spec(b.drop_last()) + encode_byte(b.last())
    }
}

/// Text made of unreserved characters only is left as it is by the encoding.
pub proof fn law_url_encode_keeps_unreserved(b: Seq<u8>)
    requires
        forall|i: int| 0 <= i < b.len() ==> unreserved(#[trigger] b[i]),
    ensures
        url_encode_spec(b) == b.map_values(|x: u8| x as char),
    decreases b.len(),
{
    if b.len() > 0 {
        let p = b.drop_last();
        assert forall|i: int| 0 <= i < p.len() implies unreserved(#[trigger] p[i]) by {
            assert(p[i] == b[i]);
        }
        law_url_encode_keeps_unreserved(p);
        assert(unreserved(b[b.len() - 1]));
        assert(b.map_values(|x: u8| x as char) =~= p.map_values(|x: u8| x as char).push(b.last() as char));
    }
}

/// A character that encoded text may hold: an unreserved character or `%`.
pub open spec fn url_char(c: char) -> bool {
    (c as u32) < 128 && (unreserved(c as u32 as u8) || c == '%')
}

/// An upper-case hexadecimal digit.
pub open spec fn upper_hex(c: char) -> bool {
    ('0' <= c && c <= '9') || ('A' <= c && c <= 'F')
}

/// Percent-decoding: `%` and two hexadecimal digits give that byte; any other
/// character gives its code (for the ASCII text that the encoding writes).
pub open spec fn percent_decode_spec(s: Seq<char>) -> Seq<u8>
    decreases s.len(),
{
    if s.len() == 0 {
        seq![]
    } else if s[0] == '%' && s.len() >= 3 && is_hex_digit(s[1]) && is_hex_digit(s[2]) {
        seq![(digit_value(s[1]) * 16 + digit_value(s[2])) as u8] + percent_decode_spec(s.skip(3))
    } else {
        seq![s[0] as u32 as u8] + percent_decode_spec(s.skip(1))
    }
}

/// Encoding bytes one after the other is encoding them together.
pub proof fn lemma_url_encode_concat(a: Seq<u8>, b: Seq<u8>)
    ensures
        url_encode_spec(a + b) == url_encode_spec(a) + url_encode_spec(b),
    decreases b.len(),
{
    if b.len() > 0 {
        lemma_url_encode_concat(a, b.drop_last());
        assert((a + b).drop_last() =~= a + b.drop_last());
        assert((a + b).last() == b.last());
    } else {
        assert(a + b =~= a);
    }
}

proof fn lemma_hex_upper(d: u8)
    requires
        d < 16,
    ensures
        upper_hex(hex_upper(d)),
        is_hex_digit(hex_upper(d)),
        digit_value(hex_upper(d)) == d,
{
}

/// The first byte's encoding, then the rest's.
proof fn lemma_url_encode_first(b: Seq<u8>)
    requires
        b.len() > 0,
    ensures
        url_encode_spec(b) == encode_byte(b[0]) + url_encode_spec(b.skip(1)),
{
    lemma_url_encode_concat(seq![b[0]], b.skip(1));
    assert(seq![b[0]] + b.skip(1) =~= b);
    let one = seq![b[0]];
    assert(one.drop_last() =~= Seq::<u8>::empty());
    assert(one.last() == b[0]);
    assert(url_encode_spec(one.drop_last()) =~= Seq::<char>::empty());
    assert(url_encode_spec(one) =~= encode_byte(b[0]));
}

/// The encoding is made of unreserved characters and `%`, and each `%` is followed by
/// two upper-case hexadecimal digits.
pub proof fn law_url_encode_is_well_formed(b: Seq<u8>)
    ensures
        forall|i: int| 0 <= i < url_encode_spec(b).len() ==> url_char(#[trigger] url_encode_spec(b)[i]),
        forall|i: int|
            0 <= i < url_encode_spec(b).len() && #[trigger] url_encode_spec(b)[i] == '%' ==> {
                &&& i + 2 < url_encode_spec(b).len()
                &&& upper_hex(url_encode_spec(b)[i + 1])
                &&& upper_hex(url_encode_spec(b)[i + 2])
            },
    decreases b.len(),
{
    if b.len() > 0 {
        let x = b.last();
        law_url_encode_is_well_formed(b.drop_last());
        let p = url_encode_spec(b.drop_last());
        let e = encode_byte(x);
        let r = url_encode_spec(b);
        assert(r == p + e);
        if !unreserved(x) {
            lemma_hex_upper(x / 16);
            lemma_hex_upper(x % 16);
        }
        assert forall|i: int| 0 <= i < r.len() implies url_char(#[trigger] r[i]) by {
            if i < p.len() {
                assert(r[i] == p[i]);
            } else {
                assert(r[i] == e[i - p.len()]);
                if unreserved(x) {
                    assert((x as char) as u32 == x as u32);
                }
            }
        }
        assert forall|i: int| 0 <= i < r.len() && #[trigger] r[i] == '%' implies {
            &&& i + 2 < r.len()
            &&& upper_hex(r[i + 1])
            &&& upper_hex(r[i + 2])
        } by {
            if i < p.len() {
                assert(r[i] == p[i]);
                assert(r[i + 1] == p[i + 1]);
                assert(r[i + 2] == p[i + 2]);
            } else {
                if unreserved(x) {
                    assert((x as char) as u32 == x as u32);
                    assert(r[i] == x as char);
                } else {
                    assert(i == p.len());
                }
            }
        }
    }
}

/// Decoding the encoding gives the bytes back.
pub proof fn law_url_encode_decodes(b: Seq<u8>)
    ensures
        percent_decode_spec(url_encode_spec(b)) == b,
    decreases b.len(),
{
    if b.len() > 0 {
        let x = b[0];
        let rest = b.skip(1);
        lemma_url_encode_first(b);
        law_url_encode_decodes(rest);
        let r = url_encode_spec(b);
        let e = encode_byte(x);
        if unreserved(x) {
            assert((x as char) as u32 == x as u32);
            assert(r[0] == x as char);
            assert(r.skip(1) =~= url_encode_spec(rest));
        } else {
            lemma_hex_upper(x / 16);
            lemma_hex_upper(x % 16);
            assert(r[0] == '%');
            assert(r[1] == hex_upper(x / 16));
            assert(r[2] == hex_upper(x % 16));
            assert(r.skip(3) =~= url_encode_spec(rest));
            assert((x / 16) * 16 + x % 16 == x);
        }
        assert(seq![x] + rest =~= b);
    } else {
        assert(url_encode_spec(b) =~= Seq::<char>::empty());
        assert(b =~= Seq::<u8>::empty());
    }
}

/// The encoding is at least as long as the bytes, and longer when one byte is not
/// unreserved.
proof fn lemma_url_encode_len(b: Seq<u8>)
    ensures
        url_encode_spec(b).len() >= b.len(),
        (exists|i: int| 0 <= i < b.len() && !unreserved(#[trigger] b[i])) ==> url_encode_spec(b).len() > b.len(),
    decreases b.len(),
{
    if b.len() > 0 {
        let p = b.drop_last();
        lemma_url_encode_len(p);
        if exists|i: int| 0 <= i < b.len() && !unreserved(#[trigger] b[i]) {
            let i = choose|i: int| 0 <= i < b.len() && !unreserved(#[trigger] b[i]);
            if i < p.len() {
                assert(p[i] == b[i]);
            }
        }
    }
}

/// The encoding gives the text back unchanged exactly when every byte is unreserved.
pub proof fn law_url_encode_unchanged(b: Seq<u8>)
    ensures
        url_encode_spec(b) == b.map_values(|x: u8| x as char) <==> forall|i: int|
            0 <= i < b.len() ==> unreserved(#[trigger] b[i]),
{
    lemma_url_encode_len(b);
    if forall|i: int| 0 <= i < b.len() ==> unreserved(#[trigger] b[i]) {
        law_url_encode_keeps_unreserved(b);
    } else {
        assert(url_encode_spec(b).len() != b.map_values(|x: u8| x as char).len());
    }
}

proof fn lemma_encode_utf8_len(s: Seq<char>)
    ensures
        vstd::utf8::encode_utf8(s).len() >= s.len(),
    decreases s.len(),
{
    if s.len() > 0 {
        lemma_encode_utf8_len(s.drop_first());
    }
}

/// Text whose UTF-8 bytes are all unreserved is ASCII, and the encoding gives it back.
proof fn lemma_unreserved_text_kept(s: Seq<char>)
    requires
        forall|i: int|
            0 <= i < vstd::utf8::encode_utf8(s).len() ==> unreserved(#[trigger] vstd::utf8::encode_utf8(s)[i]),
    ensures
        url_encode_spec(vstd::utf8::encode_utf8(s)) == s,
    decreases s.len(),
{
    let b = vstd::utf8::encode_utf8(s);
    if s.len() == 0 {
        assert(b =~= Seq::<u8>::empty());
        assert(url_encode_spec(b) =~= s);
    } else {
        let c = s[0];
        let u = c as u32;
        let e = vstd::utf8::encode_scalar(u);
        let t = s.drop_first();
        let rest = vstd::utf8::encode_utf8(t);
        assert(b == e + rest);
        assert(b[0] == e[0]);
        assert(unreserved(b[0]));
        if !vstd::utf8::has_width_1_encoding(u) {
            let y2: u8 = ((u >> 6) & 0x1F) as u8;
            let y3: u8 = ((u >> 12) & 0x0F) as u8;
            let y4: u8 = ((u >> 18) & 0x7) as u8;
            assert(0xC0u8 | y2 >= 0xC0u8) by (bit_vector);
            assert(0xE0u8 | y3 >= 0xE0u8) by (bit_vector);
            assert(0xF0u8 | y4 >= 0xF0u8) by (bit_vector);
            assert(e[0] >= 0xC0u8);
            assert(!unreserved(e[0]));
        }
        assert(u & 0x7F == u) by (bit_vector)
            requires
                u <= 0x7F,
        ;
        let b0 = e[0];
        assert(b0 as u32 == u);
        vstd::utf8::char_u32_cast(c, u);
        assert(b0 as char == c);
        assert forall|i: int| 0 <= i < rest.len() implies unreserved(#[trigger] rest[i]) by {
            assert(b[i + 1] == rest[i]);
        }
        lemma_unreserved_text_kept(t);
        lemma_url_encode_concat(e, rest);
        assert(e.drop_last() =~= Seq::<u8>::empty());
        assert(url_encode_spec(e.drop_last()) =~= Seq::<char>::empty());
        assert(url_encode_spec(e) =~= seq![c]);
        assert(seq![c] + t =~= s);
    }
}

/// Text is left unchanged by the encoding exactly when each of its UTF-8 bytes is
/// unreserved.
pub proof fn law_url_encode_text_unchanged(s: Seq<char>)
    ensures
        url_encode_spec(vstd::utf8::encode_utf8(s)) == s <==> forall|i: int|
            0 <= i < vstd::utf8::encode_utf8(s).len() ==> unreserved(#[trigger] vstd::utf8::encode_utf8(s)[i]),
{
    let b = vstd::utf8::encode_utf8(s);
    lemma_url_encode_len(b);
    lemma_encode_utf8_len(s);
    if forall|i: int| 0 <= i < b.len() ==> unreserved(#[trigger] b[i]) {
        lemma_unreserved_text_kept(s);
    } else {
        assert(url_encode_spec(b).len() > s.len());
    }
}

fn hex_digit(d: u8) -> (c: char)
    requires
        d < 16,
    ensures
        c == hex_upper(d),
{
    if d < 10 {
        char_of_ascii((48 + d) as u32)
    } else {
        char_of_ascii((55 + d) as u32)
    }
}

fn unreserved_byte(b: u8) -> (r: bool)
    ensures
        r == unreserved(b),
{
    (65 <= b && b <= 90) || (97 <= b && b <= 122) || (48 <= b && b <= 57) || b == 45 || b == 95
        || b == 46 || b == 126 || b == 58 || b == 91 || b == 93
}

/// Percent-encodes the UTF-8 bytes of `s` for use in a URL query.
pub fn url_encode(s: &str) -> (r: String)
    ensures
        r@ == url_encode_spec(s.spec_bytes()),
{
    let b = s.as_bytes();
    let mut out = String::new();
    let mut i: usize = 0;
    while i < b.len()
        invariant
            i <= b@.len(),
            b@ == s.spec_bytes(),
            out@ == url_encode_spec(b@.take(i as int)),
        decreases b.len() - i,
    {
        let x = b[i];
        assert(b@.take(i + 1).drop_last() =~= b@.take(i as int));
        if unreserved_byte(x) {
            push_char(&mut out, char_of_ascii(x as u32));
        } else {
            push_char(&mut out, '%');
            push_char(&mut out, hex_digit(x / 16));
            push_char(&mut out, hex_digit(x % 16));
        }
        assert(out@ =~= url_encode_spec(b@.take(i + 1)));
        i += 1;
    }
    assert(b@.take(b@.len() as int) =~= b@);
    out
}

// ------------------------------------------------------------------ content types

/// Extension of a stream URL for a content type (already in upper case).
pub open spec fn type_ext_spec(u: Seq<char>) -> Seq<char> {
    if u == "FLV"@ {
        ".flv"@
    } else if u == "MKV"@ {
        ".mkv"@
    } else if u == "WEBM"@ {
        ".webm"@
    } else if u == "MP4"@ {
        ".mp4"@
    } else if u == "MP3"@ {
        ".mp3"@
    } else if u == "OGG"@ || u == "OGM"@ {
        ".ogg"@
    } else if u == "MOV"@ {
        ".mov"@
    } else if u == "WMV"@ {
        ".wmv"@
    } else if u == "WMA"@ {
        ".wma"@
    } else if u == "ASX"@ {
        ".asx"@
    } else {
        ""@
    }
}

/// A content type (in upper case) whose stream URL extension is its own name.
pub open spec fn self_named_type(u: Seq<char>) -> bool {
    u == "FLV"@
    || u == "MKV"@
    || u == "WEBM"@
    || u == "MP4"@
    || u == "MP3"@
    || u == "OGG"@
    || u == "MOV"@
    || u == "WMV"@
    || u == "WMA"@
    || u == "ASX"@
}

/// The extension of a known content type, written in any case, is a dot and the type
/// in lower case (OGM streams get `.ogg`); an unknown type gets none.
pub proof fn law_type_ext_names_the_type(t: Seq<char>)
    ensures
        self_named_type(upper_seq(t)) ==> type_ext_spec(upper_seq(t)) == seq!['.'] + lower_seq(upper_seq(t)),
        upper_seq(t) == "OGM"@ ==> type_ext_spec(upper_seq(t)) == ".ogg"@,
        !self_named_type(upper_seq(t)) && upper_seq(t) != "OGM"@ ==> type_ext_spec(upper_seq(t)).len() == 0,
{
    reveal_strlit("FLV");
    reveal_strlit(".flv");
    reveal_strlit("MKV");
    reveal_strlit(".mkv");
    reveal_strlit("WEBM");
    reveal_strlit(".webm");
    reveal_strlit("MP4");
    reveal_strlit(".mp4");
    reveal_strlit("MP3");
    reveal_strlit(".mp3");
    reveal_strlit("OGG");
    reveal_strlit(".ogg");
    reveal_strlit("MOV");
    reveal_strlit(".mov");
    reveal_strlit("WMV");
    reveal_strlit(".wmv");
    reveal_strlit("WMA");
    reveal_strlit(".wma");
    reveal_strlit("ASX");
    reveal_strlit(".asx");
    reveal_strlit("OGM");
    reveal_strlit("");
    let u = upper_seq(t);
    if u == "FLV"@ {
        assert(seq!['.'] + lower_seq(u) =~= ".flv"@);
    }
    if u == "MKV"@ {
        assert(seq!['.'] + lower_seq(u) =~= ".mkv"@);
    }
    if u == "WEBM"@ {
        assert(seq!['.'] + lower_seq(u) =~= ".webm"@);
    }
    if u == "MP4"@ {
        assert(seq!['.'] + lower_seq(u) =~= ".mp4"@);
    }
    if u == "MP3"@ {
        assert(seq!['.'] + lower_seq(u) =~= ".mp3"@);
    }
    if u == "OGG"@ {
        assert(seq!['.'] + lower_seq(u) =~= ".ogg"@);
    }
    if u == "MOV"@ {
        assert(seq!['.'] + lower_seq(u) =~= ".mov"@);
    }
    if u == "WMV"@ {
        assert(seq!['.'] + lower_seq(u) =~= ".wmv"@);
    }
    if u == "WMA"@ {
        assert(seq!['.'] + lower_seq(u) =~= ".wma"@);
    }
    if u == "ASX"@ {
        assert(seq!['.'] + lower_seq(u) =~= ".asx"@);
    }
}

/// The extension that a stream URL gets for `content_type` (any case); empty if unknown.
pub fn type_ext(content_type: &str) -> (r: &'static str)
    ensures
        r@ == type_ext_spec(upper_seq(content_type@)),
{
    let v = to_chars(content_type);
    let u = upper_chars(&v);
    if eq_str(&u, "FLV") {
        ".flv"
    } else if eq_str(&u, "MKV") {
        ".mkv"
    } else if eq_str(&u, "WEBM") {
        ".webm"
    } else if eq_str(&u, "MP4") {
        ".mp4"
    } else if eq_str(&u, "MP3") {
        ".mp3"
    } else if eq_str(&u, "OGG") || eq_str(&u, "OGM") {
        ".ogg"
    } else if eq_str(&u, "MOV") {
        ".mov"
    } else if eq_str(&u, "WMV") {
        ".wmv"
    } else if eq_str(&u, "WMA") {
        ".wma"
    } else if eq_str(&u, "ASX") {
        ".asx"
    } else {
        ""
    }
}


// ------------------------------------------------------------------ channel texts

/// `parts` without the empty ones, joined by `sep`.
pub open spec fn join_nonempty(parts: Seq<Seq<char>>, sep: Seq<char>) -> Seq<char>
    decreases parts.len(),
{
    if parts.len() == 0 {
        seq![]
    } else {
        let j = join_nonempty(parts.drop_last(), sep);
        let p = parts.last();
        if p.len() == 0 {
            j
        } else if j.len() == 0 {
            p
        } else {
            j + sep + p
        }
    }
}

/// "[genre - desc]", "[genre]" or "[desc]".
pub open spec fn summary_head(g: Seq<char>, d: Seq<char>) -> Seq<char> {
    if g.len() > 0 && d.len() > 0 {
        "["@ + g + " - "@ + d + "]"@
    } else if g.len() > 0 {
        "["@ + g + "]"@
    } else if d.len() > 0 {
        "["@ + d + "]"@
    } else {
        seq![]
    }
}

/// "[genre - desc] 「comment」", leaving out what is empty.
pub open spec fn summary_spec(g: Seq<char>, d: Seq<char>, c: Seq<char>) -> Seq<char> {
    let h = summary_head(g, d);
    if c.len() == 0 {
        h
    } else {
        h + (if h.len() == 0 {
            seq![]
        } else {
            seq![' ']
        }) + "「"@ + c + "」"@
    }
}

pub open spec fn is_info_spec(c: ChannelModel) -> bool {
    c.id == ZERO_ID@
}

/// What tells channels apart: the ID, or the name for information lines.
pub open spec fn key_spec(c: ChannelModel) -> Seq<char> {
    if is_info_spec(c) {
        "name:"@ + c.name
    } else {
        c.id
    }
}

impl Channel {
    /// A line whose ID is all zeros (a notice from the YP); it cannot be played.
    pub fn is_info(&self) -> (r: bool)
        ensures
            r == is_info_spec(self@),
    {
        let v = to_chars(self.id.as_str());
        eq_str(&v, ZERO_ID)
    }

    /// Broadcast time in minutes; 0 when it cannot be read.
    pub fn uptime_minutes(&self) -> (r: i32)
        ensures
            r == uptime_minutes_spec(self.uptime@),
    {
        let v = to_chars(self.uptime.as_str());
        assert(v@.subrange(0, v@.len() as int) =~= v@);
        match index_of(&v, 0, v.len(), ':') {
            Some(i) => {
                let h = sub_string(&v, 0, i);
                let m = sub_string(&v, i + 1, v.len());
                assert(h@ =~= v@.take(i as int));
                assert(m@ =~= v@.skip(i + 1));
                let hh = sat_of(atoi(h.as_str()) as i64 * 60);
                sat_of(hh as i64 + atoi(m.as_str()) as i64)
            },
            None => sat_of(atoi(self.uptime.as_str()) as i64 * 60),
        }
    }

    /// The key that tells whether two lines are the same channel.
    pub fn key(&self) -> (r: String)
        ensures
            r@ == key_spec(self@),
    {
        if self.is_info() {
            let mut s = String::new();
            push_str(&mut s, "name:");
            push_str(&mut s, self.name.as_str());
            assert(s@ =~= key_spec(self@));
            s
        } else {
            self.id.clone()
        }
    }

    /// The YP's chat page for this channel.
    pub fn chat_url(&self) -> (r: String)
        ensures
            r@ == side_url_spec(self.feed_url@, "chat.php"@, self.encoded_name@),
    {
        side_url(self.feed_url.as_str(), "chat.php", self.encoded_name.as_str())
    }

    /// The YP's statistics page for this channel.
    pub fn stat_url(&self) -> (r: String)
        ensures
            r@ == side_url_spec(self.feed_url@, "getgmt.php"@, self.encoded_name@),
    {
        side_url(self.feed_url.as_str(), "getgmt.php", self.encoded_name.as_str())
    }

    /// "[genre - desc] 「comment」".
    pub fn summary(&self) -> (r: String)
        ensures
            r@ == summary_spec(self.genre@, self.desc@, self.comment@),
    {
        let g = self.genre.as_str();
        let d = self.desc.as_str();
        let c = self.comment.as_str();
        let mut s = String::new();
        if !g.is_empty() && !d.is_empty() {
            push_str(&mut s, "[");
            push_str(&mut s, g);
            push_str(&mut s, " - ");
            push_str(&mut s, d);
            push_str(&mut s, "]");
        } else if !g.is_empty() {
            push_str(&mut s, "[");
            push_str(&mut s, g);
            push_str(&mut s, "]");
        } else if !d.is_empty() {
            push_str(&mut s, "[");
            push_str(&mut s, d);
            push_str(&mut s, "]");
        }
        let ghost h = s@;
        assert(h =~= summary_head(g@, d@));
        if !c.is_empty() {
            if !s.as_str().is_empty() {
                push_char(&mut s, ' ');
            }
            push_str(&mut s, "「");
            push_str(&mut s, c);
            push_str(&mut s, "」");
        }
        assert(s@ =~= summary_spec(g@, d@, c@));
        s
    }

    /// Artist, title and album, the empty ones left out, joined by " - ".
    pub fn track_text(&self) -> (r: String)
        ensures
            r@ == join_nonempty(
                seq![self.track_artist@, self.track_title@, self.track_album@],
                " - "@,
            ),
    {
        let ghost parts = seq![self.track_artist@, self.track_title@, self.track_album@];
        let mut s = String::new();
        join_step(&mut s, self.track_artist.as_str(), Ghost(parts.take(0)));
        assert(parts.take(1) =~= parts.take(0).push(self.track_artist@));
        join_step(&mut s, self.track_title.as_str(), Ghost(parts.take(1)));
        assert(parts.take(2) =~= parts.take(1).push(self.track_title@));
        join_step(&mut s, self.track_album.as_str(), Ghost(parts.take(2)));
        assert(parts.take(3) =~= parts.take(2).push(self.track_album@));
        assert(parts.take(3) =~= parts);
        s
    }
}

fn join_step(s: &mut String, p: &str, Ghost(done): Ghost<Seq<Seq<char>>>)
    requires
        old(s)@ == join_nonempty(done, " - "@),
    ensures
        final(s)@ == join_nonempty(done.push(p@), " - "@),
{
    assert(done.push(p@).drop_last() =~= done);
    if !p.is_empty() {
        if !s.as_str().is_empty() {
            push_str(s, " - ");
        }
        push_str(s, p);
    }
}

// ------------------------------------------------------------------ IDs

/// 32 hexadecimal digits.
pub open spec fn is_hex_id(s: Seq<char>) -> bool {
    s.len() == 32 && forall|i: int| 0 <= i < s.len() ==> is_hex_digit(#[trigger] s[i])
}

pub open spec fn normalize_id_spec(s: Seq<char>) -> Seq<char> {
    if is_hex_id(s) {
        upper_seq(s)
    } else {
        ZERO_ID@
    }
}

/// Thirty-two upper-case hexadecimal digits.
pub open spec fn upper_hex_id(s: Seq<char>) -> bool {
    s.len() == 32 && forall|i: int| 0 <= i < s.len() ==> upper_hex(#[trigger] s[i])
}

/// An ID of 32 hexadecimal digits, in either case, is kept in upper case; any other
/// becomes all zeros; either way the result is 32 upper-case hexadecimal digits.
pub proof fn law_normalized_id(s: Seq<char>)
    ensures
        is_hex_id(s) ==> normalize_id_spec(s) == upper_seq(s),
        !is_hex_id(s) ==> normalize_id_spec(s) == ZERO_ID@,
        upper_hex_id(normalize_id_spec(s)),
{
    if is_hex_id(s) {
        let u = upper_seq(s);
        assert forall|i: int| 0 <= i < u.len() implies upper_hex(#[trigger] u[i]) by {
            assert(is_hex_digit(s[i]));
            assert(u[i] == crate::text::upper(s[i]));
        }
    } else {
        reveal_strlit("00000000000000000000000000000000");
        assert forall|i: int| 0 <= i < ZERO_ID@.len() implies upper_hex(#[trigger] ZERO_ID@[i]) by {}
    }
}

fn hex_char(c: char) -> (r: bool)
    ensures
        r == is_hex_digit(c),
{
    ('0' <= c && c <= '9') || ('a' <= c && c <= 'f') || ('A' <= c && c <= 'F')
}

/// A channel ID in upper case, or all zeros when it is not 32 hex digits.
pub fn normalize_id(s: &str) -> (r: String)
    ensures
        r@ == normalize_id_spec(s@),
{
    let v = to_chars(s);
    let mut ok = v.len() == 32;
    let mut i: usize = 0;
    while i < v.len()
        invariant
            i <= v.len(),
            v@ == s@,
            ok == (v.len() == 32 && forall|j: int| 0 <= j < i ==> is_hex_digit(#[trigger] v@[j])),
        decreases v.len() - i,
    {
        if !hex_char(v[i]) {
            ok = false;
        }
        i += 1;
    }
    if ok {
        let u = upper_chars(&v);
        from_chars(&u)
    } else {
        ZERO_ID.to_string()
    }
}

// ------------------------------------------------------------------ character references

/// The named references that are understood.
pub open spec fn named_entity(e: Seq<char>) -> Option<char> {
    if e == "lt"@ {
        Some('<')
    } else if e == "gt"@ {
        Some('>')
    } else if e == "amp"@ {
        Some('&')
    } else if e == "quot"@ {
        Some('"')
    } else if e == "apos"@ {
        Some('\'')
    } else if e == "nbsp"@ {
        Some('\u{a0}')
    } else if e == "copy"@ {
        Some('\u{a9}')
    } else if e == "reg"@ {
        Some('\u{ae}')
    } else if e == "hellip"@ {
        Some('\u{2026}')
    } else if e == "yen"@ {
        Some('\u{a5}')
    } else {
        None
    }
}

/// A Unicode scalar value other than NUL.
pub open spec fn usable_code(v: nat) -> bool {
    v <= 0x10FFFF && !(0xD800 <= v && v <= 0xDFFF) && v != 0
}

/// The character that a reference (the text between `&` and `;`) stands for.
pub open spec fn decode_entity_spec(e: Seq<char>) -> Option<char> {
    if e.len() > 0 && e[0] == '#' {
        let num = e.skip(1);
        let code = if num.len() > 0 && (num[0] == 'x' || num[0] == 'X') {
            parse_uint(num.skip(1), 16, u32::MAX as nat)
        } else {
            parse_uint(num, 10, u32::MAX as nat)
        };
        match code {
            Some(v) => if usable_code(v) {
                Some((v as u32) as char)
            } else {
                None
            },
            None => None,
        }
    } else {
        named_entity(e)
    }
}

/// A reference at the start of `s` (which starts with `&`): the character and the
/// length of `&...;`. The `;` must come within ten characters.
pub open spec fn reference_at(s: Seq<char>) -> Option<(char, int)> {
    match index_of_char(s.skip(1), ';') {
        Some(n) => if n <= 10 {
            match decode_entity_spec(s.subrange(1, 1 + n)) {
                Some(c) => Some((c, n + 2)),
                None => None,
            }
        } else {
            None
        },
        None => None,
    }
}

/// The text with each understood character reference replaced, in one pass.
pub open spec fn unescape_spec(s: Seq<char>) -> Seq<char>
    decreases s.len(),
{
    if s.len() == 0 {
        seq![]
    } else if s[0] == '&' {
        match reference_at(s) {
            Some((c, len)) => if 0 < len <= s.len() {
                seq![c] + unescape_spec(s.skip(len))
            } else {
                seq![]
            },
            None => seq!['&'] + unescape_spec(s.skip(1)),
        }
    } else {
        seq![s[0]] + unescape_spec(s.skip(1))
    }
}

/// `char::from_u32`: the character of the code `code`, when there is one (codes above
/// U+10FFFF and surrogates have none).
#[verifier::external_body]
fn char_from_u32(code: u32) -> (r: Option<char>)
    ensures
        r is Some <==> (code <= 0x10FFFF && !(0xD800 <= code && code <= 0xDFFF)),
        r matches Some(c) ==> c == code as char,
{
    char::from_u32(code)
}

fn named_entity_of(e: &[char]) -> (r: Option<char>)
    ensures
        r == named_entity(e@),
{
    if eq_str(e, "lt") {
        Some('<')
    } else if eq_str(e, "gt") {
        Some('>')
    } else if eq_str(e, "amp") {
        Some('&')
    } else if eq_str(e, "quot") {
        Some('"')
    } else if eq_str(e, "apos") {
        Some('\'')
    } else if eq_str(e, "nbsp") {
        Some('\u{a0}')
    } else if eq_str(e, "copy") {
        Some('\u{a9}')
    } else if eq_str(e, "reg") {
        Some('\u{ae}')
    } else if eq_str(e, "hellip") {
        Some('\u{2026}')
    } else if eq_str(e, "yen") {
        Some('\u{a5}')
    } else {
        None
    }
}

/// The character that the reference `e` (without `&` and `;`) stands for.
pub fn decode_entity(e: &[char]) -> (r: Option<char>)
    ensures
        r == decode_entity_spec(e@),
{
    if e.len() > 0 && e[0] == '#' {
        let ghost num = e@.skip(1);
        assert(num =~= e@.subrange(1, e@.len() as int));
        let code = if e.len() > 1 && (e[1] == 'x' || e[1] == 'X') {
            assert(num.skip(1) =~= e@.subrange(2, e@.len() as int));
            parse_uint_chars(e, 2, e.len(), 16, u32::MAX as u64)
        } else {
            parse_uint_chars(e, 1, e.len(), 10, u32::MAX as u64)
        };
        match code {
            Some(v) => {
                if v == 0 {
                    None
                } else {
                    char_from_u32(v as u32)
                }
            },
            None => None,
        }
    } else {
        named_entity_of(e)
    }
}

proof fn lemma_unescape_plain(v: Seq<char>, i: int)
    requires
        0 <= i < v.len(),
        v[i] != '&',
    ensures
        unescape_spec(v.skip(i)) == seq![v[i]] + unescape_spec(v.skip(i + 1)),
{
    assert(v.skip(i).skip(1) =~= v.skip(i + 1));
}

/// Replaces the character references (`&lt;`, `&#39;`, `&#x41;`, ...) once; unknown ones
/// stay as they are.
pub fn unescape_html(s: &str) -> (r: String)
    ensures
        r@ == unescape_spec(s@),
{
    let v = to_chars(s);
    let mut out = String::new();
    let mut i: usize = 0;
    assert(v@.skip(0) =~= v@);
    while i < v.len()
        invariant
            i <= v.len(),
            v@ == s@,
            unescape_spec(v@) == out@ + unescape_spec(v@.skip(i as int)),
        decreases v.len() - i,
    {
        let ghost rest = v@.skip(i as int);
        if v[i] != '&' {
            proof {
                lemma_unescape_plain(v@, i as int);
            }
            push_char(&mut out, v[i]);
            i += 1;
        } else {
            assert(rest.skip(1) =~= v@.subrange(i + 1, v@.len() as int));
            let semi = index_of(&v, i + 1, v.len(), ';');
            let mut decoded: Option<(char, usize)> = None;
            if let Some(j) = semi {
                if j - (i + 1) <= 10 {
                    let e = slice_of(&v, i + 1, j);
                    assert(e@ =~= rest.subrange(1, 1 + (j - (i + 1))));
                    if let Some(c) = decode_entity(&e) {
                        decoded = Some((c, j + 1 - i));
                    }
                }
            }
            match decoded {
                Some((c, len)) => {
                    assert(rest.skip(len as int) =~= v@.skip(i + len));
                    push_char(&mut out, c);
                    i = i + len;
                },
                None => {
                    assert(rest.skip(1) =~= v@.skip(i + 1));
                    push_char(&mut out, '&');
                    i += 1;
                },
            }
        }
    }
    assert(v@.skip(v@.len() as int) =~= Seq::<char>::empty());
    out
}

// ------------------------------------------------------------------ index.txt

/// The text without one final line break.
pub open spec fn body_of(text: Seq<char>) -> Seq<char> {
    if text.len() > 0 && text.last() == '\n' {
        text.drop_last()
    } else {
        text
    }
}

/// The lines of `index.txt`.
pub open spec fn lines_of(text: Seq<char>) -> Seq<Seq<char>> {
    split(body_of(text), seq!['\n'])
}

/// A line without a final carriage return.
pub open spec fn strip_cr(l: Seq<char>) -> Seq<char> {
    if l.len() > 0 && l.last() == '\r' {
        l.drop_last()
    } else {
        l
    }
}

/// The separator of fields, `<>`.
pub open spec fn field_sep() -> Seq<char> {
    seq!['<', '>']
}

/// The `<>`-separated fields of a line.
pub open spec fn fields_of(l: Seq<char>) -> Seq<Seq<char>> {
    split(strip_cr(l), field_sep())
}

/// The channel that the 19 fields `f` of a line of the YP `feed` describe.
pub open spec fn model_of(f: Seq<Seq<char>>, feed: Seq<char>) -> ChannelModel {
    ChannelModel {
        name: unescape_spec(f[0]),
        id: normalize_id_spec(f[1]),
        tip: f[2],
        url: http_or_empty(f[3]),
        genre: unescape_spec(f[4]),
        desc: unescape_spec(f[5]),
        listeners: atoi_spec(f[6]),
        relays: atoi_spec(f[7]),
        bitrate: atoi_spec(f[8]),
        content_type: f[9],
        track_artist: unescape_spec(f[10]),
        track_album: unescape_spec(f[11]),
        track_title: unescape_spec(f[12]),
        track_contact: http_or_empty(f[13]),
        encoded_name: f[14],
        uptime: f[15],
        status: f[16],
        comment: unescape_spec(f[17]),
        direct: atoi_spec(f[18]),
        feed_url: feed,
    }
}

/// `p` holds no `<>`.
pub open spec fn free_of_sep(p: Seq<char>) -> bool {
    forall|i: int| 0 <= i ==> !#[trigger] occurs_at(p, i, field_sep())
}

/// The line that writes the fields `f` one after the other, `<>` between two.
pub open spec fn join_fields(f: Seq<Seq<char>>) -> Seq<char>
    decreases f.len(),
{
    if f.len() == 0 {
        seq![]
    } else if f.len() == 1 {
        f[0]
    } else {
        f[0] + field_sep() + join_fields(f.drop_first())
    }
}

proof fn lemma_split_last_field(p: Seq<char>, cur: Seq<char>)
    requires
        free_of_sep(p),
    ensures
        crate::text::split_from(p, field_sep(), cur) == seq![cur + p],
    decreases p.len(),
{
    if p.len() > 0 {
        assert(!occurs_at(p, 0, field_sep()));
        let q = p.skip(1);
        assert forall|i: int| 0 <= i implies !#[trigger] occurs_at(q, i, field_sep()) by {
            if occurs_at(q, i, field_sep()) {
                assert(p.subrange(i + 1, i + 3) =~= q.subrange(i, i + 2));
                assert(occurs_at(p, i + 1, field_sep()));
            }
        }
        lemma_split_last_field(q, cur.push(p[0]));
        assert(cur.push(p[0]) + q =~= cur + p);
    } else {
        assert(cur + p =~= cur);
    }
}

proof fn lemma_split_field(p: Seq<char>, r: Seq<char>, cur: Seq<char>)
    requires
        free_of_sep(p),
    ensures
        crate::text::split_from(p + field_sep() + r, field_sep(), cur) == seq![cur + p] + split(r, field_sep()),
    decreases p.len(),
{
    let s = p + field_sep() + r;
    if p.len() == 0 {
        assert(s.subrange(0, 2) =~= field_sep());
        assert(s.skip(2) =~= r);
        assert(cur + p =~= cur);
    } else {
        if occurs_at(s, 0, field_sep()) {
            if p.len() >= 2 {
                assert(p.subrange(0, 2) =~= s.subrange(0, 2));
                assert(occurs_at(p, 0, field_sep()));
            } else {
                assert(s[1] == s.subrange(0, 2)[1]);
            }
        }
        let q = p.skip(1);
        assert forall|i: int| 0 <= i implies !#[trigger] occurs_at(q, i, field_sep()) by {
            if occurs_at(q, i, field_sep()) {
                assert(p.subrange(i + 1, i + 3) =~= q.subrange(i, i + 2));
                assert(occurs_at(p, i + 1, field_sep()));
            }
        }
        assert(s.skip(1) =~= q + field_sep() + r);
        lemma_split_field(q, r, cur.push(p[0]));
        assert(cur.push(p[0]) + q =~= cur + p);
    }
}

/// Splitting a line written from fields without `<>` gives the fields back.
proof fn lemma_split_join(f: Seq<Seq<char>>)
    requires
        f.len() >= 1,
        forall|i: int| 0 <= i < f.len() ==> free_of_sep(#[trigger] f[i]),
    ensures
        split(join_fields(f), field_sep()) == f,
    decreases f.len(),
{
    if f.len() == 1 {
        lemma_split_last_field(f[0], seq![]);
        assert(seq![] + f[0] =~= f[0]);
        assert(seq![f[0]] =~= f);
    } else {
        let rest = f.drop_first();
        assert forall|i: int| 0 <= i < rest.len() implies free_of_sep(#[trigger] rest[i]) by {
            assert(rest[i] == f[i + 1]);
        }
        lemma_split_join(rest);
        lemma_split_field(f[0], join_fields(rest), seq![]);
        assert(seq![] + f[0] =~= f[0]);
        assert(seq![f[0]] + rest =~= f);
    }
}

/// A line of two or more fields ends with `<>` and its last field.
proof fn lemma_join_ends(f: Seq<Seq<char>>)
    requires
        f.len() >= 2,
    ensures
        exists|pre: Seq<char>| join_fields(f) == pre + field_sep() + f.last(),
    decreases f.len(),
{
    let rest = f.drop_first();
    if f.len() == 2 {
        assert(join_fields(rest) == f[1]);
        assert(join_fields(f) == f[0] + field_sep() + f.last());
    } else {
        lemma_join_ends(rest);
        let pre = choose|pre: Seq<char>| join_fields(rest) == pre + field_sep() + rest.last();
        assert(join_fields(f) =~= (f[0] + field_sep() + pre) + field_sep() + f.last());
    }
}

/// A line written from 19 fields (none holding `<>`, the last not ending in a carriage
/// return) reads back as those fields, and the channel it describes has: the
/// unescaped first field as its name, the second as its ID (normalized), the third as
/// its tracker, the fourth as its contact URL (if http), the unescaped fifth as its
/// genre and sixth as its description, the seventh to ninth as listeners, relays and
/// bitrate, the tenth as its type, the unescaped 11th to 13th as the track's artist,
/// album and title, the 14th as the track's contact (if http), then the encoded name,
/// uptime, status, the unescaped comment, and the direct count.
pub proof fn law_line_fields(f: Seq<Seq<char>>, feed: Seq<char>)
    requires
        f.len() == NUM_FIELDS,
        forall|i: int| 0 <= i < f.len() ==> free_of_sep(#[trigger] f[i]),
        !(f[18].len() > 0 && f[18].last() == '\r'),
    ensures
        fields_of(join_fields(f)) == f,
        ({
            let c = model_of(fields_of(join_fields(f)), feed);
            &&& c.name == unescape_spec(f[0])
            &&& c.id == normalize_id_spec(f[1])
            &&& c.tip == f[2]
            &&& c.url == http_or_empty(f[3])
            &&& c.genre == unescape_spec(f[4])
            &&& c.desc == unescape_spec(f[5])
            &&& c.listeners == atoi_spec(f[6])
            &&& c.relays == atoi_spec(f[7])
            &&& c.bitrate == atoi_spec(f[8])
            &&& c.content_type == f[9]
            &&& c.track_artist == unescape_spec(f[10])
            &&& c.track_album == unescape_spec(f[11])
            &&& c.track_title == unescape_spec(f[12])
            &&& c.track_contact == http_or_empty(f[13])
            &&& c.encoded_name == f[14]
            &&& c.uptime == f[15]
            &&& c.status == f[16]
            &&& c.comment == unescape_spec(f[17])
            &&& c.direct == atoi_spec(f[18])
            &&& c.feed_url == feed
        }),
{
    let l = join_fields(f);
    lemma_join_ends(f);
    let pre = choose|pre: Seq<char>| l == pre + field_sep() + f.last();
    if f.last().len() > 0 {
        assert(l.last() == f.last().last());
    } else {
        assert(l.last() == '>');
    }
    assert(strip_cr(l) == l);
    lemma_split_join(f);
}

/// The channels of the well-formed lines, in line order.
pub open spec fn parsed_lines(lines: Seq<Seq<char>>, feed: Seq<char>) -> Seq<ChannelModel>
    decreases lines.len(),
{
    if lines.len() == 0 {
        seq![]
    } else {
        let p = parsed_lines(lines.drop_last(), feed);
        let f = fields_of(lines.last());
        if f.len() == NUM_FIELDS {
            p.push(model_of(f, feed))
        } else {
            p
        }
    }
}

/// The numbers (from 1) of the lines without exactly 19 fields.
pub open spec fn bad_lines(lines: Seq<Seq<char>>) -> Seq<usize>
    decreases lines.len(),
{
    if lines.len() == 0 {
        seq![]
    } else {
        let b = bad_lines(lines.drop_last());
        if fields_of(lines.last()).len() != NUM_FIELDS {
            b.push(lines.len() as usize)
        } else {
            b
        }
    }
}

pub open spec fn models(v: Seq<Channel>) -> Seq<ChannelModel> {
    v.map_values(|c: Channel| c@)
}

/// Most listeners first.
pub open spec fn sorted_by_listeners(s: Seq<ChannelModel>) -> bool {
    forall|i: int, j: int| 0 <= i < j < s.len() ==> s[i].listeners >= s[j].listeners
}

/// Whether a channel has `k` listeners.
pub open spec fn listeners_is(k: i32) -> spec_fn(ChannelModel) -> bool {
    |c: ChannelModel| c.listeners == k
}

/// The channels of `s` with `k` listeners, in their order in `s`.
pub open spec fn with_listeners(s: Seq<ChannelModel>, k: i32) -> Seq<ChannelModel> {
    s.filter(listeners_is(k))
}

/// `out` is `inp` sorted by listeners, most first, channels with as many listeners
/// keeping their order (a stable sort).
pub open spec fn stable_listener_order(out: Seq<ChannelModel>, inp: Seq<ChannelModel>) -> bool {
    &&& sorted_by_listeners(out)
    &&& forall|k: i32| #[trigger] with_listeners(out, k) == with_listeners(inp, k)
}

proof fn lemma_insert_keeps_order(
    out: Seq<ChannelModel>,
    inp: Seq<ChannelModel>,
    p: int,
    x: ChannelModel,
)
    requires
        stable_listener_order(out, inp),
        0 <= p <= out.len(),
        forall|q: int| 0 <= q < p ==> out[q].listeners >= x.listeners,
        forall|q: int| p <= q < out.len() ==> out[q].listeners < x.listeners,
    ensures
        stable_listener_order(out.insert(p, x), inp.push(x)),
{
    let o2 = out.insert(p, x);
    assert(o2 =~= out.take(p) + seq![x] + out.skip(p));
    assert(out =~= out.take(p) + out.skip(p));
    assert forall|k: i32| #[trigger] with_listeners(o2, k) == with_listeners(inp.push(x), k) by {
        let pred = listeners_is(k);
        let a = out.take(p);
        let b = out.skip(p);
        assert(with_listeners(out, k) == with_listeners(inp, k));
        Seq::filter_distributes_over_add(a + seq![x], b, pred);
        Seq::filter_distributes_over_add(a, seq![x], pred);
        Seq::filter_distributes_over_add(a, b, pred);
        inp.lemma_filter_push(x, pred);
        Seq::<ChannelModel>::empty().lemma_filter_push(x, pred);
        assert(Seq::<ChannelModel>::empty().push(x) =~= seq![x]);
        assert(Seq::<ChannelModel>::empty().filter(pred) =~= Seq::<ChannelModel>::empty()) by {
            reveal(Seq::filter);
        }
        assert(o2.filter(pred) == a.filter(pred) + seq![x].filter(pred) + b.filter(pred));
        assert(out.filter(pred) == a.filter(pred) + b.filter(pred));
        if k == x.listeners {
            assert(pred(x));
            assert(seq![x].filter(pred) =~= seq![x]);
            assert(b.all(|c: ChannelModel| !pred(c)));
            b.lemma_all_neg_filter_empty(pred);
            assert(b.filter(pred) =~= Seq::<ChannelModel>::empty());
            assert(o2.filter(pred) =~= out.filter(pred).push(x));
        } else {
            assert(!pred(x));
            assert(seq![x].filter(pred) =~= Seq::<ChannelModel>::empty());
            assert(o2.filter(pred) =~= out.filter(pred));
        }
    }
}

/// Sorts by listeners, most first; lines with as many listeners keep their order.
fn sort_by_listeners(v: Vec<Channel>) -> (r: Vec<Channel>)
    ensures
        stable_listener_order(models(r@), models(v@)),
        r@.len() == v@.len(),
{
    let total = v.len();
    let ghost v0 = v@;
    let mut src = v;
    let mut out: Vec<Channel> = Vec::new();
    let mut n: usize = 0;
    proof {
        assert(v0.len() <= usize::MAX);
        assert(v0.take(0) =~= Seq::<Channel>::empty());
        assert(v0.skip(0) =~= v0);
        assert forall|k: i32| #[trigger] with_listeners(models(out@), k) == with_listeners(
            models(v0.take(0)),
            k,
        ) by {
            assert(models(out@) =~= models(v0.take(0)));
        }
    }
    while src.len() > 0
        invariant
            n <= v0.len() <= usize::MAX,
            src@ == v0.skip(n as int),
            stable_listener_order(models(out@), models(v0.take(n as int))),
            out@.len() == n,
        decreases src@.len(),
    {
        let x = src.remove(0);
        assert(x == v0[n as int]);
        let mut p: usize = 0;
        while p < out.len() && out[p].listeners >= x.listeners
            invariant
                p <= out@.len(),
                forall|q: int| 0 <= q < p ==> out@[q].listeners >= x.listeners,
            decreases out@.len() - p,
        {
            p += 1;
        }
        proof {
            let m = models(out@);
            assert forall|q: int| p <= q < m.len() implies m[q].listeners < x.listeners by {
                if p < m.len() {
                    assert(m[p as int].listeners < x.listeners);
                    assert(m[p as int].listeners >= m[q].listeners);
                }
            }
            lemma_insert_keeps_order(m, models(v0.take(n as int)), p as int, x@);
            assert(models(out@.insert(p as int, x)) =~= m.insert(p as int, x@));
            assert(models(v0.take(n as int)).push(x@) =~= models(v0.take(n + 1)));
            assert(v0.skip(n as int).skip(1) =~= v0.skip(n + 1));
        }
        out.insert(p, x);
        n += 1;
    }
    assert(v0.take(n as int) =~= v0);
    out
}

fn field(line: &[char], fr: &Vec<(usize, usize)>, k: usize) -> (s: String)
    requires
        k < fr@.len(),
        fr@[k as int].0 <= fr@[k as int].1 <= line@.len(),
    ensures
        s@ == line@.subrange(fr@[k as int].0 as int, fr@[k as int].1 as int),
{
    sub_string(line, fr[k].0, fr[k].1)
}

/// The channel described by the fields of `line` at the positions `fr`.
fn channel_of_fields(line: &[char], fr: &Vec<(usize, usize)>, feed_url: &str) -> (c: Channel)
    requires
        fr@.len() == NUM_FIELDS,
        fr@.len() == split(line@, field_sep()).len(),
        forall|k: int|
            #![trigger fr@[k]]
            #![trigger split(line@, field_sep())[k]]
            0 <= k < fr@.len() ==> {
                &&& fr@[k].0 <= fr@[k].1 <= line@.len()
                &&& split(line@, field_sep())[k] == line@.subrange(
                    fr@[k].0 as int,
                    fr@[k].1 as int,
                )
            },
    ensures
        c@ == model_of(split(line@, field_sep()), feed_url@),
{
    let ghost f = split(line@, field_sep());
    let x0 = field(line, fr, 0);
    let x1 = field(line, fr, 1);
    let x2 = field(line, fr, 2);
    let x3 = field(line, fr, 3);
    let x4 = field(line, fr, 4);
    let x5 = field(line, fr, 5);
    let x6 = field(line, fr, 6);
    let x7 = field(line, fr, 7);
    let x8 = field(line, fr, 8);
    let x9 = field(line, fr, 9);
    let x10 = field(line, fr, 10);
    let x11 = field(line, fr, 11);
    let x12 = field(line, fr, 12);
    let x13 = field(line, fr, 13);
    let x14 = field(line, fr, 14);
    let x15 = field(line, fr, 15);
    let x16 = field(line, fr, 16);
    let x17 = field(line, fr, 17);
    let x18 = field(line, fr, 18);
    assert(x0@ == f[0] && x1@ == f[1] && x2@ == f[2] && x3@ == f[3] && x4@ == f[4]);
    assert(x5@ == f[5] && x6@ == f[6] && x7@ == f[7] && x8@ == f[8] && x9@ == f[9]);
    assert(x10@ == f[10] && x11@ == f[11] && x12@ == f[12] && x13@ == f[13] && x14@ == f[14]);
    assert(x15@ == f[15] && x16@ == f[16] && x17@ == f[17] && x18@ == f[18]);
    Channel {
        name: unescape_html(x0.as_str()),
        id: normalize_id(x1.as_str()),
        tip: x2,
        url: http_url_or_empty(x3.as_str()),
        genre: unescape_html(x4.as_str()),
        desc: unescape_html(x5.as_str()),
        listeners: atoi(x6.as_str()),
        relays: atoi(x7.as_str()),
        bitrate: atoi(x8.as_str()),
        content_type: x9,
        track_artist: unescape_html(x10.as_str()),
        track_album: unescape_html(x11.as_str()),
        track_title: unescape_html(x12.as_str()),
        track_contact: http_url_or_empty(x13.as_str()),
        encoded_name: x14,
        uptime: x15,
        status: x16,
        comment: unescape_html(x17.as_str()),
        direct: atoi(x18.as_str()),
        feed_url: feed_url.to_string(),
    }
}

/// Every line is either read as a channel or counted as bad.
proof fn lemma_lines_accounted(lines: Seq<Seq<char>>, feed: Seq<char>)
    ensures
        parsed_lines(lines, feed).len() + bad_lines(lines).len() == lines.len(),
    decreases lines.len(),
{
    if lines.len() > 0 {
        lemma_lines_accounted(lines.drop_last(), feed);
    }
}

/// A text without `&` has nothing to replace.
pub proof fn law_unescape_keeps_plain_text(s: Seq<char>)
    requires
        !s.contains('&'),
    ensures
        unescape_spec(s) == s,
    decreases s.len(),
{
    if s.len() > 0 {
        assert(s[0] != '&');
        assert(!s.skip(1).contains('&')) by {
            if s.skip(1).contains('&') {
                let i = choose|i: int| 0 <= i < s.skip(1).len() && s.skip(1)[i] == '&';
                assert(s[i + 1] == '&');
            }
        }
        law_unescape_keeps_plain_text(s.skip(1));
        assert(seq![s[0]] + s.skip(1) =~= s);
    }
}

/// Replacing references never makes the text longer.
pub proof fn law_unescape_not_longer(s: Seq<char>)
    ensures
        unescape_spec(s).len() <= s.len(),
    decreases s.len(),
{
    if s.len() > 0 {
        if s[0] == '&' {
            match reference_at(s) {
                Some((c, len)) => if 0 < len <= s.len() {
                    law_unescape_not_longer(s.skip(len));
                },
                None => {
                    law_unescape_not_longer(s.skip(1));
                },
            }
        } else {
            law_unescape_not_longer(s.skip(1));
        }
    }
}

/// A reference is decoded once: `&e;` followed by any text gives the character it
/// stands for, then that text decoded on its own; the character given is never read
/// again as the start of a reference (so `&amp;lt;` gives `&lt;`).
pub proof fn law_unescape_reference_once(e: Seq<char>, t: Seq<char>)
    requires
        e.len() <= 10,
        !e.contains(';'),
        decode_entity_spec(e) is Some,
    ensures
        unescape_spec(seq!['&'] + e + seq![';'] + t) == seq![decode_entity_spec(e).unwrap()] + unescape_spec(t),
{
    let s = seq!['&'] + e + seq![';'] + t;
    let r = s.skip(1);
    assert(r =~= e + seq![';'] + t);
    assert forall|j: int| 0 <= j < e.len() implies r[j] != ';' by {
        assert(r[j] == e[j]);
        if r[j] == ';' {
            assert(e.contains(';'));
        }
    }
    lemma_index_of_char(r, ';', Some(e.len() as int));
    assert(s.subrange(1, 1 + e.len() as int) =~= e);
    assert(s.skip(e.len() + 2 as int) =~= t);
    assert(s[0] == '&');
}

/// The bad line numbers count from 1, rise, and stay within the lines.
pub proof fn law_bad_lines_rise(lines: Seq<Seq<char>>)
    requires
        lines.len() <= usize::MAX,
    ensures
        forall|i: int, j: int| 0 <= i < j < bad_lines(lines).len() ==> bad_lines(lines)[i] < bad_lines(lines)[j],
        forall|i: int| 0 <= i < bad_lines(lines).len() ==> 1 <= #[trigger] bad_lines(lines)[i] <= lines.len(),
    decreases lines.len(),
{
    if lines.len() > 0 {
        let p = lines.drop_last();
        law_bad_lines_rise(p);
        let b = bad_lines(p);
        let r = bad_lines(lines);
        if fields_of(lines.last()).len() != NUM_FIELDS {
            assert(r == b.push(lines.len() as usize));
            assert forall|i: int| 0 <= i < r.len() implies 1 <= #[trigger] r[i] <= lines.len() by {
                if i < b.len() {
                    assert(r[i] == b[i]);
                }
            }
            assert forall|i: int, j: int| 0 <= i < j < r.len() implies r[i] < r[j] by {
                assert(r[i] == b[i]);
                if j < b.len() {
                    assert(r[j] == b[j]);
                } else {
                    assert(1 <= b[i] <= p.len());
                }
            }
        } else {
            assert(r == b);
        }
    }
}

/// The links of a channel are http(s) URLs or empty.
pub open spec fn safe_links(c: ChannelModel) -> bool {
    &&& (c.url.len() == 0 || is_http_url_spec(c.url))
    &&& (c.track_contact.len() == 0 || is_http_url_spec(c.track_contact))
}

/// `c` is what some well-formed line of `lines` describes.
pub open spec fn read_from_line(c: ChannelModel, lines: Seq<Seq<char>>, feed: Seq<char>) -> bool {
    exists|j: int|
        0 <= j < lines.len() && fields_of(#[trigger] lines[j]).len() == NUM_FIELDS && c == model_of(
            fields_of(lines[j]),
            feed,
        )
}

proof fn lemma_parsed_from_lines(lines: Seq<Seq<char>>, feed: Seq<char>)
    ensures
        forall|i: int|
            0 <= i < parsed_lines(lines, feed).len() ==> read_from_line(
                #[trigger] parsed_lines(lines, feed)[i],
                lines,
                feed,
            ),
    decreases lines.len(),
{
    if lines.len() > 0 {
        let q = lines.drop_last();
        lemma_parsed_from_lines(q, feed);
        let p = parsed_lines(q, feed);
        let r = parsed_lines(lines, feed);
        assert forall|i: int| 0 <= i < r.len() implies read_from_line(#[trigger] r[i], lines, feed) by {
            if i < p.len() {
                assert(r[i] == p[i]);
                assert(read_from_line(p[i], q, feed));
                let j = choose|j: int|
                    0 <= j < q.len() && fields_of(#[trigger] q[j]).len() == NUM_FIELDS && p[i] == model_of(
                        fields_of(q[j]),
                        feed,
                    );
                assert(lines[j] == q[j]);
            } else {
                let j = lines.len() - 1;
                assert(lines[j] == lines.last());
            }
        }
    }
}

proof fn lemma_parsed_links(lines: Seq<Seq<char>>, feed: Seq<char>)
    ensures
        forall|i: int| 0 <= i < parsed_lines(lines, feed).len() ==> safe_links(#[trigger] parsed_lines(lines, feed)[i]),
        forall|i: int| 0 <= i < parsed_lines(lines, feed).len() ==> (#[trigger] parsed_lines(lines, feed)[i]).feed_url == feed,
        forall|i: int| 0 <= i < parsed_lines(lines, feed).len() ==> upper_hex_id(#[trigger] parsed_lines(lines, feed)[i].id),
    decreases lines.len(),
{
    if lines.len() > 0 {
        lemma_parsed_links(lines.drop_last(), feed);
        let p = parsed_lines(lines.drop_last(), feed);
        let r = parsed_lines(lines, feed);
        let f = fields_of(lines.last());
        if f.len() == NUM_FIELDS {
            law_normalized_id(f[1]);
        }
        assert forall|i: int| 0 <= i < r.len() implies safe_links(#[trigger] r[i]) && r[i].feed_url == feed
            && upper_hex_id(r[i].id) by {
            if i < p.len() {
                assert(r[i] == p[i]);
            }
        }
    }
}

proof fn lemma_sorted_keeps_members(out: Seq<ChannelModel>, inp: Seq<ChannelModel>, x: ChannelModel)
    requires
        stable_listener_order(out, inp),
        out.contains(x),
    ensures
        inp.contains(x),
{
    let k = x.listeners;
    let i = choose|i: int| 0 <= i < out.len() && out[i] == x;
    broadcast use vstd::seq_lib::group_filter_ensures;
    assert(with_listeners(out, k).contains(out[i]));
    assert(with_listeners(out, k) == with_listeners(inp, k));
    inp.lemma_filter_contains_rev(listeners_is(k), x);
}

/// Reads `index.txt`: the channels of the well-formed lines, most listeners first
/// (lines with as many listeners keep their order), and the numbers (from 1) of the
/// lines that could not be read.
pub fn parse_index(text: &str, feed_url: &str) -> (r: (Vec<Channel>, Vec<usize>))
    ensures
        text@.len() == 0 ==> r.0@.len() == 0 && r.1@.len() == 0,
        text@.len() > 0 ==> r.1@ == bad_lines(lines_of(text@)),
        text@.len() > 0 ==> stable_listener_order(
            models(r.0@),
            parsed_lines(lines_of(text@), feed_url@),
        ),
        text@.len() > 0 ==> r.0@.len() + r.1@.len() == lines_of(text@).len(),
        forall|i: int| 0 <= i < r.0@.len() ==> safe_links(#[trigger] r.0@[i]@),
        forall|i: int| 0 <= i < r.0@.len() ==> (#[trigger] r.0@[i]).feed_url@ == feed_url@,
        forall|i: int| 0 <= i < r.0@.len() ==> upper_hex_id((#[trigger] r.0@[i]).id@),
        forall|i: int, j: int| 0 <= i < j < r.1@.len() ==> r.1@[i] < r.1@[j],
        forall|i: int| 0 <= i < r.1@.len() ==> 1 <= #[trigger] r.1@[i] <= lines_of(text@).len(),
        forall|i: int|
            0 <= i < r.0@.len() ==> read_from_line((#[trigger] r.0@[i])@, lines_of(text@), feed_url@),
{
    let mut chans: Vec<Channel> = Vec::new();
    let mut errors: Vec<usize> = Vec::new();
    let v = to_chars(text);
    if v.len() == 0 {
        return (chans, errors);
    }
    let blen = if v[v.len() - 1] == '\n' {
        v.len() - 1
    } else {
        v.len()
    };
    let body = slice_of(&v, 0, blen);
    assert(body@ =~= body_of(text@));
    let mut nl: Vec<char> = Vec::new();
    nl.push('\n');
    let mut sep: Vec<char> = Vec::new();
    sep.push('<');
    sep.push('>');
    assert(nl@ =~= seq!['\n']);
    assert(sep@ =~= field_sep());
    let lines = split_ranges(&body, &nl);
    let ghost ls = lines_of(text@);
    let mut k: usize = 0;
    assert(ls.take(0) =~= Seq::<Seq<char>>::empty());
    assert(models(chans@) =~= Seq::<ChannelModel>::empty());
    while k < lines.len()
        invariant
            k <= lines@.len(),
            ls == lines_of(text@),
            lines@.len() == ls.len(),
            sep@ == field_sep(),
            forall|j: int|
                #![trigger lines@[j]]
                #![trigger ls[j]]
                0 <= j < lines@.len() ==> {
                    &&& lines@[j].0 <= lines@[j].1 <= body@.len()
                    &&& ls[j] == body@.subrange(lines@[j].0 as int, lines@[j].1 as int)
                },
            models(chans@) == parsed_lines(ls.take(k as int), feed_url@),
            errors@ == bad_lines(ls.take(k as int)),
        decreases lines@.len() - k,
    {
        let (a, b) = lines[k];
        let mut e = b;
        if e > a && body[e - 1] == '\r' {
            e = e - 1;
        }
        let line = slice_of(&body, a, e);
        assert(line@ =~= strip_cr(ls[k as int]));
        let fr = split_ranges(&line, &sep);
        proof {
            assert(ls.take(k + 1).drop_last() =~= ls.take(k as int));
            assert(ls.take(k + 1).last() == ls[k as int]);
        }
        if fr.len() != NUM_FIELDS {
            errors.push(k + 1);
        } else {
            let c = channel_of_fields(&line, &fr, feed_url);
            let ghost before = chans@;
            chans.push(c);
            assert(models(chans@) =~= models(before).push(c@));
        }
        k += 1;
    }
    assert(ls.take(lines@.len() as int) =~= ls);
    proof {
        lemma_lines_accounted(ls, feed_url@);
        assert(models(chans@).len() == chans@.len());
    }
    let sorted = sort_by_listeners(chans);
    proof {
        lemma_parsed_links(ls, feed_url@);
        assert forall|i: int| 0 <= i < sorted@.len() implies safe_links(#[trigger] sorted@[i]@) && sorted@[i].feed_url@
            == feed_url@ by {
            let out = models(sorted@);
            let inp = parsed_lines(ls, feed_url@);
            assert(out[i] == sorted@[i]@);
            assert(out.contains(sorted@[i]@));
            lemma_sorted_keeps_members(out, inp, sorted@[i]@);
            let j = choose|j: int| 0 <= j < inp.len() && inp[j] == sorted@[i]@;
            assert(safe_links(inp[j]));
            assert(inp[j].feed_url == feed_url@);
        }
        assert forall|i: int| 0 <= i < sorted@.len() implies (#[trigger] sorted@[i]).feed_url@ == feed_url@
            && upper_hex_id(sorted@[i].id@) by {
            let out = models(sorted@);
            let inp = parsed_lines(ls, feed_url@);
            assert(out[i] == sorted@[i]@);
            assert(out.contains(sorted@[i]@));
            lemma_sorted_keeps_members(out, inp, sorted@[i]@);
            let j = choose|j: int| 0 <= j < inp.len() && inp[j] == sorted@[i]@;
            assert(inp[j].feed_url == feed_url@ && upper_hex_id(inp[j].id));
        }
        law_bad_lines_rise(ls);
        lemma_parsed_from_lines(ls, feed_url@);
        assert forall|i: int| 0 <= i < sorted@.len() implies read_from_line(
            (#[trigger] sorted@[i])@,
            ls,
            feed_url@,
        ) by {
            let out = models(sorted@);
            let inp = parsed_lines(ls, feed_url@);
            assert(out[i] == sorted@[i]@);
            assert(out.contains(sorted@[i]@));
            lemma_sorted_keeps_members(out, inp, sorted@[i]@);
            let j = choose|j: int| 0 <= j < inp.len() && inp[j] == sorted@[i]@;
            assert(read_from_line(inp[j], ls, feed_url@));
        }
    }
    (sorted, errors)
}
} // verus!
