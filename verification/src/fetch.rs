//! Getting a YP's `index.txt`: the request URL and the decoding of the body.
use vstd::prelude::*;
use vstd::utf8::{decode_utf8, valid_utf8};
use crate::text::{dec_nat, find_char, has_char, push_dec, push_str, to_chars};

verus! {

/// Largest body that is read.
pub const MAX_BODY: u64 = 32 * 1024 * 1024;

/// `feed_url` with `host=localhost%3A<port>` added to its query.
pub open spec fn request_url_spec(feed: Seq<char>, port: u16) -> Seq<char> {
    feed + (if has_char(feed, '?') {
        seq!['&']
    } else {
        seq!['?']
    }) + "host=localhost%3A"@ + dec_nat(port as nat)
}

/// The URL to ask: `feed_url` with the port of the local PeerCast as `host`.
pub fn request_url(feed_url: &str, peercast_port: u16) -> (r: String)
    ensures
        r@ == request_url_spec(feed_url@, peercast_port),
{
    let v = to_chars(feed_url);
    let q = find_char(&v, 0, v.len(), '?');
    proof {
        if let Some(i) = q {
            assert(v@[i as int] == '?');
        }
    }
    let mut s = feed_url.to_string();
    if q.is_some() {
        crate::text::push_char(&mut s, '&');
    } else {
        crate::text::push_char(&mut s, '?');
    }
    push_str(&mut s, "host=localhost%3A");
    push_dec(&mut s, peercast_port as u64);
    s
}

/// What `encoding_rs::SHIFT_JIS.decode` makes of some bytes (malformed sequences become
/// U+FFFD; a byte order mark of another encoding selects that encoding).
pub uninterp spec fn shift_jis_text(bytes: Seq<u8>) -> Seq<char>;

/// Decodes bytes as Shift_JIS (`encoding_rs::Encoding::decode` on `SHIFT_JIS`); the
/// result is named [`shift_jis_text`]. The decoder sizes its output for at most three
/// bytes of UTF-8 per input byte, and three more; the bound on the length keeps that
/// size within `isize::MAX`, beyond which the allocation panics.
#[verifier::external_body]
fn decode_shift_jis(bytes: &[u8]) -> (r: String)
    requires
        3 * bytes@.len() + 3 <= isize::MAX as nat,
    ensures
        r@ == shift_jis_text(bytes@),
{
    encoding_rs::SHIFT_JIS.decode(bytes).0.into_owned()
}

/// `std::str::from_utf8`: text when the bytes are valid UTF-8.
#[verifier::external_body]
fn utf8_text(bytes: &[u8]) -> (r: Option<String>)
    ensures
        r is Some <==> valid_utf8(bytes@),
        r matches Some(s) ==> s@ == decode_utf8(bytes@),
{
    match std::str::from_utf8(bytes) {
        Ok(s) => Some(s.to_string()),
        Err(_) => None,
    }
}

/// The bytes without a leading UTF-8 byte order mark.
pub open spec fn strip_bom(b: Seq<u8>) -> Seq<u8> {
    if b.len() >= 3 && b[0] == 0xEF && b[1] == 0xBB && b[2] == 0xBF {
        b.skip(3)
    } else {
        b
    }
}

/// UTF-8 when the bytes are valid UTF-8, Shift_JIS otherwise.
pub open spec fn decode_text_spec(b: Seq<u8>) -> Seq<char> {
    let c = strip_bom(b);
    if valid_utf8(c) {
        decode_utf8(c)
    } else {
        shift_jis_text(c)
    }
}

/// Reads a body as UTF-8 (after a byte order mark), or as Shift_JIS when it is not
/// valid UTF-8. The body must be small enough that three bytes of text for each of
/// its bytes fit in memory.
pub fn decode_text(bytes: &[u8]) -> (r: String)
    requires
        3 * bytes@.len() + 3 <= isize::MAX as nat,
    ensures
        r@ == decode_text_spec(bytes@),
{
    let body: &[u8] = if bytes.len() >= 3 && bytes[0] == 0xEF && bytes[1] == 0xBB && bytes[2]
        == 0xBF {
        &bytes[3..bytes.len()]
    } else {
        bytes
    };
    assert(body@ =~= strip_bom(bytes@));
    match utf8_text(body) {
        Some(s) => s,
        None => decode_shift_jis(body),
    }
}

} // verus!
