//! The URLs handed to players, and the player's command line.
use vstd::prelude::*;
use vstd::string::StringSliceAdditionalSpecFns;
use crate::chandir::{
    is_http_url, is_http_url_spec, is_info_spec, law_type_ext_names_the_type, self_named_type, type_ext, type_ext_spec,
    url_encode, url_encode_spec, Channel, ChannelModel,
};
use crate::config::{player_matches, PeerCastConfig, PlayUrlKind, PlayerEntry, DEFAULT_CUSTOM_URL};
use crate::peercast::{peercast_base, peercast_base_spec};
use crate::text::{
    dec_int, has_at, is_whitespace, is_ws, lower_seq, occurs_at, push_char, push_dec_int, push_str, to_chars,
    trim, trim_chars, upper_seq,
};

verus! {

/// `?tip=<tracker, percent-encoded>`, or nothing without a tracker.
pub open spec fn tip_query_spec(c: ChannelModel) -> Seq<char> {
    if c.tip.len() == 0 {
        seq![]
    } else {
        "?tip="@ + url_encode_spec(vstd::utf8::encode_utf8(c.tip))
    }
}

fn tip_query(c: &Channel) -> (r: String)
    ensures
        r@ == tip_query_spec(c@),
{
    if c.tip.as_str().is_empty() {
        String::new()
    } else {
        let mut s = String::new();
        push_str(&mut s, "?tip=");
        let e = url_encode(c.tip.as_str());
        push_str(&mut s, e.as_str());
        s
    }
}

pub open spec fn stream_url_spec(address: Seq<char>, c: ChannelModel) -> Seq<char> {
    peercast_base_spec(address) + "/stream/"@ + c.id + type_ext_spec(upper_seq(c.content_type))
        + tip_query_spec(c)
}

pub open spec fn playlist_url_spec(address: Seq<char>, c: ChannelModel) -> Seq<char> {
    peercast_base_spec(address) + "/pls/"@ + c.id + tip_query_spec(c)
}

/// A stream URL ends the channel's ID with a dot and its content type in lower case
/// when that type is a known one named like its extension (FLV, MKV, WEBM, ...), and
/// gives the ID bare for an unknown type; then the tracker query.
pub proof fn law_stream_url_extension(address: Seq<char>, c: ChannelModel)
    ensures
        self_named_type(upper_seq(c.content_type)) ==> stream_url_spec(address, c) == peercast_base_spec(address)
            + "/stream/"@ + c.id + seq!['.'] + lower_seq(upper_seq(c.content_type)) + tip_query_spec(c),
        !self_named_type(upper_seq(c.content_type)) && upper_seq(c.content_type) != "OGM"@ ==> stream_url_spec(
            address,
            c,
        ) == peercast_base_spec(address) + "/stream/"@ + c.id + tip_query_spec(c),
{
    law_type_ext_names_the_type(c.content_type);
    let e = type_ext_spec(upper_seq(c.content_type));
    if self_named_type(upper_seq(c.content_type)) {
        assert(peercast_base_spec(address) + "/stream/"@ + c.id + e =~= peercast_base_spec(address) + "/stream/"@
            + c.id + seq!['.'] + lower_seq(upper_seq(c.content_type)));
    } else if upper_seq(c.content_type) != "OGM"@ {
        assert(e =~= Seq::<char>::empty());
        assert(peercast_base_spec(address) + "/stream/"@ + c.id + e =~= peercast_base_spec(address) + "/stream/"@
            + c.id);
    }
}

/// `http://127.0.0.1:7144/stream/<ID><ext>?tip=<tip>`
pub fn stream_url(pc: &PeerCastConfig, c: &Channel) -> (r: String)
    ensures
        r@ == stream_url_spec(pc.address@, c@),
{
    let mut s = peercast_base(pc);
    push_str(&mut s, "/stream/");
    push_str(&mut s, c.id.as_str());
    push_str(&mut s, type_ext(c.content_type.as_str()));
    let t = tip_query(c);
    push_str(&mut s, t.as_str());
    s
}

/// `http://127.0.0.1:7144/pls/<ID>?tip=<tip>`
pub fn playlist_url(pc: &PeerCastConfig, c: &Channel) -> (r: String)
    ensures
        r@ == playlist_url_spec(pc.address@, c@),
{
    let mut s = peercast_base(pc);
    push_str(&mut s, "/pls/");
    push_str(&mut s, c.id.as_str());
    let t = tip_query(c);
    push_str(&mut s, t.as_str());
    s
}

// ------------------------------------------------------------------ placeholders

/// The first entry of `table`, from `j` on, whose (non-empty) key starts `s`.
pub open spec fn key_at(s: Seq<char>, table: Seq<(Seq<char>, Seq<char>)>, j: int) -> Option<int>
    decreases table.len() - j,
{
    if j < 0 || j >= table.len() {
        None
    } else if table[j].0.len() > 0 && occurs_at(s, 0, table[j].0) {
        Some(j)
    } else {
        key_at(s, table, j + 1)
    }
}

/// `s` with each key of `table` replaced by its value, scanning from the left and
/// trying the keys in table order; the inserted values are not scanned again.
pub open spec fn substitute(s: Seq<char>, table: Seq<(Seq<char>, Seq<char>)>) -> Seq<char>
    decreases s.len(),
{
    if s.len() == 0 {
        seq![]
    } else {
        match key_at(s, table, 0) {
            Some(j) => if 0 <= j < table.len() && 0 < table[j].0.len() <= s.len() {
                table[j].1 + substitute(s.skip(table[j].0.len() as int), table)
            } else {
                seq![]
            },
            None => seq![s[0]] + substitute(s.skip(1), table),
        }
    }
}

pub open spec fn table_view(t: Seq<(Vec<char>, String)>) -> Seq<(Seq<char>, Seq<char>)> {
    t.map_values(|e: (Vec<char>, String)| (e.0@, e.1@))
}

fn key_entry(k: &str, v: String) -> (r: (Vec<char>, String))
    ensures
        r.0@ == k@,
        r.1@ == v@,
{
    (to_chars(k), v)
}

/// `key_at` for a table in memory.
fn find_key(v: &[char], at: usize, table: &Vec<(Vec<char>, String)>) -> (r: Option<usize>)
    requires
        at <= v.len(),
    ensures
        match (r, key_at(v@.skip(at as int), table_view(table@), 0)) {
            (Some(a), Some(b)) => a == b,
            (None, None) => true,
            _ => false,
        },
{
    let ghost s = v@.skip(at as int);
    let ghost tv = table_view(table@);
    let mut j: usize = table.len();
    // key_at(s, tv, j) is known for the suffix of the table already looked at
    let mut found: Option<usize> = None;
    while j > 0
        invariant
            j <= table@.len(),
            tv == table_view(table@),
            s == v@.skip(at as int),
            at <= v.len(),
            match (found, key_at(s, tv, j as int)) {
                (Some(a), Some(b)) => a == b,
                (None, None) => true,
                _ => false,
            },
        decreases j,
    {
        j -= 1;
        let key = &table[j].0;
        let hit = key.len() > 0 && has_at(v, at, key);
        proof {
            assert(tv[j as int] == (table@[j as int].0@, table@[j as int].1@));
            assert(occurs_at(v@, at as int, key@) == occurs_at(s, 0, key@)) by {
                if at + key@.len() <= v@.len() {
                    assert(v@.subrange(at as int, at + key@.len()) =~= s.subrange(
                        0,
                        key@.len() as int,
                    ));
                }
            }
        }
        if hit {
            found = Some(j);
        }
    }
    found
}

/// `substitute` of `arg`.
pub fn substitute_chars(arg: &[char], table: &Vec<(Vec<char>, String)>) -> (r: String)
    ensures
        r@ == substitute(arg@, table_view(table@)),
{
    let ghost tv = table_view(table@);
    let mut out = String::new();
    let mut i: usize = 0;
    assert(arg@.skip(0) =~= arg@);
    while i < arg.len()
        invariant
            i <= arg@.len(),
            tv == table_view(table@),
            substitute(arg@, tv) == out@ + substitute(arg@.skip(i as int), tv),
        decreases arg@.len() - i,
    {
        let ghost rest = arg@.skip(i as int);
        match find_key(arg, i, table) {
            Some(j) => {
                proof {
                    lemma_key_at_bounds(rest, tv, 0);
                    assert(tv[j as int].0 == table@[j as int].0@);
                    assert(tv[j as int].1 == table@[j as int].1@);
                }
                let klen = table[j].0.len();
                push_str(&mut out, table[j].1.as_str());
                assert(rest.skip(klen as int) =~= arg@.skip(i + klen));
                i = i + klen;
            },
            None => {
                push_char(&mut out, arg[i]);
                assert(rest.skip(1) =~= arg@.skip(i + 1));
                i += 1;
            },
        }
    }
    assert(arg@.skip(i as int) =~= Seq::<char>::empty());
    out
}

proof fn lemma_key_at_bounds(s: Seq<char>, table: Seq<(Seq<char>, Seq<char>)>, j: int)
    requires
        0 <= j,
    ensures
        key_at(s, table, j) matches Some(k) ==> j <= k < table.len() && 0 < table[k].0.len()
            <= s.len() && occurs_at(s, 0, table[k].0),
    decreases table.len() - j,
{
    if 0 <= j < table.len() && !(table[j].0.len() > 0 && occurs_at(s, 0, table[j].0)) {
        lemma_key_at_bounds(s, table, j + 1);
    }
}

/// No key of `table` starts with the character `c`.
pub open spec fn starts_no_key(table: Seq<(Seq<char>, Seq<char>)>, c: char) -> bool {
    forall|j: int| 0 <= j < table.len() && table[j].0.len() > 0 ==> (#[trigger] table[j]).0[0] != c
}

proof fn lemma_key_at_none(s: Seq<char>, table: Seq<(Seq<char>, Seq<char>)>, j: int)
    requires
        0 <= j,
        s.len() > 0,
        starts_no_key(table, s[0]),
    ensures
        key_at(s, table, j) is None,
    decreases table.len() - j,
{
    if j < table.len() {
        if table[j].0.len() > 0 && occurs_at(s, 0, table[j].0) {
            assert(s.subrange(0, table[j].0.len() as int)[0] == s[0]);
        }
        lemma_key_at_none(s, table, j + 1);
    }
}

/// Text none of whose characters starts a key is kept as it is, and what follows it
/// is read on its own.
pub proof fn lemma_substitute_plain(p: Seq<char>, rest: Seq<char>, table: Seq<(Seq<char>, Seq<char>)>)
    requires
        forall|i: int| 0 <= i < p.len() ==> starts_no_key(table, #[trigger] p[i]),
    ensures
        substitute(p + rest, table) == p + substitute(rest, table),
    decreases p.len(),
{
    if p.len() == 0 {
        assert(p + rest =~= rest);
        assert(p + substitute(rest, table) =~= substitute(rest, table));
    } else {
        let s = p + rest;
        assert(s[0] == p[0]);
        assert(starts_no_key(table, p[0]));
        lemma_key_at_none(s, table, 0);
        let q = p.skip(1);
        assert forall|i: int| 0 <= i < q.len() implies starts_no_key(table, #[trigger] q[i]) by {
            assert(q[i] == p[i + 1]);
        }
        lemma_substitute_plain(q, rest, table);
        assert(s.skip(1) =~= q + rest);
        assert(seq![p[0]] + (q + substitute(rest, table)) =~= p + substitute(rest, table));
    }
}

proof fn lemma_key_at_found(s: Seq<char>, table: Seq<(Seq<char>, Seq<char>)>, i: int, j: int)
    requires
        0 <= i <= j < table.len(),
        table[j].0.len() > 0,
        occurs_at(s, 0, table[j].0),
        forall|k: int| 0 <= k < j && table[k].0.len() > 0 ==> !occurs_at(s, 0, #[trigger] table[k].0),
    ensures
        key_at(s, table, i) == Some(j),
    decreases j - i,
{
    if i < j {
        lemma_key_at_found(s, table, i + 1, j);
    }
}

/// A key at the start, before which no earlier key of the table matches, gives its
/// value; what follows is read on its own, and the value is not read again.
pub proof fn lemma_substitute_key(
    rest: Seq<char>,
    table: Seq<(Seq<char>, Seq<char>)>,
    j: int,
)
    requires
        0 <= j < table.len(),
        table[j].0.len() > 0,
        forall|k: int|
            0 <= k < j && table[k].0.len() > 0 ==> !occurs_at(table[j].0 + rest, 0, #[trigger] table[k].0),
    ensures
        substitute(table[j].0 + rest, table) == table[j].1 + substitute(rest, table),
{
    let key = table[j].0;
    let s = key + rest;
    assert(s.subrange(0, key.len() as int) =~= key);
    lemma_key_at_found(s, table, 0, j);
    assert(s.skip(key.len() as int) =~= rest);
}

/// Two texts that differ at the position `d` within both: the second does not occur
/// at the start of the first followed by anything.
proof fn lemma_not_at_start(k: Seq<char>, rest: Seq<char>, other: Seq<char>, d: int)
    requires
        0 <= d < k.len(),
        d < other.len(),
        k[d] != other[d],
    ensures
        !occurs_at(k + rest, 0, other),
{
    if occurs_at(k + rest, 0, other) {
        assert((k + rest).subrange(0, other.len() as int)[d] == other[d]);
    }
}

/// The placeholders of a freely written play URL.
pub open spec fn custom_table(address: Seq<char>, c: ChannelModel) -> Seq<(Seq<char>, Seq<char>)> {
    seq![
        ("$BASE"@, peercast_base_spec(address)),
        ("$EXT"@, type_ext_spec(upper_seq(c.content_type))),
        ("$TIP"@, url_encode_spec(vstd::utf8::encode_utf8(c.tip))),
        ("$ID"@, c.id),
    ]
}

/// The play URL made from the template `custom_url`.
pub fn custom_url(pc: &PeerCastConfig, c: &Channel) -> (r: String)
    ensures
        r@ == substitute(pc.custom_url@, custom_table(pc.address@, c@)),
{
    let mut table: Vec<(Vec<char>, String)> = Vec::new();
    table.push(key_entry("$BASE", peercast_base(pc)));
    table.push(key_entry("$EXT", type_ext(c.content_type.as_str()).to_string()));
    table.push(key_entry("$TIP", url_encode(c.tip.as_str())));
    table.push(key_entry("$ID", c.id.clone()));
    assert(table_view(table@) =~= custom_table(pc.address@, c@));
    let t = to_chars(pc.custom_url.as_str());
    substitute_chars(&t, &table)
}

pub open spec fn play_url_spec(pc: PeerCastConfig, c: ChannelModel) -> Seq<char> {
    match pc.url_kind {
        PlayUrlKind::Stream => stream_url_spec(pc.address@, c),
        PlayUrlKind::Playlist => playlist_url_spec(pc.address@, c),
        PlayUrlKind::Custom => substitute(pc.custom_url@, custom_table(pc.address@, c)),
    }
}

/// The URL to play, of the kind that the settings choose.
pub fn play_url(pc: &PeerCastConfig, c: &Channel) -> (r: String)
    ensures
        r@ == play_url_spec(*pc, c@),
{
    match pc.url_kind {
        PlayUrlKind::Stream => stream_url(pc, c),
        PlayUrlKind::Playlist => playlist_url(pc, c),
        PlayUrlKind::Custom => custom_url(pc, c),
    }
}

/// With the default template and a tracker, the freely written play URL is the
/// stream URL.
pub proof fn law_default_custom_url_is_stream(pc: PeerCastConfig, c: ChannelModel)
    requires
        pc.url_kind == PlayUrlKind::Custom,
        pc.custom_url@ == DEFAULT_CUSTOM_URL@,
        c.tip.len() > 0,
    ensures
        play_url_spec(pc, c) == stream_url_spec(pc.address@, c),
{
    let t = custom_table(pc.address@, c);
    reveal_strlit("$BASE/stream/$ID$EXT?tip=$TIP");
    reveal_strlit("$BASE");
    reveal_strlit("$EXT");
    reveal_strlit("$TIP");
    reveal_strlit("$ID");
    reveal_strlit("/stream/");
    reveal_strlit("?tip=");
    let base = peercast_base_spec(pc.address@);
    let ext = type_ext_spec(upper_seq(c.content_type));
    let tip = url_encode_spec(vstd::utf8::encode_utf8(c.tip));
    let e = Seq::<char>::empty();
    // the template is read from its end back to its start
    let s6 = "$TIP"@ + e;
    lemma_not_at_start("$TIP"@, e, "$BASE"@, 1);
    lemma_not_at_start("$TIP"@, e, "$EXT"@, 1);
    lemma_substitute_key(e, t, 2);
    assert(substitute(e, t) =~= e);
    let s5 = "?tip="@ + s6;
    assert forall|i: int| 0 <= i < "?tip="@.len() implies starts_no_key(t, #[trigger] "?tip="@[i]) by {}
    lemma_substitute_plain("?tip="@, s6, t);
    let s4 = "$EXT"@ + s5;
    lemma_not_at_start("$EXT"@, s5, "$BASE"@, 1);
    lemma_substitute_key(s5, t, 1);
    let s3 = "$ID"@ + s4;
    lemma_not_at_start("$ID"@, s4, "$BASE"@, 1);
    lemma_not_at_start("$ID"@, s4, "$EXT"@, 1);
    lemma_not_at_start("$ID"@, s4, "$TIP"@, 1);
    lemma_substitute_key(s4, t, 3);
    let s2 = "/stream/"@ + s3;
    assert forall|i: int| 0 <= i < "/stream/"@.len() implies starts_no_key(t, #[trigger] "/stream/"@[i]) by {}
    lemma_substitute_plain("/stream/"@, s3, t);
    let s1 = "$BASE"@ + s2;
    lemma_substitute_key(s2, t, 0);
    assert(pc.custom_url@ =~= s1);
    assert(substitute(s1, t) =~= base + "/stream/"@ + c.id + ext + ("?tip="@ + tip));
}

// ------------------------------------------------------------------ command lines

/// Splitting like the Windows command line: blanks separate arguments, `"` toggles
/// quoting (and makes an argument even if it stays empty). `cur` is the argument being
/// read, `q` whether inside quotes, `has` whether an argument has started.
pub open spec fn split_args_from(
    s: Seq<char>,
    cur: Seq<char>,
    q: bool,
    has: bool,
    acc: Seq<Seq<char>>,
) -> Seq<Seq<char>>
    decreases s.len(),
{
    if s.len() == 0 {
        if has {
            acc.push(cur)
        } else {
            acc
        }
    } else {
        let ch = s[0];
        if ch == '"' {
            split_args_from(s.skip(1), cur, !q, true, acc)
        } else if is_ws(ch) && !q {
            if has {
                split_args_from(s.skip(1), seq![], q, false, acc.push(cur))
            } else {
                split_args_from(s.skip(1), cur, q, false, acc)
            }
        } else {
            split_args_from(s.skip(1), cur.push(ch), q, true, acc)
        }
    }
}

pub open spec fn split_args_spec(s: Seq<char>) -> Seq<Seq<char>> {
    split_args_from(s, seq![], false, false, seq![])
}

pub open spec fn strings_view(v: Seq<String>) -> Seq<Seq<char>> {
    v.map_values(|s: String| s@)
}

/// Splits an argument template like the Windows command line (blanks separate, `"`
/// quotes).
pub fn split_args(s: &str) -> (r: Vec<String>)
    ensures
        strings_view(r@) == split_args_spec(s@),
{
    let v = to_chars(s);
    let mut args: Vec<String> = Vec::new();
    let mut cur = String::new();
    let mut in_quote = false;
    let mut has_token = false;
    let mut i: usize = 0;
    assert(v@.skip(0) =~= v@);
    assert(strings_view(args@) =~= Seq::<Seq<char>>::empty());
    while i < v.len()
        invariant
            i <= v@.len(),
            v@ == s@,
            split_args_spec(s@) == split_args_from(
                v@.skip(i as int),
                cur@,
                in_quote,
                has_token,
                strings_view(args@),
            ),
        decreases v@.len() - i,
    {
        let ch = v[i];
        assert(v@.skip(i as int).skip(1) =~= v@.skip(i + 1));
        if ch == '"' {
            in_quote = !in_quote;
            has_token = true;
        } else if is_whitespace(ch) && !in_quote {
            if has_token {
                let ghost before = args@;
                let done = cur;
                args.push(done);
                cur = String::new();
                assert(strings_view(args@) =~= strings_view(before).push(done@));
                assert(cur@ =~= Seq::<char>::empty());
                has_token = false;
            }
        } else {
            push_char(&mut cur, ch);
            has_token = true;
        }
        i += 1;
    }
    assert(v@.skip(i as int) =~= Seq::<char>::empty());
    if has_token {
        let ghost before = args@;
        let done = cur;
        args.push(done);
        assert(strings_view(args@) =~= strings_view(before).push(done@));
    }
    args
}

/// Number of leading characters that are not white space.
pub open spec fn lead_nonws(s: Seq<char>) -> nat
    decreases s.len(),
{
    if s.len() > 0 && !is_ws(s[0]) {
        1 + lead_nonws(s.drop_first())
    } else {
        0
    }
}

proof fn lemma_lead_nonws(s: Seq<char>, i: int)
    requires
        0 <= i <= s.len(),
        forall|j: int| 0 <= j < i ==> !is_ws(#[trigger] s[j]),
        i == s.len() || is_ws(s[i]),
    ensures
        lead_nonws(s) == i,
    decreases i,
{
    if i > 0 {
        lemma_lead_nonws(s.drop_first(), i - 1);
    }
}

proof fn lemma_lead_nonws_bound(s: Seq<char>)
    ensures
        lead_nonws(s) <= s.len(),
    decreases s.len(),
{
    if s.len() > 0 && !is_ws(s[0]) {
        lemma_lead_nonws_bound(s.drop_first());
    }
}

/// The words of `s`: its runs of characters other than white space, in order
/// (`str::split_whitespace`).
pub open spec fn words(s: Seq<char>) -> Seq<Seq<char>>
    decreases s.len(),
    via words_decreases
{
    if s.len() == 0 {
        seq![]
    } else if is_ws(s[0]) {
        words(s.skip(1))
    } else {
        let n = lead_nonws(s) as int;
        seq![s.take(n)] + words(s.skip(n))
    }
}

#[via_fn]
proof fn words_decreases(s: Seq<char>) {
    if s.len() > 0 && !is_ws(s[0]) {
        lemma_lead_nonws_bound(s);
    }
}

/// A non-empty run of characters other than white space, then text that is empty or
/// starts with white space: that run is the first word.
proof fn lemma_first_word(cur: Seq<char>, s: Seq<char>)
    requires
        cur.len() > 0,
        forall|i: int| 0 <= i < cur.len() ==> !is_ws(#[trigger] cur[i]),
        s.len() == 0 || is_ws(s[0]),
    ensures
        words(cur + s) == seq![cur] + words(s),
{
    let x = cur + s;
    assert forall|j: int| 0 <= j < cur.len() implies !is_ws(#[trigger] x[j]) by {
        assert(x[j] == cur[j]);
    }
    if s.len() > 0 {
        assert(x[cur.len() as int] == s[0]);
    }
    lemma_lead_nonws(x, cur.len() as int);
    assert(x[0] == cur[0]);
    assert(x.take(cur.len() as int) =~= cur);
    assert(x.skip(cur.len() as int) =~= s);
}

proof fn lemma_split_unquoted(s: Seq<char>, cur: Seq<char>, has: bool, acc: Seq<Seq<char>>)
    requires
        !s.contains('"'),
        has <==> cur.len() > 0,
        forall|i: int| 0 <= i < cur.len() ==> !is_ws(#[trigger] cur[i]),
    ensures
        split_args_from(s, cur, false, has, acc) == acc + words(cur + s),
    decreases s.len(),
{
    if s.len() == 0 {
        assert(cur + s =~= cur);
        if has {
            lemma_first_word(cur, s);
            assert(words(s) =~= Seq::<Seq<char>>::empty());
            assert(acc.push(cur) =~= acc + (seq![cur] + words(s)));
        } else {
            assert(cur =~= Seq::<char>::empty());
            assert(acc + words(cur) =~= acc);
        }
    } else {
        let ch = s[0];
        let r = s.skip(1);
        assert(!r.contains('"')) by {
            if r.contains('"') {
                let i = choose|i: int| 0 <= i < r.len() && r[i] == '"';
                assert(s[i + 1] == '"');
            }
        }
        assert(ch != '"') by {
            assert(s[0] == ch);
        }
        if is_ws(ch) {
            assert(words(s) == words(r));
            if has {
                lemma_split_unquoted(r, seq![], false, acc.push(cur));
                assert(seq![] + r =~= r);
                lemma_first_word(cur, s);
                assert(acc.push(cur) + words(r) =~= acc + (seq![cur] + words(s)));
            } else {
                lemma_split_unquoted(r, cur, false, acc);
                assert(cur =~= Seq::<char>::empty());
                assert(cur + r =~= r);
                assert(cur + s =~= s);
            }
        } else {
            let c2 = cur.push(ch);
            assert forall|i: int| 0 <= i < c2.len() implies !is_ws(#[trigger] c2[i]) by {
                if i < cur.len() {
                    assert(c2[i] == cur[i]);
                }
            }
            lemma_split_unquoted(r, c2, true, acc);
            assert(c2 + r =~= cur + s);
        }
    }
}

proof fn lemma_split_no_quote(s: Seq<char>, cur: Seq<char>, q: bool, has: bool, acc: Seq<Seq<char>>)
    requires
        !cur.contains('"'),
        forall|i: int| 0 <= i < acc.len() ==> !(#[trigger] acc[i]).contains('"'),
    ensures
        forall|i: int|
            0 <= i < split_args_from(s, cur, q, has, acc).len() ==> !(#[trigger] split_args_from(
                s,
                cur,
                q,
                has,
                acc,
            )[i]).contains('"'),
    decreases s.len(),
{
    if s.len() == 0 {
        if has {
            let a2 = acc.push(cur);
            assert forall|i: int| 0 <= i < a2.len() implies !(#[trigger] a2[i]).contains('"') by {
                if i < acc.len() {
                    assert(a2[i] == acc[i]);
                } else {
                    assert(a2[i] == cur);
                }
            }
            assert(split_args_from(s, cur, q, has, acc) == a2);
        }
    } else {
        let ch = s[0];
        if ch == '"' {
            lemma_split_no_quote(s.skip(1), cur, !q, true, acc);
            assert(split_args_from(s, cur, q, has, acc) == split_args_from(s.skip(1), cur, !q, true, acc));
        } else if is_ws(ch) && !q {
            if has {
                let a2 = acc.push(cur);
                assert forall|i: int| 0 <= i < a2.len() implies !(#[trigger] a2[i]).contains('"') by {
                    if i < acc.len() {
                        assert(a2[i] == acc[i]);
                    }
                }
                assert(!Seq::<char>::empty().contains('"'));
                lemma_split_no_quote(s.skip(1), seq![], q, false, a2);
                assert(split_args_from(s, cur, q, has, acc) == split_args_from(s.skip(1), seq![], q, false, a2));
            } else {
                lemma_split_no_quote(s.skip(1), cur, q, false, acc);
                assert(split_args_from(s, cur, q, has, acc) == split_args_from(s.skip(1), cur, q, false, acc));
            }
        } else {
            let c2 = cur.push(ch);
            assert(!c2.contains('"')) by {
                if c2.contains('"') {
                    let i = choose|i: int| 0 <= i < c2.len() && c2[i] == '"';
                    if i < cur.len() {
                        assert(cur[i] == '"');
                    }
                }
            }
            lemma_split_no_quote(s.skip(1), c2, q, true, acc);
            assert(split_args_from(s, cur, q, has, acc) == split_args_from(s.skip(1), c2, q, true, acc));
        }
    }
}

/// No argument holds a quote, and a template without quotes is split at white space
/// as `str::split_whitespace` splits it.
pub proof fn law_split_args(s: Seq<char>)
    ensures
        forall|i: int| 0 <= i < split_args_spec(s).len() ==> !(#[trigger] split_args_spec(s)[i]).contains('"'),
        !s.contains('"') ==> split_args_spec(s) == words(s),
{
    lemma_split_no_quote(s, seq![], false, false, seq![]);
    if !s.contains('"') {
        lemma_split_unquoted(s, seq![], false, seq![]);
        assert(seq![] + s =~= s);
        assert(Seq::<Seq<char>>::empty() + words(s) =~= words(s));
    }
}

/// The placeholders of player arguments, longest first, with the pcyplite tags.
pub open spec fn args_table(pc: PeerCastConfig, c: ChannelModel) -> Seq<(Seq<char>, Seq<char>)> {
    let url = play_url_spec(pc, c);
    seq![
        ("$CONTACT"@, c.url),
        ("$COMMENT"@, c.comment),
        ("$BITRATE"@, dec_int(c.bitrate as int)),
        ("$STREAM"@, stream_url_spec(pc.address@, c)),
        ("$GENRE"@, c.genre),
        ("$NAME"@, c.name),
        ("$TYPE"@, c.content_type),
        ("$DESC"@, c.desc),
        ("$URL"@, url),
        ("$PLS"@, playlist_url_spec(pc.address@, c)),
        ("$TIP"@, c.tip),
        ("$ID"@, c.id),
        ("<stream/>"@, url),
        ("<channelname/>"@, c.name),
        ("<contact/>"@, c.url),
        ("<id/>"@, c.id),
        ("<tip/>"@, c.tip),
    ]
}

/// The player's arguments: the template split into arguments, then the placeholders of
/// each replaced (without replacing inside what was put in).
pub fn expand_args(template: &str, pc: &PeerCastConfig, c: &Channel) -> (r: Vec<String>)
    ensures
        r@.len() == split_args_spec(template@).len(),
        forall|i: int|
            0 <= i < r@.len() ==> (#[trigger] r@[i])@ == substitute(
                split_args_spec(template@)[i],
                args_table(*pc, c@),
            ),
{
    let url = play_url(pc, c);
    let mut bitrate = String::new();
    push_dec_int(&mut bitrate, c.bitrate as i64);
    let mut table: Vec<(Vec<char>, String)> = Vec::new();
    table.push(key_entry("$CONTACT", c.url.clone()));
    table.push(key_entry("$COMMENT", c.comment.clone()));
    table.push(key_entry("$BITRATE", bitrate));
    table.push(key_entry("$STREAM", stream_url(pc, c)));
    table.push(key_entry("$GENRE", c.genre.clone()));
    table.push(key_entry("$NAME", c.name.clone()));
    table.push(key_entry("$TYPE", c.content_type.clone()));
    table.push(key_entry("$DESC", c.desc.clone()));
    table.push(key_entry("$URL", url.clone()));
    table.push(key_entry("$PLS", playlist_url(pc, c)));
    table.push(key_entry("$TIP", c.tip.clone()));
    table.push(key_entry("$ID", c.id.clone()));
    table.push(key_entry("<stream/>", url));
    table.push(key_entry("<channelname/>", c.name.clone()));
    table.push(key_entry("<contact/>", c.url.clone()));
    table.push(key_entry("<id/>", c.id.clone()));
    table.push(key_entry("<tip/>", c.tip.clone()));
    assert(table_view(table@) =~= args_table(*pc, c@));
    let args = split_args(template);
    let ghost parts = split_args_spec(template@);
    assert(args@.len() == parts.len()) by {
        assert(strings_view(args@).len() == args@.len());
    }
    let mut out: Vec<String> = Vec::new();
    let mut k: usize = 0;
    while k < args.len()
        invariant
            k <= args@.len(),
            args@.len() == parts.len(),
            strings_view(args@) == parts,
            table_view(table@) == args_table(*pc, c@),
            out@.len() == k,
            forall|i: int|
                0 <= i < k ==> (#[trigger] out@[i])@ == substitute(parts[i], args_table(*pc, c@)),
        decreases args@.len() - k,
    {
        let a = to_chars(args[k].as_str());
        assert(a@ == parts[k as int]) by {
            assert(strings_view(args@)[k as int] == args@[k as int]@);
        }
        let e = substitute_chars(&a, &table);
        out.push(e);
        k += 1;
    }
    out
}

proof fn lemma_args_keys(pc: PeerCastConfig, c: ChannelModel)
    ensures
        forall|ch: char| ch != '$' && ch != '<' ==> #[trigger] starts_no_key(args_table(pc, c), ch),
{
    reveal_strlit("$CONTACT");
    reveal_strlit("$COMMENT");
    reveal_strlit("$BITRATE");
    reveal_strlit("$STREAM");
    reveal_strlit("$GENRE");
    reveal_strlit("$NAME");
    reveal_strlit("$TYPE");
    reveal_strlit("$DESC");
    reveal_strlit("$URL");
    reveal_strlit("$PLS");
    reveal_strlit("$TIP");
    reveal_strlit("$ID");
    reveal_strlit("<stream/>");
    reveal_strlit("<channelname/>");
    reveal_strlit("<contact/>");
    reveal_strlit("<id/>");
    reveal_strlit("<tip/>");
    let t = args_table(pc, c);
    assert forall|j: int| 0 <= j < t.len() implies (#[trigger] t[j]).0[0] == '$' || t[j].0[0] == '<' by {}
}

/// In a player argument, text without `$` or `<` is kept as it is; `$NAME` and `$URL`
/// give the channel's name and the play URL whatever follows them, and what they put
/// in is not read again (only what follows is).
pub proof fn law_args_placeholders(pc: PeerCastConfig, c: ChannelModel, a: Seq<char>, rest: Seq<char>)
    ensures
        (!a.contains('$') && !a.contains('<')) ==> substitute(a, args_table(pc, c)) == a,
        substitute("$NAME"@ + rest, args_table(pc, c)) == c.name + substitute(rest, args_table(pc, c)),
        substitute("$URL"@ + rest, args_table(pc, c)) == play_url_spec(pc, c) + substitute(
            rest,
            args_table(pc, c),
        ),
{
    let t = args_table(pc, c);
    let e = Seq::<char>::empty();
    lemma_args_keys(pc, c);
    if !a.contains('$') && !a.contains('<') {
        assert forall|i: int| 0 <= i < a.len() implies starts_no_key(t, #[trigger] a[i]) by {
            if a[i] == '$' {
                assert(a.contains('$'));
            }
            if a[i] == '<' {
                assert(a.contains('<'));
            }
        }
        lemma_substitute_plain(a, e, t);
        assert(a + e =~= a);
        assert(substitute(e, t) =~= e);
        assert(a + substitute(e, t) =~= a);
    }
    reveal_strlit("$CONTACT");
    reveal_strlit("$COMMENT");
    reveal_strlit("$BITRATE");
    reveal_strlit("$STREAM");
    reveal_strlit("$GENRE");
    reveal_strlit("$NAME");
    reveal_strlit("$TYPE");
    reveal_strlit("$DESC");
    reveal_strlit("$URL");
    assert forall|k: int| 0 <= k < 5 && t[k].0.len() > 0 implies !occurs_at(
        t[5].0 + rest,
        0,
        #[trigger] t[k].0,
    ) by {
        lemma_not_at_start(t[5].0, rest, t[k].0, 1);
    }
    lemma_substitute_key(rest, t, 5);
    assert forall|k: int| 0 <= k < 8 && t[k].0.len() > 0 implies !occurs_at(
        t[8].0 + rest,
        0,
        #[trigger] t[k].0,
    ) by {
        lemma_not_at_start(t[8].0, rest, t[k].0, 1);
    }
    lemma_substitute_key(rest, t, 8);
}

/// `key` followed by anything does not start with `other`: they differ at one of
/// their first four places.
proof fn lemma_key_differs(key: Seq<char>, rest: Seq<char>, other: Seq<char>)
    requires
        (0 < key.len() && 0 < other.len() && key[0] != other[0]) || (1 < key.len() && 1 < other.len()
            && key[1] != other[1]) || (2 < key.len() && 2 < other.len() && key[2] != other[2]) || (3
            < key.len() && 3 < other.len() && key[3] != other[3]),
    ensures
        !occurs_at(key + rest, 0, other),
{
    if 0 < key.len() && 0 < other.len() && key[0] != other[0] {
        lemma_not_at_start(key, rest, other, 0);
    } else if 1 < key.len() && 1 < other.len() && key[1] != other[1] {
        lemma_not_at_start(key, rest, other, 1);
    } else if 2 < key.len() && 2 < other.len() && key[2] != other[2] {
        lemma_not_at_start(key, rest, other, 2);
    } else {
        lemma_not_at_start(key, rest, other, 3);
    }
}

/// Each placeholder of a player argument, followed by any text, gives its own value
/// (the channel's contact URL, comment, bitrate, stream URL, genre, name, type,
/// description, play URL, playlist URL, tracker or ID), then that text expanded on its
/// own; a value put in is never read again.
pub proof fn law_args_each_placeholder(pc: PeerCastConfig, c: ChannelModel, rest: Seq<char>)
    ensures
        ({
            let t = args_table(pc, c);
            &&& substitute("$CONTACT"@ + rest, t) == c.url + substitute(rest, t)
            &&& substitute("$COMMENT"@ + rest, t) == c.comment + substitute(rest, t)
            &&& substitute("$BITRATE"@ + rest, t) == dec_int(c.bitrate as int) + substitute(rest, t)
            &&& substitute("$STREAM"@ + rest, t) == stream_url_spec(pc.address@, c) + substitute(rest, t)
            &&& substitute("$GENRE"@ + rest, t) == c.genre + substitute(rest, t)
            &&& substitute("$NAME"@ + rest, t) == c.name + substitute(rest, t)
            &&& substitute("$TYPE"@ + rest, t) == c.content_type + substitute(rest, t)
            &&& substitute("$DESC"@ + rest, t) == c.desc + substitute(rest, t)
            &&& substitute("$URL"@ + rest, t) == play_url_spec(pc, c) + substitute(rest, t)
            &&& substitute("$PLS"@ + rest, t) == playlist_url_spec(pc.address@, c) + substitute(rest, t)
            &&& substitute("$TIP"@ + rest, t) == c.tip + substitute(rest, t)
            &&& substitute("$ID"@ + rest, t) == c.id + substitute(rest, t)
            &&& substitute("<stream/>"@ + rest, t) == play_url_spec(pc, c) + substitute(rest, t)
            &&& substitute("<channelname/>"@ + rest, t) == c.name + substitute(rest, t)
            &&& substitute("<contact/>"@ + rest, t) == c.url + substitute(rest, t)
            &&& substitute("<id/>"@ + rest, t) == c.id + substitute(rest, t)
            &&& substitute("<tip/>"@ + rest, t) == c.tip + substitute(rest, t)
        }),
{
    let t = args_table(pc, c);
    reveal_strlit("$CONTACT");
    reveal_strlit("$COMMENT");
    reveal_strlit("$BITRATE");
    reveal_strlit("$STREAM");
    reveal_strlit("$GENRE");
    reveal_strlit("$NAME");
    reveal_strlit("$TYPE");
    reveal_strlit("$DESC");
    reveal_strlit("$URL");
    reveal_strlit("$PLS");
    reveal_strlit("$TIP");
    reveal_strlit("$ID");
    reveal_strlit("<stream/>");
    reveal_strlit("<channelname/>");
    reveal_strlit("<contact/>");
    reveal_strlit("<id/>");
    reveal_strlit("<tip/>");
    assert forall|j: int| 0 <= j < t.len() implies {
        &&& (#[trigger] t[j]).0.len() > 0
        &&& forall|k: int| 0 <= k < j ==> !occurs_at(t[j].0 + rest, 0, #[trigger] t[k].0)
    } by {
        assert forall|k: int| 0 <= k < j implies !occurs_at(t[j].0 + rest, 0, #[trigger] t[k].0) by {
            lemma_key_differs(t[j].0, rest, t[k].0);
        }
    }
    lemma_substitute_key(rest, t, 0);
    lemma_substitute_key(rest, t, 1);
    lemma_substitute_key(rest, t, 2);
    lemma_substitute_key(rest, t, 3);
    lemma_substitute_key(rest, t, 4);
    lemma_substitute_key(rest, t, 5);
    lemma_substitute_key(rest, t, 6);
    lemma_substitute_key(rest, t, 7);
    lemma_substitute_key(rest, t, 8);
    lemma_substitute_key(rest, t, 9);
    lemma_substitute_key(rest, t, 10);
    lemma_substitute_key(rest, t, 11);
    lemma_substitute_key(rest, t, 12);
    lemma_substitute_key(rest, t, 13);
    lemma_substitute_key(rest, t, 14);
    lemma_substitute_key(rest, t, 15);
    lemma_substitute_key(rest, t, 16);
}

// ------------------------------------------------------------------ starting a player

/// The text of an executable path: blanks around it and enclosing quotes dropped.
pub open spec fn exe_text_spec(path: Seq<char>) -> Seq<char> {
    let t = trim(path);
    t.subrange(lead_quotes(t) as int, t.len() - trail_quotes(t.skip(lead_quotes(t) as int)))
}

pub open spec fn lead_quotes(s: Seq<char>) -> nat
    decreases s.len(),
{
    if s.len() > 0 && s[0] == '"' {
        1 + lead_quotes(s.drop_first())
    } else {
        0
    }
}

pub open spec fn trail_quotes(s: Seq<char>) -> nat
    decreases s.len(),
{
    if s.len() > 0 && s.last() == '"' {
        1 + trail_quotes(s.drop_last())
    } else {
        0
    }
}

proof fn lemma_lead_quotes(s: Seq<char>, i: int)
    requires
        0 <= i <= s.len(),
        forall|j: int| 0 <= j < i ==> #[trigger] s[j] == '"',
        i == s.len() || s[i] != '"',
    ensures
        lead_quotes(s) == i,
    decreases i,
{
    if i > 0 {
        lemma_lead_quotes(s.drop_first(), i - 1);
    }
}

proof fn lemma_trail_quotes(s: Seq<char>, i: int)
    requires
        0 <= i <= s.len(),
        forall|j: int| s.len() - i <= j < s.len() ==> #[trigger] s[j] == '"',
        i == s.len() || s[s.len() - i - 1] != '"',
    ensures
        trail_quotes(s) == i,
    decreases i,
{
    if i > 0 {
        lemma_trail_quotes(s.drop_last(), i - 1);
    }
}

/// The path of an executable as written in the settings, without blanks around it and
/// without the quotes that enclose it.
pub fn exe_text(path: &str) -> (r: String)
    ensures
        r@ == exe_text_spec(path@),
{
    let t = trim_chars(path);
    let mut a: usize = 0;
    while a < t.len() && t[a] == '"'
        invariant
            a <= t@.len(),
            forall|j: int| 0 <= j < a ==> #[trigger] t@[j] == '"',
        decreases t@.len() - a,
    {
        a += 1;
    }
    let mut b: usize = t.len();
    while b > a && t[b - 1] == '"'
        invariant
            a <= b <= t@.len(),
            forall|j: int| b <= j < t@.len() ==> #[trigger] t@[j] == '"',
        decreases b - a,
    {
        b -= 1;
    }
    proof {
        lemma_lead_quotes(t@, a as int);
        let u = t@.skip(a as int);
        assert forall|j: int| u.len() - (t@.len() - b) <= j < u.len() implies #[trigger] u[j]
            == '"' by {
            assert(u[j] == t@[a + j]);
        }
        lemma_trail_quotes(u, t@.len() - b);
    }
    crate::text::sub_string(&t, a, b)
}

/// The first player with an executable that is for `content_type`.
pub open spec fn player_for(players: Seq<PlayerEntry>, content_type: Seq<char>, i: int) -> bool {
    &&& 0 <= i < players.len()
    &&& trim(players[i].exe@).len() > 0
    &&& player_matches(players[i].types@, content_type)
}

/// Index of the first usable player for `content_type`.
pub fn find_player(players: &Vec<PlayerEntry>, content_type: &str) -> (r: Option<usize>)
    ensures
        match r {
            Some(i) => player_for(players@, content_type@, i as int) && forall|j: int|
                0 <= j < i ==> !player_for(players@, content_type@, j),
            None => forall|j: int| 0 <= j < players@.len() ==> !player_for(players@, content_type@, j),
        },
{
    let mut i: usize = 0;
    while i < players.len()
        invariant
            i <= players@.len(),
            forall|j: int| 0 <= j < i ==> !player_for(players@, content_type@, j),
        decreases players@.len() - i,
    {
        let e = trim_chars(players[i].exe.as_str());
        if e.len() > 0 && players[i].matches(content_type) {
            return Some(i);
        }
        i += 1;
    }
    None
}

/// What is needed to start a player for a channel: its executable (as written) and
/// its arguments.
pub struct PlayPlan {
    pub exe: String,
    pub args: Vec<String>,
}

pub open spec fn no_id_msg() -> Seq<char> {
    "このチャンネルは再生できません (ID がありません)"@
}

pub open spec fn no_player_msg(content_type: Seq<char>) -> Seq<char> {
    "種類 "@ + content_type + " のプレイヤーが設定されていません"@
}

/// Chooses the player for a channel and its arguments; information lines cannot be
/// played, and there must be a player for the content type.
pub fn plan_play(players: &Vec<PlayerEntry>, pc: &PeerCastConfig, c: &Channel) -> (r: Result<
    PlayPlan,
    String,
>)
    ensures
        is_info_spec(c@) ==> (r matches Err(e) && e@ == no_id_msg()),
        !is_info_spec(c@) ==> match r {
            Ok(p) => exists|i: int|
                {
                    &&& player_for(players@, c.content_type@, i)
                    &&& forall|j: int| 0 <= j < i ==> !player_for(players@, c.content_type@, j)
                    &&& p.exe@ == players@[i].exe@
                    &&& p.args@.len() == split_args_spec(players@[i].args@).len()
                    &&& forall|k: int|
                        0 <= k < p.args@.len() ==> (#[trigger] p.args@[k])@ == substitute(
                            split_args_spec(players@[i].args@)[k],
                            args_table(*pc, c@),
                        )
                },
            Err(e) => e@ == no_player_msg(c.content_type@) && forall|j: int|
                0 <= j < players@.len() ==> !player_for(players@, c.content_type@, j),
        },
{
    if c.is_info() {
        let mut m = String::new();
        push_str(&mut m, "このチャンネルは再生できません (ID がありません)");
        return Err(m);
    }
    match find_player(players, c.content_type.as_str()) {
        Some(i) => {
            let args = expand_args(players[i].args.as_str(), pc, c);
            Ok(PlayPlan { exe: players[i].exe.clone(), args })
        },
        None => {
            let mut m = String::new();
            push_str(&mut m, "種類 ");
            push_str(&mut m, c.content_type.as_str());
            push_str(&mut m, " のプレイヤーが設定されていません");
            Err(m)
        },
    }
}


/// How a URL is opened.
#[derive(Clone, Copy, Debug, PartialEq, Eq)]
pub enum Opener {
    /// With the browser of the settings
    Browser,
    /// With what the system opens URLs with
    System,
}

pub open spec fn not_http_msg(url: Seq<char>) -> Seq<char> {
    "http(s) でない URL は開きません: "@ + url
}

/// Decides how to open a URL: only http(s) URLs are opened, with the browser of the
/// settings when one is set.
pub fn plan_open(browser: &str, url: &str) -> (r: Result<Opener, String>)
    ensures
        !is_http_url_spec(url@) <==> r is Err,
        r matches Err(e) ==> e@ == not_http_msg(url@),
        r matches Ok(o) ==> (o == Opener::Browser <==> trim(browser@).len() > 0),
{
    if !is_http_url(url) {
        let mut m = String::new();
        push_str(&mut m, "http(s) でない URL は開きません: ");
        push_str(&mut m, url);
        return Err(m);
    }
    let b = trim_chars(browser);
    if b.len() > 0 {
        Ok(Opener::Browser)
    } else {
        Ok(Opener::System)
    }
}

} // verus!
