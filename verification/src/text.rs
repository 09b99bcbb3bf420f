//! Character-level text helpers shared by the parsers and URL builders.
//!
//! Every exec helper works on `Vec<char>` / `&[char]` and is specified over
//! `Seq<char>`, the view of Rust strings in Verus.
use vstd::prelude::*;

verus! {

// ------------------------------------------------------------------ character classes

/// Unicode `White_Space`, the set that `char::is_whitespace` and `str::trim` use.
pub open spec fn is_ws(c: char) -> bool {
    ||| ('\u{9}' <= c && c <= '\u{d}')
    ||| c == ' '
    ||| c == '\u{85}'
    ||| c == '\u{a0}'
    ||| c == '\u{1680}'
    ||| ('\u{2000}' <= c && c <= '\u{200a}')
    ||| c == '\u{2028}'
    ||| c == '\u{2029}'
    ||| c == '\u{202f}'
    ||| c == '\u{205f}'
    ||| c == '\u{3000}'
}

pub fn is_whitespace(c: char) -> (r: bool)
    ensures
        r == is_ws(c),
{
    ('\u{9}' <= c && c <= '\u{d}') || c == ' ' || c == '\u{85}' || c == '\u{a0}' || c == '\u{1680}'
        || ('\u{2000}' <= c && c <= '\u{200a}') || c == '\u{2028}' || c == '\u{2029}' || c
        == '\u{202f}' || c == '\u{205f}' || c == '\u{3000}'
}

pub open spec fn is_digit(c: char) -> bool {
    '0' <= c && c <= '9'
}

pub open spec fn is_hex_digit(c: char) -> bool {
    is_digit(c) || ('a' <= c && c <= 'f') || ('A' <= c && c <= 'F')
}

/// ASCII lower case of one character (`char::to_ascii_lowercase`).
pub open spec fn lower(c: char) -> char {
    if 'A' <= c && c <= 'Z' {
        ((c as u32) + 32) as char
    } else {
        c
    }
}

/// ASCII upper case of one character (`char::to_ascii_uppercase`).
pub open spec fn upper(c: char) -> char {
    if 'a' <= c && c <= 'z' {
        ((c as u32) - 32) as char
    } else {
        c
    }
}

pub open spec fn lower_seq(s: Seq<char>) -> Seq<char> {
    Seq::new(s.len(), |i: int| lower(s[i]))
}

pub open spec fn upper_seq(s: Seq<char>) -> Seq<char> {
    Seq::new(s.len(), |i: int| upper(s[i]))
}

pub fn to_lower(c: char) -> (r: char)
    ensures
        r == lower(c),
{
    if 'A' <= c && c <= 'Z' {
        let u: u32 = c as u32 + 32;
        char_of_ascii(u)
    } else {
        c
    }
}

pub fn to_upper(c: char) -> (r: char)
    ensures
        r == upper(c),
{
    if 'a' <= c && c <= 'z' {
        let u: u32 = c as u32 - 32;
        char_of_ascii(u)
    } else {
        c
    }
}

/// The character with the given ASCII code.
pub fn char_of_ascii(u: u32) -> (c: char)
    requires
        u < 128,
    ensures
        c == u as char,
        c as u32 == u,
{
    let b: u8 = u as u8;
    b as char
}

// ------------------------------------------------------------------ conversions

/// `String::push`: `s` with `c` added at its end.
#[verifier::external_body]
fn string_push(s: &mut String, c: char)
    ensures
        final(s)@ == old(s)@.push(c),
{
    s.push(c);
}

/// Appends one character (`String::push`).
pub fn push_char(s: &mut String, c: char)
    ensures
        final(s)@ == old(s)@.push(c),
{
    string_push(s, c);
}

/// Appends a string (`String::push_str`).
pub fn push_str(s: &mut String, t: &str)
    ensures
        final(s)@ == old(s)@ + t@,
{
    s.append(t);
}

/// Appends the characters of `v`.
pub fn push_chars(s: &mut String, v: &[char])
    ensures
        final(s)@ == old(s)@ + v@,
{
    let ghost s0 = s@;
    let mut i: usize = 0;
    while i < v.len()
        invariant
            i <= v.len(),
            s@ == s0 + v@.take(i as int),
        decreases v.len() - i,
    {
        push_char(s, v[i]);
        assert(v@.take(i as int).push(v@[i as int]) =~= v@.take(i + 1));
        i += 1;
    }
    assert(v@.take(v.len() as int) =~= v@);
}

/// The characters of a string.
pub fn to_chars(s: &str) -> (v: Vec<char>)
    ensures
        v@ == s@,
{
    let mut v: Vec<char> = Vec::new();
    for c in it: s.chars()
        invariant
            v@ == it.seq().take(it.index() as int),
            it.seq() == s@,
    {
        v.push(c);
    }
    v
}

/// A string made of the given characters.
pub fn from_chars(v: &[char]) -> (s: String)
    ensures
        s@ == v@,
{
    let mut s = String::new();
    push_chars(&mut s, v);
    s
}

/// Copy of `v[from..to]`.
pub fn slice_of(v: &[char], from: usize, to: usize) -> (r: Vec<char>)
    requires
        from <= to <= v.len(),
    ensures
        r@ == v@.subrange(from as int, to as int),
{
    let mut r: Vec<char> = Vec::new();
    let mut i = from;
    while i < to
        invariant
            from <= i <= to <= v.len(),
            r@ == v@.subrange(from as int, i as int),
        decreases to - i,
    {
        r.push(v[i]);
        assert(v@.subrange(from as int, i as int).push(v@[i as int]) =~= v@.subrange(
            from as int,
            i + 1,
        ));
        i += 1;
    }
    r
}

/// The string `v[from..to]`.
pub fn sub_string(v: &[char], from: usize, to: usize) -> (s: String)
    requires
        from <= to <= v.len(),
    ensures
        s@ == v@.subrange(from as int, to as int),
{
    let r = slice_of(v, from, to);
    from_chars(&r)
}

/// Whether `v` holds exactly the characters of `s`.
pub fn eq_str(v: &[char], s: &str) -> (r: bool)
    ensures
        r == (v@ == s@),
{
    let w = to_chars(s);
    eq_chars(v, &w)
}

pub fn eq_chars(a: &[char], b: &[char]) -> (r: bool)
    ensures
        r == (a@ == b@),
{
    if a.len() != b.len() {
        return false;
    }
    let mut i: usize = 0;
    while i < a.len()
        invariant
            a.len() == b.len(),
            i <= a.len(),
            forall|j: int| 0 <= j < i ==> a@[j] == b@[j],
        decreases a.len() - i,
    {
        if a[i] != b[i] {
            return false;
        }
        i += 1;
    }
    assert(a@ =~= b@);
    true
}

/// Whether `p` occurs in `v` at position `at`.
pub open spec fn occurs_at(s: Seq<char>, at: int, p: Seq<char>) -> bool {
    0 <= at && at + p.len() <= s.len() && s.subrange(at, at + p.len()) == p
}

pub fn has_at(v: &[char], at: usize, p: &[char]) -> (r: bool)
    ensures
        r == occurs_at(v@, at as int, p@),
{
    if at > v.len() || v.len() - at < p.len() {
        return false;
    }
    let mut i: usize = 0;
    while i < p.len()
        invariant
            at + p.len() <= v.len(),
            i <= p.len(),
            forall|j: int| 0 <= j < i ==> v@[at + j] == p@[j],
        decreases p.len() - i,
    {
        if v[at + i] != p[i] {
            assert(v@.subrange(at as int, at + p.len())[i as int] != p@[i as int]);
            return false;
        }
        i += 1;
    }
    assert(v@.subrange(at as int, at + p.len()) =~= p@);
    true
}

/// `p` occurs somewhere in `s`.
pub open spec fn contains_seq(s: Seq<char>, p: Seq<char>) -> bool {
    exists|i: int| 0 <= i <= s.len() && occurs_at(s, i, p)
}

/// Whether `p` occurs somewhere in `v`.
pub fn has_sub(v: &[char], p: &[char]) -> (r: bool)
    ensures
        r == contains_seq(v@, p@),
{
    let mut i: usize = 0;
    loop
        invariant
            i <= v.len(),
            forall|j: int| 0 <= j < i ==> !occurs_at(v@, j, p@),
        decreases v.len() - i,
    {
        if has_at(v, i, p) {
            return true;
        }
        if i == v.len() {
            return false;
        }
        i += 1;
    }
}

pub fn starts_with_str(v: &[char], p: &str) -> (r: bool)
    ensures
        r == occurs_at(v@, 0, p@),
{
    let w = to_chars(p);
    has_at(v, 0, &w)
}

// ------------------------------------------------------------------ trimming

/// Number of leading white-space characters.
pub open spec fn lead_ws(s: Seq<char>) -> nat
    decreases s.len(),
{
    if s.len() > 0 && is_ws(s[0]) {
        1 + lead_ws(s.drop_first())
    } else {
        0
    }
}

/// Number of trailing white-space characters.
pub open spec fn trail_ws(s: Seq<char>) -> nat
    decreases s.len(),
{
    if s.len() > 0 && is_ws(s.last()) {
        1 + trail_ws(s.drop_last())
    } else {
        0
    }
}

/// `str::trim_start`.
pub open spec fn trim_start(s: Seq<char>) -> Seq<char> {
    s.skip(lead_ws(s) as int)
}

/// `str::trim_end`.
pub open spec fn trim_end(s: Seq<char>) -> Seq<char> {
    s.take(s.len() - trail_ws(s))
}

/// `str::trim`.
pub open spec fn trim(s: Seq<char>) -> Seq<char> {
    trim_end(trim_start(s))
}

pub proof fn lemma_lead_ws(s: Seq<char>, i: int)
    requires
        0 <= i <= s.len(),
        forall|j: int| 0 <= j < i ==> is_ws(#[trigger] s[j]),
        i == s.len() || !is_ws(s[i]),
    ensures
        lead_ws(s) == i,
    decreases i,
{
    if i > 0 {
        lemma_lead_ws(s.drop_first(), i - 1);
    }
}

pub proof fn lemma_trail_ws(s: Seq<char>, i: int)
    requires
        0 <= i <= s.len(),
        forall|j: int| s.len() - i <= j < s.len() ==> is_ws(#[trigger] s[j]),
        i == s.len() || !is_ws(s[s.len() - i - 1]),
    ensures
        trail_ws(s) == i,
    decreases i,
{
    if i > 0 {
        lemma_trail_ws(s.drop_last(), i - 1);
    }
}

proof fn lemma_lead_props(s: Seq<char>)
    ensures
        lead_ws(s) <= s.len(),
        lead_ws(s) < s.len() ==> !is_ws(s[lead_ws(s) as int]),
    decreases s.len(),
{
    if s.len() > 0 && is_ws(s[0]) {
        lemma_lead_props(s.drop_first());
        if lead_ws(s) < s.len() {
            assert(s.drop_first()[lead_ws(s.drop_first()) as int] == s[lead_ws(s) as int]);
        }
    }
}

proof fn lemma_trail_props(s: Seq<char>)
    ensures
        trail_ws(s) <= s.len(),
        trail_ws(s) < s.len() ==> !is_ws(s[s.len() - trail_ws(s) - 1]),
    decreases s.len(),
{
    if s.len() > 0 && is_ws(s.last()) {
        lemma_trail_props(s.drop_last());
        if trail_ws(s) < s.len() {
            let d = s.drop_last();
            assert(d[d.len() - trail_ws(d) - 1] == s[s.len() - trail_ws(s) - 1]);
        }
    }
}

/// The trimmed text is the start of the text without its leading white space.
pub proof fn lemma_trim_prefix(s: Seq<char>)
    ensures
        trim(s).len() <= trim_start(s).len(),
        trim(s) == trim_start(s).take(trim(s).len() as int),
{
    lemma_trail_props(trim_start(s));
}

/// Trimming twice is trimming once.
pub proof fn lemma_trim_idempotent(s: Seq<char>)
    ensures
        trim(trim(s)) == trim(s),
{
    let t = trim_start(s);
    let r = trim(s);
    lemma_lead_props(s);
    lemma_trail_props(t);
    if r.len() > 0 {
        assert(r[0] == t[0]);
        assert(r.last() == t[t.len() - trail_ws(t) - 1]);
    }
    assert(lead_ws(r) == 0);
    assert(trail_ws(r) == 0);
    assert(trim_start(r) =~= r);
    assert(trim_end(r) =~= r);
}

/// Index of the first character that is not white space, within `v[from..to]`.
pub fn skip_ws(v: &[char], from: usize, to: usize) -> (r: usize)
    requires
        from <= to <= v.len(),
    ensures
        from <= r <= to,
        r == from + lead_ws(v@.subrange(from as int, to as int)),
{
    let mut i = from;
    while i < to && is_whitespace(v[i])
        invariant
            from <= i <= to <= v.len(),
            forall|j: int| from <= j < i ==> is_ws(#[trigger] v@[j]),
        decreases to - i,
    {
        i += 1;
    }
    proof {
        let s = v@.subrange(from as int, to as int);
        assert forall|j: int| 0 <= j < i - from implies is_ws(#[trigger] s[j]) by {
            assert(s[j] == v@[from + j]);
        }
        lemma_lead_ws(s, i - from);
    }
    i
}

/// End of `v[from..to]` once trailing white space is dropped.
pub fn skip_ws_back(v: &[char], from: usize, to: usize) -> (r: usize)
    requires
        from <= to <= v.len(),
    ensures
        from <= r <= to,
        r == to - trail_ws(v@.subrange(from as int, to as int)),
{
    let mut i = to;
    while i > from && is_whitespace(v[i - 1])
        invariant
            from <= i <= to <= v.len(),
            forall|j: int| i <= j < to ==> is_ws(#[trigger] v@[j]),
        decreases i - from,
    {
        i -= 1;
    }
    proof {
        let s = v@.subrange(from as int, to as int);
        assert forall|j: int| s.len() - (to - i) <= j < s.len() implies is_ws(#[trigger] s[j]) by {
            assert(s[j] == v@[from + j]);
        }
        lemma_trail_ws(s, to - i);
    }
    i
}

/// Bounds of `trim(v[from..to])`.
pub fn trim_bounds(v: &[char], from: usize, to: usize) -> (r: (usize, usize))
    requires
        from <= to <= v.len(),
    ensures
        from <= r.0 <= r.1 <= to,
        v@.subrange(r.0 as int, r.1 as int) == trim(v@.subrange(from as int, to as int)),
{
    let a = skip_ws(v, from, to);
    let b = skip_ws_back(v, a, to);
    proof {
        let s = v@.subrange(from as int, to as int);
        assert(trim_start(s) =~= v@.subrange(a as int, to as int));
        assert(v@.subrange(a as int, b as int) =~= trim(s));
    }
    (a, b)
}

/// `trim` of a whole string, as characters.
pub fn trim_chars(s: &str) -> (r: Vec<char>)
    ensures
        r@ == trim(s@),
{
    let v = to_chars(s);
    let (a, b) = trim_bounds(&v, 0, v.len());
    assert(v@.subrange(0, v@.len() as int) =~= v@);
    slice_of(&v, a, b)
}

// ------------------------------------------------------------------ case conversion

pub fn lower_chars(v: &[char]) -> (r: Vec<char>)
    ensures
        r@ == lower_seq(v@),
{
    let mut r: Vec<char> = Vec::new();
    let mut i: usize = 0;
    while i < v.len()
        invariant
            i <= v.len(),
            r@ == lower_seq(v@.take(i as int)),
        decreases v.len() - i,
    {
        let c = to_lower(v[i]);
        r.push(c);
        assert(lower_seq(v@.take(i as int)).push(c) =~= lower_seq(v@.take(i + 1)));
        i += 1;
    }
    assert(v@.take(v.len() as int) =~= v@);
    r
}

pub fn upper_chars(v: &[char]) -> (r: Vec<char>)
    ensures
        r@ == upper_seq(v@),
{
    let mut r: Vec<char> = Vec::new();
    let mut i: usize = 0;
    while i < v.len()
        invariant
            i <= v.len(),
            r@ == upper_seq(v@.take(i as int)),
        decreases v.len() - i,
    {
        let c = to_upper(v[i]);
        r.push(c);
        assert(upper_seq(v@.take(i as int)).push(c) =~= upper_seq(v@.take(i + 1)));
        i += 1;
    }
    assert(v@.take(v.len() as int) =~= v@);
    r
}

/// `str::eq_ignore_ascii_case`.
pub open spec fn eq_ignore_case(a: Seq<char>, b: Seq<char>) -> bool {
    lower_seq(a) == lower_seq(b)
}

pub fn eq_ignore_case_chars(a: &[char], b: &[char]) -> (r: bool)
    ensures
        r == eq_ignore_case(a@, b@),
{
    let la = lower_chars(a);
    let lb = lower_chars(b);
    eq_chars(&la, &lb)
}

// ------------------------------------------------------------------ searching

/// Whether `c` occurs in `s`.
pub open spec fn has_char(s: Seq<char>, c: char) -> bool {
    exists|i: int| 0 <= i < s.len() && s[i] == c
}

/// Position of the first `c` in `v[from..to]`, if any.
pub fn find_char(v: &[char], from: usize, to: usize, c: char) -> (r: Option<usize>)
    requires
        from <= to <= v.len(),
    ensures
        match r {
            Some(i) => from <= i < to && v@[i as int] == c && forall|j: int|
                from <= j < i ==> v@[j] != c,
            None => forall|j: int| from <= j < to ==> v@[j] != c,
        },
{
    let mut i = from;
    while i < to
        invariant
            from <= i <= to <= v.len(),
            forall|j: int| from <= j < i ==> v@[j] != c,
        decreases to - i,
    {
        if v[i] == c {
            return Some(i);
        }
        i += 1;
    }
    None
}

/// Position of the last `c` in `v[from..to]`, if any.
pub fn rfind_char(v: &[char], from: usize, to: usize, c: char) -> (r: Option<usize>)
    requires
        from <= to <= v.len(),
    ensures
        match r {
            Some(i) => from <= i < to && v@[i as int] == c && forall|j: int|
                i < j < to ==> v@[j] != c,
            None => forall|j: int| from <= j < to ==> v@[j] != c,
        },
{
    let mut i = to;
    while i > from
        invariant
            from <= i <= to <= v.len(),
            forall|j: int| i <= j < to ==> v@[j] != c,
        decreases i - from,
    {
        if v[i - 1] == c {
            return Some(i - 1);
        }
        i -= 1;
    }
    None
}

/// Number of occurrences of `c` in `s`.
pub open spec fn count_char(s: Seq<char>, c: char) -> nat
    decreases s.len(),
{
    if s.len() == 0 {
        0
    } else {
        count_char(s.drop_last(), c) + if s.last() == c {
            1nat
        } else {
            0nat
        }
    }
}

pub fn count_chars(v: &[char], from: usize, to: usize, c: char) -> (r: usize)
    requires
        from <= to <= v.len(),
    ensures
        r == count_char(v@.subrange(from as int, to as int), c),
{
    let mut n: usize = 0;
    let mut i = from;
    while i < to
        invariant
            from <= i <= to <= v.len(),
            n <= i - from,
            n == count_char(v@.subrange(from as int, i as int), c),
        decreases to - i,
    {
        assert(v@.subrange(from as int, i + 1).drop_last() =~= v@.subrange(from as int, i as int));
        if v[i] == c {
            n += 1;
        }
        i += 1;
    }
    n
}

// ------------------------------------------------------------------ splitting

/// The pieces of `s` between the occurrences of `sep` (non-empty), scanning from the
/// left; `cur` is the piece read so far. `split(s, sep)` is `split_from(s, sep, [])`.
pub open spec fn split_from(s: Seq<char>, sep: Seq<char>, cur: Seq<char>) -> Seq<Seq<char>>
    decreases s.len(),
{
    if s.len() == 0 || sep.len() == 0 {
        seq![cur + s]
    } else if occurs_at(s, 0, sep) {
        seq![cur] + split_from(s.skip(sep.len() as int), sep, seq![])
    } else {
        split_from(s.skip(1), sep, cur.push(s[0]))
    }
}

/// `str::split` with a non-empty separator.
pub open spec fn split(s: Seq<char>, sep: Seq<char>) -> Seq<Seq<char>> {
    split_from(s, sep, seq![])
}

proof fn lemma_split_step(v: Seq<char>, i: int, sep: Seq<char>, cur: Seq<char>)
    requires
        0 <= i < v.len(),
        sep.len() > 0,
        !occurs_at(v.skip(i), 0, sep),
    ensures
        split_from(v.skip(i), sep, cur) == split_from(v.skip(i + 1), sep, cur.push(v[i])),
{
    assert(v.skip(i).skip(1) =~= v.skip(i + 1));
}

proof fn lemma_split_sep(v: Seq<char>, i: int, sep: Seq<char>, cur: Seq<char>)
    requires
        0 <= i,
        i + sep.len() <= v.len(),
        sep.len() > 0,
        occurs_at(v.skip(i), 0, sep),
    ensures
        split_from(v.skip(i), sep, cur) == seq![cur] + split_from(
            v.skip(i + sep.len()),
            sep,
            seq![],
        ),
{
    assert(v.skip(i).skip(sep.len() as int) =~= v.skip(i + sep.len()));
}

/// `split(v[..], sep)`, each piece as `(start, end)` positions into `v`.
pub fn split_ranges(v: &[char], sep: &[char]) -> (r: Vec<(usize, usize)>)
    requires
        sep.len() > 0,
    ensures
        r@.len() == split(v@, sep@).len(),
        forall|k: int|
            #![trigger r@[k]]
            #![trigger split(v@, sep@)[k]]
            0 <= k < r@.len() ==> {
                &&& r@[k].0 <= r@[k].1 <= v@.len()
                &&& split(v@, sep@)[k] == v@.subrange(r@[k].0 as int, r@[k].1 as int)
            },
{
    let mut r: Vec<(usize, usize)> = Vec::new();
    let mut start: usize = 0;
    let mut i: usize = 0;
    proof {
        let f = |p: (usize, usize)| v@.subrange(p.0 as int, p.1 as int);
        assert(v@.skip(0) =~= v@);
        assert(v@.subrange(0, 0) =~= Seq::<char>::empty());
        assert(r@.map_values(f) + split(v@, sep@) =~= split(v@, sep@));
    }
    while i < v.len()
        invariant
            sep.len() > 0,
            start <= i <= v.len(),
            split(v@, sep@) == r@.map_values(
                |p: (usize, usize)| v@.subrange(p.0 as int, p.1 as int),
            ) + split_from(v@.skip(i as int), sep@, v@.subrange(start as int, i as int)),
            forall|k: int| #![trigger r@[k]] 0 <= k < r@.len() ==> r@[k].0 <= r@[k].1 <= v@.len(),
        decreases v.len() - i,
    {
        let ghost old_r = r@;
        if has_at(v, i, sep) {
            proof {
                assert(occurs_at(v@.skip(i as int), 0, sep@)) by {
                    assert(v@.skip(i as int).subrange(0, sep@.len() as int) =~= v@.subrange(
                        i as int,
                        i + sep@.len(),
                    ));
                }
                lemma_split_sep(v@, i as int, sep@, v@.subrange(start as int, i as int));
            }
            r.push((start, i));
            proof {
                let f = |p: (usize, usize)| v@.subrange(p.0 as int, p.1 as int);
                assert(r@.map_values(f) =~= old_r.map_values(f).push(
                    v@.subrange(start as int, i as int),
                ));
                assert(v@.subrange((i + sep.len()) as int, (i + sep.len()) as int) =~= seq![]);
            }
            i = i + sep.len();
            start = i;
        } else {
            proof {
                assert(!occurs_at(v@.skip(i as int), 0, sep@)) by {
                    if occurs_at(v@.skip(i as int), 0, sep@) {
                        assert(v@.skip(i as int).subrange(0, sep@.len() as int) =~= v@.subrange(
                            i as int,
                            i + sep@.len(),
                        ));
                    }
                }
                lemma_split_step(v@, i as int, sep@, v@.subrange(start as int, i as int));
                assert(v@.subrange(start as int, i as int).push(v@[i as int]) =~= v@.subrange(
                    start as int,
                    i + 1,
                ));
            }
            i += 1;
        }
    }
    proof {
        let f = |p: (usize, usize)| v@.subrange(p.0 as int, p.1 as int);
        assert(v@.skip(i as int) =~= seq![]);
        assert(v@.subrange(start as int, i as int) + v@.skip(i as int) =~= v@.subrange(
            start as int,
            v@.len() as int,
        ));
        let old_r = r@;
        assert(old_r.push((start, v.len())).map_values(f) =~= old_r.map_values(f).push(
            v@.subrange(start as int, v@.len() as int),
        ));
    }
    r.push((start, v.len()));
    proof {
        let f = |p: (usize, usize)| v@.subrange(p.0 as int, p.1 as int);
        assert(split(v@, sep@) =~= r@.map_values(f));
        assert forall|k: int| 0 <= k < r@.len() implies #[trigger] split(v@, sep@)[k]
            == v@.subrange(r@[k].0 as int, r@[k].1 as int) by {
            assert(r@.map_values(f)[k] == f(r@[k]));
        }
    }
    r
}

// ------------------------------------------------------------------ decimal numbers

/// Decimal digits of a natural number, without leading zeros ("0" for zero).
pub open spec fn dec_nat(n: nat) -> Seq<char>
    decreases n,
{
    if n < 10 {
        seq![('0' as u32 + n) as char]
    } else {
        dec_nat(n / 10).push(('0' as u32 + (n % 10)) as char)
    }
}

/// Decimal form of an integer, as `i64::to_string` writes it.
pub open spec fn dec_int(n: int) -> Seq<char> {
    if n < 0 {
        seq!['-'] + dec_nat((-n) as nat)
    } else {
        dec_nat(n as nat)
    }
}

fn digit_char(d: u64) -> (c: char)
    requires
        d < 10,
    ensures
        c == ('0' as u32 + d) as char,
{
    let u: u32 = 48 + d as u32;
    char_of_ascii(u)
}

/// Appends the decimal digits of `n`.
pub fn push_dec(s: &mut String, n: u64)
    ensures
        final(s)@ == old(s)@ + dec_nat(n as nat),
    decreases n,
{
    if n < 10 {
        push_char(s, digit_char(n));
        assert(dec_nat(n as nat) =~= seq![('0' as u32 + n) as char]);
    } else {
        push_dec(s, n / 10);
        push_char(s, digit_char(n % 10));
    }
}

/// Appends the decimal form of `n`.
pub fn push_dec_int(s: &mut String, n: i64)
    ensures
        final(s)@ == old(s)@ + dec_int(n as int),
{
    if n < 0 {
        push_char(s, '-');
        let m: u64 = if n == i64::MIN {
            9223372036854775808u64
        } else {
            (-n) as u64
        };
        push_dec(s, m);
        assert(s@ =~= old(s)@ + dec_int(n as int));
    } else {
        push_dec(s, n as u64);
    }
}

} // verus!

verus! {

// ------------------------------------------------------------------ positions

/// Position of the first `c` in `s`.
pub open spec fn index_of_char(s: Seq<char>, c: char) -> Option<int>
    decreases s.len(),
{
    if s.len() == 0 {
        None
    } else if s[0] == c {
        Some(0)
    } else {
        match index_of_char(s.drop_first(), c) {
            Some(i) => Some(i + 1),
            None => None,
        }
    }
}

/// Position of the last `c` in `s`.
pub open spec fn last_index_of_char(s: Seq<char>, c: char) -> Option<int>
    decreases s.len(),
{
    if s.len() == 0 {
        None
    } else if s.last() == c {
        Some(s.len() - 1)
    } else {
        last_index_of_char(s.drop_last(), c)
    }
}

pub proof fn lemma_index_of_char(s: Seq<char>, c: char, i: Option<int>)
    requires
        match i {
            Some(k) => 0 <= k < s.len() && s[k] == c && forall|j: int| 0 <= j < k ==> s[j] != c,
            None => forall|j: int| 0 <= j < s.len() ==> s[j] != c,
        },
    ensures
        index_of_char(s, c) == i,
    decreases s.len(),
{
    if s.len() > 0 && s[0] != c {
        let t = s.drop_first();
        match i {
            Some(k) => {
                assert(k > 0);
                lemma_index_of_char(t, c, Some(k - 1));
            },
            None => {
                lemma_index_of_char(t, c, None);
            },
        }
    }
}

pub proof fn lemma_last_index_of_char(s: Seq<char>, c: char, i: Option<int>)
    requires
        match i {
            Some(k) => 0 <= k < s.len() && s[k] == c && forall|j: int| k < j < s.len() ==> s[j] != c,
            None => forall|j: int| 0 <= j < s.len() ==> s[j] != c,
        },
    ensures
        last_index_of_char(s, c) == i,
    decreases s.len(),
{
    if s.len() > 0 && s.last() != c {
        lemma_last_index_of_char(s.drop_last(), c, i);
    }
}

/// `find_char` stated over `index_of_char`.
pub fn index_of(v: &[char], from: usize, to: usize, c: char) -> (r: Option<usize>)
    requires
        from <= to <= v.len(),
    ensures
        match (r, index_of_char(v@.subrange(from as int, to as int), c)) {
            (Some(i), Some(k)) => i == from + k,
            (None, None) => true,
            _ => false,
        },
        r matches Some(i) ==> from <= i < to,
{
    let r = find_char(v, from, to, c);
    proof {
        let s = v@.subrange(from as int, to as int);
        match r {
            Some(i) => lemma_index_of_char(s, c, Some(i - from)),
            None => lemma_index_of_char(s, c, None),
        }
    }
    r
}

/// `rfind_char` stated over `last_index_of_char`.
pub fn last_index_of(v: &[char], from: usize, to: usize, c: char) -> (r: Option<usize>)
    requires
        from <= to <= v.len(),
    ensures
        match (r, last_index_of_char(v@.subrange(from as int, to as int), c)) {
            (Some(i), Some(k)) => i == from + k,
            (None, None) => true,
            _ => false,
        },
        r matches Some(i) ==> from <= i < to,
{
    let r = rfind_char(v, from, to, c);
    proof {
        let s = v@.subrange(from as int, to as int);
        match r {
            Some(i) => lemma_last_index_of_char(s, c, Some(i - from)),
            None => lemma_last_index_of_char(s, c, None),
        }
    }
    r
}

// ------------------------------------------------------------------ joining

/// `slice::join`: the pieces with `sep` between them.
pub open spec fn join(list: Seq<Seq<char>>, sep: Seq<char>) -> Seq<char>
    decreases list.len(),
{
    if list.len() == 0 {
        seq![]
    } else if list.len() == 1 {
        list[0]
    } else {
        join(list.drop_last(), sep) + sep + list.last()
    }
}

} // verus!

verus! {

// ------------------------------------------------------------------ unsigned numbers

/// Value of a digit character (letters count from 10); 99 for anything else.
pub open spec fn digit_value(c: char) -> nat {
    if '0' <= c && c <= '9' {
        (c as u32 - '0' as u32) as nat
    } else if 'a' <= c && c <= 'z' {
        (c as u32 - 'a' as u32 + 10) as nat
    } else if 'A' <= c && c <= 'Z' {
        (c as u32 - 'A' as u32 + 10) as nat
    } else {
        99
    }
}

/// `char::is_digit(radix)`.
pub open spec fn valid_digit(c: char, radix: nat) -> bool {
    digit_value(c) < radix
}

pub open spec fn all_digits(d: Seq<char>, radix: nat) -> bool {
    forall|i: int| 0 <= i < d.len() ==> valid_digit(#[trigger] d[i], radix)
}

/// The number that the digits `d` write in base `radix`.
pub open spec fn digits_value(d: Seq<char>, radix: nat) -> nat
    decreases d.len(),
{
    if d.len() == 0 {
        0
    } else {
        digits_value(d.drop_last(), radix) * radix + digit_value(d.last())
    }
}

/// `from_str_radix` for an unsigned type whose largest value is `max`: an optional
/// `+`, then at least one digit, and a value that fits.
pub open spec fn parse_uint(s: Seq<char>, radix: nat, max: nat) -> Option<nat> {
    let d = if s.len() > 0 && s[0] == '+' {
        s.skip(1)
    } else {
        s
    };
    if d.len() > 0 && all_digits(d, radix) && digits_value(d, radix) <= max {
        Some(digits_value(d, radix))
    } else {
        None
    }
}

pub fn digit_value_of(c: char) -> (r: u64)
    ensures
        r == digit_value(c),
{
    if '0' <= c && c <= '9' {
        (c as u32 - '0' as u32) as u64
    } else if 'a' <= c && c <= 'z' {
        (c as u32 - 'a' as u32 + 10) as u64
    } else if 'A' <= c && c <= 'Z' {
        (c as u32 - 'A' as u32 + 10) as u64
    } else {
        99
    }
}

/// `parse_uint` of `v[from..to]`.
pub fn parse_uint_chars(v: &[char], from: usize, to: usize, radix: u64, max: u64) -> (r: Option<
    u64,
>)
    requires
        from <= to <= v.len(),
        2 <= radix <= 36,
        max <= u32::MAX,
    ensures
        match (r, parse_uint(v@.subrange(from as int, to as int), radix as nat, max as nat)) {
            (Some(a), Some(b)) => a == b,
            (None, None) => true,
            _ => false,
        },
{
    let ghost s = v@.subrange(from as int, to as int);
    let start = if from < to && v[from] == '+' {
        from + 1
    } else {
        from
    };
    let ghost d = v@.subrange(start as int, to as int);
    proof {
        if from < to && v@[from as int] == '+' {
            assert(s.skip(1) =~= d);
        } else {
            assert(s =~= d);
        }
    }
    if start == to {
        return None;
    }
    let cap: u64 = max + 1;
    let mut acc: u64 = 0;
    let mut ok = true;
    let mut i = start;
    assert(d.take(0) =~= Seq::<char>::empty());
    while i < to
        invariant
            start <= i <= to <= v.len(),
            d == v@.subrange(start as int, to as int),
            2 <= radix <= 36,
            max <= u32::MAX,
            cap == max + 1,
            acc <= cap,
            ok ==> acc == if digits_value(d.take(i - start), radix as nat) <= max {
                digits_value(d.take(i - start), radix as nat)
            } else {
                cap as nat
            },
            ok == all_digits(d.take(i - start), radix as nat),
        decreases to - i,
    {
        let dv = digit_value_of(v[i]);
        let ghost k = i - start;
        let ghost x = digits_value(d.take(k), radix as nat);
        proof {
            assert(d.take(k + 1).drop_last() =~= d.take(k));
            assert(d.take(k + 1).last() == v@[i as int]);
            assert(acc * radix <= cap * 36) by (nonlinear_arith)
                requires
                    acc <= cap,
                    radix <= 36,
            ;
        }
        let ok2 = ok && dv < radix;
        let step: u64 = if dv < radix {
            dv
        } else {
            0
        };
        let next: u64 = acc * radix + step;
        let acc2: u64 = if next > max {
            cap
        } else {
            next
        };
        proof {
            assert(ok2 == all_digits(d.take(k + 1), radix as nat)) by {
                if ok2 {
                    assert forall|j: int| 0 <= j < k + 1 implies valid_digit(
                        #[trigger] d.take(k + 1)[j],
                        radix as nat,
                    ) by {
                        if j < k {
                            assert(d.take(k + 1)[j] == d.take(k)[j]);
                        }
                    }
                } else if !ok {
                    let j = choose|j: int|
                        0 <= j < k && !valid_digit(#[trigger] d.take(k)[j], radix as nat);
                    assert(d.take(k + 1)[j] == d.take(k)[j]);
                } else {
                    assert(!valid_digit(d.take(k + 1)[k], radix as nat));
                }
            }
            if ok2 {
                assert(digits_value(d.take(k + 1), radix as nat) == x * radix + dv);
                if x > max {
                    assert(x * radix + dv >= x) by (nonlinear_arith)
                        requires
                            radix >= 1,
                            x >= 0,
                            dv >= 0,
                    ;
                    assert(cap * radix + dv >= cap) by (nonlinear_arith)
                        requires
                            radix >= 1,
                            cap >= 0,
                            dv >= 0,
                    ;
                }
            }
        }
        ok = ok2;
        acc = acc2;
        i += 1;
    }
    assert(d.take(to - start) =~= d);
    if ok && acc <= max {
        Some(acc)
    } else {
        None
    }
}

} // verus!

verus! {

/// Length in bytes of the UTF-8 form of `s` (what `str::len` counts).
pub open spec fn utf8_len(s: Seq<char>) -> nat {
    vstd::utf8::encode_utf8(s).len()
}

/// The decimal form of `n` is a non-empty run of digits that reads back as `n`.
pub proof fn lemma_dec_digits(n: nat)
    ensures
        dec_nat(n).len() > 0,
        forall|i: int| 0 <= i < dec_nat(n).len() ==> '0' <= #[trigger] dec_nat(n)[i] <= '9',
        digits_value(dec_nat(n), 10) == n,
    decreases n,
{
    if n < 10 {
        let c = ('0' as u32 + n) as char;
        assert(dec_nat(n) == seq![c]);
        assert(seq![c].drop_last() =~= Seq::<char>::empty());
        assert(seq![c].last() == c);
        assert(c as u32 == 48 + n);
        assert(digit_value(c) == n);
        assert(digits_value(seq![c], 10) == digits_value(Seq::<char>::empty(), 10) * 10 + n);
    } else {
        lemma_dec_digits(n / 10);
        let d = dec_nat(n / 10);
        let c = ('0' as u32 + (n % 10)) as char;
        assert(dec_nat(n) == d.push(c));
        assert(d.push(c).drop_last() =~= d);
        assert(d.push(c).last() == c);
        assert(c as u32 == 48 + n % 10);
        assert(digit_value(c) == n % 10);
        assert forall|i: int| 0 <= i < dec_nat(n).len() implies '0' <= #[trigger] dec_nat(n)[i] <= '9' by {
            if i < d.len() {
                assert(dec_nat(n)[i] == d[i]);
            }
        }
        assert(digits_value(d.push(c), 10) == digits_value(d, 10) * 10 + n % 10);
        assert((n / 10) * 10 + n % 10 == n);
    }
}

/// Adding an element that is not there keeps a sequence free of repeats.
pub proof fn lemma_push_distinct<A>(s: Seq<A>, x: A)
    requires
        s.no_duplicates(),
        !s.contains(x),
    ensures
        s.push(x).no_duplicates(),
{
    let t = s.push(x);
    assert forall|i: int, j: int| 0 <= i < t.len() && 0 <= j < t.len() && i != j implies t[i] != t[j] by {
        if i == s.len() {
            assert(s[j] == t[j]);
        } else if j == s.len() {
            assert(s[i] == t[i]);
        }
    }
}

} // verus!
