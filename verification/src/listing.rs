//! The channel list as the window shows it: its columns, its rows (one per channel
//! of each YP, with what the filters say), the rows of a tab, and their order.
use vstd::prelude::*;
use crate::chandir::{is_info_spec, key_spec, models, uptime_minutes_spec, Channel, ChannelModel};
use crate::config::Columns;
use crate::filter::{apply, apply_spec, compiled_models, contains_string, strings_view, CompiledFilter, CompiledFilterModel};
use crate::text::{contains_seq, dec_nat, from_chars, has_sub, push_dec, push_str, to_chars, trim, trim_chars};
use crate::worker::YpStatus;

verus! {

/// What the list can be sorted by.
#[derive(Clone, Copy, PartialEq, Eq, Debug, Structural)]
pub enum SortKey {
    Listeners,
    Name,
    Bitrate,
    Uptime,
    Type,
    Yp,
    Genre,
}

impl SortKey {
    /// Numbers sort from the largest at the first click; texts from the smallest.
    pub fn default_desc(self) -> (r: bool)
        ensures
            r == (self == SortKey::Listeners || self == SortKey::Bitrate || self == SortKey::Uptime),
    {
        match self {
            SortKey::Listeners | SortKey::Bitrate | SortKey::Uptime => true,
            _ => false,
        }
    }
}

/// The sort after a click on the header of `k`: the key sorted by now turns its
/// direction around; another key starts in its own direction.
pub fn next_sort(current: (SortKey, bool), k: SortKey) -> (r: (SortKey, bool))
    ensures
        r.0 == k,
        current.0 == k ==> r.1 == !current.1,
        current.0 != k ==> r.1 == (k == SortKey::Listeners || k == SortKey::Bitrate || k == SortKey::Uptime),
{
    if current.0 == k {
        (k, !current.1)
    } else {
        (k, k.default_desc())
    }
}

/// A column of the list; the `Two*` ones belong to the two-line layout.
#[derive(Clone, Copy, PartialEq, Eq, Debug, Structural)]
pub enum Col {
    Name,
    Summary,
    Listeners,
    Bitrate,
    Uptime,
    Type,
    Yp,
    Track,
    TwoName,
    TwoStats,
    TwoRate,
}

pub open spec fn header_spec(c: Col) -> Seq<char> {
    match c {
        Col::Name | Col::TwoName => "チャンネル"@,
        Col::Summary => "ジャンル・詳細"@,
        Col::Listeners => "リスナー/リレー"@,
        Col::Bitrate => "Bitrate"@,
        Col::Uptime => "時間"@,
        Col::Type => "種類"@,
        Col::Yp => "YP"@,
        Col::Track => "トラック"@,
        Col::TwoStats => "リスナー/時間"@,
        Col::TwoRate => "Bitrate/種類"@,
    }
}

pub open spec fn sort_key_spec(c: Col) -> Option<SortKey> {
    match c {
        Col::Name | Col::TwoName => Some(SortKey::Name),
        Col::Summary => Some(SortKey::Genre),
        Col::Listeners | Col::TwoStats => Some(SortKey::Listeners),
        Col::Bitrate | Col::TwoRate => Some(SortKey::Bitrate),
        Col::Uptime => Some(SortKey::Uptime),
        Col::Type => Some(SortKey::Type),
        Col::Yp => Some(SortKey::Yp),
        Col::Track => None,
    }
}

impl Col {
    /// The column's title.
    pub fn header(self) -> (r: &'static str)
        ensures
            r@ == header_spec(self),
    {
        match self {
            Col::Name | Col::TwoName => "チャンネル",
            Col::Summary => "ジャンル・詳細",
            Col::Listeners => "リスナー/リレー",
            Col::Bitrate => "Bitrate",
            Col::Uptime => "時間",
            Col::Type => "種類",
            Col::Yp => "YP",
            Col::Track => "トラック",
            Col::TwoStats => "リスナー/時間",
            Col::TwoRate => "Bitrate/種類",
        }
    }

    /// What a click on the column's title sorts by; the track column sorts nothing.
    pub fn sort_key(self) -> (r: Option<SortKey>)
        ensures
            r == sort_key_spec(self),
    {
        match self {
            Col::Name | Col::TwoName => Some(SortKey::Name),
            Col::Summary => Some(SortKey::Genre),
            Col::Listeners | Col::TwoStats => Some(SortKey::Listeners),
            Col::Bitrate | Col::TwoRate => Some(SortKey::Bitrate),
            Col::Uptime => Some(SortKey::Uptime),
            Col::Type => Some(SortKey::Type),
            Col::Yp => Some(SortKey::Yp),
            Col::Track => None,
        }
    }
}

pub open spec fn opt_col(b: bool, c: Col) -> Seq<Col> {
    if b {
        seq![c]
    } else {
        seq![]
    }
}

/// The columns shown, left to right.
pub open spec fn columns_spec(two_line: bool, c: Columns) -> Seq<Col> {
    let head = if two_line {
        seq![Col::TwoName] + opt_col(c.listeners || c.uptime, Col::TwoStats) + opt_col(
            c.bitrate || c.content_type,
            Col::TwoRate,
        )
    } else {
        seq![Col::Name] + opt_col(c.summary, Col::Summary) + opt_col(c.listeners, Col::Listeners) + opt_col(
            c.bitrate,
            Col::Bitrate,
        ) + opt_col(c.uptime, Col::Uptime) + opt_col(c.content_type, Col::Type)
    };
    head + opt_col(c.track, Col::Track) + opt_col(c.yp, Col::Yp)
}

fn push_if(out: &mut Vec<Col>, b: bool, c: Col)
    ensures
        final(out)@ == old(out)@ + opt_col(b, c),
{
    if b {
        out.push(c);
    }
    assert(final(out)@ =~= old(out)@ + opt_col(b, c));
}

/// The columns shown, left to right: the one-line layout has a column per item
/// switched on, the two-line layout puts two items in one column.
pub fn columns(two_line: bool, c: &Columns) -> (r: Vec<Col>)
    ensures
        r@ == columns_spec(two_line, *c),
{
    let mut out: Vec<Col> = Vec::new();
    if two_line {
        out.push(Col::TwoName);
        push_if(&mut out, c.listeners || c.uptime, Col::TwoStats);
        push_if(&mut out, c.bitrate || c.content_type, Col::TwoRate);
    } else {
        out.push(Col::Name);
        push_if(&mut out, c.summary, Col::Summary);
        push_if(&mut out, c.listeners, Col::Listeners);
        push_if(&mut out, c.bitrate, Col::Bitrate);
        push_if(&mut out, c.uptime, Col::Uptime);
        push_if(&mut out, c.content_type, Col::Type);
    }
    push_if(&mut out, c.track, Col::Track);
    push_if(&mut out, c.yp, Col::Yp);
    assert(out@ =~= columns_spec(two_line, *c));
    out
}

/// A count of listeners as shown: `-` for the negative values that YPs use to hide it.
pub fn listeners_text(n: i32) -> (r: String)
    ensures
        r@ == (if n < 0 {
            "-"@
        } else {
            dec_nat(n as nat)
        }),
{
    let mut s = String::new();
    if n < 0 {
        push_str(&mut s, "-");
    } else {
        push_dec(&mut s, n as u64);
    }
    s
}

/// Sum of the channel `k` (0 red, 1 green, 2 blue) of the colors `cs`.
pub open spec fn channel_sum(cs: Seq<[u8; 3]>, k: int) -> nat
    decreases cs.len(),
{
    if cs.len() == 0 {
        0
    } else {
        channel_sum(cs.drop_last(), k) + cs.last()[k] as nat
    }
}

/// The mean of the colors, half transparent; none for no colors.
pub open spec fn color_spec(cs: Seq<[u8; 3]>) -> Option<[u8; 4]> {
    if cs.len() == 0 {
        None
    } else {
        Some(
            [
                (channel_sum(cs, 0) / cs.len()) as u8,
                (channel_sum(cs, 1) / cs.len()) as u8,
                (channel_sum(cs, 2) / cs.len()) as u8,
                130,
            ],
        )
    }
}

proof fn lemma_channel_sum_bound(cs: Seq<[u8; 3]>, k: int)
    ensures
        channel_sum(cs, k) <= 255 * cs.len(),
    decreases cs.len(),
{
    if cs.len() > 0 {
        lemma_channel_sum_bound(cs.drop_last(), k);
    }
}

/// The color of a row that several filters color: the mean of their colors
/// (red, green, blue, and an opacity of 130), for any number of colors.
pub fn color_of(colors: &[[u8; 3]]) -> (r: Option<[u8; 4]>)
    ensures
        r == color_spec(colors@),
{
    if colors.len() == 0 {
        return None;
    }
    let n = colors.len() as u128;
    let mut sum: [u128; 3] = [0, 0, 0];
    let mut i: usize = 0;
    assert(colors@.take(0) =~= Seq::<[u8; 3]>::empty());
    while i < colors.len()
        invariant
            i <= colors@.len(),
            n == colors@.len(),
            sum[0] == channel_sum(colors@.take(i as int), 0),
            sum[1] == channel_sum(colors@.take(i as int), 1),
            sum[2] == channel_sum(colors@.take(i as int), 2),
        decreases colors@.len() - i,
    {
        let c = colors[i];
        proof {
            let t = colors@.take(i + 1);
            assert(t.drop_last() =~= colors@.take(i as int));
            assert(t.last() == c);
            lemma_channel_sum_bound(t, 0);
            lemma_channel_sum_bound(t, 1);
            lemma_channel_sum_bound(t, 2);
            assert(255 * t.len() <= 255 * (usize::MAX as int)) by (nonlinear_arith)
                requires
                    t.len() <= usize::MAX,
            ;
        }
        sum = [sum[0] + c[0] as u128, sum[1] + c[1] as u128, sum[2] + c[2] as u128];
        i += 1;
    }
    assert(colors@.take(colors@.len() as int) =~= colors@);
    proof {
        lemma_channel_sum_bound(colors@, 0);
        lemma_channel_sum_bound(colors@, 1);
        lemma_channel_sum_bound(colors@, 2);
        lemma_mean_fits(channel_sum(colors@, 0), colors@.len());
        lemma_mean_fits(channel_sum(colors@, 1), colors@.len());
        lemma_mean_fits(channel_sum(colors@, 2), colors@.len());
    }
    Some([(sum[0] / n) as u8, (sum[1] / n) as u8, (sum[2] / n) as u8, 130])
}

proof fn lemma_mean_fits(s: nat, n: nat)
    requires
        n > 0,
        s <= 255 * n,
    ensures
        s / n <= 255,
{
    assert(s / n <= 255) by (nonlinear_arith)
        requires
            n > 0,
            s <= 255 * n,
    ;
}

proof fn lemma_sum_prefix(cs: Seq<[u8; 3]>, n: int, k: int)
    requires
        0 <= n <= cs.len(),
    ensures
        channel_sum(cs.take(n), k) <= channel_sum(cs, k),
    decreases cs.len() - n,
{
    if n < cs.len() {
        lemma_sum_prefix(cs, n + 1, k);
        assert(cs.take(n + 1).drop_last() =~= cs.take(n));
    } else {
        assert(cs.take(n) =~= cs);
    }
}

// ------------------------------------------------------------------ rows

/// One row of the list: a channel of one YP, with what the filters say of it.
pub struct Row {
    pub ch: Channel,
    pub yp: String,
    pub favorite: bool,
    pub ignore: bool,
    pub color: Option<[u8; 4]>,
    /// It appeared in the last round
    pub is_new: bool,
    /// An earlier YP has the same channel (the all and favorite tabs leave it out)
    pub duplicate: bool,
}

pub struct RowModel {
    pub ch: ChannelModel,
    pub yp: Seq<char>,
    pub favorite: bool,
    pub ignore: bool,
    pub color: Option<[u8; 4]>,
    pub is_new: bool,
    pub duplicate: bool,
}

impl View for Row {
    type V = RowModel;

    open spec fn view(&self) -> RowModel {
        RowModel {
            ch: self.ch@,
            yp: self.yp@,
            favorite: self.favorite,
            ignore: self.ignore,
            color: self.color,
            is_new: self.is_new,
            duplicate: self.duplicate,
        }
    }
}

pub open spec fn row_models(v: Seq<Row>) -> Seq<RowModel> {
    v.map_values(|r: Row| r@)
}

/// How many channels each tab has.
pub struct Counts {
    pub favorite: usize,
    pub all: usize,
    pub ignored: usize,
    pub per_yp: Vec<usize>,
}

pub open spec fn nats(v: Seq<usize>) -> Seq<nat> {
    v.map_values(|x: usize| x as nat)
}

/// The rows built so far, the counts, and the keys of the real channels met so far.
#[verifier::ext_equal]
pub struct RowsModel {
    pub rows: Seq<RowModel>,
    pub favorite: nat,
    pub all: nat,
    pub ignored: nat,
    pub per_yp: Seq<nat>,
    pub seen: Seq<Seq<char>>,
}

/// The row of the channel `c` of the YP `yp` (at position `yi`) added: a real channel
/// already met is a duplicate; ignored rows count in the ignored tab, the others in
/// their YP's tab and, unless duplicates, in the all (and favorite) tabs.
pub open spec fn row_step(
    st: RowsModel,
    yi: int,
    c: ChannelModel,
    yp: Seq<char>,
    fs: Seq<CompiledFilterModel>,
    new_keys: Seq<Seq<char>>,
) -> RowsModel {
    let m = apply_spec(fs, c, yp);
    let key = key_spec(c);
    let dup = !is_info_spec(c) && st.seen.contains(key);
    let row = RowModel {
        ch: c,
        yp,
        favorite: m.favorite,
        ignore: m.ignore,
        color: color_spec(m.colors),
        is_new: new_keys.contains(key),
        duplicate: dup,
    };
    RowsModel {
        rows: st.rows.push(row),
        favorite: if !m.ignore && !dup && m.favorite {
            st.favorite + 1
        } else {
            st.favorite
        },
        all: if !m.ignore && !dup {
            st.all + 1
        } else {
            st.all
        },
        ignored: if m.ignore && !dup {
            st.ignored + 1
        } else {
            st.ignored
        },
        per_yp: if m.ignore {
            st.per_yp
        } else {
            st.per_yp.update(yi, st.per_yp[yi] + 1)
        },
        seen: if !is_info_spec(c) && !st.seen.contains(key) {
            st.seen.push(key)
        } else {
            st.seen
        },
    }
}

pub open spec fn rows_of_channels(
    st: RowsModel,
    yi: int,
    cs: Seq<ChannelModel>,
    yp: Seq<char>,
    fs: Seq<CompiledFilterModel>,
    new_keys: Seq<Seq<char>>,
) -> RowsModel
    decreases cs.len(),
{
    if cs.len() == 0 {
        st
    } else {
        row_step(rows_of_channels(st, yi, cs.drop_last(), yp, fs, new_keys), yi, cs.last(), yp, fs, new_keys)
    }
}

/// The rows of the YPs `ys`, in order, each YP's channels in order.
pub open spec fn rows_of(st: RowsModel, ys: Seq<YpStatus>, fs: Seq<CompiledFilterModel>, new_keys: Seq<Seq<char>>) -> RowsModel
    decreases ys.len(),
{
    if ys.len() == 0 {
        st
    } else {
        let p = ys.drop_last();
        rows_of_channels(rows_of(st, p, fs, new_keys), p.len() as int, models(ys.last().channels@), ys.last().name@, fs, new_keys)
    }
}

pub open spec fn rows_start(n: nat) -> RowsModel {
    RowsModel { rows: seq![], favorite: 0, all: 0, ignored: 0, per_yp: Seq::new(n, |i: int| 0nat), seen: seq![] }
}

/// How many channels the YPs have in all.
pub open spec fn total_channels(ys: Seq<YpStatus>) -> nat
    decreases ys.len(),
{
    if ys.len() == 0 {
        0
    } else {
        total_channels(ys.drop_last()) + ys.last().channels@.len()
    }
}

proof fn lemma_total_prefix(ys: Seq<YpStatus>, n: int)
    requires
        0 <= n <= ys.len(),
    ensures
        total_channels(ys.take(n)) <= total_channels(ys),
    decreases ys.len() - n,
{
    if n < ys.len() {
        lemma_total_prefix(ys, n + 1);
        assert(ys.take(n + 1).drop_last() =~= ys.take(n));
    } else {
        assert(ys.take(n) =~= ys);
    }
}

/// The counts stay within the number of rows.
pub open spec fn counts_bounded(st: RowsModel) -> bool {
    &&& st.favorite <= st.rows.len()
    &&& st.all <= st.rows.len()
    &&& st.ignored <= st.rows.len()
    &&& forall|k: int| 0 <= k < st.per_yp.len() ==> #[trigger] st.per_yp[k] <= st.rows.len()
}

proof fn lemma_rows_of_channels_counts(
    st: RowsModel,
    yi: int,
    cs: Seq<ChannelModel>,
    yp: Seq<char>,
    fs: Seq<CompiledFilterModel>,
    nk: Seq<Seq<char>>,
)
    requires
        st.favorite <= st.all,
        st.all + st.ignored <= st.rows.len(),
    ensures
        ({
            let r = rows_of_channels(st, yi, cs, yp, fs, nk);
            &&& r.favorite <= r.all
            &&& r.all + r.ignored <= r.rows.len()
            &&& r.rows.len() == st.rows.len() + cs.len()
        }),
    decreases cs.len(),
{
    if cs.len() > 0 {
        lemma_rows_of_channels_counts(st, yi, cs.drop_last(), yp, fs, nk);
    }
}

/// There is a row for every channel of every YP; the favorite tab counts no more than
/// the all tab, and the all and ignored tabs together no more than the rows.
pub proof fn law_row_counts(ys: Seq<YpStatus>, fs: Seq<CompiledFilterModel>, nk: Seq<Seq<char>>)
    ensures
        ({
            let r = rows_of(rows_start(ys.len()), ys, fs, nk);
            &&& r.rows.len() == total_channels(ys)
            &&& r.favorite <= r.all
            &&& r.all + r.ignored <= r.rows.len()
        }),
{
    lemma_rows_prefix_counts(rows_start(ys.len()), ys, fs, nk);
}

proof fn lemma_rows_prefix_counts(st: RowsModel, ys: Seq<YpStatus>, fs: Seq<CompiledFilterModel>, nk: Seq<Seq<char>>)
    requires
        st.favorite <= st.all,
        st.all + st.ignored <= st.rows.len(),
    ensures
        ({
            let r = rows_of(st, ys, fs, nk);
            &&& r.rows.len() == st.rows.len() + total_channels(ys)
            &&& r.favorite <= r.all
            &&& r.all + r.ignored <= r.rows.len()
        }),
    decreases ys.len(),
{
    if ys.len() > 0 {
        let p = ys.drop_last();
        lemma_rows_prefix_counts(st, p, fs, nk);
        lemma_rows_of_channels_counts(
            rows_of(st, p, fs, nk),
            p.len() as int,
            models(ys.last().channels@),
            ys.last().name@,
            fs,
            nk,
        );
    }
}

/// The keys met are those of the real channels among the rows, each once; and a row
/// is a duplicate exactly when it is a real channel whose key an earlier real
/// channel's row has.
pub open spec fn rows_keys_ok(st: RowsModel) -> bool {
    &&& st.seen.no_duplicates()
    &&& forall|k: Seq<char>|
        #![trigger st.seen.contains(k)]
        st.seen.contains(k) <==> exists|j: int|
            0 <= j < st.rows.len() && !is_info_spec(#[trigger] st.rows[j].ch) && key_spec(st.rows[j].ch) == k
    &&& forall|i: int|
        0 <= i < st.rows.len() ==> ((#[trigger] st.rows[i]).duplicate <==> !is_info_spec(st.rows[i].ch) && exists|
            j: int,
        |
            0 <= j < i && !is_info_spec(#[trigger] st.rows[j].ch) && key_spec(st.rows[j].ch) == key_spec(
                st.rows[i].ch,
            ))
}

proof fn lemma_row_step_keys(
    st: RowsModel,
    yi: int,
    c: ChannelModel,
    yp: Seq<char>,
    fs: Seq<CompiledFilterModel>,
    nk: Seq<Seq<char>>,
)
    requires
        rows_keys_ok(st),
    ensures
        rows_keys_ok(row_step(st, yi, c, yp, fs, nk)),
{
    let t = row_step(st, yi, c, yp, fs, nk);
    let key = key_spec(c);
    let n = st.rows.len() as int;
    assert forall|i: int| 0 <= i < n implies t.rows[i] == st.rows[i] by {}
    assert(t.rows[n].ch == c);
    if !is_info_spec(c) && !st.seen.contains(key) {
        crate::text::lemma_push_distinct(st.seen, key);
    }
    assert forall|k: Seq<char>| #![trigger t.seen.contains(k)] t.seen.contains(k) <==> exists|j: int|
        0 <= j < t.rows.len() && !is_info_spec(#[trigger] t.rows[j].ch) && key_spec(t.rows[j].ch) == k by {
        if t.seen.contains(k) {
            if st.seen.contains(k) {
                let j = choose|j: int| 0 <= j < st.rows.len() && !is_info_spec(#[trigger] st.rows[j].ch) && key_spec(st.rows[j].ch) == k;
                assert(t.rows[j] == st.rows[j]);
            } else {
                let q = choose|q: int| 0 <= q < t.seen.len() && t.seen[q] == k;
                assert(q == st.seen.len());
                assert(!is_info_spec(t.rows[n].ch) && key_spec(t.rows[n].ch) == k);
            }
        }
        if exists|j: int| 0 <= j < t.rows.len() && !is_info_spec(#[trigger] t.rows[j].ch) && key_spec(t.rows[j].ch) == k {
            let j = choose|j: int| 0 <= j < t.rows.len() && !is_info_spec(#[trigger] t.rows[j].ch) && key_spec(t.rows[j].ch) == k;
            if j < n {
                assert(st.rows[j] == t.rows[j]);
                assert(st.seen.contains(k));
                let q = choose|q: int| 0 <= q < st.seen.len() && st.seen[q] == k;
                assert(t.seen[q] == k);
            } else if !st.seen.contains(k) {
                assert(t.seen[st.seen.len() as int] == k);
            } else {
                let q = choose|q: int| 0 <= q < st.seen.len() && st.seen[q] == k;
                assert(t.seen[q] == k);
            }
        }
    }
    assert forall|i: int| 0 <= i < t.rows.len() implies ((#[trigger] t.rows[i]).duplicate <==> !is_info_spec(
        t.rows[i].ch,
    ) && exists|j: int|
        0 <= j < i && !is_info_spec(#[trigger] t.rows[j].ch) && key_spec(t.rows[j].ch) == key_spec(t.rows[i].ch)) by {
        if i < n {
            assert(t.rows[i] == st.rows[i]);
            if exists|j: int| 0 <= j < i && !is_info_spec(#[trigger] t.rows[j].ch) && key_spec(t.rows[j].ch) == key_spec(t.rows[i].ch) {
                let j = choose|j: int| 0 <= j < i && !is_info_spec(#[trigger] t.rows[j].ch) && key_spec(t.rows[j].ch) == key_spec(t.rows[i].ch);
                assert(st.rows[j] == t.rows[j]);
            }
            if exists|j: int| 0 <= j < i && !is_info_spec(#[trigger] st.rows[j].ch) && key_spec(st.rows[j].ch) == key_spec(st.rows[i].ch) {
                let j = choose|j: int| 0 <= j < i && !is_info_spec(#[trigger] st.rows[j].ch) && key_spec(st.rows[j].ch) == key_spec(st.rows[i].ch);
                assert(st.rows[j] == t.rows[j]);
            }
        } else {
            assert(i == n);
            if exists|j: int| 0 <= j < n && !is_info_spec(#[trigger] t.rows[j].ch) && key_spec(t.rows[j].ch) == key {
                let j = choose|j: int| 0 <= j < n && !is_info_spec(#[trigger] t.rows[j].ch) && key_spec(t.rows[j].ch) == key;
                assert(st.rows[j] == t.rows[j]);
                assert(st.seen.contains(key));
            }
            if st.seen.contains(key) {
                let j = choose|j: int| 0 <= j < st.rows.len() && !is_info_spec(#[trigger] st.rows[j].ch) && key_spec(st.rows[j].ch) == key;
                assert(st.rows[j] == t.rows[j]);
            }
        }
    }
}

proof fn lemma_rows_of_channels_keys(
    st: RowsModel,
    yi: int,
    cs: Seq<ChannelModel>,
    yp: Seq<char>,
    fs: Seq<CompiledFilterModel>,
    nk: Seq<Seq<char>>,
)
    requires
        rows_keys_ok(st),
    ensures
        rows_keys_ok(rows_of_channels(st, yi, cs, yp, fs, nk)),
    decreases cs.len(),
{
    if cs.len() > 0 {
        lemma_rows_of_channels_keys(st, yi, cs.drop_last(), yp, fs, nk);
        lemma_row_step_keys(rows_of_channels(st, yi, cs.drop_last(), yp, fs, nk), yi, cs.last(), yp, fs, nk);
    }
}

proof fn lemma_rows_of_keys(st: RowsModel, ys: Seq<YpStatus>, fs: Seq<CompiledFilterModel>, nk: Seq<Seq<char>>)
    requires
        rows_keys_ok(st),
    ensures
        rows_keys_ok(rows_of(st, ys, fs, nk)),
    decreases ys.len(),
{
    if ys.len() > 0 {
        let p = ys.drop_last();
        lemma_rows_of_keys(st, p, fs, nk);
        lemma_rows_of_channels_keys(
            rows_of(st, p, fs, nk),
            p.len() as int,
            models(ys.last().channels@),
            ys.last().name@,
            fs,
            nk,
        );
    }
}

/// Each channel key is met once: the keys met are those of the real channels among
/// the rows, with no repeats, and a row is marked a duplicate exactly when it is a
/// real channel whose key a row before it (of any YP) already has.
pub proof fn law_rows_duplicates(ys: Seq<YpStatus>, fs: Seq<CompiledFilterModel>, nk: Seq<Seq<char>>)
    ensures
        rows_keys_ok(rows_of(rows_start(ys.len()), ys, fs, nk)),
{
    lemma_rows_of_keys(rows_start(ys.len()), ys, fs, nk);
}

/// Builds the rows of the list from the YPs and the filters, with the counts of the
/// tabs (`per_yp` follows the order of `yps`).
#[verifier::spinoff_prover]
pub fn build_rows(yps: &[YpStatus], filters: &[CompiledFilter], new_keys: &[String]) -> (r: (Vec<Row>, Counts))
    requires
        total_channels(yps@) <= usize::MAX,
    ensures
        ({
            let m = rows_of(rows_start(yps@.len()), yps@, compiled_models(filters@), strings_view(new_keys@));
            &&& row_models(r.0@) == m.rows
            &&& r.1.favorite == m.favorite
            &&& r.1.all == m.all
            &&& r.1.ignored == m.ignored
            &&& nats(r.1.per_yp@) == m.per_yp
        }),
{
    let ghost fs = compiled_models(filters@);
    let ghost nk = strings_view(new_keys@);
    let ghost st0 = rows_start(yps@.len());
    let mut rows: Vec<Row> = Vec::new();
    let mut favorite: usize = 0;
    let mut all: usize = 0;
    let mut ignored: usize = 0;
    let mut per_yp: Vec<usize> = vec![0; yps.len()];
    let mut seen: Vec<String> = Vec::new();
    let mut keys: Vec<String> = Vec::new();
    let mut k: usize = 0;
    while k < new_keys.len()
        invariant
            k <= new_keys@.len(),
            keys@ == new_keys@.take(k as int),
        decreases new_keys@.len() - k,
    {
        keys.push(new_keys[k].clone());
        assert(keys@ =~= new_keys@.take(k + 1));
        k += 1;
    }
    assert(keys@ =~= new_keys@);
    assert(nats(per_yp@) =~= st0.per_yp);
    assert(yps@.take(0) =~= Seq::<YpStatus>::empty());
    let mut i: usize = 0;
    while i < yps.len()
        invariant
            i <= yps@.len(),
            fs == compiled_models(filters@),
            nk == strings_view(keys@),
            nk == strings_view(new_keys@),
            st0 == rows_start(yps@.len()),
            total_channels(yps@) <= usize::MAX,
            rows@.len() == total_channels(yps@.take(i as int)),
            per_yp@.len() == yps@.len(),
            (RowsModel {
                rows: row_models(rows@),
                favorite: favorite as nat,
                all: all as nat,
                ignored: ignored as nat,
                per_yp: nats(per_yp@),
                seen: strings_view(seen@),
            }) == rows_of(st0, yps@.take(i as int), fs, nk),
            counts_bounded(rows_of(st0, yps@.take(i as int), fs, nk)),
        decreases yps@.len() - i,
    {
        let y = &yps[i];
        let ghost t = yps@.take(i + 1);
        proof {
            assert(t.drop_last() =~= yps@.take(i as int));
            assert(t.last() == *y);
            lemma_total_prefix(yps@, i + 1);
        }
        let ghost cs = models(y.channels@);
        let ghost sti = rows_of(st0, yps@.take(i as int), fs, nk);
        let mut j: usize = 0;
        assert(cs.take(0) =~= Seq::<ChannelModel>::empty());
        while j < y.channels.len()
            invariant
                i < yps@.len(),
                j <= cs.len(),
                *y == yps@[i as int],
                cs == models(y.channels@),
                fs == compiled_models(filters@),
                nk == strings_view(keys@),
                    per_yp@.len() == yps@.len(),
                rows@.len() == sti.rows.len() + j,
                sti.rows.len() + cs.len() <= usize::MAX,
                (RowsModel {
                    rows: row_models(rows@),
                    favorite: favorite as nat,
                    all: all as nat,
                    ignored: ignored as nat,
                    per_yp: nats(per_yp@),
                    seen: strings_view(seen@),
                }) == rows_of_channels(sti, i as int, cs.take(j as int), y.name@, fs, nk),
                counts_bounded(rows_of_channels(sti, i as int, cs.take(j as int), y.name@, fs, nk)),
            decreases cs.len() - j,
        {
            let c = &y.channels[j];
            proof {
                assert(cs.take(j + 1).drop_last() =~= cs.take(j as int));
                assert(cs.take(j + 1).last() == c@);
            }
            let ghost before = rows_of_channels(sti, i as int, cs.take(j as int), y.name@, fs, nk);
            let m = apply(filters, c, y.name.as_str());
            let key = c.key();
            let info = c.is_info();
            let dup = !info && contains_string(&seen, &key);
            let ghost seen0 = seen@;
            if !info && !dup {
                seen.push(key.clone());
                assert(strings_view(seen@) =~= strings_view(seen0).push(key@));
            }
            if m.ignore {
                if !dup {
                    ignored += 1;
                }
            } else {
                let ghost p0 = per_yp@;
                proof {
                    assert(nats(per_yp@)[i as int] == per_yp@[i as int]);
                    assert(before.per_yp[i as int] <= before.rows.len());
                    assert(row_models(rows@).len() == rows@.len());
                }
                let v = per_yp[i] + 1;
                per_yp.set(i, v);
                assert(nats(per_yp@) =~= nats(p0).update(i as int, nats(p0)[i as int] + 1));
                if !dup {
                    all += 1;
                    if m.favorite {
                        favorite += 1;
                    }
                }
            }
            let color = color_of(m.colors.as_slice());
            let is_new = contains_string(&keys, &key);
            let ghost r0 = rows@;
            rows.push(
                Row {
                    ch: c.copy(),
                    yp: y.name.clone(),
                    favorite: m.favorite,
                    ignore: m.ignore,
                    color,
                    is_new,
                    duplicate: dup,
                },
            );
            proof {
                assert(row_models(rows@) =~= row_models(r0).push(rows@.last()@));
                let after = rows_of_channels(sti, i as int, cs.take(j + 1), y.name@, fs, nk);
                assert(after == row_step(before, i as int, c@, y.name@, fs, nk));
                assert forall|q: int| 0 <= q < after.per_yp.len() implies #[trigger] after.per_yp[q]
                    <= after.rows.len() by {
                    assert(before.per_yp[q] <= before.rows.len());
                }
            }
            j += 1;
        }
        assert(cs.take(cs.len() as int) =~= cs);
        i += 1;
    }
    assert(yps@.take(yps@.len() as int) =~= yps@);
    (rows, Counts { favorite, all, ignored, per_yp })
}

// ------------------------------------------------------------------ the rows of a tab

/// The tabs above the list.
pub enum Tab {
    Favorite,
    All,
    /// The channels of one YP, by its URL
    Yp(String),
    Ignored,
}

/// `str::to_lowercase` of `s` (Unicode lower case).
pub uninterp spec fn lowercase(s: Seq<char>) -> Seq<char>;

/// `str::to_lowercase`: the Unicode lower case of `s`, named [`lowercase`]; nothing
/// more is claimed of it.
#[verifier::external_body]
fn to_lowercase(s: &str) -> (r: String)
    ensures
        r@ == lowercase(s@),
{
    s.to_lowercase()
}

/// Whether the row belongs to the tab (`yp_known`: the tab's URL is one of the YPs
/// of the settings).
pub open spec fn tab_ok(r: RowModel, tab: Tab, yp_known: bool) -> bool {
    match tab {
        Tab::Favorite => r.favorite && !r.ignore && !r.duplicate,
        Tab::All => !r.ignore && !r.duplicate,
        Tab::Yp(url) => !r.ignore && r.ch.feed_url == url@ && yp_known,
        Tab::Ignored => r.ignore && !r.duplicate,
    }
}

/// The texts that the search box looks in.
pub open spec fn search_fields(r: RowModel) -> Seq<Seq<char>> {
    seq![r.ch.name, r.ch.genre, r.ch.desc, r.ch.comment, r.ch.content_type, r.yp, r.ch.track_title, r.ch.track_artist]
}

/// Whether the row matches the (already lower-cased) search text `q`: an empty one
/// matches all; otherwise one of the texts, lower-cased, holds it.
pub open spec fn search_ok(r: RowModel, q: Seq<char>) -> bool {
    q.len() == 0 || exists|k: int| 0 <= k < 8 && #[trigger] contains_seq(lowercase(search_fields(r)[k]), q)
}

/// Whether the row is shown: it belongs to the tab, it is no information line unless
/// those are shown or the tab is the ignored one, and it matches the search.
pub open spec fn row_shown(r: RowModel, tab: Tab, yp_known: bool, q: Seq<char>, show_info: bool) -> bool {
    &&& tab_ok(r, tab, yp_known)
    &&& !(!show_info && is_info_spec(r.ch) && !(tab is Ignored))
    &&& search_ok(r, q)
}

/// -1, 0 or 1 as `x` is below, equal to or above `y`.
pub open spec fn num_order(x: int, y: int) -> int {
    if x < y {
        -1
    } else if x > y {
        1
    } else {
        0
    }
}

/// Texts compared character by character (as `String`'s order compares their UTF-8
/// bytes, which orders the same way).
pub open spec fn lex_order(a: Seq<char>, b: Seq<char>) -> int
    decreases a.len(),
{
    if a.len() == 0 && b.len() == 0 {
        0
    } else if a.len() == 0 {
        -1
    } else if b.len() == 0 {
        1
    } else if a[0] != b[0] {
        num_order(a[0] as int, b[0] as int)
    } else {
        lex_order(a.drop_first(), b.drop_first())
    }
}

/// `x` comes before `y` in dictionary order: after their longest common start, `x`
/// ends while `y` goes on, or `x` has the smaller character.
pub open spec fn lex_less(x: Seq<char>, y: Seq<char>) -> bool {
    exists|k: int|
        0 <= k <= x.len() && k <= y.len() && #[trigger] x.take(k) == y.take(k) && ((k == x.len() && k < y.len()) || (k
            < x.len() && k < y.len() && (x[k] as int) < (y[k] as int)))
}

/// The character-by-character comparison puts `x` first exactly when it comes first in
/// dictionary order, and calls two texts alike exactly when they are equal.
pub proof fn lemma_lex_order_meaning(x: Seq<char>, y: Seq<char>)
    ensures
        lex_order(x, y) < 0 <==> lex_less(x, y),
        lex_order(x, y) == 0 <==> x == y,
    decreases x.len(),
{
    if x.len() == 0 && y.len() == 0 {
        assert(x =~= y);
    } else if x.len() == 0 {
        assert(x.take(0) =~= y.take(0));
    } else if y.len() == 0 {
        assert(!lex_less(x, y)) by {
            if lex_less(x, y) {
                let k = choose|k: int|
                    0 <= k <= x.len() && k <= y.len() && #[trigger] x.take(k) == y.take(k) && ((k == x.len() && k
                        < y.len()) || (k < x.len() && k < y.len() && (x[k] as int) < (y[k] as int)));
            }
        }
        assert(x.len() != y.len());
    } else if x[0] != y[0] {
        assert(x.take(0) =~= y.take(0));
        assert(lex_less(x, y) ==> (x[0] as int) < (y[0] as int)) by {
            if lex_less(x, y) {
                let k = choose|k: int|
                    0 <= k <= x.len() && k <= y.len() && #[trigger] x.take(k) == y.take(k) && ((k == x.len() && k
                        < y.len()) || (k < x.len() && k < y.len() && (x[k] as int) < (y[k] as int)));
                if k > 0 {
                    assert(x.take(k)[0] == y.take(k)[0]);
                }
            }
        }
        assert(x[0] != y[0] ==> x != y);
        assert((x[0] as int) != (y[0] as int)) by {
            if (x[0] as int) == (y[0] as int) {
                vstd::utf8::char_u32_cast(x[0], x[0] as u32);
                vstd::utf8::char_u32_cast(y[0], y[0] as u32);
            }
        }
    } else {
        let x1 = x.drop_first();
        let y1 = y.drop_first();
        lemma_lex_order_meaning(x1, y1);
        if lex_less(x, y) {
            let k = choose|k: int|
                0 <= k <= x.len() && k <= y.len() && #[trigger] x.take(k) == y.take(k) && ((k == x.len() && k < y.len())
                    || (k < x.len() && k < y.len() && (x[k] as int) < (y[k] as int)));
            assert(k > 0);
            assert(x1.take(k - 1) =~= x.take(k).drop_first());
            assert(y1.take(k - 1) =~= y.take(k).drop_first());
            if k < x.len() && k < y.len() {
                assert(x1[k - 1] == x[k] && y1[k - 1] == y[k]);
            }
            assert(lex_less(x1, y1));
        }
        if lex_less(x1, y1) {
            let k = choose|k: int|
                0 <= k <= x1.len() && k <= y1.len() && #[trigger] x1.take(k) == y1.take(k) && ((k == x1.len() && k
                    < y1.len()) || (k < x1.len() && k < y1.len() && (x1[k] as int) < (y1[k] as int)));
            assert(x.take(k + 1) =~= seq![x[0]] + x1.take(k));
            assert(y.take(k + 1) =~= seq![y[0]] + y1.take(k));
            if k < x1.len() && k < y1.len() {
                assert(x1[k] == x[k + 1] && y1[k] == y[k + 1]);
            }
            assert(lex_less(x, y));
        }
        assert(x == y <==> x1 == y1) by {
            if x1 == y1 {
                assert(x =~= seq![x[0]] + x1);
                assert(y =~= seq![y[0]] + y1);
            }
        }
    }
}

/// What each sort key compares (before a reversal), whatever else the rows hold:
/// listeners then relays, the names or the genres in lower case, the bitrates, the
/// uptimes in minutes, the content types, the YP names. Rows sort alike exactly when
/// what the key compares is alike.
pub proof fn law_sort_keys(a: RowModel, b: RowModel)
    ensures
        key_order(a, b, SortKey::Listeners) < 0 <==> a.ch.listeners < b.ch.listeners || (a.ch.listeners
            == b.ch.listeners && a.ch.relays < b.ch.relays),
        key_order(a, b, SortKey::Listeners) == 0 <==> a.ch.listeners == b.ch.listeners && a.ch.relays
            == b.ch.relays,
        key_order(a, b, SortKey::Name) < 0 <==> lex_less(lowercase(a.ch.name), lowercase(b.ch.name)),
        key_order(a, b, SortKey::Name) == 0 <==> lowercase(a.ch.name) == lowercase(b.ch.name),
        key_order(a, b, SortKey::Genre) < 0 <==> lex_less(lowercase(a.ch.genre), lowercase(b.ch.genre)),
        key_order(a, b, SortKey::Genre) == 0 <==> lowercase(a.ch.genre) == lowercase(b.ch.genre),
        key_order(a, b, SortKey::Bitrate) < 0 <==> a.ch.bitrate < b.ch.bitrate,
        key_order(a, b, SortKey::Bitrate) == 0 <==> a.ch.bitrate == b.ch.bitrate,
        key_order(a, b, SortKey::Uptime) < 0 <==> uptime_minutes_spec(a.ch.uptime) < uptime_minutes_spec(
            b.ch.uptime,
        ),
        key_order(a, b, SortKey::Uptime) == 0 <==> uptime_minutes_spec(a.ch.uptime) == uptime_minutes_spec(
            b.ch.uptime,
        ),
        key_order(a, b, SortKey::Type) < 0 <==> lex_less(a.ch.content_type, b.ch.content_type),
        key_order(a, b, SortKey::Type) == 0 <==> a.ch.content_type == b.ch.content_type,
        key_order(a, b, SortKey::Yp) < 0 <==> lex_less(a.yp, b.yp),
        key_order(a, b, SortKey::Yp) == 0 <==> a.yp == b.yp,
{
    lemma_lex_order_meaning(lowercase(a.ch.name), lowercase(b.ch.name));
    lemma_lex_order_meaning(lowercase(a.ch.genre), lowercase(b.ch.genre));
    lemma_lex_order_meaning(a.ch.content_type, b.ch.content_type);
    lemma_lex_order_meaning(a.yp, b.yp);
}

/// In a view sorted by `key` from the smallest, a row never comes after one that
/// sorts after it; sorted from the largest, never after one that sorts before it. Rows
/// that sort alike keep their order in the list.
pub proof fn law_view_follows_key(rows: Seq<RowModel>, key: SortKey, desc: bool, v: Seq<usize>, i: int, j: int)
    requires
        in_view_order(rows, key, desc, v),
        0 <= i < j < v.len(),
        v[i] < rows.len() && v[j] < rows.len(),
    ensures
        !desc ==> key_order(rows[v[i] as int], rows[v[j] as int], key) <= 0,
        desc ==> key_order(rows[v[i] as int], rows[v[j] as int], key) >= 0,
        key_order(rows[v[i] as int], rows[v[j] as int], key) == 0 ==> v[i] < v[j],
{
    assert(precedes(rows, key, desc, v[i] as int, v[j] as int));
}

/// How two rows compare for a sort key, before any reversal.
pub open spec fn key_order(a: RowModel, b: RowModel, key: SortKey) -> int {
    match key {
        SortKey::Listeners => {
            let o = num_order(a.ch.listeners as int, b.ch.listeners as int);
            if o != 0 {
                o
            } else {
                num_order(a.ch.relays as int, b.ch.relays as int)
            }
        },
        SortKey::Name => lex_order(lowercase(a.ch.name), lowercase(b.ch.name)),
        SortKey::Genre => lex_order(lowercase(a.ch.genre), lowercase(b.ch.genre)),
        SortKey::Bitrate => num_order(a.ch.bitrate as int, b.ch.bitrate as int),
        SortKey::Uptime => num_order(uptime_minutes_spec(a.ch.uptime) as int, uptime_minutes_spec(b.ch.uptime) as int),
        SortKey::Type => lex_order(a.ch.content_type, b.ch.content_type),
        SortKey::Yp => lex_order(a.yp, b.yp),
    }
}

pub open spec fn sort_order(a: RowModel, b: RowModel, key: SortKey, desc: bool) -> int {
    if desc {
        -key_order(a, b, key)
    } else {
        key_order(a, b, key)
    }
}

/// Row `a` comes before row `b`: it sorts before it, or they sort alike and `a` comes
/// first in the rows (the sort keeps the order of rows that sort alike).
pub open spec fn precedes(rows: Seq<RowModel>, key: SortKey, desc: bool, a: int, b: int) -> bool {
    let o = sort_order(rows[a], rows[b], key, desc);
    o < 0 || (o == 0 && a < b)
}

/// `v` lists positions of `rows` in the order of the sort.
pub open spec fn in_view_order(rows: Seq<RowModel>, key: SortKey, desc: bool, v: Seq<usize>) -> bool {
    forall|i: int, j: int| 0 <= i < j < v.len() ==> #[trigger] precedes(rows, key, desc, v[i] as int, v[j] as int)
}

proof fn lemma_lex_order(a: Seq<char>, b: Seq<char>, c: Seq<char>)
    ensures
        lex_order(a, b) == -lex_order(b, a),
        -1 <= lex_order(a, b) <= 1,
        lex_order(a, b) <= 0 && lex_order(b, c) <= 0 ==> lex_order(a, c) <= 0,
    decreases a.len(),
{
    if a.len() > 0 && b.len() > 0 && c.len() > 0 {
        lemma_lex_order(a.drop_first(), b.drop_first(), c.drop_first());
    } else if a.len() > 0 && b.len() > 0 {
        lemma_lex_order(a.drop_first(), b.drop_first(), c);
    }
}

proof fn lemma_sort_order(a: RowModel, b: RowModel, c: RowModel, key: SortKey, desc: bool)
    ensures
        sort_order(a, b, key, desc) == -sort_order(b, a, key, desc),
        sort_order(a, b, key, desc) <= 0 && sort_order(b, c, key, desc) <= 0 ==> sort_order(a, c, key, desc) <= 0,
{
    match key {
        SortKey::Name => {
            lemma_lex_order(lowercase(a.ch.name), lowercase(b.ch.name), lowercase(c.ch.name));
            lemma_lex_order(lowercase(c.ch.name), lowercase(b.ch.name), lowercase(a.ch.name));
            lemma_lex_order(lowercase(a.ch.name), lowercase(c.ch.name), lowercase(b.ch.name));
        },
        SortKey::Genre => {
            lemma_lex_order(lowercase(a.ch.genre), lowercase(b.ch.genre), lowercase(c.ch.genre));
            lemma_lex_order(lowercase(c.ch.genre), lowercase(b.ch.genre), lowercase(a.ch.genre));
            lemma_lex_order(lowercase(a.ch.genre), lowercase(c.ch.genre), lowercase(b.ch.genre));
        },
        SortKey::Type => {
            lemma_lex_order(a.ch.content_type, b.ch.content_type, c.ch.content_type);
            lemma_lex_order(c.ch.content_type, b.ch.content_type, a.ch.content_type);
            lemma_lex_order(a.ch.content_type, c.ch.content_type, b.ch.content_type);
        },
        SortKey::Yp => {
            lemma_lex_order(a.yp, b.yp, c.yp);
            lemma_lex_order(c.yp, b.yp, a.yp);
            lemma_lex_order(a.yp, c.yp, b.yp);
        },
        _ => {},
    }
}

fn int_order(x: i64, y: i64) -> (r: i8)
    ensures
        r == num_order(x as int, y as int),
{
    if x < y {
        -1
    } else if x > y {
        1
    } else {
        0
    }
}

fn chars_order(a: &[char], b: &[char]) -> (r: i8)
    ensures
        r == lex_order(a@, b@),
{
    let mut i: usize = 0;
    assert(a@.skip(0) =~= a@);
    assert(b@.skip(0) =~= b@);
    while i < a.len() && i < b.len()
        invariant
            i <= a@.len(),
            i <= b@.len(),
            lex_order(a@.skip(i as int), b@.skip(i as int)) == lex_order(a@, b@),
        decreases a@.len() - i,
    {
        if a[i] != b[i] {
            proof {
                assert(a@.skip(i as int)[0] == a@[i as int]);
                assert(b@.skip(i as int)[0] == b@[i as int]);
            }
            return if a[i] < b[i] {
                -1
            } else {
                1
            };
        }
        proof {
            assert(a@.skip(i as int).drop_first() =~= a@.skip(i + 1));
            assert(b@.skip(i as int).drop_first() =~= b@.skip(i + 1));
        }
        i += 1;
    }
    if i == a.len() && i == b.len() {
        0
    } else if i == a.len() {
        -1
    } else {
        1
    }
}

fn text_order(a: &str, b: &str) -> (r: i8)
    ensures
        r == lex_order(a@, b@),
{
    let x = to_chars(a);
    let y = to_chars(b);
    chars_order(&x, &y)
}

fn lower_order(a: &str, b: &str) -> (r: i8)
    ensures
        r == lex_order(lowercase(a@), lowercase(b@)),
{
    let x = to_lowercase(a);
    let y = to_lowercase(b);
    text_order(x.as_str(), y.as_str())
}

/// How two rows compare for the sort key, reversed for a descending sort.
fn row_order(a: &Row, b: &Row, key: SortKey, desc: bool) -> (r: i8)
    ensures
        r == sort_order(a@, b@, key, desc),
{
    let o: i8 = match key {
        SortKey::Listeners => {
            let o = int_order(a.ch.listeners as i64, b.ch.listeners as i64);
            if o != 0 {
                o
            } else {
                int_order(a.ch.relays as i64, b.ch.relays as i64)
            }
        },
        SortKey::Name => lower_order(a.ch.name.as_str(), b.ch.name.as_str()),
        SortKey::Genre => lower_order(a.ch.genre.as_str(), b.ch.genre.as_str()),
        SortKey::Bitrate => int_order(a.ch.bitrate as i64, b.ch.bitrate as i64),
        SortKey::Uptime => int_order(a.ch.uptime_minutes() as i64, b.ch.uptime_minutes() as i64),
        SortKey::Type => text_order(a.ch.content_type.as_str(), b.ch.content_type.as_str()),
        SortKey::Yp => text_order(a.yp.as_str(), b.yp.as_str()),
    };
    proof {
        lemma_lex_order(seq![], seq![], seq![]);
        match key {
            SortKey::Name => lemma_lex_order(lowercase(a.ch.name@), lowercase(b.ch.name@), seq![]),
            SortKey::Genre => lemma_lex_order(lowercase(a.ch.genre@), lowercase(b.ch.genre@), seq![]),
            SortKey::Type => lemma_lex_order(a.ch.content_type@, b.ch.content_type@, seq![]),
            SortKey::Yp => lemma_lex_order(a.yp@, b.yp@, seq![]),
            _ => {},
        }
    }
    if desc {
        -o
    } else {
        o
    }
}

proof fn lemma_insert_in_order(rows: Seq<RowModel>, key: SortKey, desc: bool, v: Seq<usize>, p: int, n: usize)
    requires
        0 <= p <= v.len(),
        n < rows.len(),
        in_view_order(rows, key, desc, v),
        forall|m: int| 0 <= m < v.len() ==> #[trigger] v[m] < n,
        forall|m: int| p <= m < v.len() ==> sort_order(rows[#[trigger] v[m] as int], rows[n as int], key, desc) > 0,
        p > 0 ==> sort_order(rows[v[p - 1] as int], rows[n as int], key, desc) <= 0,
    ensures
        in_view_order(rows, key, desc, v.insert(p, n)),
{
    let w = v.insert(p, n);
    assert forall|i: int, j: int| 0 <= i < j < w.len() implies #[trigger] precedes(rows, key, desc, w[i] as int, w[j] as int) by {
        if j < p {
            assert(w[i] == v[i] && w[j] == v[j]);
            assert(precedes(rows, key, desc, v[i] as int, v[j] as int));
        } else if j == p {
            assert(w[i] == v[i] && w[j] == n);
            assert(v[i] < n);
            if i < p - 1 {
                assert(precedes(rows, key, desc, v[i] as int, v[p - 1] as int));
                lemma_sort_order(rows[v[i] as int], rows[v[p - 1] as int], rows[n as int], key, desc);
            }
        } else if i == p {
            assert(w[i] == n && w[j] == v[j - 1]);
            assert(sort_order(rows[v[j - 1] as int], rows[n as int], key, desc) > 0);
            lemma_sort_order(rows[v[j - 1] as int], rows[n as int], rows[n as int], key, desc);
        } else if i < p {
            assert(w[i] == v[i] && w[j] == v[j - 1]);
            assert(precedes(rows, key, desc, v[i] as int, v[j - 1] as int));
        } else {
            assert(w[i] == v[i - 1] && w[j] == v[j - 1]);
            assert(precedes(rows, key, desc, v[i - 1] as int, v[j - 1] as int));
        }
    }
}

/// Whether one of the texts, lower-cased, holds `q`.
fn field_has(s: &str, q: &[char]) -> (r: bool)
    ensures
        r == contains_seq(lowercase(s@), q@),
{
    let l = to_lowercase(s);
    let v = to_chars(l.as_str());
    has_sub(&v, q)
}

fn shown(r: &Row, tab: &Tab, yp_known: bool, q: &[char], show_info: bool) -> (b: bool)
    ensures
        b == row_shown(r@, *tab, yp_known, q@, show_info),
{
    let tab_fits = match tab {
        Tab::Favorite => r.favorite && !r.ignore && !r.duplicate,
        Tab::All => !r.ignore && !r.duplicate,
        Tab::Yp(url) => !r.ignore && r.ch.feed_url == *url && yp_known,
        Tab::Ignored => r.ignore && !r.duplicate,
    };
    let ignored_tab = match tab {
        Tab::Ignored => true,
        _ => false,
    };
    if !tab_fits || (!show_info && r.ch.is_info() && !ignored_tab) {
        return false;
    }
    if q.len() == 0 {
        return true;
    }
    let ghost f = search_fields(r@);
    let c = &r.ch;
    let hit = field_has(c.name.as_str(), q) || field_has(c.genre.as_str(), q) || field_has(c.desc.as_str(), q)
        || field_has(c.comment.as_str(), q) || field_has(c.content_type.as_str(), q) || field_has(
        r.yp.as_str(),
        q,
    ) || field_has(c.track_title.as_str(), q) || field_has(c.track_artist.as_str(), q);
    proof {
        assert(f[0] == c.name@ && f[1] == c.genre@ && f[2] == c.desc@ && f[3] == c.comment@);
        assert(f[4] == c.content_type@ && f[5] == r.yp@ && f[6] == c.track_title@ && f[7] == c.track_artist@);
        if hit {
            if contains_seq(lowercase(f[0]), q@) {
            } else if contains_seq(lowercase(f[1]), q@) {
            } else if contains_seq(lowercase(f[2]), q@) {
            } else if contains_seq(lowercase(f[3]), q@) {
            } else if contains_seq(lowercase(f[4]), q@) {
            } else if contains_seq(lowercase(f[5]), q@) {
            } else if contains_seq(lowercase(f[6]), q@) {
            } else {
                assert(contains_seq(lowercase(f[7]), q@));
            }
        } else {
            assert forall|k: int| 0 <= k < 8 implies !#[trigger] contains_seq(lowercase(f[k]), q@) by {
                if k == 0 {} else if k == 1 {} else if k == 2 {} else if k == 3 {} else if k == 4 {} else if k == 5 {} else if k == 6 {} else {}
            }
        }
    }
    hit
}

/// The rows of a tab, in the order of the sort: the positions of the rows that
/// belong to the tab and match the search (`search` trimmed and lower-cased), sorted
/// by `key` (descending when `desc`), rows that sort alike keeping their order.
/// `yp_known` says whether a YP tab's URL is one of the YPs of the settings.
pub fn view_rows(
    rows: &[Row],
    tab: &Tab,
    yp_known: bool,
    search: &str,
    key: SortKey,
    desc: bool,
    show_info: bool,
) -> (r: Vec<usize>)
    ensures
        in_view_order(row_models(rows@), key, desc, r@),
        forall|i: int| 0 <= i < r@.len() ==> #[trigger] r@[i] < rows@.len(),
        forall|k: int|
            0 <= k < rows@.len() ==> (r@.contains(k as usize) <==> row_shown(
                #[trigger] rows@[k]@,
                *tab,
                yp_known,
                lowercase(trim(search@)),
                show_info,
            )),
{
    let ghost rm = row_models(rows@);
    let t = trim_chars(search);
    let ts = from_chars(&t);
    let ql = to_lowercase(ts.as_str());
    let q = to_chars(ql.as_str());
    let ghost qs = lowercase(trim(search@));
    let mut out: Vec<usize> = Vec::new();
    let mut i: usize = 0;
    while i < rows.len()
        invariant
            i <= rows@.len(),
            rm == row_models(rows@),
            q@ == qs,
            qs == lowercase(trim(search@)),
            in_view_order(rm, key, desc, out@),
            forall|m: int| 0 <= m < out@.len() ==> #[trigger] out@[m] < i,
            forall|k: int|
                0 <= k < rows@.len() ==> (out@.contains(k as usize) <==> (k < i && row_shown(
                    #[trigger] rows@[k]@,
                    *tab,
                    yp_known,
                    qs,
                    show_info,
                ))),
        decreases rows@.len() - i,
    {
        if shown(&rows[i], tab, yp_known, &q, show_info) {
            let mut p = out.len();
            let mut go = true;
            while go
                invariant
                    i < rows@.len(),
                    rm == row_models(rows@),
                    p <= out@.len(),
                    forall|m: int| 0 <= m < out@.len() ==> #[trigger] out@[m] < i,
                    forall|m: int|
                        p <= m < out@.len() ==> sort_order(rm[#[trigger] out@[m] as int], rm[i as int], key, desc) > 0,
                    !go && p > 0 ==> sort_order(rm[out@[p - 1] as int], rm[i as int], key, desc) <= 0,
                decreases p + if go {
                    1int
                } else {
                    0int
                },
            {
                if p == 0 {
                    go = false;
                } else {
                    let o = row_order(&rows[out[p - 1]], &rows[i], key, desc);
                    proof {
                        assert(rm[out@[p - 1] as int] == rows@[out@[p - 1] as int]@);
                        assert(rm[i as int] == rows@[i as int]@);
                    }
                    if o <= 0 {
                        go = false;
                    } else {
                        p -= 1;
                    }
                }
            }
            let ghost before = out@;
            proof {
                lemma_insert_in_order(rm, key, desc, before, p as int, i);
            }
            out.insert(p, i);
            proof {
                assert forall|k: int| 0 <= k < rows@.len() implies (out@.contains(k as usize) <==> (k < i + 1
                    && row_shown(#[trigger] rows@[k]@, *tab, yp_known, qs, show_info))) by {
                    if k == i {
                        assert(out@[p as int] == i);
                    } else if out@.contains(k as usize) {
                        let m = choose|m: int| 0 <= m < out@.len() && out@[m] == k as usize;
                        if m < p {
                            assert(before[m] == k as usize);
                        } else {
                            assert(before[m - 1] == k as usize);
                        }
                    } else if before.contains(k as usize) {
                        let m = choose|m: int| 0 <= m < before.len() && before[m] == k as usize;
                        if m < p {
                            assert(out@[m] == k as usize);
                        } else {
                            assert(out@[m + 1] == k as usize);
                        }
                    }
                }
                assert forall|m: int| 0 <= m < out@.len() implies #[trigger] out@[m] < i + 1 by {
                    if m < p {
                        assert(out@[m] == before[m]);
                    } else if m > p {
                        assert(out@[m] == before[m - 1]);
                    }
                }
            }
        }
        i += 1;
    }
    out
}


// ------------------------------------------------------------------ moving the selection

/// The position in the list (of `len` rows) that the arrow keys move to from `pos`:
/// the first row when nothing is selected, else one down or up, staying in the list.
pub fn step_selection(pos: Option<usize>, len: usize, down: bool) -> (r: usize)
    requires
        len > 0,
    ensures
        r == match pos {
            None => 0,
            Some(p) => if down {
                if p + 1 < len {
                    p + 1
                } else {
                    len - 1
                }
            } else if p > 0 {
                p - 1
            } else {
                0
            },
        },
        r < len || (pos matches Some(p) && !down && p >= len),
{
    match pos {
        None => 0,
        Some(p) => if down {
            if p < len - 1 {
                p + 1
            } else {
                len - 1
            }
        } else {
            p.saturating_sub(1)
        },
    }
}

} // verus!
