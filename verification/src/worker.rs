//! The state shared between the fetching side and the window: one status per YP,
//! the log, and the decisions taken around each round of fetching.
use vstd::prelude::*;
use std::collections::VecDeque;
use std::time::{Duration, Instant};
use crate::config::{NotifyConfig, YpEntry, MANUAL_INTERVAL_SEC};
use crate::chandir::{
    bad_lines, is_info_spec, key_spec, lines_of, models, parse_index, parsed_lines, stable_listener_order, Channel,
    ChannelModel,
};
use crate::filter::{apply, apply_spec, compiled_models, contains_string, strings_view, CompiledFilter, CompiledFilterModel};
use crate::text::{dec_nat, lemma_push_distinct, push_dec, push_str};
use crate::win::{hms_of, hms_text};

verus! {

/// How many lines the log keeps; older lines are dropped first.
pub const MAX_LOG: usize = 1000;

/// A moment of the monotonic clock (`std::time::Instant`), carried as it is.
#[verifier::external_type_specification]
#[verifier::external_body]
pub struct ExInstant(std::time::Instant);

/// `Instant::now()`: the moment of the call. Nothing is claimed of the value.
#[verifier::external_body]
fn instant_now() -> (r: Instant) {
    Instant::now()
}

/// `Instant::elapsed`: the time gone by since `t`. Nothing is claimed of the value:
/// it depends on the clock.
#[verifier::external_body]
fn time_since(t: &Instant) -> (r: Duration) {
    t.elapsed()
}

/// `Duration::as_secs`: the whole seconds of `d`. `Duration` is opaque here, so
/// nothing is claimed of the value.
#[verifier::external_body]
fn whole_secs(d: &Duration) -> (r: u64) {
    d.as_secs()
}

/// Where the fetch of one YP stands.
#[derive(Clone, Debug, PartialEq)]
pub enum FetchState {
    Idle,
    Loading,
    Fetched,
    Error(String),
}

/// One YP as the window shows it.
#[derive(Clone, Debug)]
pub struct YpStatus {
    pub name: String,
    pub url: String,
    pub state: FetchState,
    pub channels: Vec<Channel>,
    /// Numbers of the lines that could not be read
    pub bad_lines: Vec<usize>,
    pub updated: Option<String>,
}

/// One line of the log.
#[derive(Clone, Debug)]
pub struct LogLine {
    pub time: String,
    pub error: bool,
    pub text: String,
}

/// What the fetching side and the window share.
pub struct Shared {
    pub yps: Vec<YpStatus>,
    /// Grows by one each time a round of fetching ends
    pub generation: u64,
    pub fetching: bool,
    pub last_fetch: Option<Instant>,
    pub next_auto: Option<Instant>,
    /// Keys of the channels that appeared in the last round
    pub new_keys: Vec<String>,
    pub log: VecDeque<LogLine>,
}

impl Default for Shared {
    fn default() -> (r: Shared)
        ensures
            r.yps@.len() == 0,
            r.generation == 0,
            !r.fetching,
            r.last_fetch is None,
            r.next_auto is None,
            r.new_keys@.len() == 0,
            r.log@.len() == 0,
    {
        Shared {
            yps: Vec::new(),
            generation: 0,
            fetching: false,
            last_fetch: None,
            next_auto: None,
            new_keys: Vec::new(),
            log: VecDeque::new(),
        }
    }
}

/// The log after adding `line`: the oldest line goes first when the log is full.
pub open spec fn log_after(log: Seq<LogLine>, line: LogLine) -> Seq<LogLine> {
    if log.len() >= MAX_LOG {
        log.drop_first().push(line)
    } else {
        log.push(line)
    }
}

/// Seconds still to wait before a manual refresh, `elapsed` seconds after the last one.
pub open spec fn wait_spec(elapsed: u64) -> u64 {
    if elapsed >= MANUAL_INTERVAL_SEC {
        0
    } else {
        (MANUAL_INTERVAL_SEC - elapsed) as u64
    }
}

/// Seconds still to wait before a manual refresh, `elapsed` seconds after the last one.
pub fn wait_after(elapsed: u64) -> (r: u64)
    ensures
        r == wait_spec(elapsed),
{
    MANUAL_INTERVAL_SEC.saturating_sub(elapsed)
}

impl Shared {
    /// Adds a line, stamped with the time of day of `now` (the clock as
    /// `[year, month, day, hour, minute, second]`), to the log; the log keeps at most
    /// [`MAX_LOG`] lines.
    pub fn log(&mut self, error: bool, text: String, now: [u16; 6])
        ensures
            final(self).log@ == log_after(old(self).log@, final(self).log@.last()),
            old(self).log@.len() <= MAX_LOG ==> final(self).log@.len() <= MAX_LOG,
            final(self).log@.last().error == error,
            final(self).log@.last().text@ == text@,
            final(self).log@.last().time@ == hms_text(now),
            final(self).yps == old(self).yps,
            final(self).generation == old(self).generation,
            final(self).fetching == old(self).fetching,
            final(self).last_fetch == old(self).last_fetch,
            final(self).next_auto == old(self).next_auto,
            final(self).new_keys == old(self).new_keys,
    {
        if self.log.len() >= MAX_LOG {
            self.log.pop_front();
        }
        let line = LogLine { time: hms_of(now), error, text };
        self.log.push_back(line);
        assert(self.log@.last() == line);
        assert(self.log@ =~= log_after(old(self).log@, line));
    }

    /// Seconds still to wait before a manual refresh is allowed (0 when there was
    /// no fetch yet).
    pub fn manual_wait(&self) -> (r: u64)
        ensures
            self.last_fetch is None ==> r == 0,
            self.last_fetch is Some ==> exists|e: u64| r == wait_spec(e),
            r <= MANUAL_INTERVAL_SEC,
    {
        match &self.last_fetch {
            Some(t) => {
                let d = time_since(t);
                wait_after(whole_secs(&d))
            },
            None => 0,
        }
    }
}

// ------------------------------------------------------------------ following the settings

/// The entries of `es` that are switched on, in order.
pub open spec fn enabled_of(es: Seq<YpEntry>) -> Seq<YpEntry>
    decreases es.len(),
{
    if es.len() == 0 {
        seq![]
    } else if es.last().enabled {
        enabled_of(es.drop_last()).push(es.last())
    } else {
        enabled_of(es.drop_last())
    }
}

/// The last status in `s` for the URL `u`.
pub open spec fn last_with(s: Seq<YpStatus>, u: Seq<char>) -> Option<YpStatus>
    decreases s.len(),
{
    if s.len() == 0 {
        None
    } else if s.last().url@ == u {
        Some(s.last())
    } else {
        last_with(s.drop_last(), u)
    }
}

/// Whether one of the first `n` entries of `t` has the URL `u`.
pub open spec fn claimed(t: Seq<YpEntry>, n: int, u: Seq<char>) -> bool {
    exists|j: int| 0 <= j < n && #[trigger] t[j].url@ == u
}

/// A status not fetched yet for the entry `e`.
pub open spec fn is_fresh(y: YpStatus, e: YpEntry) -> bool {
    &&& y.name@ == e.name@
    &&& y.url@ == e.url@
    &&& y.state is Idle
    &&& y.channels@.len() == 0
    &&& y.bad_lines@.len() == 0
    &&& y.updated is None
}

/// The status `o` kept, under the name of the entry `e`.
pub open spec fn renamed(y: YpStatus, o: YpStatus, e: YpEntry) -> bool {
    &&& y.name@ == e.name@
    &&& y.url == o.url
    &&& y.state == o.state
    &&& y.channels == o.channels
    &&& y.bad_lines == o.bad_lines
    &&& y.updated == o.updated
}

/// Position `i` of the statuses that follow the enabled entries `t`: the first entry
/// with a URL keeps the last old status of that URL, renamed; other entries start
/// afresh.
pub open spec fn status_ok(old: Seq<YpStatus>, t: Seq<YpEntry>, r: Seq<YpStatus>, i: int) -> bool {
    let e = t[i];
    if !claimed(t, i, e.url@) && last_with(old, e.url@) is Some {
        renamed(r[i], last_with(old, e.url@).unwrap(), e)
    } else {
        is_fresh(r[i], e)
    }
}

/// The statuses `r` follow the enabled entries `t`, starting from the statuses `old`.
pub open spec fn synced(old: Seq<YpStatus>, t: Seq<YpEntry>, r: Seq<YpStatus>) -> bool {
    &&& r.len() == t.len()
    &&& forall|i: int| 0 <= i < t.len() ==> #[trigger] status_ok(old, t, r, i)
}

proof fn lemma_remove_keeps_last(s: Seq<YpStatus>, k: int, u: Seq<char>)
    requires
        0 <= k < s.len(),
        s[k].url@ != u,
    ensures
        last_with(s.remove(k), u) == last_with(s, u),
    decreases s.len(),
{
    if k == s.len() - 1 {
        assert(s.remove(k) =~= s.drop_last());
    } else {
        let t = s.remove(k);
        assert(t.last() == s.last());
        assert(t.drop_last() =~= s.drop_last().remove(k));
        if s.last().url@ != u {
            lemma_remove_keeps_last(s.drop_last(), k, u);
        }
    }
}

/// Where the last status for `url` stands in `v`.
fn find_last(v: &Vec<YpStatus>, url: &String) -> (r: Option<usize>)
    ensures
        match r {
            Some(k) => k < v@.len() && v@[k as int].url@ == url@ && last_with(v@, url@) == Some(
                v@[k as int],
            ),
            None => last_with(v@, url@) is None,
        },
{
    let mut i = v.len();
    assert(v@.take(i as int) =~= v@);
    while i > 0
        invariant
            i <= v@.len(),
            last_with(v@.take(i as int), url@) == last_with(v@, url@),
        decreases i,
    {
        assert(v@.take(i as int).drop_last() =~= v@.take(i - 1));
        if v[i - 1].url == *url {
            return Some(i - 1);
        }
        i -= 1;
    }
    None
}

/// Whether one of the statuses in `v` has the URL `url`.
fn has_url(v: &Vec<YpStatus>, url: &String) -> (r: bool)
    ensures
        r == exists|j: int| 0 <= j < v@.len() && #[trigger] v@[j].url@ == url@,
{
    let mut j: usize = 0;
    while j < v.len()
        invariant
            j <= v@.len(),
            forall|k: int| 0 <= k < j ==> #[trigger] v@[k].url@ != url@,
        decreases v@.len() - j,
    {
        if v[j].url == *url {
            return true;
        }
        j += 1;
    }
    false
}

fn fresh_status(e: &YpEntry) -> (r: YpStatus)
    ensures
        is_fresh(r, *e),
{
    YpStatus {
        name: e.name.clone(),
        url: e.url.clone(),
        state: FetchState::Idle,
        channels: Vec::new(),
        bad_lines: Vec::new(),
        updated: None,
    }
}

/// Follows the YPs of the settings: one status per enabled entry, in their order.
/// A YP that stays keeps its list and state (under its new name); a new one starts
/// empty.
#[verifier::spinoff_prover]
pub fn sync_yps(shared: &mut Shared, entries: &[YpEntry])
    ensures
        synced(old(shared).yps@, enabled_of(entries@), final(shared).yps@),
        final(shared).generation == old(shared).generation,
        final(shared).fetching == old(shared).fetching,
        final(shared).last_fetch == old(shared).last_fetch,
        final(shared).next_auto == old(shared).next_auto,
        final(shared).new_keys == old(shared).new_keys,
        final(shared).log == old(shared).log,
{
    let mut old_yps: Vec<YpStatus> = Vec::new();
    std::mem::swap(&mut old_yps, &mut shared.yps);
    let ghost orig = old_yps@;
    let mut out: Vec<YpStatus> = Vec::new();
    let ghost mut tgt: Seq<YpEntry> = seq![];
    let mut i: usize = 0;
    assert(entries@.take(0) =~= Seq::<YpEntry>::empty());
    while i < entries.len()
        invariant
            i <= entries@.len(),
            orig == old(shared).yps@,
            tgt == enabled_of(entries@.take(i as int)),
            out@.len() == tgt.len(),
            forall|j: int| 0 <= j < tgt.len() ==> #[trigger] out@[j].url@ == tgt[j].url@,
            forall|j: int| 0 <= j < tgt.len() ==> #[trigger] status_ok(orig, tgt, out@, j),
            forall|u: Seq<char>|
                !claimed(tgt, tgt.len() as int, u) ==> #[trigger] last_with(old_yps@, u)
                    == last_with(orig, u),
        decreases entries@.len() - i,
    {
        let e = &entries[i];
        proof {
            assert(entries@.take(i + 1).drop_last() =~= entries@.take(i as int));
            assert(entries@.take(i + 1).last() == *e);
        }
        if e.enabled {
            let n = out.len();
            let seen = has_url(&out, &e.url);
            proof {
                if seen {
                    let j = choose|j: int| 0 <= j < out@.len() && #[trigger] out@[j].url@ == e.url@;
                    assert(tgt[j].url@ == e.url@);
                } else {
                    assert forall|j: int| 0 <= j < n implies #[trigger] tgt[j].url@ != e.url@ by {
                        assert(out@[j].url@ == tgt[j].url@);
                    }
                }
                assert(seen == claimed(tgt, n as int, e.url@));
            }
            let ghost pre = old_yps@;
            let y = if seen {
                fresh_status(e)
            } else {
                match find_last(&old_yps, &e.url) {
                    Some(k) => {
                        let ghost before = old_yps@;
                        let mut y = old_yps.remove(k);
                        y.name = e.name.clone();
                        proof {
                            assert forall|u: Seq<char>|
                                !claimed(tgt.push(*e), n + 1, u) implies #[trigger] last_with(
                                old_yps@,
                                u,
                            ) == last_with(orig, u) by {
                                assert(tgt.push(*e)[n as int].url@ == e.url@);
                                assert(u != e.url@);
                                lemma_remove_keeps_last(before, k as int, u);
                                if claimed(tgt, n as int, u) {
                                    let j = choose|j: int| 0 <= j < n && #[trigger] tgt[j].url@ == u;
                                    assert(tgt.push(*e)[j] == tgt[j]);
                                }
                            }
                        }
                        y
                    },
                    None => fresh_status(e),
                }
            };
            let ghost out0 = out@;
            let ghost t1 = tgt.push(*e);
            out.push(y);
            proof {
                assert forall|j: int| 0 <= j < n implies #[trigger] status_ok(orig, t1, out@, j) by {
                    assert(status_ok(orig, tgt, out0, j));
                    assert(out@[j] == out0[j]);
                    assert(t1[j] == tgt[j]);
                    assert(claimed(t1, j, t1[j].url@) == claimed(tgt, j, tgt[j].url@)) by {
                        if claimed(tgt, j, tgt[j].url@) {
                            let m = choose|m: int| 0 <= m < j && #[trigger] tgt[m].url@ == tgt[j].url@;
                            assert(t1[m] == tgt[m]);
                        }
                        if claimed(t1, j, t1[j].url@) {
                            let m = choose|m: int| 0 <= m < j && #[trigger] t1[m].url@ == t1[j].url@;
                            assert(t1[m] == tgt[m]);
                        }
                    }
                }
                assert(t1[n as int] == *e);
                assert(claimed(t1, n as int, e.url@) == seen) by {
                    if claimed(tgt, n as int, e.url@) {
                        let m = choose|m: int| 0 <= m < n && #[trigger] tgt[m].url@ == e.url@;
                        assert(t1[m] == tgt[m]);
                    }
                    if claimed(t1, n as int, e.url@) {
                        let m = choose|m: int| 0 <= m < n && #[trigger] t1[m].url@ == e.url@;
                        assert(t1[m] == tgt[m]);
                    }
                }
                if !seen {
                    assert(last_with(pre, e.url@) == last_with(orig, e.url@));
                }
                assert(status_ok(orig, t1, out@, n as int));
                assert forall|u: Seq<char>|
                    !claimed(t1, t1.len() as int, u) implies #[trigger] last_with(old_yps@, u)
                        == last_with(orig, u) by {
                    if claimed(tgt, n as int, u) {
                        let j = choose|j: int| 0 <= j < n && #[trigger] tgt[j].url@ == u;
                        assert(t1[j] == tgt[j]);
                    }
                }
                tgt = t1;
            }
        }
        i += 1;
    }
    assert(entries@.take(entries@.len() as int) =~= entries@);
    shared.yps = out;
}

// ------------------------------------------------------------------ a round of fetching

/// `y` is `o` with its fetch under way.
pub open spec fn loading(y: YpStatus, o: YpStatus) -> bool {
    &&& y.name == o.name
    &&& y.url == o.url
    &&& y.state is Loading
    &&& y.channels == o.channels
    &&& y.bad_lines == o.bad_lines
    &&& y.updated == o.updated
}

/// Starts a round: follows the settings, marks every YP as loading, notes the time,
/// and returns the name and URL of each YP to fetch, in order.
#[verifier::spinoff_prover]
pub fn begin_fetch(shared: &mut Shared, entries: &[YpEntry]) -> (r: Vec<(String, String)>)
    ensures
        exists|mid: Seq<YpStatus>|
            {
                &&& synced(old(shared).yps@, enabled_of(entries@), mid)
                &&& mid.len() == final(shared).yps@.len()
                &&& forall|i: int|
                    0 <= i < mid.len() ==> loading(#[trigger] final(shared).yps@[i], mid[i])
            },
        r@.len() == final(shared).yps@.len(),
        forall|i: int|
            0 <= i < r@.len() ==> #[trigger] r@[i].0@ == final(shared).yps@[i].name@
                && r@[i].1@ == final(shared).yps@[i].url@,
        final(shared).fetching,
        final(shared).last_fetch is Some,
        final(shared).generation == old(shared).generation,
        final(shared).next_auto == old(shared).next_auto,
        final(shared).new_keys == old(shared).new_keys,
        final(shared).log == old(shared).log,
{
    sync_yps(shared, entries);
    let ghost mid = shared.yps@;
    shared.fetching = true;
    shared.last_fetch = Some(instant_now());
    let mut targets: Vec<(String, String)> = Vec::new();
    let mut i: usize = 0;
    while i < shared.yps.len()
        invariant
            i <= shared.yps@.len(),
            shared.yps@.len() == mid.len(),
            shared.fetching,
            shared.last_fetch is Some,
            shared.generation == old(shared).generation,
            shared.next_auto == old(shared).next_auto,
            shared.new_keys == old(shared).new_keys,
            shared.log == old(shared).log,
            targets@.len() == i,
            forall|j: int| 0 <= j < i ==> loading(#[trigger] shared.yps@[j], mid[j]),
            forall|j: int| i <= j < mid.len() ==> #[trigger] shared.yps@[j] == mid[j],
            forall|j: int|
                0 <= j < i ==> #[trigger] targets@[j].0@ == shared.yps@[j].name@
                    && targets@[j].1@ == shared.yps@[j].url@,
        decreases mid.len() - i,
    {
        shared.yps[i].state = FetchState::Loading;
        targets.push((shared.yps[i].name.clone(), shared.yps[i].url.clone()));
        i += 1;
    }
    targets
}

/// `chans` and `bad` are what reading `text` as the `index.txt` of `feed` gives.
pub open spec fn index_read(text: Seq<char>, feed: Seq<char>, chans: Seq<Channel>, bad: Seq<usize>) -> bool {
    &&& text.len() == 0 ==> chans.len() == 0 && bad.len() == 0
    &&& text.len() > 0 ==> bad == bad_lines(lines_of(text))
    &&& text.len() > 0 ==> stable_listener_order(models(chans), parsed_lines(lines_of(text), feed))
}

/// Line numbers as `{:?}` writes a list of them: `[2, 4]`.
pub open spec fn numbers_text(v: Seq<usize>) -> Seq<char>
    decreases v.len(),
{
    if v.len() == 0 {
        seq![]
    } else if v.len() == 1 {
        dec_nat(v[0] as nat)
    } else {
        numbers_text(v.drop_last()) + ", "@ + dec_nat(v.last() as nat)
    }
}

pub open spec fn list_text(v: Seq<usize>) -> Seq<char> {
    "["@ + numbers_text(v) + "]"@
}

/// The log line after a YP was read: its channel count, and the lines it could not read.
pub open spec fn fetched_msg(name: Seq<char>, n: nat, bad: Seq<usize>) -> Seq<char> {
    let head = name + ": "@ + dec_nat(n) + " チャンネル"@;
    if bad.len() == 0 {
        head
    } else {
        head + "、解析できない行 "@ + list_text(bad)
    }
}

/// The log line after a YP could not be read.
pub open spec fn failed_msg(name: Seq<char>, e: Seq<char>) -> Seq<char> {
    name + ": 取得に失敗しました: "@ + e
}

/// `k` is the first position of a status with the URL `u`.
pub open spec fn first_pos(s: Seq<YpStatus>, u: Seq<char>, k: int) -> bool {
    &&& 0 <= k < s.len()
    &&& s[k].url@ == u
    &&& forall|j: int| 0 <= j < k ==> #[trigger] s[j].url@ != u
}

/// Only the first status with the URL `u` changed, as `step` says.
pub open spec fn first_changed(
    old: Seq<YpStatus>,
    new: Seq<YpStatus>,
    u: Seq<char>,
    step: spec_fn(YpStatus, YpStatus) -> bool,
) -> bool {
    &&& new.len() == old.len()
    &&& (forall|j: int| 0 <= j < old.len() ==> #[trigger] old[j].url@ != u) ==> new == old
    &&& forall|k: int|
        #[trigger] first_pos(old, u, k) ==> {
            &&& step(new[k], old[k])
            &&& forall|j: int| 0 <= j < old.len() && j != k ==> #[trigger] new[j] == old[j]
        }
}

/// `y` is `o` read successfully at the clock time `now`: `chans` and `bad` replace its
/// list, and the time of day is noted.
pub open spec fn fetched(y: YpStatus, o: YpStatus, chans: Seq<Channel>, bad: Seq<usize>, now: [u16; 6]) -> bool {
    &&& y.name == o.name
    &&& y.url == o.url
    &&& y.state is Fetched
    &&& y.channels@ == chans
    &&& y.bad_lines@ == bad
    &&& y.updated is Some
    &&& y.updated.unwrap()@ == hms_text(now)
}

/// `y` is `o` whose fetch failed with `e`; the list it had stays.
pub open spec fn failed(y: YpStatus, o: YpStatus, e: Seq<char>) -> bool {
    &&& y.name == o.name
    &&& y.url == o.url
    &&& y.state is Error
    &&& y.state->0@ == e
    &&& y.channels == o.channels
    &&& y.bad_lines == o.bad_lines
    &&& y.updated == o.updated
}

fn push_numbers(s: &mut String, v: &Vec<usize>)
    ensures
        final(s)@ == old(s)@ + list_text(v@),
{
    let ghost s0 = s@;
    push_str(s, "[");
    let mut i: usize = 0;
    assert(v@.take(0) =~= Seq::<usize>::empty());
    while i < v.len()
        invariant
            i <= v@.len(),
            s@ == s0 + "["@ + numbers_text(v@.take(i as int)),
        decreases v@.len() - i,
    {
        if i > 0 {
            push_str(s, ", ");
        }
        push_dec(s, v[i] as u64);
        proof {
            let t = v@.take(i + 1);
            assert(t.drop_last() =~= v@.take(i as int));
            assert(t.last() == v@[i as int]);
            if i == 0 {
                assert(numbers_text(t) =~= dec_nat(v@[0] as nat));
                assert(numbers_text(v@.take(0)) =~= Seq::<char>::empty());
            }
            assert(s@ =~= s0 + "["@ + numbers_text(t));
        }
        i += 1;
    }
    assert(v@.take(v@.len() as int) =~= v@);
    push_str(s, "]");
    assert(s@ =~= old(s)@ + list_text(v@));
}

/// The first position of a status with the URL `url`.
fn first_url(v: &Vec<YpStatus>, url: &String) -> (r: Option<usize>)
    ensures
        match r {
            Some(k) => first_pos(v@, url@, k as int),
            None => forall|j: int| 0 <= j < v@.len() ==> #[trigger] v@[j].url@ != url@,
        },
{
    let mut j: usize = 0;
    while j < v.len()
        invariant
            j <= v@.len(),
            forall|k: int| 0 <= k < j ==> #[trigger] v@[k].url@ != url@,
        decreases v@.len() - j,
    {
        if v[j].url == *url {
            return Some(j);
        }
        j += 1;
    }
    None
}

/// Records what fetching the YP `name` at `url` gave: its list read from the text,
/// or the error; and a log line saying so, both stamped with the clock time `now`.
#[verifier::spinoff_prover]
pub fn record_fetch(shared: &mut Shared, name: &str, url: &str, result: Result<String, String>, now: [u16; 6])
    ensures
        match result {
            Ok(text) => exists|chans: Seq<Channel>, bad: Seq<usize>|
                {
                    &&& index_read(text@, url@, chans, bad)
                    &&& first_changed(
                        old(shared).yps@,
                        final(shared).yps@,
                        url@,
                        |y: YpStatus, o: YpStatus| fetched(y, o, chans, bad, now),
                    )
                    &&& final(shared).log@.last().text@ == fetched_msg(name@, chans.len(), bad)
                    &&& final(shared).log@.last().error == (bad.len() > 0)
                },
            Err(e) => {
                &&& first_changed(
                    old(shared).yps@,
                    final(shared).yps@,
                    url@,
                    |y: YpStatus, o: YpStatus| failed(y, o, e@),
                )
                &&& final(shared).log@.last().text@ == failed_msg(name@, e@)
                &&& final(shared).log@.last().error
            },
        },
        final(shared).log@ == log_after(old(shared).log@, final(shared).log@.last()),
        final(shared).log@.last().time@ == hms_text(now),
        final(shared).generation == old(shared).generation,
        final(shared).fetching == old(shared).fetching,
        final(shared).last_fetch == old(shared).last_fetch,
        final(shared).next_auto == old(shared).next_auto,
        final(shared).new_keys == old(shared).new_keys,
{
    let u = url.to_string();
    let ghost y0 = shared.yps@;
    match result {
        Ok(text) => {
            let (chans, bad) = parse_index(text.as_str(), url);
            let ghost cs = chans@;
            let ghost bs = bad@;
            let mut msg = String::new();
            push_str(&mut msg, name);
            push_str(&mut msg, ": ");
            push_dec(&mut msg, chans.len() as u64);
            push_str(&mut msg, " チャンネル");
            let err = bad.len() > 0;
            if err {
                push_str(&mut msg, "、解析できない行 ");
                push_numbers(&mut msg, &bad);
            }
            assert(msg@ =~= fetched_msg(name@, cs.len(), bs));
            match first_url(&shared.yps, &u) {
                Some(k) => {
                    shared.yps[k].channels = chans;
                    shared.yps[k].bad_lines = bad;
                    shared.yps[k].state = FetchState::Fetched;
                    shared.yps[k].updated = Some(hms_of(now));
                    proof {
                        let y1 = shared.yps@;
                        assert forall|k2: int| #[trigger] first_pos(y0, url@, k2) implies k2 == k by {
                            if k2 < k {
                                assert(y0[k2].url@ != url@);
                            }
                            if k < k2 {
                                assert(y0[k as int].url@ != url@);
                            }
                        }
                        assert(fetched(y1[k as int], y0[k as int], cs, bs, now));
                    }
                },
                None => {},
            }
            shared.log(err, msg, now);
            proof {
                assert(index_read(text@, url@, cs, bs));
            }
        },
        Err(e) => {
            let mut msg = String::new();
            push_str(&mut msg, name);
            push_str(&mut msg, ": 取得に失敗しました: ");
            push_str(&mut msg, e.as_str());
            assert(msg@ =~= failed_msg(name@, e@));
            match first_url(&shared.yps, &u) {
                Some(k) => {
                    shared.yps[k].state = FetchState::Error(e.clone());
                    proof {
                        assert forall|k2: int| #[trigger] first_pos(y0, url@, k2) implies k2 == k by {
                            if k2 < k {
                                assert(y0[k2].url@ != url@);
                            }
                            if k < k2 {
                                assert(y0[k as int].url@ != url@);
                            }
                        }
                    }
                },
                None => {},
            }
            shared.log(true, msg, now);
        },
    }
}

// ------------------------------------------------------------------ the end of a round

/// What the rounds remember of a YP: the keys of the channels last seen at its URL.
pub struct SeenYp {
    pub url: String,
    pub keys: Vec<String>,
}

#[verifier::ext_equal]
pub struct SeenModel {
    pub url: Seq<char>,
    pub keys: Seq<Seq<char>>,
}

impl View for SeenYp {
    type V = SeenModel;

    open spec fn view(&self) -> SeenModel {
        SeenModel { url: self.url@, keys: strings_view(self.keys@) }
    }
}

pub open spec fn seen_models(v: Seq<SeenYp>) -> Seq<SeenModel> {
    v.map_values(|x: SeenYp| x@)
}

/// The first position of the URL `u` in `s`, or -1.
pub open spec fn seen_pos(s: Seq<SeenModel>, u: Seq<char>) -> int
    decreases s.len(),
{
    if s.len() == 0 {
        -1
    } else {
        let p = seen_pos(s.drop_last(), u);
        if p >= 0 {
            p
        } else if s.last().url == u {
            s.len() - 1
        } else {
            -1
        }
    }
}

/// The keys last seen at the URL `u`, if it was read before.
pub open spec fn lookup(s: Seq<SeenModel>, u: Seq<char>) -> Option<Seq<Seq<char>>> {
    let p = seen_pos(s, u);
    if p < 0 {
        None
    } else {
        Some(s[p].keys)
    }
}

/// `s` with `keys` as what was last seen at the URL `u`.
pub open spec fn remember(s: Seq<SeenModel>, u: Seq<char>, keys: Seq<Seq<char>>) -> Seq<SeenModel> {
    let p = seen_pos(s, u);
    if p < 0 {
        s.push(SeenModel { url: u, keys })
    } else {
        s.update(p, SeenModel { url: u, keys })
    }
}

/// What a round has found so far: the keys of channels new since the last round,
/// and the channels to tell the user about.
#[verifier::ext_equal]
pub struct Found {
    pub new_keys: Seq<Seq<char>>,
    pub notify: Seq<ChannelModel>,
}

pub open spec fn keys_of(cs: Seq<ChannelModel>) -> Seq<Seq<char>> {
    cs.map_values(|c: ChannelModel| key_spec(c))
}

/// The key was not among those seen at the YP last time (a YP read for the first
/// time has nothing new).
pub open spec fn is_new_key(prev: Option<Seq<Seq<char>>>, key: Seq<char>) -> bool {
    prev is Some && !prev.unwrap().contains(key)
}

/// A channel that a notice may be about: notices are on, it is a real channel, and it
/// is new (or the YP is read for the first time and that is wanted).
pub open spec fn wants_notice(prev: Option<Seq<Seq<char>>>, c: ChannelModel, on: bool, on_first: bool) -> bool {
    &&& on
    &&& !is_info_spec(c)
    &&& (is_new_key(prev, key_spec(c)) || (prev is None && on_first))
}

/// One channel `c` of the YP `yp` looked at.
pub open spec fn channel_step(
    st: Found,
    prev: Option<Seq<Seq<char>>>,
    c: ChannelModel,
    yp: Seq<char>,
    fs: Seq<CompiledFilterModel>,
    on: bool,
    on_first: bool,
) -> Found {
    let key = key_spec(c);
    let m = apply_spec(fs, c, yp);
    Found {
        new_keys: if is_new_key(prev, key) && !st.new_keys.contains(key) {
            st.new_keys.push(key)
        } else {
            st.new_keys
        },
        notify: if wants_notice(prev, c, on, on_first) && !keys_of(st.notify).contains(key) && m.notify
            && !m.ignore {
            st.notify.push(c)
        } else {
            st.notify
        },
    }
}

/// The channels `cs` of the YP `yp` looked at in order.
pub open spec fn channels_fold(
    st: Found,
    prev: Option<Seq<Seq<char>>>,
    cs: Seq<ChannelModel>,
    yp: Seq<char>,
    fs: Seq<CompiledFilterModel>,
    on: bool,
    on_first: bool,
) -> Found
    decreases cs.len(),
{
    if cs.len() == 0 {
        st
    } else {
        channel_step(channels_fold(st, prev, cs.drop_last(), yp, fs, on, on_first), prev, cs.last(), yp, fs, on, on_first)
    }
}

/// Where a round stands: what is remembered of each URL, and what was found.
#[verifier::ext_equal]
pub struct RoundModel {
    pub seen: Seq<SeenModel>,
    pub found: Found,
}

/// One YP looked at: a YP read successfully has its channels compared with what was
/// seen at its URL last time, which they then replace; the others are passed over.
pub open spec fn yp_step(st: RoundModel, y: YpStatus, fs: Seq<CompiledFilterModel>, on: bool, on_first: bool) -> RoundModel {
    if !(y.state is Fetched) {
        st
    } else {
        let cs = models(y.channels@);
        let prev = lookup(st.seen, y.url@);
        RoundModel {
            seen: remember(st.seen, y.url@, keys_of(cs)),
            found: channels_fold(st.found, prev, cs, y.name@, fs, on, on_first),
        }
    }
}

pub open spec fn round_fold(st: RoundModel, ys: Seq<YpStatus>, fs: Seq<CompiledFilterModel>, on: bool, on_first: bool) -> RoundModel
    decreases ys.len(),
{
    if ys.len() == 0 {
        st
    } else {
        yp_step(round_fold(st, ys.drop_last(), fs, on, on_first), ys.last(), fs, on, on_first)
    }
}

/// The log line that tells a favorite channel started.
pub open spec fn started_msg(name: Seq<char>) -> Seq<char> {
    "お気に入りの配信が始まりました: "@ + name
}

/// The log after adding `lines` one by one.
pub open spec fn log_all(log: Seq<LogLine>, lines: Seq<LogLine>) -> Seq<LogLine>
    decreases lines.len(),
{
    if lines.len() == 0 {
        log
    } else {
        log_after(log_all(log, lines.drop_last()), lines.last())
    }
}

fn channel_keys(cs: &Vec<Channel>) -> (r: Vec<String>)
    ensures
        strings_view(r@) == keys_of(models(cs@)),
{
    let mut r: Vec<String> = Vec::new();
    let mut i: usize = 0;
    while i < cs.len()
        invariant
            i <= cs@.len(),
            strings_view(r@) == keys_of(models(cs@)).take(i as int),
        decreases cs@.len() - i,
    {
        let ghost before = r@;
        r.push(cs[i].key());
        assert(strings_view(r@) =~= strings_view(before).push(key_spec(cs@[i as int]@)));
        assert(keys_of(models(cs@)).take(i + 1) =~= keys_of(models(cs@)).take(i as int).push(
            key_spec(cs@[i as int]@),
        ));
        i += 1;
    }
    assert(keys_of(models(cs@)).take(cs@.len() as int) =~= keys_of(models(cs@)));
    r
}

/// Looks at the channels of `y` against the keys `prev` seen there last time (none
/// when `has_prev` is false).
fn scan_channels(
    y: &YpStatus,
    has_prev: bool,
    prev: &Vec<String>,
    filters: &[CompiledFilter],
    on: bool,
    on_first: bool,
    new_keys: &mut Vec<String>,
    out: &mut Vec<Channel>,
    notified: &mut Vec<String>,
)
    requires
        strings_view(old(notified)@) == keys_of(models(old(out)@)),
    ensures
        strings_view(final(notified)@) == keys_of(models(final(out)@)),
        (Found { new_keys: strings_view(final(new_keys)@), notify: models(final(out)@) }) == channels_fold(
            Found { new_keys: strings_view(old(new_keys)@), notify: models(old(out)@) },
            if has_prev {
                Some(strings_view(prev@))
            } else {
                None
            },
            models(y.channels@),
            y.name@,
            compiled_models(filters@),
            on,
            on_first,
        ),
{
    let ghost pv = if has_prev {
        Some(strings_view(prev@))
    } else {
        None
    };
    let ghost cs = models(y.channels@);
    let ghost fs = compiled_models(filters@);
    let ghost st0 = Found { new_keys: strings_view(new_keys@), notify: models(out@) };
    let mut j: usize = 0;
    assert(cs.take(0) =~= Seq::<ChannelModel>::empty());
    while j < y.channels.len()
        invariant
            j <= cs.len(),
            cs == models(y.channels@),
            fs == compiled_models(filters@),
            pv == (if has_prev {
                Some(strings_view(prev@))
            } else {
                None::<Seq<Seq<char>>>
            }),
            strings_view(notified@) == keys_of(models(out@)),
            (Found { new_keys: strings_view(new_keys@), notify: models(out@) }) == channels_fold(
                st0,
                pv,
                cs.take(j as int),
                y.name@,
                fs,
                on,
                on_first,
            ),
        decreases cs.len() - j,
    {
        let c = &y.channels[j];
        proof {
            assert(cs.take(j + 1).drop_last() =~= cs.take(j as int));
            assert(cs.take(j + 1).last() == c@);
        }
        let key = c.key();
        let is_new = has_prev && !contains_string(prev, &key);
        let ghost nk0 = new_keys@;
        if is_new && !contains_string(new_keys, &key) {
            new_keys.push(key.clone());
            assert(strings_view(new_keys@) =~= strings_view(nk0).push(key@));
        }
        let ghost o0 = out@;
        let ghost n0 = notified@;
        let first = !has_prev;
        if on && !c.is_info() && (is_new || first && on_first) && !contains_string(notified, &key) {
            let m = apply(filters, c, y.name.as_str());
            if m.notify && !m.ignore {
                notified.push(key);
                out.push(c.copy());
                assert(models(out@) =~= models(o0).push(c@));
                assert(strings_view(notified@) =~= strings_view(n0).push(key_spec(c@)));
                assert(keys_of(models(out@)) =~= keys_of(models(o0)).push(key_spec(c@)));
            }
        }
        j += 1;
    }
    assert(cs.take(cs.len() as int) =~= cs);
}

/// The first position of the URL `url` among the remembered YPs.
fn find_seen(seen: &Vec<SeenYp>, url: &String) -> (r: Option<usize>)
    ensures
        match r {
            Some(k) => k < seen@.len() && seen_pos(seen_models(seen@), url@) == k,
            None => seen_pos(seen_models(seen@), url@) == -1,
        },
{
    let ghost sm = seen_models(seen@);
    let mut k: usize = 0;
    assert(sm.take(0) =~= Seq::<SeenModel>::empty());
    while k < seen.len()
        invariant
            k <= seen@.len(),
            sm == seen_models(seen@),
            seen_pos(sm.take(k as int), url@) == -1,
        decreases seen@.len() - k,
    {
        assert(sm.take(k + 1).drop_last() =~= sm.take(k as int));
        if seen[k].url == *url {
            proof {
                lemma_seen_pos_prefix(sm, k + 1, url@);
            }
            return Some(k);
        }
        k += 1;
    }
    assert(sm.take(seen@.len() as int) =~= sm);
    None
}

proof fn lemma_seen_pos_prefix(s: Seq<SeenModel>, n: int, u: Seq<char>)
    requires
        0 < n <= s.len(),
        seen_pos(s.take(n), u) >= 0,
    ensures
        seen_pos(s, u) == seen_pos(s.take(n), u),
    decreases s.len() - n,
{
    if n < s.len() {
        assert(s.take(n + 1).drop_last() =~= s.take(n));
        lemma_seen_pos_prefix(s, n + 1, u);
        if n + 1 == s.len() {
            assert(s.take(n + 1) =~= s);
        }
    } else {
        assert(s.take(n) =~= s);
    }
}

/// No two remembered YPs share a URL.
pub open spec fn urls_distinct(s: Seq<SeenModel>) -> bool {
    forall|i: int, j: int| 0 <= i < j < s.len() ==> s[i].url != s[j].url
}

proof fn lemma_seen_pos(s: Seq<SeenModel>, u: Seq<char>)
    ensures
        seen_pos(s, u) == -1 ==> forall|i: int| 0 <= i < s.len() ==> s[i].url != u,
        seen_pos(s, u) != -1 ==> 0 <= seen_pos(s, u) < s.len() && s[seen_pos(s, u)].url == u,
    decreases s.len(),
{
    if s.len() > 0 {
        let p = s.drop_last();
        lemma_seen_pos(p, u);
        assert forall|i: int| 0 <= i < p.len() implies p[i] == s[i] by {}
    }
}

proof fn lemma_remember_distinct(s: Seq<SeenModel>, u: Seq<char>, keys: Seq<Seq<char>>)
    requires
        urls_distinct(s),
    ensures
        urls_distinct(remember(s, u, keys)),
{
    lemma_seen_pos(s, u);
    let t = remember(s, u, keys);
    let p = seen_pos(s, u);
    assert forall|i: int, j: int| 0 <= i < j < t.len() implies t[i].url != t[j].url by {
        if p == -1 {
            if j == s.len() {
                assert(t[i] == s[i]);
            } else {
                assert(t[i] == s[i] && t[j] == s[j]);
            }
        } else {
            if i == p {
                assert(t[j] == s[j]);
            } else if j == p {
                assert(t[i] == s[i]);
            } else {
                assert(t[i] == s[i] && t[j] == s[j]);
            }
        }
    }
}

/// A round keeps what it remembers one entry per URL: the URL of a YP read again
/// takes the place of its earlier entry.
pub proof fn law_round_urls_distinct(
    st: RoundModel,
    ys: Seq<YpStatus>,
    fs: Seq<CompiledFilterModel>,
    on: bool,
    on_first: bool,
)
    requires
        urls_distinct(st.seen),
    ensures
        urls_distinct(round_fold(st, ys, fs, on, on_first).seen),
    decreases ys.len(),
{
    if ys.len() > 0 {
        law_round_urls_distinct(st, ys.drop_last(), fs, on, on_first);
        let p = round_fold(st, ys.drop_last(), fs, on, on_first);
        let y = ys.last();
        if y.state is Fetched {
            lemma_remember_distinct(p.seen, y.url@, keys_of(models(y.channels@)));
        }
    }
}

proof fn lemma_channels_fold_distinct(
    st: Found,
    prev: Option<Seq<Seq<char>>>,
    cs: Seq<ChannelModel>,
    yp: Seq<char>,
    fs: Seq<CompiledFilterModel>,
    on: bool,
    on_first: bool,
)
    requires
        st.new_keys.no_duplicates(),
        keys_of(st.notify).no_duplicates(),
    ensures
        channels_fold(st, prev, cs, yp, fs, on, on_first).new_keys.no_duplicates(),
        keys_of(channels_fold(st, prev, cs, yp, fs, on, on_first).notify).no_duplicates(),
    decreases cs.len(),
{
    if cs.len() > 0 {
        lemma_channels_fold_distinct(st, prev, cs.drop_last(), yp, fs, on, on_first);
        let p = channels_fold(st, prev, cs.drop_last(), yp, fs, on, on_first);
        let c = cs.last();
        let key = key_spec(c);
        if is_new_key(prev, key) && !p.new_keys.contains(key) {
            lemma_push_distinct(p.new_keys, key);
        }
        let m = apply_spec(fs, c, yp);
        if wants_notice(prev, c, on, on_first) && !keys_of(p.notify).contains(key) && m.notify && !m.ignore {
            assert(keys_of(p.notify.push(c)) =~= keys_of(p.notify).push(key));
            lemma_push_distinct(keys_of(p.notify), key);
        }
    }
}

/// A round notes each new channel key once, and tells of each channel key once.
pub proof fn law_round_found_distinct(
    st: RoundModel,
    ys: Seq<YpStatus>,
    fs: Seq<CompiledFilterModel>,
    on: bool,
    on_first: bool,
)
    requires
        st.found.new_keys.no_duplicates(),
        keys_of(st.found.notify).no_duplicates(),
    ensures
        round_fold(st, ys, fs, on, on_first).found.new_keys.no_duplicates(),
        keys_of(round_fold(st, ys, fs, on, on_first).found.notify).no_duplicates(),
    decreases ys.len(),
{
    if ys.len() > 0 {
        law_round_found_distinct(st, ys.drop_last(), fs, on, on_first);
        let p = round_fold(st, ys.drop_last(), fs, on, on_first);
        let y = ys.last();
        if y.state is Fetched {
            lemma_channels_fold_distinct(
                p.found,
                lookup(p.seen, y.url@),
                models(y.channels@),
                y.name@,
                fs,
                on,
                on_first,
            );
        }
    }
}

/// Ends a round of fetching: compares each YP read with what was seen there last
/// time, keeps the keys of the new channels, logs and returns the channels to tell
/// the user about (favorites that started), and counts the round.
#[verifier::spinoff_prover]
pub fn finish_fetch(
    shared: &mut Shared,
    filters: &[CompiledFilter],
    notify_cfg: &NotifyConfig,
    seen: &mut Vec<SeenYp>,
    now: [u16; 6],
) -> (r: Vec<Channel>)
    ensures
        ({
            let round = round_fold(
                RoundModel {
                    seen: seen_models(old(seen)@),
                    found: Found { new_keys: seq![], notify: seq![] },
                },
                old(shared).yps@,
                compiled_models(filters@),
                notify_cfg.enabled,
                notify_cfg.on_first_fetch,
            );
            &&& seen_models(final(seen)@) == round.seen
            &&& strings_view(final(shared).new_keys@) == round.found.new_keys
            &&& models(r@) == round.found.notify
        }),
        urls_distinct(seen_models(old(seen)@)) ==> urls_distinct(seen_models(final(seen)@)),
        strings_view(final(shared).new_keys@).no_duplicates(),
        keys_of(models(r@)).no_duplicates(),
        exists|lines: Seq<LogLine>|
            {
                &&& lines.len() == r@.len()
                &&& forall|i: int|
                    0 <= i < lines.len() ==> (#[trigger] lines[i]).text@ == started_msg(r@[i].name@)
                        && !lines[i].error && lines[i].time@ == hms_text(now)
                &&& final(shared).log@ == log_all(old(shared).log@, lines)
            },
        !final(shared).fetching,
        final(shared).generation == (if old(shared).generation == u64::MAX {
            0
        } else {
            old(shared).generation + 1
        }),
        final(shared).yps == old(shared).yps,
        final(shared).last_fetch == old(shared).last_fetch,
        final(shared).next_auto == old(shared).next_auto,
{
    let ghost fs = compiled_models(filters@);
    let on = notify_cfg.enabled;
    let on_first = notify_cfg.on_first_fetch;
    let ghost st0 = RoundModel {
        seen: seen_models(seen@),
        found: Found { new_keys: seq![], notify: seq![] },
    };
    let mut new_keys: Vec<String> = Vec::new();
    let mut out: Vec<Channel> = Vec::new();
    let mut notified: Vec<String> = Vec::new();
    let mut i: usize = 0;
    assert(shared.yps@.take(0) =~= Seq::<YpStatus>::empty());
    assert(strings_view(new_keys@) =~= Seq::<Seq<char>>::empty());
    assert(models(out@) =~= Seq::<ChannelModel>::empty());
    assert(strings_view(notified@) =~= keys_of(models(out@)));
    while i < shared.yps.len()
        invariant
            i <= shared.yps@.len(),
            shared.yps == old(shared).yps,
            shared.log == old(shared).log,
            shared.generation == old(shared).generation,
            shared.last_fetch == old(shared).last_fetch,
            shared.next_auto == old(shared).next_auto,
            fs == compiled_models(filters@),
            on == notify_cfg.enabled,
            on_first == notify_cfg.on_first_fetch,
            strings_view(notified@) == keys_of(models(out@)),
            (RoundModel {
                seen: seen_models(seen@),
                found: Found { new_keys: strings_view(new_keys@), notify: models(out@) },
            }) == round_fold(st0, shared.yps@.take(i as int), fs, on, on_first),
        decreases shared.yps@.len() - i,
    {
        let y = &shared.yps[i];
        proof {
            assert(shared.yps@.take(i + 1).drop_last() =~= shared.yps@.take(i as int));
            assert(shared.yps@.take(i + 1).last() == *y);
        }
        if matches!(y.state, FetchState::Fetched) {
            let pos = find_seen(seen, &y.url);
            let ghost sm0 = seen_models(seen@);
            let empty: Vec<String> = Vec::new();
            match pos {
                Some(k) => {
                    assert(seen_models(seen@)[k as int] == seen@[k as int]@);
                    scan_channels(y, true, &seen[k].keys, filters, on, on_first, &mut new_keys, &mut out, &mut notified);
                },
                None => {
                    scan_channels(y, false, &empty, filters, on, on_first, &mut new_keys, &mut out, &mut notified);
                },
            }
            let keys = channel_keys(&y.channels);
            let entry = SeenYp { url: y.url.clone(), keys };
            match pos {
                Some(k) => {
                    seen.set(k, entry);
                    assert(seen_models(seen@) =~= sm0.update(k as int, entry@));
                },
                None => {
                    seen.push(entry);
                    assert(seen_models(seen@) =~= sm0.push(entry@));
                },
            }
        }
        i += 1;
    }
    assert(shared.yps@.take(shared.yps@.len() as int) =~= shared.yps@);
    proof {
        assert(keys_of(st0.found.notify) =~= Seq::<Seq<char>>::empty());
        law_round_found_distinct(st0, shared.yps@, fs, on, on_first);
        if urls_distinct(st0.seen) {
            law_round_urls_distinct(st0, shared.yps@, fs, on, on_first);
        }
    }
    shared.new_keys = new_keys;
    shared.fetching = false;
    shared.generation = shared.generation.wrapping_add(1);
    let ghost log0 = shared.log@;
    let ghost mut lines: Seq<LogLine> = seq![];
    let mut j: usize = 0;
    while j < out.len()
        invariant
            j <= out@.len(),
            lines.len() == j,
            forall|m: int|
                0 <= m < j ==> (#[trigger] lines[m]).text@ == started_msg(out@[m].name@) && !lines[m].error
                    && lines[m].time@ == hms_text(now),
            shared.log@ == log_all(log0, lines),
            log0 == old(shared).log@,
            shared.yps == old(shared).yps,
            !shared.fetching,
            shared.generation == (if old(shared).generation == u64::MAX {
                0
            } else {
                old(shared).generation + 1
            }),
            shared.last_fetch == old(shared).last_fetch,
            shared.next_auto == old(shared).next_auto,
            seen_models(seen@) == round_fold(st0, old(shared).yps@, fs, on, on_first).seen,
            strings_view(shared.new_keys@) == round_fold(st0, old(shared).yps@, fs, on, on_first).found.new_keys,
            models(out@) == round_fold(st0, old(shared).yps@, fs, on, on_first).found.notify,
        decreases out@.len() - j,
    {
        let mut msg = String::new();
        push_str(&mut msg, "お気に入りの配信が始まりました: ");
        push_str(&mut msg, out[j].name.as_str());
        shared.log(false, msg, now);
        proof {
            let line = shared.log@.last();
            assert(lines.push(line).drop_last() =~= lines);
            lines = lines.push(line);
            assert(line.text@ =~= started_msg(out@[j as int].name@));
        }
        j += 1;
    }
    out
}

// ------------------------------------------------------------------ what the loop decides

/// What the window asks of the fetching side.
pub enum Command {
    Refresh { manual: bool },
    ConfigChanged,
    Quit,
}

/// What the fetching side does after a command, or after waiting.
#[derive(Clone, Copy, Debug, PartialEq, Eq)]
pub enum Step {
    /// Fetch every YP now
    Fetch,
    /// Go back to waiting
    Skip,
    /// Follow the new settings, then wait
    Resync,
    /// Leave the loop
    Stop,
}

/// The log line that refuses a manual refresh asked too soon.
pub open spec fn throttle_msg(wait: u64) -> Seq<char> {
    "手動更新は前回から "@ + dec_nat(MANUAL_INTERVAL_SEC as nat) + " 秒空けてください (あと "@ + dec_nat(
        wait as nat,
    ) + " 秒)"@
}

/// Whether a refresh may go ahead: a manual one only [`MANUAL_INTERVAL_SEC`] seconds
/// after the last fetch; when it may not, a log line stamped with the clock time
/// `now` says how long to wait.
pub fn allow_refresh(shared: &mut Shared, manual: bool, now: [u16; 6]) -> (r: bool)
    ensures
        (!manual || old(shared).last_fetch is None) ==> r,
        r ==> final(shared).log == old(shared).log,
        !r ==> manual && exists|w: u64|
            {
                &&& 0 < w <= MANUAL_INTERVAL_SEC
                &&& final(shared).log@.last().text@ == throttle_msg(w)
                &&& !final(shared).log@.last().error
                &&& final(shared).log@.last().time@ == hms_text(now)
                &&& final(shared).log@ == log_after(old(shared).log@, final(shared).log@.last())
            },
        exists|e: u64|
            {
                &&& r == !(manual && old(shared).last_fetch is Some && wait_spec(e) > 0)
                &&& !r ==> final(shared).log@.last().text@ == throttle_msg(wait_spec(e))
            },
        final(shared).yps == old(shared).yps,
        final(shared).generation == old(shared).generation,
        final(shared).fetching == old(shared).fetching,
        final(shared).last_fetch == old(shared).last_fetch,
        final(shared).next_auto == old(shared).next_auto,
        final(shared).new_keys == old(shared).new_keys,
{
    if !manual {
        assert(wait_spec(0) == MANUAL_INTERVAL_SEC);
        return true;
    }
    let wait = shared.manual_wait();
    let ghost e: u64 = if shared.last_fetch is Some {
        choose|e: u64| wait == wait_spec(e)
    } else {
        MANUAL_INTERVAL_SEC
    };
    assert(shared.last_fetch is Some ==> wait == wait_spec(e));
    assert(shared.last_fetch is None ==> wait == 0 && wait_spec(e) == 0);
    if wait > 0 {
        let mut msg = String::new();
        push_str(&mut msg, "手動更新は前回から ");
        push_dec(&mut msg, MANUAL_INTERVAL_SEC);
        push_str(&mut msg, " 秒空けてください (あと ");
        push_dec(&mut msg, wait);
        push_str(&mut msg, " 秒)");
        assert(msg@ =~= throttle_msg(wait));
        shared.log(false, msg, now);
        false
    } else {
        true
    }
}

/// Whether the loop waits for the update timer: automatic updates are on, or the
/// fetch at start was asked for and has not happened yet.
pub fn timer_runs(auto_update: bool, fetch_on_start: bool, shared: &Shared) -> (r: bool)
    ensures
        r == (auto_update || (fetch_on_start && shared.last_fetch is None)),
{
    auto_update || (fetch_on_start && shared.last_fetch.is_none())
}

/// The next step after `event` (`None` when the wait ran out), `timed` saying
/// whether the wait was for the update timer; a log line it adds is stamped with the
/// clock time `now`.
pub fn next_step(shared: &mut Shared, event: Option<Command>, timed: bool, now: [u16; 6]) -> (r: Step)
    ensures
        match event {
            Some(Command::Refresh { manual }) => {
                &&& (r == Step::Fetch || r == Step::Skip)
                &&& (!manual || old(shared).last_fetch is None) ==> r == Step::Fetch
                &&& r == Step::Fetch ==> final(shared).log == old(shared).log
                &&& r == Step::Skip ==> manual && exists|w: u64|
                    0 < w <= MANUAL_INTERVAL_SEC && final(shared).log@ == log_after(
                        old(shared).log@,
                        final(shared).log@.last(),
                    ) && final(shared).log@.last().text@ == throttle_msg(w)
                        && final(shared).log@.last().time@ == hms_text(now)
                &&& exists|e: u64|
                    {
                        &&& (r == Step::Fetch) == !(manual && old(shared).last_fetch is Some && wait_spec(e) > 0)
                        &&& r == Step::Skip ==> final(shared).log@.last().text@ == throttle_msg(wait_spec(e))
                    }
            },
            Some(Command::ConfigChanged) => r == Step::Resync && final(shared).log == old(shared).log,
            Some(Command::Quit) => r == Step::Stop && final(shared).log == old(shared).log,
            None => r == (if timed {
                Step::Fetch
            } else {
                Step::Skip
            }) && final(shared).log == old(shared).log,
        },
        final(shared).yps == old(shared).yps,
        final(shared).generation == old(shared).generation,
        final(shared).fetching == old(shared).fetching,
        final(shared).last_fetch == old(shared).last_fetch,
        final(shared).next_auto == old(shared).next_auto,
        final(shared).new_keys == old(shared).new_keys,
{
    match event {
        Some(Command::Refresh { manual }) => {
            let ok = allow_refresh(shared, manual, now);
            let r = if ok {
                Step::Fetch
            } else {
                Step::Skip
            };
            proof {
                let e = choose|e: u64|
                    {
                        &&& ok == !(manual && old(shared).last_fetch is Some && wait_spec(e) > 0)
                        &&& !ok ==> shared.log@.last().text@ == throttle_msg(wait_spec(e))
                    };
                assert((r == Step::Fetch) == !(manual && old(shared).last_fetch is Some && wait_spec(e) > 0));
            }
            r
        },
        Some(Command::ConfigChanged) => Step::Resync,
        Some(Command::Quit) => Step::Stop,
        None => if timed {
            Step::Fetch
        } else {
            Step::Skip
        },
    }
}

// ------------------------------------------------------------------ filter messages

/// The messages of `errs` that are not among `old`, in order.
pub open spec fn fresh_messages(old: Seq<Seq<char>>, errs: Seq<Seq<char>>) -> Seq<Seq<char>>
    decreases errs.len(),
{
    if errs.len() == 0 {
        seq![]
    } else if old.contains(errs.last()) {
        fresh_messages(old, errs.drop_last())
    } else {
        fresh_messages(old, errs.drop_last()).push(errs.last())
    }
}

/// Logs, as errors, the messages of the filters just compiled that were not there
/// the last time (a filter that stays broken is told about once), stamped with the
/// clock time `now`.
pub fn log_new_errors(shared: &mut Shared, known: &Vec<String>, errors: &Vec<String>, now: [u16; 6])
    ensures
        exists|lines: Seq<LogLine>|
            {
                &&& lines.len() == fresh_messages(strings_view(known@), strings_view(errors@)).len()
                &&& forall|i: int|
                    0 <= i < lines.len() ==> (#[trigger] lines[i]).text@ == fresh_messages(
                        strings_view(known@),
                        strings_view(errors@),
                    )[i] && lines[i].error && lines[i].time@ == hms_text(now)
                &&& final(shared).log@ == log_all(old(shared).log@, lines)
            },
        final(shared).yps == old(shared).yps,
        final(shared).generation == old(shared).generation,
        final(shared).fetching == old(shared).fetching,
        final(shared).last_fetch == old(shared).last_fetch,
        final(shared).next_auto == old(shared).next_auto,
        final(shared).new_keys == old(shared).new_keys,
{
    let ghost ov = strings_view(known@);
    let ghost ev = strings_view(errors@);
    let ghost mut lines: Seq<LogLine> = seq![];
    let mut i: usize = 0;
    assert(ev.take(0) =~= Seq::<Seq<char>>::empty());
    while i < errors.len()
        invariant
            i <= errors@.len(),
            ov == strings_view(known@),
            ev == strings_view(errors@),
            lines.len() == fresh_messages(ov, ev.take(i as int)).len(),
            forall|m: int|
                0 <= m < lines.len() ==> (#[trigger] lines[m]).text@ == fresh_messages(ov, ev.take(i as int))[m]
                    && lines[m].error && lines[m].time@ == hms_text(now),
            shared.log@ == log_all(old(shared).log@, lines),
            shared.yps == old(shared).yps,
            shared.generation == old(shared).generation,
            shared.fetching == old(shared).fetching,
            shared.last_fetch == old(shared).last_fetch,
            shared.next_auto == old(shared).next_auto,
            shared.new_keys == old(shared).new_keys,
        decreases errors@.len() - i,
    {
        proof {
            assert(ev.take(i + 1).drop_last() =~= ev.take(i as int));
            assert(ev.take(i + 1).last() == errors@[i as int]@);
        }
        if !contains_string(known, &errors[i]) {
            let ghost f0 = fresh_messages(ov, ev.take(i as int));
            shared.log(true, errors[i].clone(), now);
            proof {
                let line = shared.log@.last();
                assert(lines.push(line).drop_last() =~= lines);
                lines = lines.push(line);
                assert(fresh_messages(ov, ev.take(i + 1)) == f0.push(errors@[i as int]@));
            }
        }
        i += 1;
    }
    assert(ev.take(errors@.len() as int) =~= ev);
}

// ------------------------------------------------------------------ laws

proof fn lemma_last_with_url(s: Seq<YpStatus>, u: Seq<char>)
    ensures
        last_with(s, u) matches Some(y) ==> y.url@ == u,
    decreases s.len(),
{
    if s.len() > 0 && s.last().url@ != u {
        lemma_last_with_url(s.drop_last(), u);
    }
}

/// After following the settings, the YPs are the enabled entries, in their order, with
/// their names and URLs.
pub proof fn law_sync_follows_settings(old: Seq<YpStatus>, t: Seq<YpEntry>, r: Seq<YpStatus>)
    requires
        synced(old, t, r),
    ensures
        r.len() == t.len(),
        forall|i: int| 0 <= i < t.len() ==> (#[trigger] r[i]).name@ == t[i].name@ && r[i].url@ == t[i].url@,
{
    assert forall|i: int| 0 <= i < t.len() implies (#[trigger] r[i]).name@ == t[i].name@ && r[i].url@ == t[i].url@ by {
        assert(status_ok(old, t, r, i));
        lemma_last_with_url(old, t[i].url@);
    }
}


/// No two entries of `s` are equal.
pub open spec fn no_dup<A>(s: Seq<A>) -> bool {
    forall|i: int, j: int| 0 <= i < j < s.len() ==> s[i] != s[j]
}

/// Every channel of `n` is a real channel that a favorite filter wants a notice
/// for, and none that an ignore filter matches; no channel comes twice.
pub open spec fn notices_ok(n: Seq<ChannelModel>, fs: Seq<CompiledFilterModel>, on: bool) -> bool {
    &&& forall|i: int|
        0 <= i < n.len() ==> {
            &&& on
            &&& !is_info_spec(#[trigger] n[i])
            &&& exists|yp: Seq<char>| apply_spec(fs, n[i], yp).notify && !apply_spec(fs, n[i], yp).ignore
        }
    &&& no_dup(keys_of(n))
}

pub open spec fn found_ok(f: Found, fs: Seq<CompiledFilterModel>, on: bool) -> bool {
    notices_ok(f.notify, fs, on) && no_dup(f.new_keys)
}

proof fn lemma_channel_step_ok(
    st: Found,
    prev: Option<Seq<Seq<char>>>,
    c: ChannelModel,
    yp: Seq<char>,
    fs: Seq<CompiledFilterModel>,
    on: bool,
    on_first: bool,
)
    requires
        found_ok(st, fs, on),
    ensures
        found_ok(channel_step(st, prev, c, yp, fs, on, on_first), fs, on),
{
    let r = channel_step(st, prev, c, yp, fs, on, on_first);
    let key = key_spec(c);
    if r.notify != st.notify {
        assert(r.notify == st.notify.push(c));
        assert(keys_of(r.notify) =~= keys_of(st.notify).push(key));
        assert forall|i: int| 0 <= i < r.notify.len() implies {
            &&& on
            &&& !is_info_spec(#[trigger] r.notify[i])
            &&& exists|w: Seq<char>| apply_spec(fs, r.notify[i], w).notify && !apply_spec(fs, r.notify[i], w).ignore
        } by {
            if i == st.notify.len() {
                assert(r.notify[i] == c);
                assert(apply_spec(fs, c, yp).notify && !apply_spec(fs, c, yp).ignore);
            } else {
                assert(r.notify[i] == st.notify[i]);
            }
        }
        assert forall|i: int, j: int| 0 <= i < j < keys_of(r.notify).len() implies keys_of(r.notify)[i]
            != keys_of(r.notify)[j] by {
            if j == st.notify.len() {
                assert(keys_of(r.notify)[j] == key);
                assert(keys_of(r.notify)[i] == keys_of(st.notify)[i]);
                assert(!keys_of(st.notify).contains(key));
            } else {
                assert(keys_of(r.notify)[i] == keys_of(st.notify)[i]);
                assert(keys_of(r.notify)[j] == keys_of(st.notify)[j]);
            }
        }
    }
    if r.new_keys != st.new_keys {
        assert(r.new_keys == st.new_keys.push(key));
        assert forall|i: int, j: int| 0 <= i < j < r.new_keys.len() implies r.new_keys[i] != r.new_keys[j] by {
            if j == st.new_keys.len() {
                assert(!st.new_keys.contains(key));
                assert(r.new_keys[i] == st.new_keys[i]);
            }
        }
    }
}

proof fn lemma_channels_fold_ok(
    st: Found,
    prev: Option<Seq<Seq<char>>>,
    cs: Seq<ChannelModel>,
    yp: Seq<char>,
    fs: Seq<CompiledFilterModel>,
    on: bool,
    on_first: bool,
)
    requires
        found_ok(st, fs, on),
    ensures
        found_ok(channels_fold(st, prev, cs, yp, fs, on, on_first), fs, on),
    decreases cs.len(),
{
    if cs.len() > 0 {
        lemma_channels_fold_ok(st, prev, cs.drop_last(), yp, fs, on, on_first);
        lemma_channel_step_ok(
            channels_fold(st, prev, cs.drop_last(), yp, fs, on, on_first),
            prev,
            cs.last(),
            yp,
            fs,
            on,
            on_first,
        );
    }
}

proof fn lemma_round_fold_ok(st: RoundModel, ys: Seq<YpStatus>, fs: Seq<CompiledFilterModel>, on: bool, on_first: bool)
    requires
        found_ok(st.found, fs, on),
    ensures
        found_ok(round_fold(st, ys, fs, on, on_first).found, fs, on),
    decreases ys.len(),
{
    if ys.len() > 0 {
        lemma_round_fold_ok(st, ys.drop_last(), fs, on, on_first);
        let mid = round_fold(st, ys.drop_last(), fs, on, on_first);
        let y = ys.last();
        if y.state is Fetched {
            lemma_channels_fold_ok(mid.found, lookup(mid.seen, y.url@), models(y.channels@), y.name@, fs, on, on_first);
        }
    }
}

/// The notices of a round are only about real channels that a favorite filter wants
/// a notice for and that no ignore filter matches, none twice, and there are none when
/// notices are off; the keys of new channels come once each.
pub proof fn law_notices_are_favorites(
    seen: Seq<SeenModel>,
    ys: Seq<YpStatus>,
    fs: Seq<CompiledFilterModel>,
    on: bool,
    on_first: bool,
)
    ensures
        ({
            let r = round_fold(
                RoundModel { seen, found: Found { new_keys: seq![], notify: seq![] } },
                ys,
                fs,
                on,
                on_first,
            );
            &&& notices_ok(r.found.notify, fs, on)
            &&& !on ==> r.found.notify.len() == 0
            &&& no_dup(r.found.new_keys)
        }),
{
    let st = RoundModel { seen, found: Found { new_keys: seq![], notify: seq![] } };
    assert(keys_of(st.found.notify) =~= Seq::<Seq<char>>::empty());
    lemma_round_fold_ok(st, ys, fs, on, on_first);
    let r = round_fold(st, ys, fs, on, on_first);
    assert(found_ok(r.found, fs, on));
    assert(notices_ok(r.found.notify, fs, on));
    if r.found.notify.len() > 0 {
        let c = r.found.notify[0];
        assert(on);
    }
}

proof fn lemma_seen_pos_found(s: Seq<SeenModel>, u: Seq<char>)
    ensures
        -1 <= seen_pos(s, u) < s.len(),
        seen_pos(s, u) >= 0 ==> s[seen_pos(s, u)].url == u,
        seen_pos(s, u) == -1 ==> forall|m: int| 0 <= m < s.len() ==> #[trigger] s[m].url != u,
    decreases s.len(),
{
    if s.len() > 0 {
        lemma_seen_pos_found(s.drop_last(), u);
        if seen_pos(s, u) == -1 {
            assert forall|m: int| 0 <= m < s.len() implies #[trigger] s[m].url != u by {
                if m < s.len() - 1 {
                    assert(s.drop_last()[m] == s[m]);
                }
            }
        }
    }
}

proof fn lemma_quiet_channels(
    st: Found,
    cs: Seq<ChannelModel>,
    yp: Seq<char>,
    fs: Seq<CompiledFilterModel>,
    on: bool,
)
    ensures
        channels_fold(st, None, cs, yp, fs, on, false) == st,
    decreases cs.len(),
{
    if cs.len() > 0 {
        lemma_quiet_channels(st, cs.drop_last(), yp, fs, on);
    }
}

/// Every remembered URL is one of the URLs of `ys`.
pub open spec fn seen_among(seen: Seq<SeenModel>, ys: Seq<YpStatus>) -> bool {
    forall|m: int| 0 <= m < seen.len() ==> exists|i: int| 0 <= i < ys.len() && #[trigger] ys[i].url@ == (#[trigger] seen[m]).url
}

proof fn lemma_first_round_quiet(ys: Seq<YpStatus>, fs: Seq<CompiledFilterModel>, on: bool)
    requires
        forall|i: int, j: int| 0 <= i < j < ys.len() ==> ys[i].url@ != ys[j].url@,
    ensures
        ({
            let r = round_fold(
                RoundModel { seen: seq![], found: Found { new_keys: seq![], notify: seq![] } },
                ys,
                fs,
                on,
                false,
            );
            &&& r.found == Found { new_keys: seq![], notify: seq![] }
            &&& seen_among(r.seen, ys)
        }),
    decreases ys.len(),
{
    let st = RoundModel { seen: seq![], found: Found { new_keys: seq![], notify: seq![] } };
    if ys.len() > 0 {
        let p = ys.drop_last();
        lemma_first_round_quiet(p, fs, on);
        let mid = round_fold(st, p, fs, on, false);
        let y = ys.last();
        if y.state is Fetched {
            lemma_seen_pos_found(mid.seen, y.url@);
            if seen_pos(mid.seen, y.url@) >= 0 {
                let m = seen_pos(mid.seen, y.url@);
                let i = choose|i: int| 0 <= i < p.len() && #[trigger] p[i].url@ == mid.seen[m].url;
                assert(p[i] == ys[i]);
                assert(false);
            }
            lemma_quiet_channels(mid.found, models(y.channels@), y.name@, fs, on);
            let r = round_fold(st, ys, fs, on, false);
            assert(r.seen == mid.seen.push(SeenModel { url: y.url@, keys: keys_of(models(y.channels@)) }));
            assert forall|m: int| 0 <= m < r.seen.len() implies exists|i: int|
                0 <= i < ys.len() && #[trigger] ys[i].url@ == (#[trigger] r.seen[m]).url by {
                if m == mid.seen.len() {
                    assert(ys[ys.len() - 1].url@ == r.seen[m].url);
                } else {
                    assert(r.seen[m] == mid.seen[m]);
                    let i = choose|i: int| 0 <= i < p.len() && #[trigger] p[i].url@ == mid.seen[m].url;
                    assert(p[i] == ys[i]);
                }
            }
        } else {
            let r = round_fold(st, ys, fs, on, false);
            assert forall|m: int| 0 <= m < r.seen.len() implies exists|i: int|
                0 <= i < ys.len() && #[trigger] ys[i].url@ == (#[trigger] r.seen[m]).url by {
                let i = choose|i: int| 0 <= i < p.len() && #[trigger] p[i].url@ == mid.seen[m].url;
                assert(p[i] == ys[i]);
            }
        }
    }
}

/// The first round, when nothing was seen before and notices on the first fetch are
/// not asked for, finds nothing new and tells nothing (each YP at its own URL).
pub proof fn law_first_round_is_quiet(ys: Seq<YpStatus>, fs: Seq<CompiledFilterModel>, on: bool)
    requires
        forall|i: int, j: int| 0 <= i < j < ys.len() ==> ys[i].url@ != ys[j].url@,
    ensures
        round_fold(
            RoundModel { seen: seq![], found: Found { new_keys: seq![], notify: seq![] } },
            ys,
            fs,
            on,
            false,
        ).found == (Found { new_keys: seq![], notify: seq![] }),
{
    lemma_first_round_quiet(ys, fs, on);
}

/// A log that holds at most [`MAX_LOG`] lines still does after more lines are added.
pub proof fn law_log_stays_bounded(log: Seq<LogLine>, lines: Seq<LogLine>)
    requires
        log.len() <= MAX_LOG,
    ensures
        log_all(log, lines).len() <= MAX_LOG,
        lines.len() > 0 ==> log_all(log, lines).last() == lines.last(),
    decreases lines.len(),
{
    if lines.len() > 0 {
        law_log_stays_bounded(log, lines.drop_last());
    }
}

} // verus!
