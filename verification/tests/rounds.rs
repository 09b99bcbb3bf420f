use pcyp_rust::config::{NotifyConfig, YpEntry};
use pcyp_rust::filter::{compile, Filter};
use pcyp_rust::worker::{
    begin_fetch, finish_fetch, log_new_errors, next_step, record_fetch, sync_yps, wait_after, Command, FetchState,
    SeenYp, Shared, Step, MAX_LOG,
};

/// 2026-09-25 00:16:37 on the clock of the machine.
const NOW: [u16; 6] = [2026, 9, 25, 0, 16, 37];

fn line(name: &str, id: &str) -> String {
    format!("{name}<>{id}<>1.2.3.4:7144<><>g<>d<>1<>0<>500<>FLV<><><><><><>0:10<>click<><>0")
}

fn entry(name: &str, url: &str) -> YpEntry {
    YpEntry { name: name.into(), url: url.into(), enabled: true }
}

#[test]
fn notifies_new_favorites_only() {
    let yps = vec![entry("T", "http://t/index.txt")];
    let (compiled, _) = compile(&[Filter::exact_name("B", false), Filter::exact_name("A", false)]);
    let notify = NotifyConfig::default();
    let mut shared = Shared::default();
    let mut seen: Vec<SeenYp> = Vec::new();
    begin_fetch(&mut shared, &yps);
    record_fetch(&mut shared, "T", "http://t/index.txt", Ok(line("A", "11111111111111111111111111111111")), NOW);
    let notified = finish_fetch(&mut shared, &compiled, &notify, &mut seen, NOW);
    // the first fetch tells nothing
    assert!(notified.is_empty());
    let text = format!(
        "{}\n{}\n{}",
        line("A", "11111111111111111111111111111111"),
        line("B", "22222222222222222222222222222222"),
        line("C", "33333333333333333333333333333333")
    );
    begin_fetch(&mut shared, &yps);
    record_fetch(&mut shared, "T", "http://t/index.txt", Ok(text), NOW);
    let notified = finish_fetch(&mut shared, &compiled, &notify, &mut seen, NOW);
    let names: Vec<String> = notified.iter().map(|c| c.name.clone()).collect();
    assert_eq!(names, ["B"]);
    assert_eq!(shared.new_keys.len(), 2);
    assert_eq!(shared.yps[0].channels.len(), 3);
}

#[test]
fn failed_yp_keeps_others() {
    let yps = vec![entry("ok", "http://ok/index.txt"), entry("ng", "http://ng/index.txt")];
    let mut shared = Shared::default();
    let targets = begin_fetch(&mut shared, &yps);
    for (name, url) in &targets {
        let result = if url.contains("ok") { Ok(line("A", "11111111111111111111111111111111")) } else { Err("boom".to_string()) };
        record_fetch(&mut shared, name, url, result, NOW);
    }
    finish_fetch(&mut shared, &[], &NotifyConfig::default(), &mut Vec::new(), NOW);
    assert_eq!(shared.yps[0].state, FetchState::Fetched);
    assert_eq!(shared.yps[0].channels.len(), 1);
    assert!(matches!(shared.yps[1].state, FetchState::Error(_)));
}

#[test]
fn manual_refresh_is_throttled() {
    let mut shared = Shared::default();
    assert_eq!(next_step(&mut shared, Some(Command::Refresh { manual: true }), false, NOW), Step::Fetch);
    begin_fetch(&mut shared, &[]);
    finish_fetch(&mut shared, &[], &NotifyConfig::default(), &mut Vec::new(), NOW);
    assert_eq!(next_step(&mut shared, Some(Command::Refresh { manual: true }), false, NOW), Step::Skip);
    assert_eq!(next_step(&mut shared, Some(Command::Quit), false, NOW), Step::Stop);
    assert_eq!(shared.generation, 1);
    assert!(shared.log.iter().any(|l| l.text.contains("30 秒")));
}

// ---------------------------------------------------------------- more cases

#[test]
fn sync_keeps_lists_of_yps_that_stay() {
    let mut shared = Shared::default();
    sync_yps(&mut shared, &[entry("A", "http://a/"), entry("B", "http://b/")]);
    record_fetch(&mut shared, "A", "http://a/", Ok(line("X", "11111111111111111111111111111111")), NOW);
    let off = YpEntry { enabled: false, ..entry("C", "http://c/") };
    sync_yps(&mut shared, &[entry("B2", "http://b/"), off, entry("A2", "http://a/"), entry("A3", "http://a/")]);
    assert_eq!(shared.yps.len(), 3);
    assert_eq!(shared.yps[0].name, "B2");
    assert_eq!(shared.yps[1].name, "A2");
    assert_eq!(shared.yps[1].channels.len(), 1);
    assert_eq!(shared.yps[1].state, FetchState::Fetched);
    assert_eq!(shared.yps[2].name, "A3");
    assert!(shared.yps[2].channels.is_empty());
    assert_eq!(shared.yps[2].state, FetchState::Idle);
}

#[test]
fn fetch_messages() {
    let mut shared = Shared::default();
    sync_yps(&mut shared, &[entry("T", "http://t/")]);
    record_fetch(&mut shared, "T", "http://t/", Ok(format!("{}\nbad\nworse", line("A", "11111111111111111111111111111111"))), NOW);
    let last = shared.log.back().unwrap();
    assert_eq!(last.text, "T: 1 チャンネル、解析できない行 [2, 3]");
    assert!(last.error);
    assert_eq!(shared.yps[0].bad_lines, [2, 3]);
    record_fetch(&mut shared, "T", "http://t/", Err("boom".into()), NOW);
    assert_eq!(shared.log.back().unwrap().text, "T: 取得に失敗しました: boom");
    // the list read before stays
    assert_eq!(shared.yps[0].channels.len(), 1);
    record_fetch(&mut shared, "T", "http://t/", Ok(String::new()), NOW);
    assert_eq!(shared.log.back().unwrap().text, "T: 0 チャンネル");
    assert!(!shared.log.back().unwrap().error);
    assert_eq!(shared.log.back().unwrap().time, "00:16:37");
    assert_eq!(shared.yps[0].updated.as_deref(), Some("00:16:37"));
}

#[test]
fn log_keeps_the_newest_lines() {
    let mut shared = Shared::default();
    for i in 0..(MAX_LOG + 5) {
        shared.log(false, format!("{}", i), NOW);
    }
    assert_eq!(shared.log.len(), MAX_LOG);
    assert_eq!(shared.log.front().unwrap().text, "5");
    assert_eq!(shared.log.back().unwrap().text, format!("{}", MAX_LOG + 4));
}

#[test]
fn waits_before_manual_refresh() {
    assert_eq!(wait_after(0), 30);
    assert_eq!(wait_after(12), 18);
    assert_eq!(wait_after(30), 0);
    assert_eq!(wait_after(u64::MAX), 0);
    let shared = Shared::default();
    assert_eq!(shared.manual_wait(), 0);
}

#[test]
fn timer_and_config_steps() {
    let mut shared = Shared::default();
    assert_eq!(next_step(&mut shared, None, true, NOW), Step::Fetch);
    assert_eq!(next_step(&mut shared, None, false, NOW), Step::Skip);
    assert_eq!(next_step(&mut shared, Some(Command::ConfigChanged), true, NOW), Step::Resync);
    assert_eq!(next_step(&mut shared, Some(Command::Refresh { manual: false }), false, NOW), Step::Fetch);
    assert!(shared.log.is_empty());
}

#[test]
fn notices_can_be_switched_off_or_on_first() {
    let yps = vec![entry("T", "http://t/index.txt")];
    let (compiled, _) = compile(&[Filter::exact_name("A", false), Filter::exact_name("A", false)]);
    let first = NotifyConfig { enabled: true, on_first_fetch: true };
    let mut shared = Shared::default();
    let mut seen = Vec::new();
    begin_fetch(&mut shared, &yps);
    record_fetch(&mut shared, "T", "http://t/index.txt", Ok(line("A", "11111111111111111111111111111111")), NOW);
    let n = finish_fetch(&mut shared, &compiled, &first, &mut seen, NOW);
    assert_eq!(n.len(), 1);
    assert_eq!(shared.log.back().unwrap().text, "お気に入りの配信が始まりました: A");
    assert_eq!(shared.generation, 1);
    assert!(!shared.fetching);
    let off = NotifyConfig { enabled: false, on_first_fetch: true };
    let mut shared = Shared::default();
    begin_fetch(&mut shared, &yps);
    record_fetch(&mut shared, "T", "http://t/index.txt", Ok(line("A", "11111111111111111111111111111111")), NOW);
    assert!(finish_fetch(&mut shared, &compiled, &off, &mut Vec::new(), NOW).is_empty());
}

#[test]
fn filter_errors_are_told_once() {
    let mut shared = Shared::default();
    let known = vec!["a".to_string()];
    let errors = vec!["a".to_string(), "b".to_string(), "c".to_string()];
    log_new_errors(&mut shared, &known, &errors, NOW);
    let texts: Vec<String> = shared.log.iter().map(|l| l.text.clone()).collect();
    assert_eq!(texts, ["b", "c"]);
    assert!(shared.log.iter().all(|l| l.error));
}

#[test]
fn a_round_notes_each_key_once() {
    let yps = vec![entry("T", "http://t/index.txt"), entry("U", "http://u/index.txt")];
    let (compiled, _) = compile(&[Filter::exact_name("A", false)]);
    let notify = NotifyConfig::default();
    let mut shared = Shared::default();
    let mut seen: Vec<SeenYp> = Vec::new();
    begin_fetch(&mut shared, &yps);
    record_fetch(&mut shared, "T", "http://t/index.txt", Ok(String::new()), NOW);
    record_fetch(&mut shared, "U", "http://u/index.txt", Ok(String::new()), NOW);
    finish_fetch(&mut shared, &compiled, &notify, &mut seen, NOW);
    let a = line("A", "11111111111111111111111111111111");
    begin_fetch(&mut shared, &yps);
    record_fetch(&mut shared, "T", "http://t/index.txt", Ok(a.clone()), NOW);
    record_fetch(&mut shared, "U", "http://u/index.txt", Ok(a), NOW);
    let told = finish_fetch(&mut shared, &compiled, &notify, &mut seen, NOW);
    // the same channel on two YPs: one key, one notice
    assert_eq!(shared.new_keys.len(), 1);
    assert_eq!(told.len(), 1);
    // one entry per URL, after two rounds
    assert_eq!(seen.len(), 2);
    assert_ne!(seen[0].url, seen[1].url);
    let last = shared.log.back().unwrap();
    assert_eq!(last.time, "00:16:37");
    assert_eq!(last.text, "お気に入りの配信が始まりました: A");
}
