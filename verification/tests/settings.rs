use pcyp_rust::config::{
    backup_outcome, broken_notice, default_yps, parse_address, update_interval_sec, valid_yp_url, validate,
    PeerCastConfig, PlayerEntry, ReadResult, YpEntry, DEFAULT_AUTO_INTERVAL_MIN,
};

#[test]
fn player_matches() {
    let p = PlayerEntry { types: "FLV, mkv".into(), ..Default::default() };
    assert!(p.matches("flv") && p.matches("MKV") && !p.matches("WMV"));
    assert!(PlayerEntry::default().matches("anything"));
}

#[test]
fn parses_address() {
    assert_eq!(parse_address("192.0.2.1:60016"), Ok(("192.0.2.1".into(), 60016)));
    assert_eq!(parse_address(" localhost "), Ok(("localhost".into(), 7144)));
    assert_eq!(parse_address("http://pc.local:7145/"), Ok(("pc.local".into(), 7145)));
    assert_eq!(parse_address("[::1]:7145"), Ok(("::1".into(), 7145)));
    assert_eq!(parse_address("[::1]"), Ok(("::1".into(), 7144)));
    assert_eq!(parse_address("fe80::1"), Ok(("fe80::1".into(), 7144)));
    assert!(parse_address("").is_err());
    assert!(parse_address("host:0").is_err());
    assert!(parse_address("host:70000").is_err());
    assert!(parse_address("host:abc").is_err());
    assert!(parse_address("a/b:1").is_err());
    let pc = PeerCastConfig { address: "[::1]:7145".into(), ..Default::default() };
    assert_eq!(pc.base_url(), "http://[::1]:7145");
}

#[test]
fn yp_url_check() {
    assert!(valid_yp_url("http://a/index.txt"));
    assert!(!valid_yp_url("file:///c:/index.txt"));
    assert!(!valid_yp_url("http://"));
}

#[test]
fn interval_has_minimum() {
    assert_eq!(update_interval_sec(1), 120);
    assert_eq!(update_interval_sec(DEFAULT_AUTO_INTERVAL_MIN), 300);
}

// ---------------------------------------------------------------- more cases

#[test]
fn default_yp_names() {
    let names: Vec<String> = default_yps().into_iter().map(|y| y.name).collect();
    assert_eq!(names, ["SP", "平成", "P@", "YPv6", "Event YP"]);
}

#[test]
fn address_errors_say_why() {
    assert_eq!(parse_address("  "), Err("PeerCast のアドレスが空です".to_string()));
    assert!(parse_address("host:0").unwrap_err().contains("host:0"));
}

#[test]
fn host_and_port_fall_back() {
    let pc = PeerCastConfig { address: "broken:x".into(), ..Default::default() };
    assert_eq!(pc.host(), "127.0.0.1");
    assert_eq!(pc.port(), 7144);
    assert_eq!(PeerCastConfig::default().base_url(), "http://127.0.0.1:7144");
}

fn yp(name: &str, url: &str) -> YpEntry {
    YpEntry { name: name.into(), url: url.into(), enabled: true }
}

#[test]
fn validate_trims_and_raises_interval() {
    let mut yps = vec![yp(" A ", " http://a/index.txt ")];
    let mut addr = " 127.0.0.1:7145 ".to_string();
    let mut interval = 1;
    assert_eq!(validate(&mut yps, &mut addr, &mut interval), Ok(()));
    assert_eq!(yps[0].name, "A");
    assert_eq!(yps[0].url, "http://a/index.txt");
    assert_eq!(addr, "127.0.0.1:7145");
    assert_eq!(interval, 2);
}

#[test]
fn validate_refuses_bad_url() {
    let mut yps = vec![yp("A", "ftp://a"), yp(" B ", " http://b/ ")];
    let mut addr = "x".to_string();
    let mut interval = 1;
    let r = validate(&mut yps, &mut addr, &mut interval);
    assert_eq!(r, Err("YP「A」の URL は http:// か https:// で始めてください".to_string()));
    assert_eq!(yps[1].name, " B ");
    assert_eq!(interval, 1);
}

#[test]
fn validate_refuses_empty_name() {
    let mut yps = vec![yp("  ", "http://a/index.txt")];
    let r = validate(&mut yps, &mut "x".to_string(), &mut 5);
    assert_eq!(r, Err("YP (http://a/index.txt) の名前が空です".to_string()));
}

#[test]
fn validate_refuses_same_url_twice() {
    let mut yps = vec![yp("A", "http://a/index.txt"), yp("B", " http://a/index.txt")];
    let r = validate(&mut yps, &mut "x".to_string(), &mut 5);
    assert_eq!(r, Err("同じ URL の YP が 2 つあります: http://a/index.txt".to_string()));
}

#[test]
fn validate_refuses_bad_address() {
    let mut yps = vec![yp("A", "http://a/index.txt")];
    let mut addr = "host:0".to_string();
    let r = validate(&mut yps, &mut addr, &mut 5);
    assert!(r.is_err());
    assert_eq!(addr, "host:0");
}

#[test]
fn first_run_is_quiet() {
    assert_eq!(backup_outcome("c.json", false, &ReadResult::Missing), (false, None));
}

#[test]
fn backup_is_used_after_broken_or_missing_file() {
    let (use_bak, n) = backup_outcome("c.json", false, &ReadResult::Parsed);
    assert!(use_bak);
    assert!(n.unwrap().contains("なかった"));
    let (use_bak, n) = backup_outcome("c.json", true, &ReadResult::Parsed);
    assert!(use_bak);
    assert_eq!(n.unwrap(), "c.json は、1 つ前に保存した控え (c.json.bak) から読みました");
    let (use_bak, n) = backup_outcome("c.json", true, &ReadResult::Missing);
    assert!(!use_bak);
    assert!(n.unwrap().contains("初期値"));
    let (_, n) = backup_outcome("c.json", false, &ReadResult::Bad("e".into()));
    assert_eq!(n.unwrap(), "c.json.bak も読めないので (e)、c.json は初期値にしました");
}

#[test]
fn broken_file_notice() {
    assert_eq!(
        broken_notice("c.json", "bad", &Ok("c.json.broken-1".into())),
        "c.json を読めなかったので、c.json.broken-1 という名前で残しました (bad)"
    );
    assert_eq!(broken_notice("c.json", "bad", &Err("busy".into())), "c.json を読めません (bad)。退避もできませんでした: busy");
}

#[test]
fn accepted_yp_urls_are_http_urls() {
    for u in ["HTTP://a/index.txt", " https://b/x ", "http://c/d"] {
        assert!(valid_yp_url(u));
        assert!(pcyp_rust::chandir::is_http_url(u));
    }
}

#[test]
fn base_url_reads_back() {
    for a in ["[::1]:7145", " localhost ", "http://pc.local:7145/", "fe80::1", "192.0.2.1:60016"] {
        let pc = PeerCastConfig { address: a.into(), ..Default::default() };
        assert_eq!(parse_address(&pc.base_url()), parse_address(a));
    }
}
