use pcyp_rust::chandir::Channel;
use pcyp_rust::config::{PeerCastConfig, PlayUrlKind, PlayerEntry};
use pcyp_rust::player::{expand_args, plan_open, plan_play, play_url, playlist_url, split_args, stream_url, Opener};

fn ch() -> Channel {
    Channel {
        name: "予定地 \"x\"".into(),
        id: "97968780D09CC97BB98D4A2BF221EDE7".into(),
        tip: "127.0.0.1:7144".into(),
        content_type: "FLV".into(),
        url: "http://example.com/".into(),
        ..Default::default()
    }
}

#[test]
fn urls() {
    let pc = PeerCastConfig::default();
    assert_eq!(
        stream_url(&pc, &ch()),
        "http://127.0.0.1:7144/stream/97968780D09CC97BB98D4A2BF221EDE7.flv?tip=127.0.0.1:7144"
    );
    assert_eq!(playlist_url(&pc, &ch()), "http://127.0.0.1:7144/pls/97968780D09CC97BB98D4A2BF221EDE7?tip=127.0.0.1:7144");
    let mut c = ch();
    c.tip.clear();
    c.content_type = "WMV2".into();
    assert_eq!(stream_url(&pc, &c), "http://127.0.0.1:7144/stream/97968780D09CC97BB98D4A2BF221EDE7");
}

#[test]
fn splits_like_windows() {
    assert_eq!(split_args(r#"--title "$NAME" "$URL""#), ["--title", "$NAME", "$URL"]);
    assert_eq!(split_args(r#"a "" b"#), ["a", "", "b"]);
    assert_eq!(split_args(r#"--x="a b" c"#), ["--x=a b", "c"]);
}

#[test]
fn expands_without_recursion() {
    let pc = PeerCastConfig::default();
    let mut c = ch();
    c.name = "$URL".into();
    let a = expand_args(r#"--force-media-title="$NAME" "<stream/>" $CONTACT"#, &pc, &c);
    assert_eq!(a[0], "--force-media-title=$URL");
    assert!(a[1].starts_with("http://127.0.0.1:7144/stream/"));
    assert_eq!(a[2], "http://example.com/");
}

#[test]
fn refuses_non_http() {
    assert!(plan_open("", "javascript:alert(1)").is_err());
    assert!(plan_open("", "file:///C:/").is_err());
}

// ---------------------------------------------------------------- more cases

#[test]
fn opens_with_browser_when_set() {
    assert_eq!(plan_open(" firefox ", "https://a/"), Ok(Opener::Browser));
    assert_eq!(plan_open("  ", "https://a/"), Ok(Opener::System));
    assert_eq!(plan_open("", "mailto:x"), Err("http(s) でない URL は開きません: mailto:x".to_string()));
}

#[test]
fn custom_play_url() {
    let pc = PeerCastConfig { url_kind: PlayUrlKind::Custom, ..Default::default() };
    assert_eq!(
        play_url(&pc, &ch()),
        "http://127.0.0.1:7144/stream/97968780D09CC97BB98D4A2BF221EDE7.flv?tip=127.0.0.1:7144"
    );
    let pc = PeerCastConfig { url_kind: PlayUrlKind::Playlist, ..Default::default() };
    assert_eq!(play_url(&pc, &ch()), playlist_url(&pc, &ch()));
}

#[test]
fn plays_with_matching_player() {
    let pc = PeerCastConfig::default();
    let players = vec![
        PlayerEntry { types: "WMV".into(), exe: "wmp.exe".into(), args: "$URL".into() },
        PlayerEntry { types: "FLV".into(), exe: "  ".into(), args: "$URL".into() },
        PlayerEntry { types: "flv".into(), exe: "mpv.exe".into(), args: "--title $NAME".into() },
    ];
    let plan = plan_play(&players, &pc, &ch()).ok().unwrap();
    assert_eq!(plan.exe, "mpv.exe");
    assert_eq!(plan.args, ["--title", "予定地 \"x\""]);
    let mut c = ch();
    c.content_type = "MKV".into();
    assert_eq!(plan_play(&players, &pc, &c).err().unwrap(), "種類 MKV のプレイヤーが設定されていません");
    c.id = "00000000000000000000000000000000".into();
    assert_eq!(plan_play(&players, &pc, &c).err().unwrap(), "このチャンネルは再生できません (ID がありません)");
}

#[test]
fn default_custom_url_is_the_stream_url() {
    let pc = PeerCastConfig { url_kind: PlayUrlKind::Custom, ..Default::default() };
    let mut c = ch();
    c.tip = "yp.example.com:7144/a b".into();
    assert_eq!(play_url(&pc, &c), stream_url(&pc, &c));
    let pc = PeerCastConfig { url_kind: PlayUrlKind::Custom, address: "[::1]:7145".into(), ..Default::default() };
    assert_eq!(play_url(&pc, &ch()), stream_url(&pc, &ch()));
}

#[test]
fn unquoted_templates_split_at_white_space() {
    for s in ["a b  c", "  --x=1\t--y ", "", "   ", "one"] {
        let want: Vec<String> = s.split_whitespace().map(String::from).collect();
        assert_eq!(split_args(s), want);
    }
    for s in [r#"a"b"c "d e""#, r#""""#, r#"x "y"#] {
        assert!(split_args(s).iter().all(|a| !a.contains('"')));
    }
    assert_eq!(split_args(r#"a"b"c "d e""#), ["abc", "d e"]);
}

#[test]
fn placeholders_are_replaced_whole_and_once() {
    let pc = PeerCastConfig::default();
    let mut c = ch();
    c.name = "$URL <stream/> x".into();
    let a = expand_args(r#"--plain $NAME "$URL" $NAME-$ID"#, &pc, &c);
    assert_eq!(a.len(), 4);
    assert_eq!(a[0], "--plain");
    assert_eq!(a[1], "$URL <stream/> x");
    assert_eq!(a[2], play_url(&pc, &c));
    assert_eq!(a[3], "$URL <stream/> x-97968780D09CC97BB98D4A2BF221EDE7");
}
