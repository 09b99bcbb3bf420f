use pcyp_rust::config::{PeerCastConfig, PeerCastKind};
use pcyp_rust::peercast::{
    admin_url, auth_header, base64, detect_kind, host_for_url, rpc_error_text, rpc_status, rpc_url, version_info_of,
    RelayChannel,
};

#[test]
fn base64_works() {
    assert_eq!(base64(b"user:pass"), "dXNlcjpwYXNz");
    assert_eq!(base64(b"a"), "YQ==");
    assert_eq!(base64(b"ab"), "YWI=");
}

#[test]
fn detects_kind() {
    assert_eq!(detect_kind("PeerCastStation/3.1.0"), PeerCastKind::PeerCastStation);
    assert_eq!(detect_kind("PeerCast/0.1218 (YT50-rs2)"), PeerCastKind::PeerCastYt);
}

#[test]
fn ipv6_host() {
    assert_eq!(host_for_url("::1"), "[::1]");
    assert_eq!(host_for_url("127.0.0.1"), "127.0.0.1");
}

// ---------------------------------------------------------------- more cases

#[test]
fn unknown_agent_is_auto() {
    assert_eq!(detect_kind("nginx"), PeerCastKind::Auto);
    assert_eq!(version_info_of("PeerCastStation/3".into()).kind, PeerCastKind::PeerCastStation);
}

#[test]
fn base64_of_nothing_and_three_bytes() {
    assert_eq!(base64(b""), "");
    assert_eq!(base64(b"abc"), "YWJj");
}

#[test]
fn urls_of_the_local_peercast() {
    let pc = PeerCastConfig { address: "[::1]:7145".into(), ..Default::default() };
    assert_eq!(admin_url(&pc), "http://[::1]:7145/");
    assert_eq!(rpc_url(&pc), "http://[::1]:7145/api/1");
}

#[test]
fn credentials_only_when_given() {
    assert_eq!(auth_header("", ""), None);
    assert_eq!(auth_header("user", "pass"), Some("Basic dXNlcjpwYXNz".to_string()));
}

#[test]
fn rpc_status_errors() {
    assert_eq!(rpc_status(200), Ok(()));
    assert!(rpc_status(401).unwrap_err().contains("認証が必要です (HTTP 401)"));
    assert_eq!(rpc_status(500), Err("HTTP 500".to_string()));
}

#[test]
fn base64_length_is_four_per_three_bytes() {
    for n in 0..10usize {
        let b = vec![7u8; n];
        assert_eq!(base64(&b).len(), 4 * ((n + 2) / 3));
    }
}

#[test]
fn admin_url_is_base_url_with_slash() {
    for a in ["127.0.0.1:7144", "[::1]:7145", "localhost", "::1", ""] {
        let pc = PeerCastConfig { address: a.into(), ..Default::default() };
        assert_eq!(admin_url(&pc), format!("{}/", pc.base_url()));
    }
    assert_eq!(admin_url(&PeerCastConfig::default()), "http://127.0.0.1:7144/");
}

#[test]
fn parses_relay_channel() {
    let v: serde_json::Value = serde_json::from_str(
        r#"{"channelId":"abc","info":{"name":"n","bitrate":500,"contentType":"FLV"},"status":{"status":"Receiving","localDirects":2,"localRelays":1}}"#,
    )
    .unwrap();
    let text = |p: &serde_json::Value| p.as_str().unwrap_or_default().to_string();
    let c = RelayChannel::from_fields(
        &text(&v["channelId"]),
        text(&v["info"]["name"]),
        text(&v["status"]["status"]),
        v["status"]["localDirects"].as_i64().unwrap_or(0),
        v["status"]["localRelays"].as_i64().unwrap_or(0),
        v["info"]["bitrate"].as_i64().unwrap_or(0),
        text(&v["info"]["contentType"]),
    );
    assert_eq!((c.id.as_str(), c.name.as_str(), c.status.as_str()), ("ABC", "n", "Receiving"));
    assert_eq!((c.listeners, c.relays, c.bitrate), (2, 1, 500));
}

#[test]
fn rpc_errors_name_the_method() {
    assert_eq!(rpc_error_text("getChannels", Some("denied".into())), "getChannels: denied");
    assert_eq!(rpc_error_text("stopChannel", None), "stopChannel: 不明なエラー");
}
