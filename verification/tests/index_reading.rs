use pcyp_rust::chandir::{atoi, parse_index, side_url, unescape_html, url_encode, Channel};

const LINE: &str = "予定地<>97968780D09CC97BB98D4A2BF221EDE7<>127.0.0.1:7144<>http://www.example.com/<>プログラミング<>peercastをいじる - &lt;Free&gt;<>-1<>-1<>428<>FLV<><><><><>%E4%BA%88%E5%AE%9A%E5%9C%B0<>1:14<>click<><>1";

#[test]
fn parses_fixed_line() {
    let (c, e) = parse_index(LINE, "http://yp/sp/index.txt");
    assert!(e.is_empty());
    assert_eq!(c.len(), 1);
    let c = &c[0];
    assert_eq!(c.name, "予定地");
    assert_eq!(c.id, "97968780D09CC97BB98D4A2BF221EDE7");
    assert_eq!(c.tip, "127.0.0.1:7144");
    assert_eq!(c.url, "http://www.example.com/");
    assert_eq!(c.desc, "peercastをいじる - <Free>");
    assert_eq!((c.listeners, c.relays, c.bitrate), (-1, -1, 428));
    assert_eq!(c.content_type, "FLV");
    assert_eq!(c.uptime_minutes(), 74);
    assert_eq!(c.direct, 1);
    assert_eq!(c.chat_url(), "http://yp/sp/chat.php?cn=%E4%BA%88%E5%AE%9A%E5%9C%B0");
    assert_eq!(c.stat_url(), "http://yp/sp/getgmt.php?cn=%E4%BA%88%E5%AE%9A%E5%9C%B0");
}

#[test]
fn drops_non_http_urls_and_counts_lines() {
    let bad = LINE.replace("http://www.example.com/", "javascript:alert(1)");
    let text = format!("{}\r\nbroken<>line\n{}\nfile<>x\n", LINE, bad);
    let (c, e) = parse_index(&text, "http://yp/index.txt");
    assert_eq!(c.len(), 2);
    assert_eq!(e, vec![2, 4]);
    assert!(c.iter().any(|c| c.url.is_empty()));
    let file = LINE.replace("http://www.example.com/", "file:///C:/Windows");
    let (c, _) = parse_index(&file, "");
    assert_eq!(c[0].url, "");
}

#[test]
fn empty_and_no_trailing_newline() {
    assert_eq!(parse_index("", "").0.len(), 0);
    assert_eq!(parse_index(LINE, "").0.len(), 1);
    assert_eq!(parse_index(&format!("{}\n", LINE), "").1.len(), 0);
}

#[test]
fn invalid_id_becomes_zero() {
    let l = LINE.replace("97968780D09CC97BB98D4A2BF221EDE7", "xyz");
    let (c, _) = parse_index(&l, "");
    assert!(c[0].is_info());
    let l = LINE.replace("97968780D09CC97BB98D4A2BF221EDE7", "97968780d09cc97bb98d4a2bf221ede7");
    assert_eq!(parse_index(&l, "").0[0].id, "97968780D09CC97BB98D4A2BF221EDE7");
}

#[test]
fn sorts_by_listeners() {
    let a = LINE.replace("<>-1<>-1<>428", "<>5<>0<>428").replace("予定地", "A");
    let b = LINE.replace("<>-1<>-1<>428", "<>20<>0<>428").replace("予定地", "B");
    let c = LINE.replace("<>-1<>-1<>428", "<>5<>0<>428").replace("予定地", "C");
    let (ch, _) = parse_index(&format!("{a}\n{b}\n{c}\n"), "");
    let names: Vec<_> = ch.iter().map(|c| c.name.as_str()).collect();
    assert_eq!(names, ["B", "A", "C"]);
}

#[test]
fn atoi_like_c() {
    assert_eq!(atoi("12abc"), 12);
    assert_eq!(atoi("  -3"), -3);
    assert_eq!(atoi("x"), 0);
    assert_eq!(atoi(""), 0);
}

#[test]
fn unescape() {
    assert_eq!(unescape_html("&lt;a&gt; &amp;amp; &quot;&#39;&#x41;&#12354;"), "<a> &amp; \"'Aあ");
    assert_eq!(unescape_html("A & B &unknown; &"), "A & B &unknown; &");
}

#[test]
fn side_url_rules() {
    assert_eq!(side_url("http://yp/sp/index.txt", "chat.php", "abc"), "http://yp/sp/chat.php?cn=abc");
    assert_eq!(side_url("http://yp/sp/index.txt", "chat.php", ""), "");
}

#[test]
fn encodes_tip() {
    assert_eq!(url_encode("1.2.3.4:7144"), "1.2.3.4:7144");
    assert_eq!(url_encode("[::1]:7144"), "[::1]:7144");
    assert_eq!(url_encode("a b&c"), "a%20b%26c");
}

// ---------------------------------------------------------------- more cases

#[test]
fn every_line_is_either_read_or_counted() {
    let text = format!("{}\nx<>y\n\n{}\n", LINE, LINE);
    let (c, e) = parse_index(&text, "");
    assert_eq!(c.len() + e.len(), 4);
    assert_eq!(e, vec![2, 3]);
}

#[test]
fn text_without_ampersand_is_kept() {
    assert_eq!(unescape_html("plain <text> ; x"), "plain <text> ; x");
}

#[test]
fn info_line_key_uses_name() {
    let l = LINE.replace("97968780D09CC97BB98D4A2BF221EDE7", "00000000000000000000000000000000");
    let (c, _) = parse_index(&l, "");
    assert!(c[0].is_info());
    assert_eq!(c[0].key(), "name:予定地");
    let (c, _) = parse_index(LINE, "");
    assert_eq!(c[0].key(), "97968780D09CC97BB98D4A2BF221EDE7");
}

#[test]
fn summary_and_track() {
    let c = Channel {
        genre: "g".into(),
        desc: "d".into(),
        comment: "c".into(),
        track_artist: "art".into(),
        track_title: "t".into(),
        ..Default::default()
    };
    assert_eq!(c.summary(), "[g - d] 「c」");
    assert_eq!(c.track_text(), "art - t");
}

#[test]
fn atoi_saturates_and_wraps_like_c() {
    assert_eq!(atoi("+7"), 7);
    assert_eq!(atoi("2147483648"), -2147483648);
    assert_eq!(atoi("4294967297"), 1);
}

#[test]
fn numeric_entities_out_of_range_stay() {
    assert_eq!(unescape_html("&#55296;&#x110000;"), "&#55296;&#x110000;");
}

#[test]
fn atoi_reads_a_printed_number_back() {
    for n in [0i32, 7, 42, 65535, i32::MAX] {
        for w in ["", " ", "\t\n "] {
            for t in ["", "abc", " 9", "-1", "."] {
                assert_eq!(atoi(&format!("{w}{n}{t}")), n);
                assert_eq!(atoi(&format!("{w}+{n}{t}")), n);
                assert_eq!(atoi(&format!("{w}-{n}{t}")), -n);
            }
        }
    }
}

#[test]
fn references_are_decoded_once_and_never_lengthen() {
    assert_eq!(unescape_html("&amp;lt;"), "&lt;");
    assert_eq!(unescape_html("&amp;amp;x"), "&amp;x");
    assert_eq!(unescape_html("&#38;#60;"), "&#60;");
    for s in ["&lt;&gt;&amp;", "a&#x41;b", "&&&;;", "&verylongname;", "plain", ""] {
        assert!(unescape_html(s).chars().count() <= s.chars().count());
    }
}

fn percent_decode(s: &str) -> Vec<u8> {
    let b = s.as_bytes();
    let mut out = Vec::new();
    let mut i = 0;
    while i < b.len() {
        if b[i] == b'%' && i + 2 < b.len() && b[i + 1].is_ascii_hexdigit() && b[i + 2].is_ascii_hexdigit() {
            out.push(u8::from_str_radix(&s[i + 1..i + 3], 16).unwrap());
            i += 3;
        } else {
            out.push(b[i]);
            i += 1;
        }
    }
    out
}

#[test]
fn url_encoding_is_well_formed_and_decodes_back() {
    assert_eq!(url_encode("a b/ü~[:]"), "a%20b%2F%C3%BC~[:]");
    for s in ["a b/ü~[:]", "予定地 100%", "", "Az09-_.~:[]", "?&=#\"'<>"] {
        let r = url_encode(s);
        let b = r.as_bytes();
        for (i, &c) in b.iter().enumerate() {
            assert!(c.is_ascii_alphanumeric() || b"-_.~:[]%".contains(&c));
            if c == b'%' {
                assert!(i + 2 < b.len());
                assert!(b"0123456789ABCDEF".contains(&b[i + 1]) && b"0123456789ABCDEF".contains(&b[i + 2]));
            }
        }
        assert_eq!(percent_decode(&r), s.as_bytes());
        let all_unreserved = s.bytes().all(|c| c.is_ascii_alphanumeric() || b"-_.~:[]".contains(&c));
        assert_eq!(r == s, all_unreserved);
    }
}

#[test]
fn every_channel_keeps_its_feed_url() {
    let line = |name: &str, id: &str, listeners: &str| {
        let mut f = vec![""; 19];
        f[0] = name;
        f[1] = id;
        f[6] = listeners;
        f.join("<>")
    };
    let text = format!(
        "{}\nbad\n{}",
        line("a", "11111111111111111111111111111111", "3"),
        line("b", "22222222222222222222222222222222", "9")
    );
    let (chans, bad) = parse_index(&text, "http://yp/index.txt");
    assert_eq!(chans.len(), 2);
    assert_eq!(bad, [2]);
    assert_eq!(chans[0].name, "b");
    assert!(chans.iter().all(|c| c.feed_url == "http://yp/index.txt"));
}

#[test]
fn ids_are_upper_case_hex_or_zero() {
    let line = |id: &str| {
        let mut f = vec![""; 19];
        f[0] = "n";
        f[1] = id;
        f.join("<>")
    };
    let text = format!("{}\n{}\n{}", line("abcdef0123456789abcdef0123456789"), line("xyz"), line("ABCDEF0123456789ABCDEF012345678G"));
    let (chans, bad) = parse_index(&text, "http://yp/index.txt");
    assert!(bad.is_empty());
    let ids: Vec<&str> = chans.iter().map(|c| c.id.as_str()).collect();
    assert_eq!(ids, ["ABCDEF0123456789ABCDEF0123456789", "00000000000000000000000000000000", "00000000000000000000000000000000"]);
}
