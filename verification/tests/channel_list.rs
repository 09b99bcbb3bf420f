use pcyp_rust::chandir::{parse_index, Channel};
use pcyp_rust::config::Columns;
use pcyp_rust::filter::{compile, Filter};
use pcyp_rust::listing::{
    build_rows, color_of, columns, listeners_text, next_sort, step_selection, view_rows, Col, Row, SortKey, Tab,
};
use pcyp_rust::worker::{FetchState, YpStatus};

fn line(name: &str, id: &str, listeners: i32, genre: &str) -> String {
    format!("{name}<>{id}<>1.2.3.4:7144<><>{genre}<>d<>{listeners}<>0<>500<>FLV<><><><><><>0:10<>click<><>0")
}

fn status(name: &str, url: &str, text: &str) -> YpStatus {
    let (channels, bad_lines) = parse_index(text, url);
    YpStatus { name: name.into(), url: url.into(), state: FetchState::Fetched, channels, bad_lines, updated: None }
}

#[test]
fn sort_keys_start_directions() {
    assert!(SortKey::Listeners.default_desc());
    assert!(SortKey::Uptime.default_desc());
    assert!(!SortKey::Name.default_desc());
    assert_eq!(Col::TwoStats.sort_key(), Some(SortKey::Listeners));
    assert_eq!(Col::Track.sort_key(), None);
    assert_eq!(Col::TwoName.header(), "チャンネル");
}

#[test]
fn column_layouts() {
    let c = Columns::default();
    assert_eq!(columns(false, &c), [Col::Name, Col::Summary, Col::Listeners, Col::Bitrate, Col::Uptime, Col::Type, Col::Yp]);
    assert_eq!(columns(true, &c), [Col::TwoName, Col::TwoStats, Col::TwoRate, Col::Yp]);
    let few = Columns { listeners: false, uptime: false, track: true, yp: false, ..Columns::default() };
    assert_eq!(columns(true, &few), [Col::TwoName, Col::TwoRate, Col::Track]);
}

#[test]
fn listeners_and_colors() {
    assert_eq!(listeners_text(-1), "-");
    assert_eq!(listeners_text(12), "12");
    assert_eq!(color_of(&[]), None);
    assert_eq!(color_of(&[[255, 0, 10], [0, 255, 20]]), Some([127, 127, 15, 130]));
}

#[test]
fn rows_counts_and_duplicates() {
    let a = status("A", "http://a/", &format!("{}\n{}", line("x", "11111111111111111111111111111111", 5, "g"), line("y", "22222222222222222222222222222222", 3, "g")));
    let b = status("B", "http://b/", &line("x", "11111111111111111111111111111111", 5, "g"));
    let (compiled, _) = compile(&[Filter::exact_name("y", false), Filter::exact_name("x", true)]);
    let (rows, counts) = build_rows(&[a, b], &compiled, &["22222222222222222222222222222222".to_string()]);
    assert_eq!(rows.len(), 3);
    assert!(rows[0].ignore && !rows[0].duplicate);
    assert!(rows[1].favorite && rows[1].is_new);
    assert_eq!(rows[1].color, Some([255, 230, 150, 130]));
    assert!(rows[2].duplicate);
    assert_eq!(counts.ignored, 1);
    assert_eq!(counts.all, 1);
    assert_eq!(counts.favorite, 1);
    assert_eq!(counts.per_yp, [1, 0]);
}

fn row(name: &str, listeners: i32, relays: i32, yp: &str) -> Row {
    Row {
        ch: Channel { name: name.into(), id: "11111111111111111111111111111111".into(), listeners, relays, feed_url: format!("http://{}/", yp), ..Default::default() },
        yp: yp.into(),
        favorite: false,
        ignore: false,
        color: None,
        is_new: false,
        duplicate: false,
    }
}

#[test]
fn tab_rows_sorted_and_stable() {
    let rows = vec![row("b", 5, 0, "p"), row("A", 9, 0, "q"), row("c", 5, 0, "p"), row("B", 5, 1, "p")];
    let all = view_rows(&rows, &Tab::All, false, "", SortKey::Listeners, true, true);
    assert_eq!(all, [1, 3, 0, 2]);
    let by_name = view_rows(&rows, &Tab::All, false, "", SortKey::Name, false, true);
    assert_eq!(by_name, [1, 0, 3, 2]);
    let yp = view_rows(&rows, &Tab::Yp("http://p/".into()), true, "  B ", SortKey::Name, false, true);
    assert_eq!(yp, [0, 3]);
    assert!(view_rows(&rows, &Tab::Yp("http://p/".into()), false, "", SortKey::Name, false, true).is_empty());
    assert!(view_rows(&rows, &Tab::Favorite, false, "", SortKey::Name, false, true).is_empty());
}

#[test]
fn info_rows_only_when_shown() {
    let mut info = row("notice", 0, 0, "p");
    info.ch.id = "00000000000000000000000000000000".into();
    let rows = vec![info, row("a", 1, 0, "p")];
    assert_eq!(view_rows(&rows, &Tab::All, false, "", SortKey::Name, false, false), [1]);
    assert_eq!(view_rows(&rows, &Tab::All, false, "", SortKey::Name, false, true), [1, 0]);
}

#[test]
fn arrow_keys_stay_in_the_list() {
    assert_eq!(step_selection(None, 5, true), 0);
    assert_eq!(step_selection(Some(2), 5, true), 3);
    assert_eq!(step_selection(Some(4), 5, true), 4);
    assert_eq!(step_selection(Some(0), 5, false), 0);
    assert_eq!(step_selection(Some(3), 5, false), 2);
}

#[test]
fn only_later_copies_are_duplicates() {
    let x = line("x", "11111111111111111111111111111111", 5, "g");
    let a = status("A", "http://a/", &format!("{}\n{}", x, x));
    let b = status("B", "http://b/", &format!("{}\n{}", x, line("y", "22222222222222222222222222222222", 3, "g")));
    let (rows, counts) = build_rows(&[a, b], &[], &[]);
    let dups: Vec<bool> = rows.iter().map(|r| r.duplicate).collect();
    assert_eq!(dups, [false, true, true, false]);
    assert_eq!(counts.all, 2);
}

#[test]
fn header_clicks_turn_or_restart_the_sort() {
    assert_eq!(next_sort((SortKey::Listeners, true), SortKey::Listeners), (SortKey::Listeners, false));
    assert_eq!(next_sort((SortKey::Name, false), SortKey::Name), (SortKey::Name, true));
    assert_eq!(next_sort((SortKey::Name, false), SortKey::Bitrate), (SortKey::Bitrate, true));
    assert_eq!(next_sort((SortKey::Listeners, true), SortKey::Genre), (SortKey::Genre, false));
}

#[test]
fn mean_color_of_many_filters() {
    let many = vec![[255u8, 255, 0]; 100_000];
    assert_eq!(color_of(&many), Some([255, 255, 0, 130]));
    assert_eq!(color_of(&[[1, 2, 3], [2, 3, 4], [3, 4, 6]]), Some([2, 3, 4, 130]));
}
