use pcyp_rust::chandir::Channel;
use pcyp_rust::filter::{apply, compile, exact_filter_index, move_filter, remove_filter, Filter, Search};
use pcyp_rust::pattern::Pattern;

fn ch(name: &str, genre: &str) -> Channel {
    Channel { name: name.into(), genre: genre.into(), ..Default::default() }
}

#[test]
fn base_and_not() {
    let f = Filter {
        base_search: Search { enabled: true, search: "game".into(), fields: vec!["genre".into()] },
        and_search: Search { enabled: true, search: "PS".into(), fields: vec!["genre".into()] },
        not_search: Search { enabled: true, search: "ネタバレ".into(), fields: vec!["genre".into()] },
        ..Default::default()
    };
    let (c, e) = compile(&[f]);
    assert!(e.is_empty());
    assert!(apply(&c, &ch("a", "GAME ps3"), "").favorite);
    assert!(!apply(&c, &ch("a", "game pc"), "").favorite);
    assert!(!apply(&c, &ch("a", "game ps ネタバレ"), "").favorite);
}

#[test]
fn bad_regex_is_disabled() {
    let bad = Filter { base_search: Search { enabled: true, search: "(".into(), fields: vec![] }, ..Default::default() };
    let good = Filter::exact_name("a.b", true);
    let (c, e) = compile(&[bad, good]);
    assert_eq!(c.len(), 1);
    assert_eq!(e.len(), 1);
    assert!(apply(&c, &ch("a.b", ""), "").ignore);
    assert!(!apply(&c, &ch("axb", ""), "").ignore);
    assert_eq!(apply(&c, &ch("a.b", ""), "").names, ["a.b"]);
    // the disabled first filter is skipped, positions stay those of the list
    assert_eq!(apply(&c, &ch("a.b", ""), "").ignore_filters, [1]);
}

// ---------------------------------------------------------------- more cases

#[test]
fn disabled_filters_are_skipped() {
    let f = Filter { enabled: false, ..Filter::exact_name("a", false) };
    let (c, e) = compile(&[f]);
    assert!(c.is_empty() && e.is_empty());
}

#[test]
fn favorite_means_some_favorite_filter_hit() {
    let fav = Filter::exact_name("a", false);
    let ign = Filter::exact_name("b", true);
    let (c, _) = compile(&[fav, ign]);
    let m = apply(&c, &ch("a", ""), "");
    assert!(m.favorite && m.notify && !m.ignore);
    assert_eq!(m.favorite_filters, [0]);
    assert_eq!(m.colors, [[255, 230, 150]]);
    let m = apply(&c, &ch("c", ""), "");
    assert!(!m.favorite && !m.ignore && m.names.is_empty());
}

#[test]
fn exact_name_escapes_the_name() {
    let f = Filter::exact_name("a.b(c)", false);
    assert_eq!(f.base_search.search, "^a\\.b\\(c\\)$");
    assert_eq!(f.title(), "a.b(c)");
}

#[test]
fn patterns_compile_and_match() {
    let p = Pattern::compile("ab+c", true).ok().unwrap();
    assert!(p.is_match("xABBCx"));
    assert!(!p.is_match("ac"));
    assert!(Pattern::compile("(", false).is_err());
}

#[test]
fn the_yp_field_matches_the_yp_name() {
    let f = Filter {
        base_search: Search { enabled: true, search: "^SP$".into(), fields: vec!["yp".into()] },
        ..Default::default()
    };
    let (c, _) = compile(&[f]);
    assert!(apply(&c, &ch("x", ""), "SP").favorite);
    assert!(!apply(&c, &ch("x", ""), "TP").favorite);
}

#[test]
fn match_lists_follow_the_matching_filters() {
    let by_name = |title: &str, search: &str| Filter {
        name: title.into(),
        base_search: Search { enabled: true, search: search.into(), fields: vec!["name".into()] },
        ..Default::default()
    };
    let f0 = Filter { color: [1, 2, 3], ..by_name("t1", "a") };
    let f1 = Filter { favorite: false, ignore: true, enable_color: false, ..by_name("t2", "a") };
    let f2 = Filter { color: [4, 5, 6], ..by_name("t1", "b") };
    let f3 = by_name("t3", "zzz");
    let (c, e) = compile(&[f0, f1, f2, f3]);
    assert!(e.is_empty());
    let m = apply(&c, &ch("ab", ""), "");
    assert!(m.favorite && m.ignore && m.notify);
    assert_eq!(m.favorite_filters, [0, 2]);
    assert_eq!(m.ignore_filters, [1]);
    assert_eq!(m.colors, [[1, 2, 3], [4, 5, 6]]);
    assert_eq!(m.names, ["t1", "t2"]);
}

#[test]
fn finds_the_filter_made_for_a_name() {
    let other = Filter { base_search: Search { enabled: true, search: "^a\\.b$".into(), fields: vec![] }, ..Default::default() };
    let fs = vec![Filter::exact_name("x", false), other, Filter::exact_name("a.b", true), Filter::exact_name("a.b", false)];
    assert_eq!(exact_filter_index(&fs, "a.b"), Some(2));
    assert_eq!(exact_filter_index(&fs, "x"), Some(0));
    assert_eq!(exact_filter_index(&fs, "y"), None);
}

#[test]
fn editing_the_filter_list() {
    let mut fs = vec![Filter::exact_name("a", false), Filter::exact_name("b", false), Filter::exact_name("c", false)];
    assert_eq!(move_filter(&mut fs, 0, false), 1);
    let names: Vec<&str> = fs.iter().map(|f| f.name.as_str()).collect();
    assert_eq!(names, ["b", "a", "c"]);
    assert_eq!(move_filter(&mut fs, 2, true), 1);
    let names: Vec<&str> = fs.iter().map(|f| f.name.as_str()).collect();
    assert_eq!(names, ["b", "c", "a"]);
    assert_eq!(remove_filter(&mut fs, 2), 1);
    assert_eq!(remove_filter(&mut fs, 0), 0);
    assert_eq!(remove_filter(&mut fs, 0), 0);
    assert!(fs.is_empty());
}

#[test]
fn each_filter_in_use_gives_one_result_or_message() {
    let bad = Filter { base_search: Search { enabled: true, search: "(".into(), fields: vec![] }, ..Default::default() };
    let empty = Filter { name: "nothing".into(), base_search: Search { enabled: true, search: String::new(), fields: vec![] }, ..Default::default() };
    let off = Filter { enabled: false, ..Filter::exact_name("off", false) };
    let unnamed = Filter { base_search: Search { enabled: true, search: "z+".into(), fields: vec![] }, ..Default::default() };
    let fs = [bad, Filter::exact_name("a.b", true), empty, off, unnamed];
    let (c, e) = compile(&fs);
    assert_eq!(c.len() + e.len(), 3);
    assert_eq!(e.len(), 1);
    let idx: Vec<usize> = c.iter().map(|f| f.index).collect();
    assert_eq!(idx, [1, 4]);
    let titles: Vec<&str> = c.iter().map(|f| f.title.as_str()).collect();
    assert_eq!(titles, ["a.b", "z+"]);
}
