use pman::codec::ParseError;
use pman::group::LinkGroup;
use pman::link::Link;
use pman::store::Config;
use pman::text::{lines_of, parse_priority};

fn sample() -> Config {
    let mut c = Config::new("cmd".to_string());
    c.set_active(&"java".to_string(), &20);
    c.add_link(Link::new("grep".to_string(), "C:/tools/grep.exe".to_string()));
    let mut g = LinkGroup::new("java".to_string(), 10);
    g.set_base_path("C:/jdk8".to_string());
    g.add_link(Link::new("bin".to_string(), "bin".to_string()));
    c.insert_config_entry(g);
    let mut h = LinkGroup::new("java".to_string(), 20);
    h.set_base_path("C:/jdk11".to_string());
    c.insert_config_entry(h);
    c
}

#[test]
fn writes_exact_text() {
    let text = sample().to_text();
    assert_eq!(
        text,
        "cmd\njava\n20\n\ngrep\nC:/tools/grep.exe\n\njava\nC:/jdk11\n20\n\nC:/jdk8\n10\nbin\nbin\n\n\n\n"
    );
}

#[test]
fn standalone_link_round_trip() {
    let mut c = Config::new("C:/cmd".to_string());
    c.add_link(Link::new("grep".to_string(), "C:/tools/grep.exe".to_string()));
    let back = Config::from_text(&c.to_text()).unwrap();
    assert_eq!(back.links().len(), 1);
    assert_eq!(back.links()[0].name, "grep");
    assert_eq!(back.links()[0].path, "C:/tools/grep.exe");
    assert_eq!(back.cmd_dir_str(), "C:/cmd");
}

#[test]
fn full_round_trip_sorts_groups_descending() {
    let c = sample();
    let back = Config::from_text(&c.to_text()).unwrap();
    assert_eq!(back.cmd_dir_str(), "cmd");
    assert_eq!(back.active_configs().len(), 1);
    assert_eq!(back.active_configs()[0].0, "java");
    assert_eq!(back.active_configs()[0].1, 20);
    let list = back.config_entrys_by_name(&"java".to_string()).unwrap();
    assert_eq!(list.len(), 2);
    assert_eq!(list[0].priority, 20);
    assert_eq!(list[0].base_path, "C:/jdk11");
    assert_eq!(list[1].priority, 10);
    assert_eq!(list[1].links.len(), 1);
    assert_eq!(list[1].links[0].name, "bin");
    assert!(back.is_active(&list[0]));
}

#[test]
fn several_active_entries_are_read() {
    let text = "cmd\na\n1\nb\n2\n\n\n";
    let c = Config::from_text(text).unwrap();
    assert_eq!(c.active_configs().len(), 2);
    assert_eq!(c.active_configs()[1].0, "b");
    assert_eq!(c.active_configs()[1].1, 2);
}

#[test]
fn empty_text_is_an_error() {
    assert!(matches!(Config::from_text(""), Err(ParseError::Empty)));
}

#[test]
fn bad_active_priority_is_an_error() {
    assert!(matches!(Config::from_text("cmd\njava\nten\n\n\n"), Err(ParseError::BadPriority)));
}

#[test]
fn bad_group_priority_is_an_error() {
    let text = "cmd\n\n\njava\nC:/jdk8\n-10\n\n\n\n";
    assert!(matches!(Config::from_text(text), Err(ParseError::BadPriority)));
}

#[test]
fn truncated_record_is_discarded() {
    let c = Config::from_text("cmd\n\n\njava\nC:/jdk8\n").unwrap();
    assert_eq!(c.config_entrys_by_name(&"java".to_string()).unwrap().len(), 0);
    let d = Config::from_text("cmd\n\nlonely").unwrap();
    assert_eq!(d.links().len(), 0);
}

#[test]
fn record_cut_at_end_is_discarded() {
    let c = Config::from_text("cmd\n\n\njava\nA\n3\n\nC:/jdk8\n8\nbin\nbin\njre").unwrap();
    let list = c.config_entrys_by_name(&"java".to_string()).unwrap();
    assert_eq!(list.len(), 1);
    assert_eq!(list[0].priority, 3);
    assert_eq!(list[0].base_path, "A");
}

#[test]
fn later_record_with_same_priority_wins() {
    let c = Config::from_text("cmd\n\n\njava\nA\n5\n\nB\n5\n\n\n\n").unwrap();
    let list = c.config_entrys_by_name(&"java".to_string()).unwrap();
    assert_eq!(list.len(), 1);
    assert_eq!(list[0].base_path, "B");
}

#[test]
fn lines_are_trimmed() {
    let c = Config::from_text("  cmd dir \r\n java \r\n 3 \r\n\r\n").unwrap();
    assert_eq!(c.cmd_dir_str(), "cmd dir");
    assert_eq!(c.active_configs()[0].0, "java");
    assert_eq!(c.active_configs()[0].1, 3);
}

#[test]
fn splitting_lines() {
    assert_eq!(lines_of("a\n b \n\nc"), vec!["a", "b", "", "c"]);
    assert_eq!(lines_of("a\n"), vec!["a"]);
    assert!(lines_of("").is_empty());
}

#[test]
fn reading_priorities() {
    assert_eq!(parse_priority("0"), Some(0));
    assert_eq!(parse_priority("+5"), Some(5));
    assert_eq!(parse_priority("18446744073709551615"), Some(u64::MAX));
    assert_eq!(parse_priority("18446744073709551616"), None);
    assert_eq!(parse_priority(""), None);
    assert_eq!(parse_priority("+"), None);
    assert_eq!(parse_priority("-1"), None);
    assert_eq!(parse_priority("1a"), None);
}

#[test]
fn writes_large_priorities() {
    let mut c = Config::new("d".to_string());
    c.set_active(&"x".to_string(), &u64::MAX);
    c.set_active(&"y".to_string(), &0);
    assert_eq!(c.to_text(), "d\nx\n18446744073709551615\ny\n0\n\n\n");
    let back = Config::from_text(&c.to_text()).unwrap();
    assert_eq!(back.active_configs()[0].1, u64::MAX);
}

#[test]
fn unicode_white_space_is_trimmed() {
    assert_eq!(lines_of("\u{a0}a\u{3000}\n\u{2009}b\u{85}"), vec!["a", "b"]);
    assert_eq!(lines_of("\u{200b}c"), vec!["\u{200b}c"]);
    let c = Config::from_text("\u{feff}x\n").unwrap();
    assert_eq!(c.cmd_dir_str(), "\u{feff}x");
}

#[test]
fn equal_stores_write_equal_text() {
    let mut a = Config::new("cmd".to_string());
    a.set_active(&"b".to_string(), &2);
    a.set_active(&"a".to_string(), &1);
    a.insert_config_entry(LinkGroup::new("zulu".to_string(), 1));
    a.insert_config_entry(LinkGroup::new("alpha".to_string(), 5));
    a.insert_config_entry(LinkGroup::new("alpha".to_string(), 9));
    let mut b = Config::new("cmd".to_string());
    b.insert_config_entry(LinkGroup::new("alpha".to_string(), 9));
    b.insert_config_entry(LinkGroup::new("alpha".to_string(), 5));
    b.insert_config_entry(LinkGroup::new("zulu".to_string(), 1));
    b.set_active(&"a".to_string(), &1);
    b.set_active(&"b".to_string(), &2);
    assert_eq!(a.to_text(), b.to_text());
    assert_eq!(
        a.to_text(),
        "cmd\na\n1\nb\n2\n\n\nalpha\n\n9\n\n\n5\n\n\n\nzulu\n\n1\n\n\n\n"
    );
}

#[test]
fn duplicate_link_names_in_text_keep_the_last() {
    let c = Config::from_text("cmd\n\ngrep\na\ngrep\nb\n\njava\nC:/jdk\n1\nx\n1\nx\n2\n\n\n\n").unwrap();
    assert_eq!(c.links().len(), 1);
    assert_eq!(c.links()[0].path, "b");
    let list = c.config_entrys_by_name(&"java".to_string()).unwrap();
    assert_eq!(list[0].links.len(), 1);
    assert_eq!(list[0].links[0].path, "2");
}
