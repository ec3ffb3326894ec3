use pman::group::LinkGroup;
use pman::link::Link;
use pman::store::Config;

fn group(name: &str, priority: u64, base: &str) -> LinkGroup {
    let mut g = LinkGroup::new(name.to_string(), priority);
    g.set_base_path(base.to_string());
    g
}

fn java_store() -> Config {
    let mut c = Config::new("cmd".to_string());
    assert!(c.insert_config_entry(group("java", 10, "C:/jdk8")));
    assert!(c.insert_config_entry(group("java", 20, "C:/jdk11")));
    c
}

#[test]
fn duplicate_group_is_refused_without_change() {
    let mut c = java_store();
    assert!(!c.insert_config_entry(group("java", 10, "D:/other")));
    let list = c.config_entrys_by_name(&"java".to_string()).unwrap();
    assert_eq!(list.len(), 2);
    assert_eq!(list[0].base_path, "C:/jdk11");
    assert_eq!(list[1].base_path, "C:/jdk8");
    assert_eq!(c.config_map().len(), 1);
}

#[test]
fn add_config_entry_also_refuses_duplicates() {
    let mut c = Config::new(String::new());
    assert!(c.add_config_entry(group("node", 1, "a")));
    assert!(!c.add_config_entry(group("node", 1, "b")));
    assert!(c.add_config_entry(group("node", 2, "b")));
    assert_eq!(c.config_entrys_by_name(&"node".to_string()).unwrap().len(), 2);
}

#[test]
fn resolver_scenario_java() {
    let c = java_store();
    let java = "java".to_string();
    let g = c.select_closest_group(&java, 15).unwrap();
    assert_eq!(g.priority, 20);
    assert_eq!(g.base_path, "C:/jdk11");
    assert!(c.select_closest_group(&java, 25).is_none());
    let h = c.select_highest_group(&java).unwrap();
    assert_eq!(h.priority, 20);
    assert_eq!(h.base_path, "C:/jdk11");
}

#[test]
fn closest_picks_smallest_at_or_above() {
    let mut c = Config::new(String::new());
    for p in [50u64, 5, 30, 12] {
        assert!(c.insert_config_entry(group("py", p, "x")));
    }
    let py = "py".to_string();
    assert_eq!(c.select_closest_group(&py, 0).unwrap().priority, 5);
    assert_eq!(c.select_closest_group(&py, 12).unwrap().priority, 12);
    assert_eq!(c.select_closest_group(&py, 13).unwrap().priority, 30);
    assert_eq!(c.select_closest_group(&py, 50).unwrap().priority, 50);
    assert!(c.select_closest_group(&py, 51).is_none());
    assert_eq!(c.select_highest_group(&py).unwrap().priority, 50);
}

#[test]
fn resolver_on_unknown_or_empty_name() {
    let mut c = java_store();
    let rust = "rust".to_string();
    assert!(c.select_highest_group(&rust).is_none());
    assert!(c.select_closest_group(&rust, 0).is_none());
    assert!(c.select_group(&rust, 0).is_none());
    assert!(c.config_entrys_by_name(&rust).is_none());
    let java = "java".to_string();
    assert!(c.remove_config_entry(&java, 10));
    assert!(c.remove_config_entry(&java, 20));
    assert!(c.select_highest_group(&java).is_none());
    assert_eq!(c.config_entrys_by_name(&java).unwrap().len(), 0);
}

#[test]
fn exact_selection() {
    let c = java_store();
    let java = "java".to_string();
    assert_eq!(c.select_group(&java, 10).unwrap().base_path, "C:/jdk8");
    assert!(c.select_group(&java, 15).is_none());
}

#[test]
fn signed_selection() {
    let c = java_store();
    let java = "java".to_string();
    assert_eq!(c.select_best(&java, &-1).unwrap().priority, 20);
    assert_eq!(c.select_best(&java, &0).unwrap().priority, 10);
    assert_eq!(c.select_best(&java, &11).unwrap().priority, 20);
    assert!(c.select_best(&java, &21).is_none());
}

#[test]
fn remove_group() {
    let mut c = java_store();
    let java = "java".to_string();
    assert!(!c.remove_config_entry(&java, 15));
    assert!(c.remove_config_entry(&java, 10));
    assert!(!c.remove_config_entry(&java, 10));
    assert!(!c.remove_config_entry(&"none".to_string(), 10));
    let list = c.config_entrys_by_name(&java).unwrap();
    assert_eq!(list.len(), 1);
    assert_eq!(list[0].priority, 20);
}

#[test]
fn set_active_keeps_one_priority_per_name() {
    let mut c = java_store();
    let java = "java".to_string();
    c.set_active(&java, &10);
    c.set_active(&java, &20);
    c.set_active(&"node".to_string(), &3);
    c.set_active(&java, &10);
    assert_eq!(c.active_configs().len(), 2);
    let n = c.active_configs().iter().filter(|(k, _)| *k == "java").count();
    assert_eq!(n, 1);
    let active = c.active_config_entry(&java).unwrap();
    assert_eq!(active.priority, 10);
    assert!(c.is_active(&group("java", 10, "")));
    assert!(!c.is_active(&group("java", 20, "")));
    assert!(c.active_config_entry(&"node".to_string()).is_none());
}

#[test]
fn active_entry_of_unknown_name() {
    let c = java_store();
    assert!(c.active_config_entry(&"java".to_string()).is_none());
    assert!(!c.is_active(&group("java", 10, "")));
}

#[test]
fn standalone_links() {
    let mut c = Config::new("cmd".to_string());
    let grep = "grep".to_string();
    assert!(!c.has_link(&grep));
    assert!(c.get_link(&grep).is_none());
    c.add_link(Link::new("grep".to_string(), "C:/tools/grep.exe".to_string()));
    c.add_link(Link::new("sed".to_string(), "C:/tools/sed.exe".to_string()));
    c.add_link(Link::new("grep".to_string(), "D:/grep.exe".to_string()));
    assert_eq!(c.links().len(), 2);
    assert_eq!(c.get_link(&grep).unwrap().path, "D:/grep.exe");
    c.add_link(Link::new("grep".to_string(), "C:/tools/grep.exe".to_string()));
    assert!(c.has_link(&grep));
    assert_eq!(c.get_link(&grep).unwrap().path, "C:/tools/grep.exe");
    assert!(c.remove_link(&grep));
    assert!(!c.remove_link(&grep));
    assert_eq!(c.links().len(), 1);
    assert_eq!(c.links()[0].name, "sed");
}

#[test]
fn command_dir_string() {
    let mut c = Config::new("a".to_string());
    assert_eq!(c.cmd_dir_str(), "a");
    c.set_cmd_dir_str("b".to_string());
    assert_eq!(c.cmd_dir_str(), "b");
}

#[test]
fn group_links_replace_by_name() {
    let mut g = LinkGroup::new("java".to_string(), 1);
    assert!(!g.add_link(Link::new("java".to_string(), "bin/java.exe".to_string())));
    assert!(!g.add_link(Link::new("javac".to_string(), "bin/javac.exe".to_string())));
    assert!(g.add_link(Link::new("java".to_string(), "jre/bin/java.exe".to_string())));
    assert_eq!(g.links.len(), 2);
    assert_eq!(g.get_link(&"java".to_string()).unwrap().path, "jre/bin/java.exe");
    assert!(g.remove_link(&"javac".to_string()));
    assert!(!g.remove_link(&"javac".to_string()));
    assert!(g.get_link(&"javac".to_string()).is_none());
    g.set_links(Vec::new());
    assert!(g.links.is_empty());
}

#[test]
fn clones_are_equal() {
    let mut g = group("java", 7, "C:/jdk");
    g.add_link(Link::new("java".to_string(), "bin/java.exe".to_string()));
    let h = g.clone();
    assert_eq!(h.name, g.name);
    assert_eq!(h.priority, 7);
    assert_eq!(h.base_path, "C:/jdk");
    assert_eq!(h.links.len(), 1);
    assert_eq!(h.links[0].path, "bin/java.exe");
}

#[test]
fn lists_and_names_are_kept_in_order() {
    let mut c = Config::new(String::new());
    for (n, p) in [("m", 3u64), ("c", 1), ("m", 9), ("x", 2), ("m", 5)] {
        assert!(c.insert_config_entry(group(n, p, "")));
    }
    let names: Vec<&str> = c.config_map().iter().map(|(n, _)| n.as_str()).collect();
    assert_eq!(names, vec!["c", "m", "x"]);
    let prios: Vec<u64> = c.config_entrys_by_name(&"m".to_string()).unwrap().iter().map(|g| g.priority).collect();
    assert_eq!(prios, vec![9, 5, 3]);
    c.set_active(&"x".to_string(), &2);
    c.set_active(&"c".to_string(), &1);
    assert_eq!(c.active_configs()[0].0, "c");
}

#[test]
fn removing_the_active_group_clears_it() {
    let mut c = java_store();
    let java = "java".to_string();
    c.set_active(&java, &10);
    assert!(c.remove_config_entry(&java, 20));
    assert!(c.is_active(&group("java", 10, "")));
    assert!(c.remove_config_entry(&java, 10));
    assert!(c.active_configs().is_empty());
}

#[test]
fn removing_the_active_group_falls_back_to_highest() {
    let mut c = java_store();
    assert!(c.insert_config_entry(group("java", 5, "C:/jdk6")));
    let java = "java".to_string();
    c.set_active(&java, &20);
    let (removed, next) = c.remove_group(&java, 20);
    assert!(removed);
    assert_eq!(next.unwrap().priority, 10);
    assert!(c.is_active(&group("java", 10, "")));
    let (removed, next) = c.remove_group(&java, 5);
    assert!(removed);
    assert!(next.is_none());
    assert!(c.is_active(&group("java", 10, "")));
    let (removed, next) = c.remove_group(&java, 10);
    assert!(removed && next.is_none());
    assert!(c.active_configs().is_empty());
    let (removed, next) = c.remove_group(&java, 10);
    assert!(!removed && next.is_none());
}

#[test]
fn group_get_after_add_returns_it() {
    let mut g = LinkGroup::new("java".to_string(), 1);
    g.add_link(Link::new("java".to_string(), "a".to_string()));
    g.add_link(Link::new("javac".to_string(), "b".to_string()));
    g.add_link(Link::new("java".to_string(), "c".to_string()));
    assert_eq!(g.links.len(), 2);
    assert_eq!(g.get_link(&"java".to_string()).unwrap().path, "c");
}
