use pman::group::LinkGroup;
use pman::link::Link;
use pman::plan::{forwarding_script, join_path, Action};
use pman::store::Config;

fn one_link_group(link: &str, target: &str) -> LinkGroup {
    let mut g = LinkGroup::new("java".to_string(), 11);
    g.set_base_path("C:/jdk11".to_string());
    g.add_link(Link::new(link.to_string(), target.to_string()));
    g
}

#[test]
fn directory_target_becomes_symlink() {
    let g = one_link_group("jdk", "C:/jdk11");
    let on = g.activate("C:/cmd", &vec![true]);
    assert_eq!(
        on,
        vec![Action::Symlink { link_path: "C:/cmd/jdk".to_string(), target: "C:/jdk11".to_string() }]
    );
    let off = g.deactivate("C:/cmd", &vec![true]);
    assert_eq!(off, vec![Action::RemoveSymlink { link_path: "C:/cmd/jdk".to_string() }]);
}

#[test]
fn file_target_becomes_forwarding_script() {
    let g = one_link_group("java", "bin/java.exe");
    let on = g.activate("C:/cmd", &vec![false]);
    assert_eq!(
        on,
        vec![Action::WriteScript {
            link_path: "C:/cmd/java.bat".to_string(),
            content: "@\"C:/jdk11/bin/java.exe\" %*".to_string(),
        }]
    );
    let off = g.deactivate("C:/cmd", &vec![false]);
    assert_eq!(off, vec![Action::RemoveFile { link_path: "C:/cmd/java.bat".to_string() }]);
}

#[test]
fn activating_twice_plans_the_same() {
    let g = one_link_group("java", "bin/java.exe");
    assert_eq!(g.activate("cmd", &vec![false]), g.activate("cmd", &vec![false]));
}

#[test]
fn resolving_paths() {
    assert_eq!(join_path("C:/jdk8", "bin/java.exe"), "C:/jdk8/bin/java.exe");
    assert_eq!(join_path("C:/jdk8/", "bin"), "C:/jdk8/bin");
    assert_eq!(join_path("C:\\jdk8\\", "bin"), "C:\\jdk8\\bin");
    assert_eq!(join_path("C:/jdk8", "D:/tools"), "D:/tools");
    assert_eq!(join_path("C:/jdk8", "/usr/bin"), "/usr/bin");
    assert_eq!(join_path("C:/jdk8", "\\share"), "\\share");
    assert_eq!(join_path("", "bin"), "bin");
    assert_eq!(join_path("base", "C:rel"), "base/C:rel");
}

#[test]
fn link_paths_and_targets() {
    let l = Link::new("grep".to_string(), "grep.exe".to_string());
    assert_eq!(l.resolve_target("C:/tools"), "C:/tools/grep.exe");
    let (file, target) = l.rel_link("C:/cmd", "C:/tools", false);
    assert_eq!(file, "C:/cmd/grep.bat");
    assert_eq!(target, "C:/tools/grep.exe");
    let (dir, _) = l.rel_link("C:/cmd", "C:/tools", true);
    assert_eq!(dir, "C:/cmd/grep");
    assert_eq!(
        l.create_link("C:/cmd", "C:/tools", true),
        Action::Symlink { link_path: "C:/cmd/grep".to_string(), target: "C:/tools/grep.exe".to_string() }
    );
    assert_eq!(
        l.remove_link("C:/cmd", "C:/tools", false),
        Action::RemoveFile { link_path: "C:/cmd/grep.bat".to_string() }
    );
}

#[test]
fn script_text() {
    assert_eq!(forwarding_script("C:/tools/grep.exe"), "@\"C:/tools/grep.exe\" %*");
}

#[test]
fn command_dir_and_config_path() {
    let rel = Config::new("links".to_string());
    assert_eq!(rel.cmd_dir("C:/pman"), "C:/pman/links");
    let abs = Config::new("D:/links".to_string());
    assert_eq!(abs.cmd_dir("C:/pman"), "D:/links");
    assert_eq!(Config::cfg_path("C:/pman", "pman"), "C:/pman/.pman");
}
