use over::adopt::{absolute, add_file, AddError};
use over::overlay::{Overlay, Repository};
use over::overlay::parent;
use over::paths::{expand_target, join, strip_root};

fn overlay_at(root: &str) -> Overlay {
    let repo = Repository::new(String::from("/reg"));
    let mut cfg = over::Config::empty();
    cfg.target = Some(String::from("~"));
    Overlay::new(&repo, root, vec![Some(cfg)]).unwrap()
}

#[test]
fn tilde_is_home() {
    assert_eq!(expand_target("~", "/home/ana"), "/home/ana");
}

#[test]
fn tilde_slash_joins_home() {
    assert_eq!(expand_target("~/work", "/home/ana"), "/home/ana/work");
}

#[test]
fn tilde_under_root_home_has_one_separator() {
    assert_eq!(expand_target("~/work", "/"), "/work");
    assert_eq!(expand_target("~", "/"), "/");
}

#[test]
fn other_targets_stand_as_they_are() {
    assert_eq!(expand_target("/etc/app", "/home/ana"), "/etc/app");
    assert_eq!(expand_target("rel/dir", "/home/ana"), "rel/dir");
    assert_eq!(expand_target("~ana", "/home/ana"), "~ana");
}

#[test]
fn join_adds_one_separator() {
    assert_eq!(join("/a", "b"), "/a/b");
    assert_eq!(join("/a/", "b"), "/a/b");
    assert_eq!(join("/a", ""), "/a");
    assert_eq!(join("", "b"), "b");
}

#[test]
fn strip_root_by_components() {
    assert_eq!(strip_root("/a", "/a/b/c"), Some(String::from("b/c")));
    assert_eq!(strip_root("/a", "/a"), Some(String::new()));
    assert_eq!(strip_root("/a", "/ab/c"), None);
    assert_eq!(strip_root("/", "/x"), Some(String::from("x")));
}

#[test]
fn parent_directories() {
    assert_eq!(parent("/a/b/over.yml"), "/a/b");
    assert_eq!(parent("/a"), "/");
    assert_eq!(parent("a"), "");
}

#[test]
fn absolute_paths() {
    assert_eq!(absolute("/cwd", "f.txt"), "/cwd/f.txt");
    assert_eq!(absolute("/cwd", "/x/f.txt"), "/x/f.txt");
}

#[test]
fn add_file_moves_then_links_back() {
    let o = overlay_at("/reg/dots");
    let (m, l) = add_file(&o, "/home/ana", "/home/ana/.config/app.toml").unwrap();
    assert_eq!(m.src, "/home/ana/.config/app.toml");
    assert_eq!(m.dst, "/reg/dots/.config/app.toml");
    assert_eq!(l.source, "/reg/dots/.config/app.toml");
    assert_eq!(l.target, "/home/ana/.config/app.toml");
}

#[test]
fn add_file_outside_target_fails() {
    let o = overlay_at("/reg/dots");
    assert!(matches!(add_file(&o, "/home/ana", "/tmp/x"), Err(AddError::NotIncluded)));
}

#[test]
fn short_path_replaces_home() {
    assert_eq!(over::paths::short_path("/home/ana/.zshrc", "/home/ana"), "~/.zshrc");
    assert_eq!(over::paths::short_path("/etc/hosts", "/home/ana"), "/etc/hosts");
}
