use over::overlay::{Config, Overlay, OverlayError, Repository};
use over::registry::path_less;

fn s(x: &str) -> String {
    String::from(x)
}

fn level(target: Option<&str>, git: Vec<(&str, &str)>) -> Option<Config> {
    let mut c = Config::empty();
    c.target = target.map(s);
    if !git.is_empty() {
        c.git = Some(git.into_iter().map(|(a, b)| (s(a), s(b))).collect());
    }
    Some(c)
}

#[test]
fn name_is_relative_path_and_target_defaults_to_home() {
    let repo = Repository::new(s("/reg"));
    let o = Overlay::new(&repo, "/reg/shell/zsh", vec![None, None, level(None, vec![])]).unwrap();
    assert_eq!(o.name, "shell/zsh");
    assert_eq!(o.root, "/reg/shell/zsh");
    assert_eq!(o.target, "~");
}

#[test]
fn descendant_descriptor_overrides_ancestor() {
    let repo = Repository::new(s("/reg"));
    let levels = vec![
        level(Some("~/base"), vec![("a", "https://x/a.git"), ("b", "https://x/b.git")]),
        level(Some("~/leaf"), vec![("b", "https://y/b.git"), ("c", "https://y/c.git")]),
    ];
    let o = Overlay::new(&repo, "/reg/leaf", levels).unwrap();
    assert_eq!(o.target, "~/leaf");
    let git = o.git.unwrap();
    assert_eq!(
        git,
        vec![
            (s("a"), s("https://x/a.git")),
            (s("b"), s("https://y/b.git")),
            (s("c"), s("https://y/c.git")),
        ]
    );
}

#[test]
fn ancestor_fields_are_inherited() {
    let repo = Repository::new(s("/reg"));
    let mut root_cfg = Config::empty();
    root_cfg.exclude = Some(vec![s("*.bak")]);
    root_cfg.description = Some(s("base"));
    let o = Overlay::new(&repo, "/reg/x", vec![Some(root_cfg), level(None, vec![])]).unwrap();
    assert_eq!(o.exclude, Some(vec![s("*.bak")]));
    assert_eq!(o.description, Some(s("base")));
}

#[test]
fn missing_leaf_descriptor_is_not_found() {
    let repo = Repository::new(s("/reg"));
    let r = Overlay::new(&repo, "/reg/x", vec![level(None, vec![]), None]);
    assert!(matches!(r, Err(OverlayError::NotFound)));
    let r = Overlay::new(&repo, "/reg/x", vec![]);
    assert!(matches!(r, Err(OverlayError::NotFound)));
}

#[test]
fn directory_outside_registry_is_refused() {
    let repo = Repository::new(s("/reg"));
    let r = Overlay::new(&repo, "/elsewhere/x", vec![level(None, vec![])]);
    assert!(matches!(r, Err(OverlayError::OutsideRegistry)));
}

#[test]
fn descriptor_dirs_run_from_registry_root_down() {
    let repo = Repository::new(s("/reg"));
    assert_eq!(repo.descriptor_dirs("/reg/a/b"), vec![s("/reg"), s("/reg/a"), s("/reg/a/b")]);
    assert_eq!(repo.descriptor_dirs("/reg"), vec![s("/reg")]);
    assert!(repo.descriptor_dirs("/other").is_empty());
}

#[test]
fn get_looks_up_by_name() {
    let repo = Repository::new(s("/reg"));
    assert_eq!(repo.overlay_root("dev/rust"), "/reg/dev/rust");
    let mut leaf = Config::empty();
    leaf.uses = Some(vec![s("base")]);
    leaf.description = Some(s("rust tools"));
    let o = repo
        .get("dev/rust", vec![level(Some("~/code"), vec![("r", "https://x/r.git")]), None, Some(leaf)])
        .unwrap();
    assert_eq!(o.name, "dev/rust");
    assert_eq!(o.target, "~/code");
    assert_eq!(o.uses, Some(vec![s("base")]));
    assert_eq!(o.description, Some(s("rust tools")));
    assert_eq!(o.git, Some(vec![(s("r"), s("https://x/r.git"))]));
}

#[test]
fn listing_keeps_only_leaf_overlays_in_path_order() {
    let repo = Repository::new(s("/reg"));
    let files = vec![
        s("/reg/b/over.yml"),
        s("/reg/a/over.toml"),
        s("/reg/a/inner/over.json"),
        s("/reg/a-b/over.yaml"),
        s("/reg/c/readme.md"),
        s("/reg/c/c2/over.yml"),
        s("/reg/c/c2/over.toml"),
    ];
    let listed = repo.overlays(&files).unwrap();
    assert_eq!(listed, vec![s("/reg/a/inner"), s("/reg/a-b"), s("/reg/b"), s("/reg/c/c2")]);
}

#[test]
fn hidden_overlay_is_still_reachable_by_name() {
    let repo = Repository::new(s("/reg"));
    let files = vec![s("/reg/a/over.yml"), s("/reg/a/inner/over.yml")];
    assert_eq!(repo.overlays(&files).unwrap(), vec![s("/reg/a/inner")]);
    let o = repo.get("a", vec![None, level(None, vec![])]).unwrap();
    assert_eq!(o.name, "a");
}

#[test]
fn separator_sorts_first() {
    assert!(path_less("/a/x", "/a-b"));
    assert!(!path_less("/a-b", "/a/x"));
    assert!(path_less("/a", "/a/x"));
    assert!(!path_less("/a", "/a"));
}
