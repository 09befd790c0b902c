use over::glob::{matches_any, GlobError};
use over::mirror::{
    confirm_overwrite, decide_dir, decide_link, exclusions, link, Conflict, DirAction, EntryKind,
    LinkAction, SourceEntry, Step, TargetState,
};
use over::overlay::{Config, Overlay, Repository};
use over::pattern;

fn s(x: &str) -> String {
    String::from(x)
}

fn overlay(exclude: Option<Vec<&str>>) -> Overlay {
    let repo = Repository::new(s("/reg"));
    let mut c = Config::empty();
    c.exclude = exclude.map(|v| v.into_iter().map(s).collect());
    Overlay::new(&repo, "/reg/dots", vec![None, Some(c)]).unwrap()
}

fn entry(rel: &str, kind: EntryKind) -> SourceEntry {
    SourceEntry { rel: s(rel), kind }
}

fn describe(steps: &[Step]) -> Vec<String> {
    steps
        .iter()
        .map(|st| match st {
            Step::Dir(d) => format!("dir {}", d.path),
            Step::Link(l) => format!("link {} -> {}", l.target, l.source),
        })
        .collect()
}

#[test]
fn descriptor_pattern_text() {
    assert_eq!(pattern(), "**/over.{yml,yaml,toml,json}");
}

#[test]
fn descriptor_pattern_matches_every_extension() {
    let ps = vec![pattern()];
    for ext in ["yml", "yaml", "toml", "json"] {
        assert_eq!(matches_any(&ps, &format!("/reg/dots/over.{}", ext)), Some(true));
    }
    assert_eq!(matches_any(&ps, "/reg/dots/over.txt"), Some(false));
    assert_eq!(matches_any(&ps, "over.yml"), Some(true));
    assert_eq!(matches_any(&ps, "a/b/over.json"), Some(true));
    assert_eq!(matches_any(&ps, "/reg/dots/cover.yml"), Some(false));
}

#[test]
fn plan_mirrors_dirs_and_links_files_without_descriptors() {
    let o = overlay(None);
    let entries = vec![
        entry("over.yml", EntryKind::File),
        entry(".config", EntryKind::Dir),
        entry(".config/app.toml", EntryKind::File),
        entry(".config/over.json", EntryKind::File),
        entry("dangling", EntryKind::Other),
    ];
    let steps = link(&o, "/home/ana", &entries).unwrap();
    assert_eq!(
        describe(&steps),
        vec![
            s("dir /home/ana/.config"),
            s("link /home/ana/.config/app.toml -> /reg/dots/.config/app.toml"),
            s("link /home/ana/dangling -> /reg/dots/dangling"),
        ]
    );
}

#[test]
fn plan_skips_overlay_exclusions() {
    let o = overlay(Some(vec!["**/*.bak"]));
    assert_eq!(exclusions(&o), vec![pattern(), s("**/*.bak")]);
    let entries = vec![entry("a.bak", EntryKind::File), entry("a", EntryKind::File)];
    let steps = link(&o, "/t", &entries).unwrap();
    assert_eq!(describe(&steps), vec![s("link /t/a -> /reg/dots/a")]);
}

#[test]
fn invalid_exclusion_pattern_fails() {
    let o = overlay(Some(vec!["a[b"]));
    let entries = vec![entry("a", EntryKind::File)];
    assert!(matches!(link(&o, "/t", &entries), Err(GlobError::InvalidPattern)));
}

#[test]
fn pattern_too_deep_to_compile_fails_without_panic() {
    let deep = format!("{}{}", "{a".repeat(400), "}".repeat(400));
    let o = overlay(Some(vec![deep.as_str()]));
    let entries = vec![entry("a", EntryKind::File)];
    assert!(matches!(link(&o, "/t", &entries), Err(GlobError::InvalidPattern)));
}

#[test]
fn missing_target_gets_a_link() {
    assert_eq!(decide_link(&TargetState::Missing, "/src/a", false), LinkAction::Create);
}

#[test]
fn link_to_same_source_is_kept() {
    let st = TargetState::Symlink(s("/src/a"));
    assert_eq!(decide_link(&st, "/src/a", false), LinkAction::Keep);
    assert_eq!(decide_link(&st, "/src/a", true), LinkAction::Keep);
}

#[test]
fn link_to_other_source_asks_unless_forced() {
    let st = TargetState::Symlink(s("/old/a"));
    assert_eq!(decide_link(&st, "/src/a", false), LinkAction::Confirm);
    assert_eq!(decide_link(&st, "/src/a", true), LinkAction::Replace);
    assert_eq!(confirm_overwrite(true), LinkAction::Replace);
    assert_eq!(confirm_overwrite(false), LinkAction::Refuse(Conflict::LinkExists));
}

#[test]
fn regular_file_is_never_replaced() {
    assert_eq!(decide_link(&TargetState::File, "/src/a", false), LinkAction::Refuse(Conflict::FileExists));
    assert_eq!(decide_link(&TargetState::File, "/src/a", true), LinkAction::Refuse(Conflict::FileExists));
}

#[test]
fn directory_where_link_belongs_is_refused() {
    assert_eq!(decide_link(&TargetState::Dir, "/src/a", true), LinkAction::Refuse(Conflict::IsDirectory));
}

#[test]
fn directory_steps() {
    assert_eq!(decide_dir(&TargetState::Missing), DirAction::Create);
    assert_eq!(decide_dir(&TargetState::Dir), DirAction::Keep);
    assert_eq!(decide_dir(&TargetState::File), DirAction::Refuse(Conflict::FileExists));
    assert_eq!(decide_dir(&TargetState::Symlink(s("/x"))), DirAction::Refuse(Conflict::LinkExists));
}

#[test]
fn link_to_a_directory_serves_a_directory_step() {
    assert_eq!(decide_dir(&TargetState::DirSymlink(s("/elsewhere/.config"))), DirAction::Keep);
    let st = TargetState::DirSymlink(s("/src/d"));
    assert_eq!(decide_link(&st, "/src/d", false), LinkAction::Keep);
    assert_eq!(decide_link(&st, "/src/e", false), LinkAction::Confirm);
}

#[test]
fn exclusions_match_paths_relative_to_the_overlay() {
    let o = overlay(Some(vec!["*.md"]));
    let entries = vec![
        entry("README.md", EntryKind::File),
        entry("docs", EntryKind::Dir),
        entry("docs/notes.md", EntryKind::File),
        entry("sub/over.toml", EntryKind::File),
    ];
    let steps = link(&o, "/t", &entries).unwrap();
    assert_eq!(
        describe(&steps),
        vec![s("dir /t/docs"), s("link /t/docs/notes.md -> /reg/dots/docs/notes.md")]
    );
}

#[test]
fn second_run_keeps_everything() {
    let o = overlay(None);
    let entries = vec![entry("d", EntryKind::Dir), entry("d/f", EntryKind::File)];
    let steps = link(&o, "/t", &entries).unwrap();
    for st in &steps {
        match st {
            Step::Dir(_) => assert_eq!(decide_dir(&TargetState::Dir), DirAction::Keep),
            Step::Link(l) => assert_eq!(
                decide_link(&TargetState::Symlink(l.source.clone()), &l.source, false),
                LinkAction::Keep
            ),
        }
    }
}
