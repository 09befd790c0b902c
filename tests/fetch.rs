use over::context::Context;
use over::fetch::{decide_fetch, failed_remotes, percent, repositories, CloneState, FetchAction};
use over::overlay::{Config, Overlay, Repository};
use over::{EnsureGitRepository, TargetError};

fn s(x: &str) -> String {
    String::from(x)
}

fn overlay(target: &str, git: Vec<(&str, &str)>) -> Overlay {
    let repo = Repository::new(s("/reg"));
    let mut c = Config::empty();
    c.target = Some(s(target));
    c.git = Some(git.into_iter().map(|(a, b)| (s(a), s(b))).collect());
    Overlay::new(&repo, "/reg/dev", vec![None, Some(c)]).unwrap()
}

fn ctx(force: bool) -> Context {
    Context::new(false, false, false, force, s("/home/ana"), Repository::new(s("/reg")), None)
}

#[test]
fn short_name_drops_path_and_git_suffix() {
    let r = EnsureGitRepository::new(s("/t/x"), s("https://github.com/u/tool.git"));
    assert_eq!(r.short_name(), "tool");
    let r = EnsureGitRepository::new(s("/t/x"), s("git@host:u/plain"));
    assert_eq!(r.short_name(), "plain");
    let r = EnsureGitRepository::new(s("/t/x"), s("name.git.git"));
    assert_eq!(r.short_name(), "name");
}

#[test]
fn repositories_sit_under_target() {
    let o = overlay("~", vec![("code/a", "https://x/a.git"), ("b", "https://x/b.git")]);
    let rs = repositories(&o, "/home/ana");
    assert_eq!(rs.len(), 2);
    assert_eq!(rs[0].path, "/home/ana/code/a");
    assert_eq!(rs[0].remote, "https://x/a.git");
    assert_eq!(rs[1].path, "/home/ana/b");
}

#[test]
fn existing_repository_is_skipped() {
    assert_eq!(decide_fetch(true, false), FetchAction::Skip);
    assert_eq!(decide_fetch(true, true), FetchAction::Skip);
    assert_eq!(decide_fetch(false, false), FetchAction::Clone);
    assert_eq!(decide_fetch(false, true), FetchAction::Report);
}

#[test]
fn percent_guards_zero_total() {
    assert_eq!(percent(5, 0), 0);
    assert_eq!(percent(1, 3), 33);
    assert_eq!(percent(7, 7), 100);
}

#[test]
fn bar_figures() {
    let mut st = CloneState::new();
    let b = st.update_bar();
    assert_eq!(b.network_pct, 0);
    assert!(b.resolving_deltas);
    st.stats.total_objects = 200;
    st.stats.received_objects = 50;
    st.stats.indexed_objects = 20;
    st.stats.received_bytes = 4096;
    st.progress.total = 4;
    st.progress.current = 1;
    let b = st.update_bar();
    assert_eq!(b.length, 200);
    assert_eq!(b.position, 20);
    assert_eq!(b.network_pct, 25);
    assert_eq!(b.index_pct, 10);
    assert_eq!(b.checkout_pct, 25);
    assert_eq!(b.kbytes, 4);
    assert!(!b.resolving_deltas);
}

#[test]
fn one_failed_clone_does_not_hide_the_others() {
    let o = overlay("~", vec![("a", "https://ok/a.git"), ("b", "https://unreachable/b.git"), ("c", "https://ok/c.git")]);
    let rs = repositories(&o, "/t");
    assert_eq!(failed_remotes(&rs, &vec![true, false, true]), vec![s("https://unreachable/b.git")]);
    assert!(failed_remotes(&rs, &vec![true, true, true]).is_empty());
}

#[test]
fn target_resolves_through_template() {
    let o = overlay("~", vec![]);
    assert_eq!(o.resolve_target(&ctx(false)).unwrap(), "/home/ana");
    let o = overlay("~/work", vec![]);
    assert_eq!(o.resolve_target(&ctx(false)).unwrap(), "/home/ana/work");
    let o = overlay("{% if force %}/forced{% else %}~/{{ overlay.name }}{% endif %}", vec![]);
    assert_eq!(o.resolve_target(&ctx(false)).unwrap(), "/home/ana/dev");
    assert_eq!(o.resolve_target(&ctx(true)).unwrap(), "/forced");
}

#[test]
fn broken_template_is_an_error() {
    let o = overlay("{% if %}", vec![]);
    assert_eq!(o.resolve_target(&ctx(false)), Err(TargetError::Template));
}

#[test]
fn child_context_keeps_settings() {
    let c = ctx(true);
    let o = overlay("~", vec![]);
    let child = c.with_overlay(o);
    assert!(child.force);
    assert_eq!(child.root, "/home/ana");
    assert_eq!(child.repository.root, "/reg");
    assert_eq!(child.overlay.unwrap().name, "dev");
}
