use std::collections::HashMap;

use over::compose::{application_order, next_to_load, ComposeError};
use over::mirror::{decide_dir, decide_link, drop_overridden, link, DirAction, EntryKind, LinkAction, SourceEntry, Step, TargetState};
use over::overlay::{Config, Overlay, Repository};

fn s(x: &str) -> String {
    String::from(x)
}

fn node(name: &str, uses: &[&str]) -> (String, Vec<String>) {
    (s(name), uses.iter().map(|u| s(u)).collect())
}

#[test]
fn used_overlays_come_first_in_order() {
    let g = vec![node("c", &["a", "b"]), node("a", &[]), node("b", &[])];
    assert_eq!(application_order(&s("c"), &g).unwrap(), vec![s("a"), s("b"), s("c")]);
}

#[test]
fn nested_uses_are_applied_depth_first_once() {
    let g = vec![
        node("c", &["a", "b"]),
        node("a", &["d"]),
        node("b", &["d"]),
        node("d", &[]),
    ];
    assert_eq!(application_order(&s("c"), &g).unwrap(), vec![s("d"), s("a"), s("b"), s("c")]);
}

#[test]
fn cycle_is_an_error() {
    let g = vec![node("a", &["b"]), node("b", &["a"])];
    assert_eq!(application_order(&s("a"), &g), Err(ComposeError::Cycle));
    let g = vec![node("a", &["a"])];
    assert_eq!(application_order(&s("a"), &g), Err(ComposeError::Cycle));
}

#[test]
fn unknown_use_is_not_found() {
    let g = vec![node("a", &["zz"])];
    assert_eq!(application_order(&s("a"), &g), Err(ComposeError::NotFound));
    assert_eq!(application_order(&s("q"), &g), Err(ComposeError::NotFound));
}

#[test]
fn loading_follows_uses() {
    let mut g: Vec<(String, Vec<String>)> = Vec::new();
    assert_eq!(next_to_load(&s("c"), &g), Some(s("c")));
    g.push(node("c", &["a", "b"]));
    assert_eq!(next_to_load(&s("c"), &g), Some(s("a")));
    g.push(node("a", &[]));
    assert_eq!(next_to_load(&s("c"), &g), Some(s("b")));
    g.push(node("b", &[]));
    assert_eq!(next_to_load(&s("c"), &g), None);
}

fn overlay_using(name: &str, uses: &[&str]) -> Overlay {
    let repo = Repository::new(s("/reg"));
    let mut c = Config::empty();
    c.uses = Some(uses.iter().map(|u| s(u)).collect());
    Overlay::new(&repo, &format!("/reg/{}", name), vec![None, Some(c)]).unwrap()
}

#[test]
fn last_applied_overlay_wins_at_a_shared_path() {
    let a = overlay_using("a", &[]);
    let b = overlay_using("b", &[]);
    let c = overlay_using("c", &["a", "b"]);
    let g = vec![node("c", &["a", "b"]), node("a", &[]), node("b", &[])];
    let order = application_order(&s("c"), &g).unwrap();
    assert_eq!(order.last(), Some(&s("c")));
    let by_name: HashMap<String, &Overlay> = [(s("a"), &a), (s("b"), &b), (s("c"), &c)].into_iter().collect();
    let entries = |name: &str| -> Vec<SourceEntry> {
        let mut v = vec![SourceEntry { rel: s("shared.conf"), kind: EntryKind::File }];
        v.push(SourceEntry { rel: format!("{}.only", name), kind: EntryKind::File });
        v
    };
    let mut tree: HashMap<String, TargetState> = HashMap::new();
    for n in &order {
        let o = by_name[n];
        for step in link(o, "/t", &entries(n)).unwrap() {
            match step {
                Step::Dir(d) => {
                    let st = tree.get(&d.path).map(clone_state).unwrap_or(TargetState::Missing);
                    if decide_dir(&st) == DirAction::Create {
                        tree.insert(d.path, TargetState::Dir);
                    }
                }
                Step::Link(l) => {
                    let st = tree.get(&l.target).map(clone_state).unwrap_or(TargetState::Missing);
                    match decide_link(&st, &l.source, true) {
                        LinkAction::Create | LinkAction::Replace => {
                            tree.insert(l.target, TargetState::Symlink(l.source));
                        }
                        LinkAction::Keep => {}
                        other => panic!("unexpected {:?}", other),
                    }
                }
            }
        }
    }
    assert!(matches!(&tree["/t/shared.conf"], TargetState::Symlink(src) if src == "/reg/c/shared.conf"));
    assert!(matches!(&tree["/t/a.only"], TargetState::Symlink(src) if src == "/reg/a/a.only"));
}

fn clone_state(t: &TargetState) -> TargetState {
    match t {
        TargetState::Missing => TargetState::Missing,
        TargetState::Dir => TargetState::Dir,
        TargetState::File => TargetState::File,
        TargetState::Symlink(x) => TargetState::Symlink(x.clone()),
        TargetState::DirSymlink(x) => TargetState::DirSymlink(x.clone()),
    }
}

#[test]
fn later_overlay_takes_a_shared_path_without_question() {
    let a = overlay_using("a", &[]);
    let c = overlay_using("c", &["a"]);
    let ea = vec![
        SourceEntry { rel: s("d"), kind: EntryKind::Dir },
        SourceEntry { rel: s("d/x"), kind: EntryKind::File },
        SourceEntry { rel: s("a.only"), kind: EntryKind::File },
    ];
    let ec = vec![SourceEntry { rel: s("d"), kind: EntryKind::Dir }, SourceEntry { rel: s("d/x"), kind: EntryKind::File }];
    let mut tagged: Vec<(usize, Step)> = link(&a, "/t", &ea).unwrap().into_iter().map(|st| (0, st)).collect();
    tagged.extend(link(&c, "/t", &ec).unwrap().into_iter().map(|st| (1, st)));
    let kept = drop_overridden(tagged);
    let shown: Vec<String> = kept
        .iter()
        .map(|(k, st)| match st {
            Step::Dir(d) => format!("{} dir {}", k, d.path),
            Step::Link(l) => format!("{} link {} -> {}", k, l.target, l.source),
        })
        .collect();
    assert_eq!(
        shown,
        vec![
            s("0 dir /t/d"),
            s("0 link /t/a.only -> /reg/a/a.only"),
            s("1 dir /t/d"),
            s("1 link /t/d/x -> /reg/c/d/x"),
        ]
    );
}
