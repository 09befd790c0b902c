//! Fetching an overlay's repositories: one clone per declared entry, what
//! to do for each, the progress figures of a clone, and the failures to
//! report once every clone has finished.
use vstd::prelude::*;
use crate::mirror::{Node, node_at};
use crate::overlay::{Overlay, last_sep, opt_vec, unique_opt};
use crate::paths::{join, join_spec};

verus! {

/// A repository that must exist at `path`, cloned from `remote`.
#[derive(Clone, Debug)]
pub struct EnsureGitRepository {
    pub path: String,
    pub remote: String,
}

/// What to do for one repository.
#[derive(Clone, Copy, Debug, PartialEq, Eq, Structural)]
pub enum FetchAction {
    /// Something is at the path already: it stands for the repository.
    Skip,
    /// Clone the repository.
    Clone,
    /// A dry run: report the clone without making it.
    Report,
}

/// The last segment of a remote, after its last separator.
pub open spec fn last_segment(s: Seq<char>) -> Seq<char> {
    s.skip(last_sep(s) + 1)
}

/// `s` without any number of trailing `.git`.
pub open spec fn trim_git(s: Seq<char>) -> Seq<char>
    decreases s.len(),
{
    if s.len() >= 4 && s.subrange(s.len() - 4, s.len() as int) == seq!['.', 'g', 'i', 't'] {
        trim_git(s.take(s.len() - 4))
    } else {
        s
    }
}

/// The decision for one repository.
pub open spec fn fetch_action_spec(exists: bool, dry_run: bool) -> FetchAction {
    if exists {
        FetchAction::Skip
    } else if dry_run {
        FetchAction::Report
    } else {
        FetchAction::Clone
    }
}

/// `100 * part / whole`, and 0 where `whole` is 0.
pub open spec fn percent_spec(part: int, whole: int) -> int {
    if whole == 0 {
        0
    } else {
        100 * part / whole
    }
}

impl EnsureGitRepository {
    pub fn new(path: String, remote: String) -> (r: EnsureGitRepository)
        ensures
            r.path == path,
            r.remote == remote,
    {
        EnsureGitRepository { path, remote }
    }

    /// The short name of the repository: the last segment of its remote,
    /// without a trailing `.git`.
    pub fn short_name(&self) -> (r: String)
        ensures
            r@ == trim_git(last_segment(self.remote@)),
    {
        let s = self.remote.as_str();
        let n = s.unicode_len();
        let mut i: usize = n;
        assert(s@.take(n as int) =~= s@);
        while i > 0 && s.get_char(i - 1) != '/'
            invariant
                i <= n,
                n == s@.len(),
                last_sep(s@) == last_sep(s@.take(i as int)),
            decreases i,
        {
            assert(s@.take(i as int).drop_last() =~= s@.take(i - 1));
            i = i - 1;
        }
        proof {
            if i > 0 {
                assert(s@.take(i as int).last() == '/');
            }
        }
        let seg = s.substring_char(i, n);
        assert(seg@ =~= last_segment(s@));
        let mut end: usize = seg.unicode_len();
        assert(seg@.take(end as int) =~= seg@);
        while end >= 4 && seg.get_char(end - 4) == '.' && seg.get_char(end - 3) == 'g' && seg.get_char(
            end - 2,
        ) == 'i' && seg.get_char(end - 1) == 't'
            invariant
                end <= seg@.len(),
                trim_git(seg@) == trim_git(seg@.take(end as int)),
            decreases end,
        {
            let ghost t = seg@.take(end as int);
            assert(t.subrange(t.len() - 4, t.len() as int) =~= seq!['.', 'g', 'i', 't']);
            assert(t.take(t.len() - 4) =~= seg@.take(end - 4));
            end = end - 4;
        }
        let ghost t = seg@.take(end as int);
        if end >= 4 {
            assert(t.subrange(t.len() - 4, t.len() as int) != seq!['.', 'g', 'i', 't']) by {
                let q = t.subrange(t.len() - 4, t.len() as int);
                if q == seq!['.', 'g', 'i', 't'] {
                    assert(q[0] == seg@[end - 4]);
                    assert(q[1] == seg@[end - 3]);
                    assert(q[2] == seg@[end - 2]);
                    assert(q[3] == seg@[end - 1]);
                }
            }
        }
        let r = seg.substring_char(0, end).to_owned();
        assert(r@ =~= t);
        r
    }
}

/// The repositories that `overlay` declares, each under `target_root`.
pub fn repositories(overlay: &Overlay, target_root: &str) -> (r: Vec<EnsureGitRepository>)
    ensures
        r@.len() == (match opt_vec(overlay.git) {
            Some(g) => g.len(),
            None => 0,
        }),
        forall|i: int|
            #![trigger r@[i]]
            0 <= i < r@.len() ==> r@[i].path@ == join_spec(target_root@, overlay.git->Some_0@[i].0@)
                && r@[i].remote@ == overlay.git->Some_0@[i].1@,
        unique_opt(opt_vec(overlay.git)) ==> forall|i: int, j: int|
            0 <= i < j < r@.len() ==> (#[trigger] r@[i]).path@ != (#[trigger] r@[j]).path@,
{
    let mut r: Vec<EnsureGitRepository> = Vec::new();
    match &overlay.git {
        None => {},
        Some(g) => {
            let mut i: usize = 0;
            while i < g.len()
                invariant
                    overlay.git == Some(*g),
                    i <= g@.len(),
                    r@.len() == i,
                    forall|k: int|
                        #![trigger r@[k]]
                        0 <= k < i ==> r@[k].path@ == join_spec(target_root@, g@[k].0@) && r@[k].remote@
                            == g@[k].1@,
                decreases g@.len() - i,
            {
                let path = join(target_root, g[i].0.as_str());
                let remote = g[i].1.clone();
                r.push(EnsureGitRepository::new(path, remote));
                i = i + 1;
            }
            proof {
                if unique_opt(opt_vec(overlay.git)) {
                    assert forall|a: int, b: int| 0 <= a < b < r@.len() implies (#[trigger] r@[a]).path@
                        != (#[trigger] r@[b]).path@ by {
                        if r@[a].path@ == r@[b].path@ {
                            crate::mirror::lemma_join_injective(target_root@, g@[a].0@, g@[b].0@);
                        }
                    }
                }
            }
        },
    }
    r
}

/// The decision for a repository, given whether its path exists.
pub fn decide_fetch(exists: bool, dry_run: bool) -> (r: FetchAction)
    ensures
        r == fetch_action_spec(exists, dry_run),
{
    if exists {
        FetchAction::Skip
    } else if dry_run {
        FetchAction::Report
    } else {
        FetchAction::Clone
    }
}

/// `100 * part / whole`, and 0 where `whole` is 0.
pub fn percent(part: usize, whole: usize) -> (r: u128)
    ensures
        r as int == percent_spec(part as int, whole as int),
{
    if whole == 0 {
        0
    } else {
        let p: u128 = 100 * (part as u128);
        assert(100 * (part as int) <= 100 * (usize::MAX as int)) by (nonlinear_arith)
            requires
                part as int <= usize::MAX as int,
        ;
        p / (whole as u128)
    }
}

/// The remotes of the repositories whose clone failed, in their order.
pub open spec fn failures_spec(remotes: Seq<Seq<char>>, ok: Seq<bool>) -> Seq<Seq<char>>
    decreases remotes.len(),
{
    if remotes.len() == 0 || ok.len() == 0 {
        Seq::empty()
    } else {
        let prev = failures_spec(remotes.drop_last(), ok.drop_last());
        if ok.last() {
            prev
        } else {
            prev.push(remotes.last())
        }
    }
}

/// The remotes whose clone failed, once every clone has finished, where
/// `succeeded[i]` tells how the clone of `repos[i]` went: every failure is
/// reported, whatever the others did.
pub fn failed_remotes(repos: &Vec<EnsureGitRepository>, succeeded: &Vec<bool>) -> (r: Vec<String>)
    requires
        repos@.len() == succeeded@.len(),
    ensures
        crate::glob::views(r@) == failures_spec(repos@.map_values(|g: EnsureGitRepository| g.remote@), succeeded@),
{
    let ghost rs = repos@.map_values(|g: EnsureGitRepository| g.remote@);
    let mut r: Vec<String> = Vec::new();
    let mut i: usize = 0;
    assert(rs.take(0) =~= Seq::<Seq<char>>::empty());
    while i < repos.len()
        invariant
            i <= repos@.len(),
            repos@.len() == succeeded@.len(),
            rs == repos@.map_values(|g: EnsureGitRepository| g.remote@),
            crate::glob::views(r@) == failures_spec(rs.take(i as int), succeeded@.take(i as int)),
        decreases repos@.len() - i,
    {
        assert(rs.take(i + 1).drop_last() =~= rs.take(i as int));
        assert(succeeded@.take(i + 1).drop_last() =~= succeeded@.take(i as int));
        assert(rs.take(i + 1).last() == repos@[i as int].remote@);
        if !succeeded[i] {
            let ghost before = r@;
            r.push(repos[i].remote.clone());
            assert(crate::glob::views(r@) =~= crate::glob::views(before).push(repos@[i as int].remote@));
        }
        i = i + 1;
    }
    assert(rs.take(i as int) =~= rs);
    assert(succeeded@.take(i as int) =~= succeeded@);
    r
}

/// The tree after the repositories at `paths` were fetched, where `ok[i]`
/// tells whether the clone for `paths[i]` would succeed: a clone that runs
/// and succeeds leaves a directory at its path.
pub open spec fn fetched_tree(tree: Map<Seq<char>, Node>, paths: Seq<Seq<char>>, ok: Seq<bool>) -> Map<
    Seq<char>,
    Node,
>
    decreases paths.len(),
{
    if paths.len() == 0 || ok.len() == 0 {
        tree
    } else {
        let t = fetched_tree(tree, paths.drop_last(), ok.drop_last());
        if fetch_action_spec(node_at(tree, paths.last()) is Some, false) == FetchAction::Clone && ok.last() {
            t.insert(paths.last(), Node::Dir)
        } else {
            t
        }
    }
}

/// Each repository's fetch stands alone: where the paths differ, a
/// repository whose clone succeeds, or that was there before, is present
/// afterwards whatever became of the others.
pub proof fn lemma_fetch_isolation(tree: Map<Seq<char>, Node>, paths: Seq<Seq<char>>, ok: Seq<bool>, i: int)
    requires
        paths.len() == ok.len(),
        0 <= i < paths.len(),
        forall|a: int, b: int| 0 <= a < b < paths.len() ==> paths[a] != paths[b],
        ok[i] || node_at(tree, paths[i]) is Some,
    ensures
        node_at(fetched_tree(tree, paths, ok), paths[i]) is Some,
    decreases paths.len(),
{
    let d = paths.drop_last();
    let o = ok.drop_last();
    if i < paths.len() - 1 {
        assert(d[i] == paths[i]);
        assert(o[i] == ok[i]);
        assert forall|a: int, b: int| 0 <= a < b < d.len() implies d[a] != d[b] by {
            assert(d[a] == paths[a] && d[b] == paths[b]);
        }
        lemma_fetch_isolation(tree, d, o, i);
    } else {
        lemma_fetched_keeps(tree, d, o);
    }
}

/// Fetching again, once every repository's path holds something (each
/// clone succeeded or its path was there before), changes nothing, however
/// the clones would go.
pub proof fn lemma_refetch_changes_nothing(
    tree: Map<Seq<char>, Node>,
    paths: Seq<Seq<char>>,
    ok: Seq<bool>,
    again: Seq<bool>,
)
    requires
        paths.len() == ok.len(),
        forall|a: int, b: int| 0 <= a < b < paths.len() ==> paths[a] != paths[b],
        forall|i: int| 0 <= i < paths.len() ==> ok[i] || node_at(tree, #[trigger] paths[i]) is Some,
    ensures
        fetched_tree(fetched_tree(tree, paths, ok), paths, again) == fetched_tree(tree, paths, ok),
{
    let t1 = fetched_tree(tree, paths, ok);
    assert forall|i: int| 0 <= i < paths.len() implies node_at(t1, #[trigger] paths[i]) is Some by {
        lemma_fetch_isolation(tree, paths, ok, i);
    }
    lemma_fetch_present(t1, paths, again);
}

/// Where every path holds something, fetching changes nothing.
proof fn lemma_fetch_present(tree: Map<Seq<char>, Node>, paths: Seq<Seq<char>>, ok: Seq<bool>)
    requires
        forall|i: int| 0 <= i < paths.len() ==> node_at(tree, #[trigger] paths[i]) is Some,
    ensures
        fetched_tree(tree, paths, ok) == tree,
    decreases paths.len(),
{
    if paths.len() > 0 && ok.len() > 0 {
        let d = paths.drop_last();
        assert forall|i: int| 0 <= i < d.len() implies node_at(tree, #[trigger] d[i]) is Some by {
            assert(d[i] == paths[i]);
        }
        lemma_fetch_present(tree, d, ok.drop_last());
        assert(node_at(tree, paths[paths.len() - 1]) is Some);
    }
}

/// Fetching never removes what stands at a path.
proof fn lemma_fetched_keeps(tree: Map<Seq<char>, Node>, paths: Seq<Seq<char>>, ok: Seq<bool>)
    ensures
        forall|p: Seq<char>| node_at(tree, p) is Some ==> node_at(#[trigger] fetched_tree(tree, paths, ok), p) is Some,
    decreases paths.len(),
{
    if paths.len() > 0 && ok.len() > 0 {
        lemma_fetched_keeps(tree, paths.drop_last(), ok.drop_last());
    }
}

/// Counters of a clone's transfer, as the clone reports them.
pub struct CloneStats {
    pub total_objects: usize,
    pub indexed_objects: usize,
    pub received_objects: usize,
    pub local_objects: usize,
    pub total_deltas: usize,
    pub indexed_deltas: usize,
    pub received_bytes: usize,
}

/// Counters of a clone's checkout, with the path being checked out.
pub struct CloneProgress {
    pub total: usize,
    pub current: usize,
    pub path: Option<String>,
}

/// What one clone has reported so far.
pub struct CloneState {
    pub stats: CloneStats,
    pub progress: CloneProgress,
}

/// What a clone's progress bar shows.
pub struct BarUpdate {
    /// Objects in all.
    pub length: usize,
    /// Objects indexed.
    pub position: usize,
    /// Every object is received: deltas are being resolved.
    pub resolving_deltas: bool,
    pub network_pct: u128,
    pub index_pct: u128,
    pub checkout_pct: u128,
    /// Kilobytes received.
    pub kbytes: usize,
}

impl CloneState {
    /// A clone that has reported nothing yet.
    pub fn new() -> (r: CloneState)
        ensures
            r.stats.total_objects == 0 && r.stats.indexed_objects == 0 && r.stats.received_objects == 0,
            r.stats.local_objects == 0 && r.stats.total_deltas == 0 && r.stats.indexed_deltas == 0,
            r.stats.received_bytes == 0,
            r.progress.total == 0 && r.progress.current == 0 && r.progress.path is None,
    {
        CloneState {
            stats: CloneStats {
                total_objects: 0,
                indexed_objects: 0,
                received_objects: 0,
                local_objects: 0,
                total_deltas: 0,
                indexed_deltas: 0,
                received_bytes: 0,
            },
            progress: CloneProgress { total: 0, current: 0, path: None },
        }
    }

    /// The figures of the progress bar: the share of objects received and
    /// indexed, and of files checked out, each 0 while its total is 0.
    pub fn update_bar(&self) -> (r: BarUpdate)
        ensures
            r.length == self.stats.total_objects,
            r.position == self.stats.indexed_objects,
            r.resolving_deltas == (self.stats.received_objects == self.stats.total_objects),
            r.network_pct as int == percent_spec(
                self.stats.received_objects as int,
                self.stats.total_objects as int,
            ),
            r.index_pct as int == percent_spec(
                self.stats.indexed_objects as int,
                self.stats.total_objects as int,
            ),
            r.checkout_pct as int == percent_spec(self.progress.current as int, self.progress.total as int),
            r.kbytes == self.stats.received_bytes / 1024,
    {
        let stats = &self.stats;
        BarUpdate {
            length: stats.total_objects,
            position: stats.indexed_objects,
            resolving_deltas: stats.received_objects == stats.total_objects,
            network_pct: percent(stats.received_objects, stats.total_objects),
            index_pct: percent(stats.indexed_objects, stats.total_objects),
            checkout_pct: percent(self.progress.current, self.progress.total),
            kbytes: stats.received_bytes / 1024,
        }
    }
}

} // verus!
