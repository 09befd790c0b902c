//! Mirroring an overlay's tree onto a target directory: the steps that do
//! it, the decision taken for each step from what stands at its path, and a
//! model of the target tree that the laws of mirroring are stated over.
use vstd::prelude::*;
use crate::glob::{GlobError, descriptor_pattern, glob_match_of, match_any, matches_any, pattern, views};
use crate::overlay::Overlay;
use crate::paths::{join, join_spec};

verus! {

/// What a walk of an overlay's directory found at one path.
#[derive(Clone, Copy, Debug, PartialEq, Eq, Structural)]
pub enum EntryKind {
    Dir,
    File,
    /// Neither, as far as the walk could tell (a broken symlink).
    Other,
}

/// One entry beneath an overlay's directory, as the walk found it.
pub struct SourceEntry {
    /// Its path relative to the overlay's directory.
    pub rel: String,
    pub kind: EntryKind,
}

/// A directory that must exist.
pub struct EnsureDir {
    pub path: String,
}

/// A symbolic link at `target` that must point at `source`.
pub struct EnsureLink {
    pub source: String,
    pub target: String,
}

/// One step of mirroring.
pub enum Step {
    Dir(EnsureDir),
    Link(EnsureLink),
}

/// What a step asks for, over paths.
pub enum StepModel {
    Dir { path: Seq<char> },
    Link { source: Seq<char>, target: Seq<char> },
}

impl View for Step {
    type V = StepModel;

    open spec fn view(&self) -> StepModel {
        match self {
            Step::Dir(d) => StepModel::Dir { path: d.path@ },
            Step::Link(l) => StepModel::Link { source: l.source@, target: l.target@ },
        }
    }
}

/// The models of a list of steps.
pub open spec fn step_views(v: Seq<Step>) -> Seq<StepModel> {
    v.map_values(|s: Step| s@)
}

/// What stands at a path of the target tree.
pub enum Node {
    Dir,
    File,
    /// A symbolic link, with the path it points at, that does not resolve
    /// to a directory.
    Link(Seq<char>),
    /// A symbolic link, with the path it points at, that resolves to a
    /// directory.
    DirLink(Seq<char>),
}

/// What stands at a path, as observed without following a symbolic link,
/// and for a link, whether following it leads to a directory.
pub enum TargetState {
    Missing,
    Dir,
    File,
    /// A symbolic link, with the path that it points at.
    Symlink(String),
    /// A symbolic link that resolves to a directory, with the path that it
    /// points at.
    DirSymlink(String),
}

impl TargetState {
    /// The node that stands there, if any.
    pub open spec fn node(&self) -> Option<Node> {
        match self {
            TargetState::Missing => None,
            TargetState::Dir => Some(Node::Dir),
            TargetState::File => Some(Node::File),
            TargetState::Symlink(s) => Some(Node::Link(s@)),
            TargetState::DirSymlink(s) => Some(Node::DirLink(s@)),
        }
    }
}

/// Why a step refuses to touch a path.
#[derive(Clone, Copy, Debug, PartialEq, Eq, Structural)]
pub enum Conflict {
    /// A symbolic link to another source, which is not to be replaced.
    LinkExists,
    /// A regular file: never replaced.
    FileExists,
    /// A directory where a link belongs.
    IsDirectory,
}

/// What to do for a link step.
#[derive(Clone, Copy, Debug, PartialEq, Eq, Structural)]
pub enum LinkAction {
    /// Create the link.
    Create,
    /// The link is there already: nothing to do.
    Keep,
    /// Remove the link that is there and create the right one.
    Replace,
    /// Ask the user whether to replace the link that is there.
    Confirm,
    /// Fail with this conflict.
    Refuse(Conflict),
}

/// What to do for a directory step.
#[derive(Clone, Copy, Debug, PartialEq, Eq, Structural)]
pub enum DirAction {
    Create,
    Keep,
    Refuse(Conflict),
}

/// The decision for a link to `source` over what stands at its path, where
/// `force` replaces a link to another source without asking.
pub open spec fn link_action_spec(existing: Option<Node>, source: Seq<char>, force: bool) -> LinkAction {
    match existing {
        None => LinkAction::Create,
        Some(Node::Link(s)) | Some(Node::DirLink(s)) => if s == source {
            LinkAction::Keep
        } else if force {
            LinkAction::Replace
        } else {
            LinkAction::Confirm
        },
        Some(Node::File) => LinkAction::Refuse(Conflict::FileExists),
        Some(Node::Dir) => LinkAction::Refuse(Conflict::IsDirectory),
    }
}

/// The decision for a directory over what stands at its path: a link that
/// resolves to a directory serves as one.
pub open spec fn dir_action_spec(existing: Option<Node>) -> DirAction {
    match existing {
        None => DirAction::Create,
        Some(Node::Dir) => DirAction::Keep,
        Some(Node::DirLink(_)) => DirAction::Keep,
        Some(Node::File) => DirAction::Refuse(Conflict::FileExists),
        Some(Node::Link(_)) => DirAction::Refuse(Conflict::LinkExists),
    }
}

/// The decision for a link step to `source`, given what stands at its path.
pub fn decide_link(existing: &TargetState, source: &str, force: bool) -> (r: LinkAction)
    ensures
        r == link_action_spec(existing.node(), source@, force),
{
    match existing {
        TargetState::Missing => LinkAction::Create,
        TargetState::Symlink(s) | TargetState::DirSymlink(s) => {
            if crate::paths::same_chars(s.as_str(), source) {
                LinkAction::Keep
            } else if force {
                LinkAction::Replace
            } else {
                LinkAction::Confirm
            }
        },
        TargetState::File => LinkAction::Refuse(Conflict::FileExists),
        TargetState::Dir => LinkAction::Refuse(Conflict::IsDirectory),
    }
}

/// The decision once the user has answered whether to replace a link.
pub fn confirm_overwrite(confirmed: bool) -> (r: LinkAction)
    ensures
        r == (if confirmed {
            LinkAction::Replace
        } else {
            LinkAction::Refuse(Conflict::LinkExists)
        }),
{
    if confirmed {
        LinkAction::Replace
    } else {
        LinkAction::Refuse(Conflict::LinkExists)
    }
}

/// The decision for a directory step, given what stands at its path.
pub fn decide_dir(existing: &TargetState) -> (r: DirAction)
    ensures
        r == dir_action_spec(existing.node()),
{
    match existing {
        TargetState::Missing => DirAction::Create,
        TargetState::Dir => DirAction::Keep,
        TargetState::File => DirAction::Refuse(Conflict::FileExists),
        TargetState::DirSymlink(_) => DirAction::Keep,
        TargetState::Symlink(_) => DirAction::Refuse(Conflict::LinkExists),
    }
}

impl EnsureDir {
    pub fn new(path: String) -> (r: EnsureDir)
        ensures
            r.path == path,
    {
        EnsureDir { path }
    }
}

impl EnsureLink {
    pub fn new(source: String, target: String) -> (r: EnsureLink)
        ensures
            r.source == source,
            r.target == target,
    {
        EnsureLink { source, target }
    }
}

/// The step for one entry: a directory for a directory, else a link from
/// the mirrored path to the entry.
pub open spec fn entry_step(src_root: Seq<char>, tgt_root: Seq<char>, e: SourceEntry) -> StepModel {
    match e.kind {
        EntryKind::Dir => StepModel::Dir { path: join_spec(tgt_root, e.rel@) },
        _ => StepModel::Link {
            source: join_spec(src_root, e.rel@),
            target: join_spec(tgt_root, e.rel@),
        },
    }
}

/// The steps for `entries`, in their order, leaving out each entry whose
/// path relative to the overlay's directory matches one of the patterns `ps`: `None` where a pattern is invalid.
pub open spec fn plan_spec(
    src_root: Seq<char>,
    tgt_root: Seq<char>,
    entries: Seq<SourceEntry>,
    ps: Seq<Seq<char>>,
) -> Option<Seq<StepModel>>
    decreases entries.len(),
{
    if entries.len() == 0 {
        Some(Seq::empty())
    } else {
        match plan_spec(src_root, tgt_root, entries.drop_last(), ps) {
            None => None,
            Some(steps) => match match_any(ps, entries.last().rel@) {
                None => None,
                Some(true) => Some(steps),
                Some(false) => Some(steps.push(entry_step(src_root, tgt_root, entries.last()))),
            },
        }
    }
}

/// The patterns of what an overlay does not mirror: descriptor files, then
/// the overlay's own exclusions.
pub open spec fn exclusion_spec(o: Overlay) -> Seq<Seq<char>> {
    seq![descriptor_pattern()] + match o.exclude {
        Some(v) => views(v@),
        None => Seq::empty(),
    }
}

/// The patterns of what `overlay` does not mirror.
pub fn exclusions(overlay: &Overlay) -> (r: Vec<String>)
    ensures
        views(r@) == exclusion_spec(*overlay),
{
    let mut r: Vec<String> = Vec::new();
    r.push(pattern());
    assert(views(r@) =~= seq![descriptor_pattern()]);
    match &overlay.exclude {
        Some(v) => {
            let mut i: usize = 0;
            while i < v.len()
                invariant
                    i <= v@.len(),
                    views(r@) == seq![descriptor_pattern()] + views(v@).take(i as int),
                decreases v@.len() - i,
            {
                let ghost before = r@;
                r.push(v[i].clone());
                assert(views(r@) =~= views(before).push(v@[i as int]@));
                assert(views(v@).take(i + 1) =~= views(v@).take(i as int).push(v@[i as int]@));
                i = i + 1;
            }
            assert(views(v@).take(i as int) =~= views(v@));
        },
        None => {
            assert(exclusion_spec(*overlay) =~= seq![descriptor_pattern()]);
        },
    }
    r
}

/// The step for one entry.
fn step_for(src_root: &str, tgt_root: &str, e: &SourceEntry) -> (r: Step)
    ensures
        r@ == entry_step(src_root@, tgt_root@, *e),
{
    let target = join(tgt_root, e.rel.as_str());
    match e.kind {
        EntryKind::Dir => Step::Dir(EnsureDir::new(target)),
        _ => Step::Link(EnsureLink::new(join(src_root, e.rel.as_str()), target)),
    }
}

/// The steps that mirror `overlay`'s tree onto `target_root`, from the
/// entries that a walk of the overlay's directory found, in the walk's
/// order: every entry but those whose relative path matches an exclusion
/// pattern (descriptor files first of all), a directory for a directory and
/// a link for any other entry.
pub fn link(overlay: &Overlay, target_root: &str, entries: &Vec<SourceEntry>) -> (r: Result<
    Vec<Step>,
    GlobError,
>)
    ensures
        r matches Ok(v) ==> plan_spec(overlay.root@, target_root@, entries@, exclusion_spec(*overlay))
            == Some(step_views(v@)),
        r is Err <==> plan_spec(overlay.root@, target_root@, entries@, exclusion_spec(*overlay)) is None,
{
    let ps = exclusions(overlay);
    let ghost pv = exclusion_spec(*overlay);
    let src_root = overlay.root.as_str();
    let mut steps: Vec<Step> = Vec::new();
    let mut i: usize = 0;
    while i < entries.len()
        invariant
            i <= entries@.len(),
            views(ps@) == pv,
            pv == exclusion_spec(*overlay),
            src_root@ == overlay.root@,
            plan_spec(src_root@, target_root@, entries@.take(i as int), pv) == Some(step_views(steps@)),
        decreases entries@.len() - i,
    {
        let e = &entries[i];
        let ghost t = entries@.take(i + 1);
        assert(t.drop_last() =~= entries@.take(i as int));
        assert(t.last() == *e);
        match matches_any(&ps, e.rel.as_str()) {
            None => {
                assert(plan_spec(src_root@, target_root@, t, pv) is None);
                proof {
                    lemma_plan_none(src_root@, target_root@, entries@, pv, i + 1);
                }

                return Err(GlobError::InvalidPattern);
            },
            Some(true) => {},
            Some(false) => {
                let ghost before = steps@;
                steps.push(step_for(src_root, target_root, e));
                assert(step_views(steps@) =~= step_views(before).push(
                    entry_step(src_root@, target_root@, *e),
                ));
            },
        }
        i = i + 1;
    }
    assert(entries@.take(i as int) =~= entries@);
    Ok(steps)
}

/// Once the plan for a prefix of the entries fails, so does the whole plan.
proof fn lemma_plan_none(
    src_root: Seq<char>,
    tgt_root: Seq<char>,
    entries: Seq<SourceEntry>,
    ps: Seq<Seq<char>>,
    k: int,
)
    requires
        0 <= k <= entries.len(),
        plan_spec(src_root, tgt_root, entries.take(k), ps) is None,
    ensures
        plan_spec(src_root, tgt_root, entries, ps) is None,
    decreases entries.len() - k,
{
    if k < entries.len() {
        assert(entries.take(k + 1).drop_last() =~= entries.take(k));
        lemma_plan_none(src_root, tgt_root, entries, ps, k + 1);
    } else {
        assert(entries.take(k) =~= entries);
    }
}

/// What stands at `p` in the tree, if anything.
pub open spec fn node_at(tree: Map<Seq<char>, Node>, p: Seq<char>) -> Option<Node> {
    if tree.contains_key(p) {
        Some(tree[p])
    } else {
        None
    }
}

/// The path that a step populates.
pub open spec fn step_target(s: StepModel) -> Seq<char> {
    match s {
        StepModel::Dir { path } => path,
        StepModel::Link { source: _, target } => target,
    }
}

/// What stands at a step's path once the step is done.
pub open spec fn step_goal(s: StepModel) -> Node {
    match s {
        StepModel::Dir { path: _ } => Node::Dir,
        StepModel::Link { source, target: _ } => Node::Link(source),
    }
}

/// What stands at a step's path serves the step: a directory, or a link
/// resolving to one, for a directory step; a link to the step's source for
/// a link step.
pub open spec fn holds_goal(n: Option<Node>, s: StepModel) -> bool {
    match s {
        StepModel::Dir { path: _ } => match n {
            Some(Node::Dir) => true,
            Some(Node::DirLink(_)) => true,
            _ => false,
        },
        StepModel::Link { source, target: _ } => match n {
            Some(Node::Link(x)) => x == source,
            Some(Node::DirLink(x)) => x == source,
            _ => false,
        },
    }
}

/// A step done on a tree: whether it changes the tree, or the conflict it
/// stops on. `overwrite` stands for `force`, or for the user's answer where
/// the step asks.
pub open spec fn step_outcome(tree: Map<Seq<char>, Node>, s: StepModel, overwrite: bool) -> Result<
    bool,
    Conflict,
> {
    match s {
        StepModel::Dir { path } => match dir_action_spec(node_at(tree, path)) {
            DirAction::Create => Ok(true),
            DirAction::Keep => Ok(false),
            DirAction::Refuse(c) => Err(c),
        },
        StepModel::Link { source, target } => match link_action_spec(
            node_at(tree, target),
            source,
            overwrite,
        ) {
            LinkAction::Create => Ok(true),
            LinkAction::Replace => Ok(true),
            LinkAction::Keep => Ok(false),
            LinkAction::Confirm => Err(Conflict::LinkExists),
            LinkAction::Refuse(c) => Err(c),
        },
    }
}

/// The state after a run of steps: the tree, the conflict that stopped the
/// run if one did, and how many steps changed the tree.
pub struct RunModel {
    pub tree: Map<Seq<char>, Node>,
    pub failed: Option<Conflict>,
    pub changes: nat,
}

/// `steps` done in order on `tree`, stopping at the first conflict.
pub open spec fn run_spec(tree: Map<Seq<char>, Node>, steps: Seq<StepModel>, overwrite: bool) -> RunModel
    decreases steps.len(),
{
    if steps.len() == 0 {
        RunModel { tree, failed: None, changes: 0 }
    } else {
        let r = run_spec(tree, steps.drop_last(), overwrite);
        if r.failed is Some {
            r
        } else {
            match step_outcome(r.tree, steps.last(), overwrite) {
                Err(c) => RunModel { tree: r.tree, failed: Some(c), changes: r.changes },
                Ok(true) => RunModel {
                    tree: r.tree.insert(step_target(steps.last()), step_goal(steps.last())),
                    failed: None,
                    changes: r.changes + 1,
                },
                Ok(false) => r,
            }
        }
    }
}

/// No two steps populate the same path.
pub open spec fn distinct_targets(steps: Seq<StepModel>) -> bool {
    forall|i: int, j: int|
        0 <= i < j < steps.len() ==> step_target(#[trigger] steps[i]) != step_target(#[trigger] steps[j])
}

/// No two entries have the same relative path.
pub open spec fn distinct_entries(entries: Seq<SourceEntry>) -> bool {
    forall|i: int, j: int| 0 <= i < j < entries.len() ==> (#[trigger] entries[i]).rel@ != (#[trigger] entries[j]).rel@
}

pub(crate) proof fn lemma_join_injective(b: Seq<char>, r1: Seq<char>, r2: Seq<char>)
    requires
        join_spec(b, r1) == join_spec(b, r2),
    ensures
        r1 == r2,
{
    let j1 = join_spec(b, r1);
    if r1.len() > 0 && r2.len() > 0 && b.len() > 0 {
        if b.last() == '/' {
            assert(r1 =~= j1.subrange(b.len() as int, j1.len() as int));
            assert(r2 =~= j1.subrange(b.len() as int, j1.len() as int));
        } else {
            assert(r1 =~= j1.subrange(b.len() as int + 1, j1.len() as int));
            assert(r2 =~= j1.subrange(b.len() as int + 1, j1.len() as int));
        }
    }
}

/// Every planned step comes from an entry that no pattern matches.
proof fn lemma_plan_from_entries(
    src_root: Seq<char>,
    tgt_root: Seq<char>,
    entries: Seq<SourceEntry>,
    ps: Seq<Seq<char>>,
)
    requires
        plan_spec(src_root, tgt_root, entries, ps) is Some,
    ensures
        ({
            let steps = plan_spec(src_root, tgt_root, entries, ps).unwrap();
            forall|i: int|
                #![trigger steps[i]]
                0 <= i < steps.len() ==> exists|k: int|
                    0 <= k < entries.len() && steps[i] == entry_step(src_root, tgt_root, #[trigger] entries[k])
                        && match_any(ps, entries[k].rel@) == Some(false)
        }),
        distinct_entries(entries) ==> distinct_targets(plan_spec(src_root, tgt_root, entries, ps).unwrap()),
    decreases entries.len(),
{
    if entries.len() > 0 {
        let d = entries.drop_last();
        lemma_plan_from_entries(src_root, tgt_root, d, ps);
        let prev = plan_spec(src_root, tgt_root, d, ps).unwrap();
        let steps = plan_spec(src_root, tgt_root, entries, ps).unwrap();
        let last = entries.last();
        assert forall|i: int| #![trigger steps[i]] 0 <= i < steps.len() implies exists|k: int|
            0 <= k < entries.len() && steps[i] == entry_step(src_root, tgt_root, #[trigger] entries[k])
                && match_any(ps, entries[k].rel@) == Some(false) by {
            if i < prev.len() {
                assert(steps[i] == prev[i]);
                let k = choose|k: int|
                    0 <= k < d.len() && prev[i] == entry_step(src_root, tgt_root, #[trigger] d[k])
                        && match_any(ps, d[k].rel@) == Some(false);
                assert(entries[k] == d[k]);
            } else {
                assert(entries[entries.len() - 1] == last);
            }
        }
        if distinct_entries(entries) {
            assert forall|i: int, j: int| 0 <= i < j < d.len() implies (#[trigger] d[i]).rel@ != (
            #[trigger] d[j]).rel@ by {
                assert(d[i] == entries[i] && d[j] == entries[j]);
            }
            assert forall|i: int, j: int| 0 <= i < j < steps.len() implies step_target(
                #[trigger] steps[i],
            ) != step_target(#[trigger] steps[j]) by {
                if j >= prev.len() {
                    assert(steps[i] == prev[i]);
                    let k = choose|k: int|
                        0 <= k < d.len() && prev[i] == entry_step(src_root, tgt_root, #[trigger] d[k])
                            && match_any(ps, d[k].rel@) == Some(false);
                    assert(d[k] == entries[k]);
                    assert(entries[entries.len() - 1] == last);
                    if step_target(steps[i]) == step_target(steps[j]) {
                        lemma_join_injective(tgt_root, d[k].rel@, last.rel@);
                    }
                } else {
                    assert(steps[i] == prev[i] && steps[j] == prev[j]);
                }
            }
        }
    }
}

proof fn lemma_match_any_false(ps: Seq<Seq<char>>, path: Seq<char>, i: int)
    requires
        match_any(ps, path) == Some(false),
        0 <= i < ps.len(),
    ensures
        glob_match_of(ps[i], path) == Some(false),
    decreases ps.len(),
{
    if i < ps.len() - 1 {
        assert(ps.drop_last()[i] == ps[i]);
        lemma_match_any_false(ps.drop_last(), path, i);
    }
}

/// Descriptor files are never mirrored: every step of the plan for an
/// overlay comes from an entry whose relative path the descriptor pattern
/// does not match.
pub proof fn lemma_descriptors_never_mirrored(
    o: Overlay,
    target_root: Seq<char>,
    entries: Seq<SourceEntry>,
    i: int,
)
    requires
        plan_spec(o.root@, target_root, entries, exclusion_spec(o)) is Some,
        0 <= i < plan_spec(o.root@, target_root, entries, exclusion_spec(o)).unwrap().len(),
    ensures
        exists|k: int|
            0 <= k < entries.len() && plan_spec(o.root@, target_root, entries, exclusion_spec(o)).unwrap()[i]
                == entry_step(o.root@, target_root, #[trigger] entries[k]) && glob_match_of(
                descriptor_pattern(),
                entries[k].rel@,
            ) == Some(false),
{
    let ps = exclusion_spec(o);
    let steps = plan_spec(o.root@, target_root, entries, ps).unwrap();
    lemma_plan_from_entries(o.root@, target_root, entries, ps);
    assert(steps[i] == steps[i]);
    let k = choose|k: int|
        0 <= k < entries.len() && steps[i] == entry_step(o.root@, target_root, #[trigger] entries[k])
            && match_any(ps, entries[k].rel@) == Some(false);
    lemma_match_any_false(ps, entries[k].rel@, 0);
}

/// A step changes nothing exactly where what stands at its path serves it.
proof fn lemma_keep_iff_holds(t: Map<Seq<char>, Node>, s: StepModel, ow: bool)
    ensures
        (step_outcome(t, s, ow) == Ok::<bool, Conflict>(false)) == holds_goal(node_at(t, step_target(s)), s),
{
}

/// Last writer wins: where a run succeeds, the path of each step that no
/// later step populates holds what that step asks for. Over the steps of
/// every overlay of an application in order, this is the last overlay that
/// declares the path.
pub proof fn lemma_last_writer_wins(tree: Map<Seq<char>, Node>, steps: Seq<StepModel>, overwrite: bool, i: int)
    requires
        run_spec(tree, steps, overwrite).failed is None,
        0 <= i < steps.len(),
        forall|j: int| i < j < steps.len() ==> step_target(#[trigger] steps[j]) != step_target(steps[i]),
    ensures
        holds_goal(node_at(run_spec(tree, steps, overwrite).tree, step_target(steps[i])), steps[i]),
    decreases steps.len(),
{
    let d = steps.drop_last();
    let r = run_spec(tree, d, overwrite);
    let last = steps.last();
    lemma_keep_iff_holds(r.tree, last, overwrite);
    if i < steps.len() - 1 {
        assert(d[i] == steps[i]);
        assert forall|j: int| i < j < d.len() implies step_target(#[trigger] d[j]) != step_target(d[i]) by {
            assert(d[j] == steps[j]);
        }
        lemma_last_writer_wins(tree, d, overwrite, i);
        assert(step_target(steps[steps.len() - 1]) != step_target(steps[i]));
    }
}

/// On a tree that serves every step already, a run changes nothing.
proof fn lemma_run_at_goals(tree: Map<Seq<char>, Node>, steps: Seq<StepModel>, ow: bool)
    requires
        forall|i: int| 0 <= i < steps.len() ==> holds_goal(node_at(tree, step_target(#[trigger] steps[i])), steps[i]),
    ensures
        run_spec(tree, steps, ow) == (RunModel { tree, failed: None, changes: 0 }),
    decreases steps.len(),
{
    if steps.len() > 0 {
        let d = steps.drop_last();
        assert forall|i: int| 0 <= i < d.len() implies holds_goal(node_at(tree, step_target(#[trigger] d[i])), d[i]) by {
            assert(d[i] == steps[i]);
        }
        lemma_run_at_goals(tree, d, ow);
        lemma_keep_iff_holds(tree, steps.last(), ow);
        assert(holds_goal(node_at(tree, step_target(steps[steps.len() - 1])), steps[steps.len() - 1]));
    }
}

/// Running the same steps again, once a run has succeeded, changes nothing
/// and meets no conflict.
pub proof fn lemma_rerun_changes_nothing(tree: Map<Seq<char>, Node>, steps: Seq<StepModel>, overwrite: bool)
    requires
        distinct_targets(steps),
        run_spec(tree, steps, overwrite).failed is None,
    ensures
        ({
            let t1 = run_spec(tree, steps, overwrite).tree;
            run_spec(t1, steps, overwrite) == (RunModel { tree: t1, failed: None, changes: 0 })
        }),
{
    let t1 = run_spec(tree, steps, overwrite).tree;
    assert forall|i: int| 0 <= i < steps.len() implies holds_goal(node_at(t1, step_target(#[trigger] steps[i])), steps[i]) by {
        assert forall|j: int| i < j < steps.len() implies step_target(#[trigger] steps[j]) != step_target(steps[i]) by {
            assert(step_target(steps[i]) != step_target(steps[j]));
        }
        lemma_last_writer_wins(tree, steps, overwrite, i);
    }
    lemma_run_at_goals(t1, steps, overwrite);
}

/// Mirroring an overlay a second time onto the same target, with nothing
/// changed in between, changes nothing and meets no conflict.
pub proof fn lemma_mirror_idempotent(
    o: Overlay,
    target_root: Seq<char>,
    entries: Seq<SourceEntry>,
    tree: Map<Seq<char>, Node>,
    overwrite: bool,
)
    requires
        distinct_entries(entries),
        plan_spec(o.root@, target_root, entries, exclusion_spec(o)) is Some,
        run_spec(tree, plan_spec(o.root@, target_root, entries, exclusion_spec(o)).unwrap(), overwrite).failed is None,
    ensures
        ({
            let steps = plan_spec(o.root@, target_root, entries, exclusion_spec(o)).unwrap();
            let t1 = run_spec(tree, steps, overwrite).tree;
            run_spec(t1, steps, overwrite) == (RunModel { tree: t1, failed: None, changes: 0 })
        }),
{
    lemma_plan_from_entries(o.root@, target_root, entries, exclusion_spec(o));
    lemma_rerun_changes_nothing(
        tree,
        plan_spec(o.root@, target_root, entries, exclusion_spec(o)).unwrap(),
        overwrite,
    );
}

/// A regular file at a path that a step populates stops the run with a
/// conflict, and the file is still there afterwards.
pub proof fn lemma_file_never_replaced(
    tree: Map<Seq<char>, Node>,
    steps: Seq<StepModel>,
    overwrite: bool,
    i: int,
)
    requires
        0 <= i < steps.len(),
        node_at(tree, step_target(steps[i])) == Some(Node::File),
    ensures
        run_spec(tree, steps, overwrite).failed is Some,
        node_at(run_spec(tree, steps, overwrite).tree, step_target(steps[i])) == Some(Node::File),
{
    lemma_file_kept(tree, steps, overwrite, step_target(steps[i]));
}

/// A regular file stays where it is through any run; a run that reaches a
/// step populating its path stops there.
proof fn lemma_file_kept(tree: Map<Seq<char>, Node>, steps: Seq<StepModel>, ow: bool, p: Seq<char>)
    requires
        node_at(tree, p) == Some(Node::File),
    ensures
        node_at(run_spec(tree, steps, ow).tree, p) == Some(Node::File),
        (exists|j: int| 0 <= j < steps.len() && step_target(#[trigger] steps[j]) == p) ==> run_spec(
            tree,
            steps,
            ow,
        ).failed is Some,
    decreases steps.len(),
{
    if steps.len() > 0 {
        let d = steps.drop_last();
        lemma_file_kept(tree, d, ow, p);
        if exists|j: int| 0 <= j < steps.len() && step_target(#[trigger] steps[j]) == p {
            let j = choose|j: int| 0 <= j < steps.len() && step_target(#[trigger] steps[j]) == p;
            if j < steps.len() - 1 {
                assert(d[j] == steps[j]);
            }
        }
    }
}

/// With `force`, a link to another source is replaced by one to the right
/// source, without asking.
pub proof fn lemma_force_relinks(
    tree: Map<Seq<char>, Node>,
    source: Seq<char>,
    target: Seq<char>,
    other: Seq<char>,
)
    requires
        node_at(tree, target) == Some(Node::Link(other)) || node_at(tree, target) == Some(Node::DirLink(other)),
        other != source,
    ensures
        link_action_spec(node_at(tree, target), source, true) == LinkAction::Replace,
        run_spec(tree, seq![StepModel::Link { source, target }], true) == (RunModel {
            tree: tree.insert(target, Node::Link(source)),
            failed: None,
            changes: 1,
        }),
{
    let steps = seq![StepModel::Link { source, target }];
    assert(steps.drop_last() =~= Seq::<StepModel>::empty());
    assert(run_spec(tree, steps.drop_last(), true) == (RunModel { tree, failed: None, changes: 0 }));
    assert(steps.last() == StepModel::Link { source, target });
    assert(step_outcome(tree, steps.last(), true) == Ok::<bool, Conflict>(true));
}

/// The last overlay applied wins: where an overlay's own steps follow the
/// steps of the overlays it uses and the whole run succeeds, each path that
/// the overlay populates holds what the overlay puts there.
pub proof fn lemma_last_applied_wins(
    tree: Map<Seq<char>, Node>,
    used: Seq<StepModel>,
    own: Seq<StepModel>,
    overwrite: bool,
    k: int,
)
    requires
        distinct_targets(own),
        0 <= k < own.len(),
        run_spec(tree, used + own, overwrite).failed is None,
    ensures
        holds_goal(node_at(run_spec(tree, used + own, overwrite).tree, step_target(own[k])), own[k]),
{
    let all = used + own;
    let i = used.len() + k;
    assert(all[i] == own[k]);
    assert forall|j: int| i < j < all.len() implies step_target(#[trigger] all[j]) != step_target(all[i]) by {
        assert(all[j] == own[j - used.len()]);
    }
    lemma_last_writer_wins(tree, all, overwrite, i);
}

/// The step at `i` stays in a composed run: it is a directory step, or no
/// later step populates its path.
pub open spec fn keep_at(all: Seq<StepModel>, i: int) -> bool {
    all[i] is Dir || forall|j: int| i < j < all.len() ==> step_target(#[trigger] all[j]) != step_target(all[i])
}

/// The steps of `all` before `k` that stay, in order.
pub open spec fn kept_upto(all: Seq<StepModel>, k: int) -> Seq<StepModel>
    decreases k,
{
    if k <= 0 {
        Seq::empty()
    } else if keep_at(all, k - 1) {
        kept_upto(all, k - 1).push(all[k - 1])
    } else {
        kept_upto(all, k - 1)
    }
}

/// The views of tagged steps.
pub open spec fn tagged_views(v: Seq<(usize, Step)>) -> Seq<StepModel> {
    v.map_values(|e: (usize, Step)| e.1@)
}

/// The tags of tagged steps.
pub open spec fn tags(v: Seq<(usize, Step)>) -> Seq<usize> {
    v.map_values(|e: (usize, Step)| e.0)
}

/// Whether a later step than `i` populates the path of `steps[i]`.
fn overridden_later(targets: &Vec<String>, i: usize) -> (r: bool)
    requires
        i < targets@.len(),
    ensures
        r == exists|j: int| i < j < targets@.len() && (#[trigger] targets@[j])@ == targets@[i as int]@,
{
    let n = targets.len();
    let mut j: usize = i + 1;
    while j < n
        invariant
            i < j <= targets@.len(),
            n == targets@.len(),
            forall|k: int| i < k < j ==> (#[trigger] targets@[k])@ != targets@[i as int]@,
        decreases targets@.len() - j,
    {
        if crate::paths::same_chars(targets[j].as_str(), targets[i].as_str()) {
            return true;
        }
        j = j + 1;
    }
    false
}

/// The steps of the overlays of an application, in order and each tagged
/// with its overlay, without the link steps whose path a later step
/// populates: a later overlay's entry takes the path without a question.
pub fn drop_overridden(steps: Vec<(usize, Step)>) -> (r: Vec<(usize, Step)>)
    ensures
        tagged_views(r@) == kept_upto(tagged_views(steps@), steps@.len() as int),
{
    let ghost all = tagged_views(steps@);
    let n = steps.len();
    let mut targets: Vec<String> = Vec::new();
    let mut k: usize = 0;
    while k < n
        invariant
            k <= n,
            n == steps@.len(),
            all == tagged_views(steps@),
            targets@.len() == k,
            forall|a: int| 0 <= a < k ==> (#[trigger] targets@[a])@ == step_target(all[a]),
        decreases n - k,
    {
        let t = match &steps[k].1 {
            Step::Dir(d) => d.path.clone(),
            Step::Link(l) => l.target.clone(),
        };
        targets.push(t);
        k = k + 1;
    }
    let mut rest = steps;
    let mut r: Vec<(usize, Step)> = Vec::new();
    let mut i: usize = 0;
    while rest.len() > 0
        invariant
            i + rest@.len() == n,
            n == all.len(),
            tagged_views(rest@) == all.skip(i as int),
            targets@.len() == n,
            forall|a: int| 0 <= a < n ==> (#[trigger] targets@[a])@ == step_target(all[a]),
            tagged_views(r@) == kept_upto(all, i as int),
        decreases rest@.len(),
    {
        let ghost old_rest = rest@;
        let e = rest.remove(0);
        assert(old_rest[0] == e);
        assert(tagged_views(old_rest)[0] == all.skip(i as int)[0]);
        assert(all.skip(i as int)[0] == all[i as int]);
        assert(rest@ =~= old_rest.drop_first());
        assert(tagged_views(rest@) =~= tagged_views(old_rest).drop_first());
        assert(all.skip(i as int).drop_first() =~= all.skip(i + 1));
        assert(tagged_views(rest@) =~= all.skip(i + 1));
        let later = overridden_later(&targets, i);
        let is_dir = match &e.1 {
            Step::Dir(_) => true,
            Step::Link(_) => false,
        };
        assert(keep_at(all, i as int) == (is_dir || !later)) by {
            if !keep_at(all, i as int) {
                let j = choose|j: int| i < j < all.len() && step_target(#[trigger] all[j]) == step_target(all[i as int]);
                assert(targets@[j]@ == targets@[i as int]@);
            }
            if later {
                let j = choose|j: int| i < j < targets@.len() && (#[trigger] targets@[j])@ == targets@[i as int]@;
                assert(step_target(all[j]) == step_target(all[i as int]));
            }
        }
        if is_dir || !later {
            let ghost before = r@;
            r.push(e);
            assert(tagged_views(r@) =~= tagged_views(before).push(all[i as int]));
        }
        i = i + 1;
    }
    r
}

/// The index in `all` of the `a`-th kept step before `k`.
pub open spec fn kept_source(all: Seq<StepModel>, k: int, a: int) -> int
    decreases k,
{
    if k <= 0 {
        0
    } else if keep_at(all, k - 1) && a == kept_upto(all, k - 1).len() {
        k - 1
    } else {
        kept_source(all, k - 1, a)
    }
}

/// Each kept step is a step of the whole run that stays.
proof fn lemma_kept_from_all(all: Seq<StepModel>, k: int)
    requires
        0 <= k <= all.len(),
    ensures
        forall|a: int|
            0 <= a < kept_upto(all, k).len() ==> 0 <= #[trigger] kept_source(all, k, a) < k && keep_at(
                all,
                kept_source(all, k, a),
            ) && kept_upto(all, k)[a] == all[kept_source(all, k, a)],
    decreases k,
{
    if k > 0 {
        lemma_kept_from_all(all, k - 1);
        let p = kept_upto(all, k - 1);
        let q = kept_upto(all, k);
        assert forall|a: int| 0 <= a < q.len() implies 0 <= #[trigger] kept_source(all, k, a) < k && keep_at(
            all,
            kept_source(all, k, a),
        ) && q[a] == all[kept_source(all, k, a)] by {
            if a < p.len() {
                assert(q[a] == p[a]);
                assert(kept_source(all, k, a) == kept_source(all, k - 1, a));
            }
        }
    }
}

/// In the kept steps, no step after a link populates the link's path.
proof fn lemma_kept_links_last(all: Seq<StepModel>, k: int)
    requires
        0 <= k <= all.len(),
    ensures
        forall|a: int, b: int|
            0 <= a < b < kept_upto(all, k).len() && kept_upto(all, k)[a] is Link ==> step_target(
                #[trigger] kept_upto(all, k)[b],
            ) != step_target(#[trigger] kept_upto(all, k)[a]),
    decreases k,
{
    if k > 0 {
        lemma_kept_links_last(all, k - 1);
        lemma_kept_from_all(all, k - 1);
        let p = kept_upto(all, k - 1);
        let q = kept_upto(all, k);
        assert forall|a: int, b: int| 0 <= a < b < q.len() && q[a] is Link implies step_target(#[trigger] q[b])
            != step_target(#[trigger] q[a]) by {
            assert(q[a] == p[a]);
            if b < p.len() {
                assert(q[b] == p[b]);
            } else {
                assert(q[b] == all[k - 1]);
                let i = kept_source(all, k - 1, a);
                assert(step_target(all[k - 1]) != step_target(all[i]));
            }
        }
    }
}

/// The last index, from `i` on and before `k`, of a step at the path of
/// `steps[i]`.
pub open spec fn last_same(steps: Seq<StepModel>, i: int, k: int) -> int
    decreases k - i,
{
    if k <= i + 1 {
        i
    } else if step_target(steps[k - 1]) == step_target(steps[i]) {
        k - 1
    } else {
        last_same(steps, i, k - 1)
    }
}

proof fn lemma_last_same(steps: Seq<StepModel>, i: int, k: int)
    requires
        0 <= i < steps.len(),
        i < k <= steps.len(),
        forall|j: int| k <= j < steps.len() ==> step_target(#[trigger] steps[j]) != step_target(steps[i]),
    ensures
        i <= last_same(steps, i, k) < steps.len(),
        step_target(steps[last_same(steps, i, k)]) == step_target(steps[i]),
        forall|j: int|
            last_same(steps, i, k) < j < steps.len() ==> step_target(#[trigger] steps[j]) != step_target(steps[i]),
    decreases k - i,
{
    if k > i + 1 && step_target(steps[k - 1]) != step_target(steps[i]) {
        lemma_last_same(steps, i, k - 1);
    }
}

/// A directory step and a link step at one path, the directory first.
pub open spec fn dir_before_link(steps: Seq<StepModel>) -> bool {
    exists|i: int, j: int|
        0 <= i < j < steps.len() && steps[i] is Dir && steps[j] is Link && step_target(#[trigger] steps[i])
            == step_target(#[trigger] steps[j])
}

/// Applying a composed run a second time, with nothing changed in between,
/// changes nothing and meets no conflict: the run of every overlay's steps
/// in order, overridden links left out. The steps of each overlay populate
/// distinct paths; a directory of one overlay where a later overlay has a
/// file is left out, as there the second run can meet the link the first
/// one made.
pub proof fn lemma_composed_rerun_changes_nothing(tree: Map<Seq<char>, Node>, all: Seq<StepModel>, overwrite: bool)
    requires
        !dir_before_link(kept_upto(all, all.len() as int)),
        run_spec(tree, kept_upto(all, all.len() as int), overwrite).failed is None,
    ensures
        ({
            let steps = kept_upto(all, all.len() as int);
            let t1 = run_spec(tree, steps, overwrite).tree;
            run_spec(t1, steps, overwrite) == (RunModel { tree: t1, failed: None, changes: 0 })
        }),
{
    let steps = kept_upto(all, all.len() as int);
    let t1 = run_spec(tree, steps, overwrite).tree;
    lemma_kept_links_last(all, all.len() as int);
    assert forall|i: int| 0 <= i < steps.len() implies holds_goal(node_at(t1, step_target(#[trigger] steps[i])), steps[i]) by {
        if steps[i] is Link {
            lemma_last_writer_wins(tree, steps, overwrite, i);
        } else {
            let m = last_same(steps, i, steps.len() as int);
            lemma_last_same(steps, i, steps.len() as int);
            lemma_last_writer_wins(tree, steps, overwrite, m);
            if m != i && steps[m] is Link {
                assert(dir_before_link(steps));
            }
        }
    }
    lemma_run_at_goals(t1, steps, overwrite);
}

} // verus!
