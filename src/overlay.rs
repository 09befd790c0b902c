//! Overlays: descriptors as read from disk, their merge from the registry
//! root down to an overlay's directory, and the registry that names them.
use vstd::prelude::*;
use crate::glob::views;
use crate::keyed::{lemma_merge_keyed_unique, merge_keyed, merge_keyed_spec, unique_keys};
use crate::paths::{is_within, join, join_spec, path_starts_with, same_chars, strip_root, strip_root_spec};

verus! {

/// The content of one descriptor file. Every field is optional: a field that
/// a file leaves out is taken from the files of the enclosing directories.
#[derive(Clone, Debug)]
pub struct Config {
    /// Whether the directory is an overlay (read, not used).
    pub overlay: bool,
    pub name: Option<String>,
    pub description: Option<String>,
    /// Template of the directory that the overlay is applied to.
    pub target: Option<String>,
    /// Names of the overlays applied before this one, in order.
    pub uses: Option<Vec<String>>,
    /// Further glob patterns of files that are not mirrored.
    pub exclude: Option<Vec<String>>,
    /// Repositories to fetch: relative path, then remote URL.
    pub git: Option<Vec<(String, String)>>,
    /// Named command groups, carried for other tools.
    pub install: Option<Vec<(String, Vec<String>)>>,
}

/// An overlay, built from the merge of its descriptors.
#[derive(Clone, Debug)]
pub struct Overlay {
    /// The overlay's directory relative to the registry root.
    pub name: String,
    /// The overlay's directory.
    pub root: String,
    pub description: Option<String>,
    /// Template of the directory that the overlay is applied to.
    pub target: String,
    pub uses: Option<Vec<String>>,
    pub exclude: Option<Vec<String>>,
    pub git: Option<Vec<(String, String)>>,
    pub install: Option<Vec<(String, Vec<String>)>>,
}

/// Why an overlay could not be built.
#[derive(Debug, PartialEq, Eq, Structural)]
pub enum OverlayError {
    /// The directory is not the registry root nor lies beneath it.
    OutsideRegistry,
    /// The overlay's own directory holds no descriptor.
    NotFound,
}

/// The registry: one root directory under which overlays are found.
#[derive(Clone, Debug)]
pub struct Repository {
    pub root: String,
}

/// The view of an optional string.
pub open spec fn opt_str(o: Option<String>) -> Option<Seq<char>> {
    match o {
        Some(s) => Some(s@),
        None => None,
    }
}

/// The view of an optional list.
pub open spec fn opt_vec<T>(o: Option<Vec<T>>) -> Option<Seq<T>> {
    match o {
        Some(v) => Some(v@),
        None => None,
    }
}

/// The value of the last level that sets the field `f`.
pub open spec fn last_set<T>(levels: Seq<Option<Config>>, f: spec_fn(Config) -> Option<T>) -> Option<T>
    decreases levels.len(),
{
    if levels.len() == 0 {
        None
    } else {
        match levels.last() {
            Some(c) if f(c) is Some => f(c),
            _ => last_set(levels.drop_last(), f),
        }
    }
}

/// The keyed field `f` merged over the levels, later levels winning on a
/// shared key.
pub open spec fn merged_entries<V>(
    levels: Seq<Option<Config>>,
    f: spec_fn(Config) -> Option<Seq<(String, V)>>,
) -> Option<Seq<(String, V)>>
    decreases levels.len(),
{
    if levels.len() == 0 {
        None
    } else {
        let prev = merged_entries(levels.drop_last(), f);
        match levels.last() {
            Some(c) if f(c) is Some => match prev {
                Some(p) => Some(merge_keyed_spec(p, f(c).unwrap())),
                None => f(c),
            },
            _ => prev,
        }
    }
}

pub open spec fn description_of(c: Config) -> Option<Seq<char>> {
    opt_str(c.description)
}

pub open spec fn target_of(c: Config) -> Option<Seq<char>> {
    opt_str(c.target)
}

pub open spec fn uses_of(c: Config) -> Option<Seq<String>> {
    opt_vec(c.uses)
}

pub open spec fn exclude_of(c: Config) -> Option<Seq<String>> {
    opt_vec(c.exclude)
}

pub open spec fn git_of(c: Config) -> Option<Seq<(String, String)>> {
    opt_vec(c.git)
}

pub open spec fn install_of(c: Config) -> Option<Seq<(String, Vec<String>)>> {
    opt_vec(c.install)
}

/// The index of the last separator of `p`, or -1.
pub open spec fn last_sep(p: Seq<char>) -> int
    decreases p.len(),
{
    if p.len() == 0 {
        -1
    } else if p.last() == '/' {
        p.len() - 1
    } else {
        last_sep(p.drop_last())
    }
}

/// The directory that holds `p`; empty where there is none.
pub open spec fn parent_spec(p: Seq<char>) -> Seq<char> {
    let k = last_sep(p);
    if k < 0 {
        Seq::empty()
    } else if k == 0 {
        if p.len() > 1 {
            seq!['/']
        } else {
            Seq::empty()
        }
    } else {
        p.take(k)
    }
}

/// The directories from `root` down to `dir`, ancestor first: those of
/// `dir` and its ancestors that are `root` or lie beneath it.
pub open spec fn dir_chain(root: Seq<char>, dir: Seq<char>) -> Seq<Seq<char>>
    decreases dir.len(),
    via dir_chain_decreases
{
    if !path_starts_with(dir, root) {
        Seq::empty()
    } else if dir == root || dir.len() == 0 {
        seq![dir]
    } else {
        dir_chain(root, parent_spec(dir)).push(dir)
    }
}

#[via_fn]
proof fn dir_chain_decreases(root: Seq<char>, dir: Seq<char>) {
    if dir.len() > 0 {
        proof_parent_shorter(dir);
    }
}

proof fn lemma_last_sep_bounds(p: Seq<char>)
    ensures
        -1 <= last_sep(p) < p.len(),
        last_sep(p) >= 0 ==> p[last_sep(p)] == '/',
        forall|j: int| last_sep(p) < j < p.len() ==> p[j] != '/',
    decreases p.len(),
{
    if p.len() > 0 && p.last() != '/' {
        lemma_last_sep_bounds(p.drop_last());
        assert forall|j: int| last_sep(p) < j < p.len() implies p[j] != '/' by {
            if j < p.len() - 1 {
                assert(p[j] == p.drop_last()[j]);
            }
        }
    }
}

/// A parent is shorter than the path it belongs to.
pub proof fn proof_parent_shorter(p: Seq<char>)
    requires
        p.len() > 0,
    ensures
        parent_spec(p).len() < p.len(),
{
    lemma_last_sep_bounds(p);
}

/// The directory that holds `p`; empty where there is none.
pub fn parent(p: &str) -> (r: String)
    ensures
        r@ == parent_spec(p@),
{
    let n = p.unicode_len();
    let mut i: usize = n;
    assert(p@.take(n as int) =~= p@);
    while i > 0
        invariant
            i <= n,
            n == p@.len(),
            last_sep(p@) == last_sep(p@.take(i as int)),
            forall|j: int| i <= j < n ==> p@[j] != '/',
        decreases i,
    {
        if p.get_char(i - 1) == '/' {
            assert(p@.take(i as int).last() == '/');
            let k = i - 1;
            if k == 0 {
                if n > 1 {
                    let s = String::from_str("/");
                    proof {
                        reveal_strlit("/");
                    }
                    assert(s@ =~= seq!['/']);
                    return s;
                } else {
                    let e = String::new();
                    assert(e@ =~= Seq::<char>::empty());
                    return e;
                }
            }
            let r = p.substring_char(0, k).to_owned();
            assert(r@ =~= p@.take(k as int));
            return r;
        }
        assert(p@.take(i as int).drop_last() =~= p@.take(i - 1));
        i = i - 1;
    }
    assert(p@.take(0) =~= Seq::<char>::empty());
    let e = String::new();
    assert(e@ =~= Seq::<char>::empty());
    e
}

/// What `Overlay::new` builds for the directory `root` of the registry at
/// `repo_root` from `levels`: `OutsideRegistry` exactly where `root` is not
/// the registry root nor lies beneath it, `NotFound` exactly where the last
/// level is missing, and otherwise the overlay whose fields are the merge of
/// the levels, a later level overriding an earlier one.
pub open spec fn built_from(
    repo_root: Seq<char>,
    root: Seq<char>,
    levels: Seq<Option<Config>>,
    r: Result<Overlay, OverlayError>,
) -> bool {
    &&& r == Err::<Overlay, OverlayError>(OverlayError::OutsideRegistry) <==> strip_root_spec(
        repo_root,
        root,
    ) is None
    &&& r == Err::<Overlay, OverlayError>(OverlayError::NotFound) <==> (strip_root_spec(repo_root, root) is Some
        && (levels.len() == 0 || levels.last() is None))
    &&& r matches Ok(o) ==> {
        &&& o.name@ == strip_root_spec(repo_root, root).unwrap()
        &&& o.root@ == root
        &&& opt_str(o.description) == last_set(levels, |c: Config| description_of(c))
        &&& o.target@ == (match last_set(levels, |c: Config| target_of(c)) {
            Some(t) => t,
            None => seq!['~'],
        })
        &&& opt_vec(o.uses) == last_set(levels, |c: Config| uses_of(c))
        &&& opt_vec(o.exclude) == last_set(levels, |c: Config| exclude_of(c))
        &&& opt_vec(o.git) == merged_entries(levels, |c: Config| git_of(c))
        &&& opt_vec(o.install) == merged_entries(levels, |c: Config| install_of(c))
    }
}

/// An absent list, or one whose keys are unique.
pub open spec fn unique_opt<V>(v: Option<Seq<(String, V)>>) -> bool {
    match v {
        Some(x) => unique_keys(x),
        None => true,
    }
}

/// Every level's keyed lists have unique keys.
pub open spec fn levels_unique(levels: Seq<Option<Config>>) -> bool {
    forall|k: int|
        0 <= k < levels.len() ==> (#[trigger] levels[k] matches Some(c) ==> unique_opt(git_of(c)) && unique_opt(
            install_of(c),
        ))
}

/// Merging levels whose keyed lists have unique keys gives unique keys.
proof fn lemma_merged_unique<V>(levels: Seq<Option<Config>>, f: spec_fn(Config) -> Option<Seq<(String, V)>>)
    requires
        forall|k: int| 0 <= k < levels.len() ==> (#[trigger] levels[k] matches Some(c) ==> unique_opt(f(c))),
    ensures
        unique_opt(merged_entries(levels, f)),
    decreases levels.len(),
{
    if levels.len() > 0 {
        let d = levels.drop_last();
        assert forall|k: int| 0 <= k < d.len() implies (#[trigger] d[k] matches Some(c) ==> unique_opt(f(c))) by {
            assert(d[k] == levels[k]);
        }
        lemma_merged_unique(d, f);
        assert(levels[levels.len() - 1] == levels.last());
        if let Some(c) = levels.last() {
            if let (Some(p), Some(o)) = (merged_entries(d, f), f(c)) {
                lemma_merge_keyed_unique(p, o);
            }
        }
    }
}

impl Config {
    /// A descriptor that sets nothing.
    pub fn empty() -> (r: Config)
        ensures
            r.overlay,
            r.name is None,
            r.description is None,
            r.target is None,
            r.uses is None,
            r.exclude is None,
            r.git is None,
            r.install is None,
    {
        Config {
            overlay: true,
            name: None,
            description: None,
            target: None,
            uses: None,
            exclude: None,
            git: None,
            install: None,
        }
    }
}

/// The later of two optional values, where the later is set.
fn later<T>(a: Option<T>, b: Option<T>) -> (r: Option<T>)
    ensures
        r == (if b is Some { b } else { a }),
{
    if b.is_some() {
        b
    } else {
        a
    }
}

/// Two optional keyed lists merged, the later winning on a shared key.
fn later_entries<V>(a: Option<Vec<(String, V)>>, b: Option<Vec<(String, V)>>) -> (r: Option<
    Vec<(String, V)>,
>)
    ensures
        opt_vec(r) == (match b {
            Some(y) => match a {
                Some(x) => Some(merge_keyed_spec(x@, y@)),
                None => Some(y@),
            },
            None => opt_vec(a),
        }),
{
    match b {
        Some(y) => match a {
            Some(x) => Some(merge_keyed(x, y)),
            None => Some(y),
        },
        None => a,
    }
}

impl Overlay {
    /// The overlay whose directory is `root`, from the descriptors of the
    /// directories of `repository.descriptor_dirs(root)`: `levels` holds,
    /// ancestor first, what each of them holds (`None` where it holds none).
    /// A later level overrides an earlier one field by field; the keyed
    /// fields are merged key by key. The name is `root` relative to the
    /// registry root, and the target is `~` where no level sets it.
    pub fn new(repository: &Repository, root: &str, levels: Vec<Option<Config>>) -> (r: Result<
        Overlay,
        OverlayError,
    >)
        ensures
            built_from(repository.root@, root@, levels@, r),
            levels_unique(levels@) ==> (r matches Ok(o) ==> unique_opt(opt_vec(o.git)) && unique_opt(
                opt_vec(o.install),
            )),
    {
        let name = match strip_root(repository.root.as_str(), root) {
            Some(n) => n,
            None => return Err(OverlayError::OutsideRegistry),
        };
        let n = levels.len();
        if n == 0 || levels[n - 1].is_none() {
            return Err(OverlayError::NotFound);
        }
        let ghost orig = levels@;
        let mut levels = levels;
        let mut description: Option<String> = None;
        let mut target: Option<String> = None;
        let mut uses: Option<Vec<String>> = None;
        let mut exclude: Option<Vec<String>> = None;
        let mut git: Option<Vec<(String, String)>> = None;
        let mut install: Option<Vec<(String, Vec<String>)>> = None;
        let mut i: usize = 0;
        while levels.len() > 0
            invariant
                levels@ == orig.skip(i as int),
                i + levels@.len() == orig.len(),
                orig.len() == n,
                opt_str(description) == last_set(orig.take(i as int), |c: Config| description_of(c)),
                opt_str(target) == last_set(orig.take(i as int), |c: Config| target_of(c)),
                opt_vec(uses) == last_set(orig.take(i as int), |c: Config| uses_of(c)),
                opt_vec(exclude) == last_set(orig.take(i as int), |c: Config| exclude_of(c)),
                opt_vec(git) == merged_entries(orig.take(i as int), |c: Config| git_of(c)),
                opt_vec(install) == merged_entries(orig.take(i as int), |c: Config| install_of(c)),
            decreases levels@.len(),
        {
            let level = levels.remove(0);
            let ghost t = orig.take(i + 1);
            assert(t.drop_last() =~= orig.take(i as int));
            assert(t.last() == level);
            match level {
                Some(c) => {
                    let Config {
                        overlay: _,
                        name: _,
                        description: d,
                        target: tg,
                        uses: u,
                        exclude: x,
                        git: g,
                        install: ins,
                    } = c;
                    description = later(description, d);
                    target = later(target, tg);
                    uses = later(uses, u);
                    exclude = later(exclude, x);
                    git = later_entries(git, g);
                    install = later_entries(install, ins);
                },
                None => {},
            }
            i = i + 1;
            assert(levels@ =~= orig.skip(i as int));
        }
        assert(orig.take(i as int) =~= orig);
        let target = match target {
            Some(t) => t,
            None => {
                let t = String::from_str("~");
                proof {
                    reveal_strlit("~");
                }
                assert(t@ =~= seq!['~']);
                t
            },
        };
        proof {
            if levels_unique(orig) {
                lemma_merged_unique(orig, |c: Config| git_of(c));
                lemma_merged_unique(orig, |c: Config| install_of(c));
            }
        }
        Ok(Overlay {
            name,
            root: root.to_owned(),
            description,
            target,
            uses,
            exclude,
            git,
            install,
        })
    }
}

impl Repository {
    /// The registry rooted at `root`.
    pub fn new(root: String) -> (r: Repository)
        ensures
            r.root == root,
    {
        Repository { root }
    }

    /// The directory of the overlay called `name`.
    pub fn overlay_root(&self, name: &str) -> (r: String)
        ensures
            r@ == join_spec(self.root@, name@),
    {
        join(self.root.as_str(), name)
    }

    /// The directories whose descriptors make up the overlay at `dir`, from
    /// the registry root down to `dir`.
    pub fn descriptor_dirs(&self, dir: &str) -> (r: Vec<String>)
        ensures
            views(r@) == dir_chain(self.root@, dir@),
    {
        let root = self.root.as_str();
        let mut acc: Vec<String> = Vec::new();
        let mut cur = dir.to_owned();
        loop
            invariant
                dir_chain(root@, dir@) == dir_chain(root@, cur@) + views(acc@),
                root@ == self.root@,
            decreases cur@.len(),
        {
            if !is_within(cur.as_str(), root) {
                assert(dir_chain(root@, cur@) =~= Seq::<Seq<char>>::empty());
                assert(dir_chain(root@, dir@) =~= views(acc@));
                return acc;
            }
            let ghost old_acc = acc@;
            acc.insert(0, cur.clone());
            assert(views(acc@) =~= seq![cur@] + views(old_acc));
            if same_chars(cur.as_str(), root) || cur.unicode_len() == 0 {
                assert(dir_chain(root@, dir@) =~= views(acc@));
                return acc;
            }
            proof {
                proof_parent_shorter(cur@);
            }
            let next = parent(cur.as_str());
            assert(dir_chain(root@, cur@) == dir_chain(root@, next@).push(cur@));
            assert(dir_chain(root@, dir@) =~= dir_chain(root@, next@) + views(acc@));
            cur = next;
        }
    }

    /// The overlay called `name`, from the descriptors of
    /// `self.descriptor_dirs(self.overlay_root(name))` (see `Overlay::new`).
    pub fn get(&self, name: &str, levels: Vec<Option<Config>>) -> (r: Result<Overlay, OverlayError>)
        ensures
            built_from(self.root@, join_spec(self.root@, name@), levels@, r),
    {
        let root = self.overlay_root(name);
        Overlay::new(self, root.as_str(), levels)
    }
}

} // verus!
