//! Listing the overlays of a registry: the directories that hold a
//! descriptor, without those that hold another overlay beneath them.
use vstd::prelude::*;
use crate::glob::{GlobError, descriptor_pattern, glob_is_match, glob_match_of, pattern, views};
use crate::overlay::{Repository, parent, parent_spec};
use crate::paths::{is_within, path_starts_with, strip_root, strip_root_spec};

verus! {

/// The order of characters in paths: the separator before every other
/// character, so that a directory's contents follow it; else by code point.
pub open spec fn char_before(x: char, y: char) -> bool {
    x != y && (x == '/' || (y != '/' && (x as int) < (y as int)))
}

/// The order of paths: character by character, by `char_before`, a prefix
/// first.
pub open spec fn path_lt(a: Seq<char>, b: Seq<char>) -> bool
    decreases a.len(),
{
    if a.len() == 0 {
        b.len() > 0
    } else if b.len() == 0 {
        false
    } else if a[0] != b[0] {
        char_before(a[0], b[0])
    } else {
        path_lt(a.drop_first(), b.drop_first())
    }
}

proof fn lemma_path_lt_total(a: Seq<char>, b: Seq<char>)
    requires
        a != b,
    ensures
        path_lt(a, b) || path_lt(b, a),
    decreases a.len(),
{
    if a.len() == 0 && b.len() == 0 {
        assert(a =~= b);
    }
    if a.len() > 0 && b.len() > 0 && a[0] != b[0] {
        assert(a[0] as int != b[0] as int);
    }
    if a.len() > 0 && b.len() > 0 && a[0] == b[0] {
        if a.drop_first() == b.drop_first() {
            assert(a =~= seq![a[0]] + a.drop_first());
            assert(b =~= seq![b[0]] + b.drop_first());
        }
        lemma_path_lt_total(a.drop_first(), b.drop_first());
    }
}

proof fn lemma_path_lt_transitive(a: Seq<char>, b: Seq<char>, c: Seq<char>)
    requires
        path_lt(a, b),
        path_lt(b, c),
    ensures
        path_lt(a, c),
    decreases a.len(),
{
    if a.len() > 0 && b.len() > 0 && c.len() > 0 && a[0] == b[0] && b[0] == c[0] {
        lemma_path_lt_transitive(a.drop_first(), b.drop_first(), c.drop_first());
    }
}

/// Whether `a` comes before `b` in the order of paths.
pub fn path_less(a: &str, b: &str) -> (r: bool)
    ensures
        r == path_lt(a@, b@),
{
    let n = a.unicode_len();
    let m = b.unicode_len();
    let mut i: usize = 0;
    assert(a@.skip(0) =~= a@);
    assert(b@.skip(0) =~= b@);
    while i < n && i < m
        invariant
            n == a@.len(),
            m == b@.len(),
            i <= n,
            i <= m,
            path_lt(a@, b@) == path_lt(a@.skip(i as int), b@.skip(i as int)),
        decreases n - i,
    {
        let x = a.get_char(i);
        let y = b.get_char(i);
        assert(a@.skip(i as int)[0] == x);
        assert(b@.skip(i as int)[0] == y);
        if x != y {
            return x == '/' || (y != '/' && (x as u32) < (y as u32));
        }
        assert(a@.skip(i as int).drop_first() =~= a@.skip(i + 1));
        assert(b@.skip(i as int).drop_first() =~= b@.skip(i + 1));
        i = i + 1;
    }
    i < m && i == n
}

/// The directories of the descriptor files among `files`, in their order:
/// those whose path relative to `root` the descriptor pattern matches.
/// `None` where the pattern is found invalid.
pub open spec fn found_dirs(root: Seq<char>, files: Seq<Seq<char>>) -> Option<Seq<Seq<char>>>
    decreases files.len(),
{
    if files.len() == 0 {
        Some(Seq::empty())
    } else {
        match found_dirs(root, files.drop_last()) {
            None => None,
            Some(d) => match strip_root_spec(root, files.last()) {
                None => Some(d),
                Some(rel) => match glob_match_of(descriptor_pattern(), rel) {
                    None => None,
                    Some(true) => Some(d.push(parent_spec(files.last()))),
                    Some(false) => Some(d),
                },
            },
        }
    }
}

/// `d` is one of `dirs` and no other of them lies beneath it.
pub open spec fn is_leaf(d: Seq<char>, dirs: Seq<Seq<char>>) -> bool {
    dirs.contains(d) && forall|k: int| 0 <= k < dirs.len() ==> (#[trigger] dirs[k] == d || !path_starts_with(dirs[k], d))
}

/// Strictly increasing in the order of paths.
pub open spec fn strictly_sorted(v: Seq<Seq<char>>) -> bool {
    forall|i: int, j: int| 0 <= i < j < v.len() ==> path_lt(#[trigger] v[i], #[trigger] v[j])
}

/// Whether no other of `dirs` lies beneath `d`.
fn has_no_other_beneath(d: &String, dirs: &Vec<String>) -> (r: bool)
    ensures
        r == forall|k: int| 0 <= k < dirs@.len() ==> (#[trigger] views(dirs@)[k] == d@ || !path_starts_with(views(dirs@)[k], d@)),
{
    let mut k: usize = 0;
    while k < dirs.len()
        invariant
            k <= dirs@.len(),
            forall|j: int| 0 <= j < k ==> (#[trigger] views(dirs@)[j] == d@ || !path_starts_with(views(dirs@)[j], d@)),
        decreases dirs@.len() - k,
    {
        let e = &dirs[k];
        assert(views(dirs@)[k as int] == e@);
        if !crate::paths::same_chars(e.as_str(), d.as_str()) && is_within(e.as_str(), d.as_str()) {
            return false;
        }
        k = k + 1;
    }
    true
}

/// `v` with `x` put in its place; `x` is not in `v`.
fn insert_sorted(v: &mut Vec<String>, x: String)
    requires
        strictly_sorted(views(old(v)@)),
        !views(old(v)@).contains(x@),
    ensures
        strictly_sorted(views(final(v)@)),
        forall|y: Seq<char>| views(final(v)@).contains(y) <==> (views(old(v)@).contains(y) || y == x@),
{
    let ghost v0 = views(v@);
    let mut j: usize = 0;
    while j < v.len() && !path_less(x.as_str(), v[j].as_str())
        invariant
            j <= v@.len(),
            views(v@) == v0,
            !v0.contains(x@),
            forall|k: int| 0 <= k < j ==> path_lt(#[trigger] v0[k], x@),
        decreases v@.len() - j,
    {
        assert(v0[j as int] == v@[j as int]@);
        assert(v0.contains(v0[j as int]));
        proof {
            lemma_path_lt_total(x@, v0[j as int]);
        }
        j = j + 1;
    }
    v.insert(j, x);
    let ghost v1 = views(v@);
    assert(v1 =~= v0.take(j as int).push(x@) + v0.skip(j as int));
    assert forall|a: int, b: int| 0 <= a < b < v1.len() implies path_lt(#[trigger] v1[a], #[trigger] v1[b]) by {
        if j < v0.len() {
            assert(path_lt(x@, v0[j as int]));
        }
        if b == j as int {
            assert(v1[a] == v0[a]);
        } else if a == j as int {
            assert(v1[b] == v0[b - 1]);
            if b - 1 > j {
                lemma_path_lt_transitive(x@, v0[j as int], v0[b - 1]);
            }
        } else if b < j {
            assert(v1[a] == v0[a] && v1[b] == v0[b]);
        } else if a < j {
            assert(v1[a] == v0[a] && v1[b] == v0[b - 1]);
        } else {
            assert(v1[a] == v0[a - 1] && v1[b] == v0[b - 1]);
        }
    }
    assert forall|y: Seq<char>| v1.contains(y) <==> (v0.contains(y) || y == x@) by {
        if v1.contains(y) {
            let k = choose|k: int| 0 <= k < v1.len() && #[trigger] v1[k] == y;
            if k < j {
                assert(v0[k] == y);
            } else if k > j {
                assert(v0[k - 1] == y);
            }
        }
        if v0.contains(y) {
            let k = choose|k: int| 0 <= k < v0.len() && #[trigger] v0[k] == y;
            if k < j {
                assert(v1[k] == y);
            } else {
                assert(v1[k + 1] == y);
            }
        }
        if y == x@ {
            assert(v1[j as int] == y);
        }
    }
}

impl Repository {
    /// The overlays that a listing shows, from the paths of the files that a
    /// walk of the registry root found: the directories holding a descriptor
    /// file, leaving out each one that holds another of them beneath it, in
    /// the order of paths and each once. A directory that a listing leaves
    /// out can still be looked up by its name.
    pub fn overlays(&self, files: &Vec<String>) -> (r: Result<Vec<String>, GlobError>)
        ensures
            r is Err <==> found_dirs(self.root@, views(files@)) is None,
            r matches Ok(v) ==> strictly_sorted(views(v@)) && forall|d: Seq<char>|
                views(v@).contains(d) <==> is_leaf(d, found_dirs(self.root@, views(files@)).unwrap()),
    {
        let pat = pattern();
        let root = self.root.as_str();
        let mut dirs: Vec<String> = Vec::new();
        let mut i: usize = 0;
        while i < files.len()
            invariant
                i <= files@.len(),
                pat@ == descriptor_pattern(),
                root@ == self.root@,
                found_dirs(root@, views(files@).take(i as int)) == Some(views(dirs@)),
            decreases files@.len() - i,
        {
            let f = &files[i];
            let ghost t = views(files@).take(i + 1);
            assert(t.drop_last() =~= views(files@).take(i as int));
            assert(t.last() == f@);
            match strip_root(root, f.as_str()) {
                None => {},
                Some(rel) => match glob_is_match(pat.as_str(), rel.as_str()) {
                    None => {
                        assert(found_dirs(root@, t) is None);
                        proof {
                            lemma_found_none(root@, views(files@), i + 1);
                        }
                        return Err(GlobError::InvalidPattern);
                    },
                    Some(true) => {
                        let ghost d0 = views(dirs@);
                        dirs.push(parent(f.as_str()));
                        assert(views(dirs@) =~= d0.push(parent_spec(f@)));
                    },
                    Some(false) => {},
                },
            }
            i = i + 1;
        }
        assert(views(files@).take(i as int) =~= views(files@));
        let mut r: Vec<String> = Vec::new();
        let mut k: usize = 0;
        while k < dirs.len()
            invariant
                k <= dirs@.len(),
                strictly_sorted(views(r@)),
                forall|d: Seq<char>| views(r@).contains(d) <==> (is_leaf(d, views(dirs@)) && views(dirs@).take(k as int).contains(d)),
            decreases dirs@.len() - k,
        {
            let d = &dirs[k];
            let ghost dv = views(dirs@);
            assert(dv[k as int] == d@);
            assert(dv.contains(d@));
            let ghost r0 = views(r@);
            let leaf = has_no_other_beneath(d, &dirs);
            assert(leaf == is_leaf(d@, dv));
            if leaf && !crate::compose::holds(&r, d) {
                insert_sorted(&mut r, d.clone());
            }
            assert(dv.take(k + 1) =~= dv.take(k as int).push(d@));
            assert forall|y: Seq<char>| views(r@).contains(y) <==> (is_leaf(y, dv) && dv.take(k + 1).contains(y)) by {
                if y == d@ {
                    assert(dv.take(k + 1)[k as int] == y);
                }
                if dv.take(k + 1).contains(y) && !dv.take(k as int).contains(y) {
                    let a = choose|a: int| 0 <= a < k + 1 && #[trigger] dv.take(k + 1)[a] == y;
                    if a < k {
                        assert(dv.take(k as int)[a] == y);
                    }
                }
                if dv.take(k as int).contains(y) {
                    let a = choose|a: int| 0 <= a < k && #[trigger] dv.take(k as int)[a] == y;
                    assert(dv.take(k + 1)[a] == y);
                }
            }
            k = k + 1;
        }
        assert(views(dirs@).take(k as int) =~= views(dirs@));
        Ok(r)
    }
}

/// Once the search of a prefix of the files fails, the whole search fails.
proof fn lemma_found_none(root: Seq<char>, files: Seq<Seq<char>>, k: int)
    requires
        0 <= k <= files.len(),
        found_dirs(root, files.take(k)) is None,
    ensures
        found_dirs(root, files) is None,
    decreases files.len() - k,
{
    if k < files.len() {
        assert(files.take(k + 1).drop_last() =~= files.take(k));
        lemma_found_none(root, files, k + 1);
    } else {
        assert(files.take(k) =~= files);
    }
}

} // verus!
