//! Glob matching of paths, and the pattern that finds descriptor files.
use vstd::prelude::*;

verus! {

/// A pattern that is not a valid glob.
#[derive(Clone, Copy, Debug, PartialEq, Eq, Structural)]
pub enum GlobError {
    InvalidPattern,
}

/// What globset answers for `path` against `pattern`, compiled with a
/// separator that `*` does not cross: `None` where the pattern does not
/// parse, or its matcher does not compile.
pub uninterp spec fn glob_match_of(pattern: Seq<char>, path: Seq<char>) -> Option<bool>;

/// Relies on globset's `GlobBuilder::build` (with `literal_separator`),
/// `GlobSetBuilder::build` for a set of that one glob, and `GlobSet::is_match`:
/// each returns its failure as an error, and the answer depends on the
/// pattern and the path alone.
#[verifier::external_body]
pub(crate) fn glob_is_match(pattern: &str, path: &str) -> (r: Option<bool>)
    ensures
        r == glob_match_of(pattern@, path@),
{
    let glob = match globset::GlobBuilder::new(pattern).literal_separator(true).build() {
        Ok(glob) => glob,
        Err(_) => return None,
    };
    match globset::GlobSetBuilder::new().add(glob).build() {
        Ok(set) => Some(set.is_match(path)),
        Err(_) => None,
    }
}

/// The glob that matches descriptor files: base name `over` with one of the
/// extensions `yml`, `yaml`, `toml` and `json`, in any directory.
pub open spec fn descriptor_pattern() -> Seq<char> {
    "**/over.{yml,yaml,toml,json}"@
}

/// The pattern that finds descriptor files.
pub fn pattern() -> (r: String)
    ensures
        r@ == descriptor_pattern(),
{
    String::from_str("**/over.{yml,yaml,toml,json}")
}

/// What the patterns `ps` answer together for `path`: `None` where one of
/// them is invalid, else whether one of them matches.
pub open spec fn match_any(ps: Seq<Seq<char>>, path: Seq<char>) -> Option<bool>
    decreases ps.len(),
{
    if ps.len() == 0 {
        Some(false)
    } else {
        match (match_any(ps.drop_last(), path), glob_match_of(ps.last(), path)) {
            (Some(a), Some(b)) => Some(a || b),
            _ => None,
        }
    }
}

/// The views of a list of strings.
pub open spec fn views(v: Seq<String>) -> Seq<Seq<char>> {
    v.map_values(|s: String| s@)
}

/// Whether one of `patterns` matches `path`; `None` where one is invalid.
pub fn matches_any(patterns: &Vec<String>, path: &str) -> (r: Option<bool>)
    ensures
        r == match_any(views(patterns@), path@),
{
    let mut found = false;
    let mut i: usize = 0;
    while i < patterns.len()
        invariant
            i <= patterns@.len(),
            match_any(views(patterns@).take(i as int), path@) == Some(found),
        decreases patterns@.len() - i,
    {
        let ghost ps = views(patterns@);
        assert(ps.take(i + 1).drop_last() =~= ps.take(i as int));
        match glob_is_match(patterns[i].as_str(), path) {
            None => {
                assert(match_any(ps.take(i + 1), path@) is None);
                assert(ps.take(i + 1) =~= ps.take(i + 1).take(i + 1));
                proof {
                    lemma_match_any_none(ps, path@, (i + 1) as int);
                }
                return None;
            },
            Some(b) => {
                found = found || b;
            },
        }
        i = i + 1;
    }
    assert(views(patterns@).take(i as int) =~= views(patterns@));
    Some(found)
}

/// Once a prefix of the patterns is invalid, so is the whole list.
proof fn lemma_match_any_none(ps: Seq<Seq<char>>, path: Seq<char>, k: int)
    requires
        0 <= k <= ps.len(),
        match_any(ps.take(k), path) is None,
    ensures
        match_any(ps, path) is None,
    decreases ps.len() - k,
{
    if k < ps.len() {
        assert(ps.take(k + 1).drop_last() =~= ps.take(k));
        lemma_match_any_none(ps, path, k + 1);
    } else {
        assert(ps.take(k) =~= ps);
    }
}

} // verus!
