//! Paths as character sequences: joining, stripping a root, and the
//! expansion of a target that starts with `~`.
use vstd::prelude::*;

verus! {

/// `pre` is a prefix of `s`.
pub open spec fn is_prefix(pre: Seq<char>, s: Seq<char>) -> bool {
    pre.len() <= s.len() && s.subrange(0, pre.len() as int) == pre
}

/// `base` joined with the relative path `rel`: no separator is added where
/// either side is empty or where `base` already ends with one.
pub open spec fn join_spec(base: Seq<char>, rel: Seq<char>) -> Seq<char> {
    if rel.len() == 0 {
        base
    } else if base.len() == 0 {
        rel
    } else if base.last() == '/' {
        base + rel
    } else {
        base + seq!['/'] + rel
    }
}

/// The path `p` relative to `root`, comparing whole components: `None` where
/// `p` is not `root` nor lies beneath it.
pub open spec fn strip_root_spec(root: Seq<char>, p: Seq<char>) -> Option<Seq<char>> {
    if p == root {
        Some(Seq::empty())
    } else if is_prefix(root, p) && root.len() > 0 && root.last() == '/' {
        Some(p.subrange(root.len() as int, p.len() as int))
    } else if is_prefix(root, p) && p.len() > root.len() && p[root.len() as int] == '/' {
        Some(p.subrange(root.len() as int + 1, p.len() as int))
    } else {
        None
    }
}

/// `p` is `base` or lies beneath it.
pub open spec fn path_starts_with(p: Seq<char>, base: Seq<char>) -> bool {
    strip_root_spec(base, p) is Some
}

/// A rendered target: `~` is the home directory, `~/rest` is `rest` under the
/// home directory, and anything else stands as it is.
pub open spec fn expand_target_spec(t: Seq<char>, home: Seq<char>) -> Seq<char> {
    if t == seq!['~'] {
        home
    } else if t.len() >= 2 && t[0] == '~' && t[1] == '/' {
        join_spec(home, t.subrange(2, t.len() as int))
    } else {
        t
    }
}

/// Whether `pre` is a prefix of `s`.
pub fn starts_with(s: &str, pre: &str) -> (r: bool)
    ensures
        r == is_prefix(pre@, s@),
{
    let n = pre.unicode_len();
    let m = s.unicode_len();
    if n > m {
        return false;
    }
    let mut i: usize = 0;
    while i < n
        invariant
            n == pre@.len(),
            m == s@.len(),
            n <= m,
            i <= n,
            forall|j: int| 0 <= j < i ==> s@[j] == pre@[j],
        decreases n - i,
    {
        if s.get_char(i) != pre.get_char(i) {
            assert(s@.subrange(0, n as int)[i as int] != pre@[i as int]);
            return false;
        }
        i = i + 1;
    }
    assert(s@.subrange(0, n as int) =~= pre@);
    true
}

/// Whether two strings hold the same characters.
pub fn same_chars(a: &str, b: &str) -> (r: bool)
    ensures
        r == (a@ == b@),
{
    let r = a.unicode_len() == b.unicode_len() && starts_with(a, b);
    proof {
        if a@.len() == b@.len() && is_prefix(b@, a@) {
            assert(a@ =~= a@.subrange(0, b@.len() as int));
        }
        if a@ == b@ {
            assert(a@.subrange(0, b@.len() as int) =~= b@);
        }
    }
    r
}

/// `base` joined with the relative path `rel`.
pub fn join(base: &str, rel: &str) -> (r: String)
    ensures
        r@ == join_spec(base@, rel@),
{
    let n = base.unicode_len();
    if rel.unicode_len() == 0 {
        base.to_owned()
    } else if n == 0 {
        rel.to_owned()
    } else if base.get_char(n - 1) == '/' {
        base.to_owned().concat(rel)
    } else {
        let sep = "/";
        proof {
            reveal_strlit("/");
        }
        let r = base.to_owned().concat(sep).concat(rel);
        assert(r@ =~= base@ + seq!['/'] + rel@);
        r
    }
}

/// The path `p` relative to `root`, or `None` where `p` is not `root` nor
/// lies beneath it.
pub fn strip_root(root: &str, p: &str) -> (r: Option<String>)
    ensures
        r matches Some(s) ==> strip_root_spec(root@, p@) == Some(s@),
        r is None <==> strip_root_spec(root@, p@) is None,
{
    let n = root.unicode_len();
    let m = p.unicode_len();
    if same_chars(root, p) {
        let e = String::new();
        assert(e@ =~= Seq::<char>::empty());
        Some(e)
    } else if !starts_with(p, root) {
        None
    } else if n > 0 && root.get_char(n - 1) == '/' {
        Some(p.substring_char(n, m).to_owned())
    } else if m > n && p.get_char(n) == '/' {
        Some(p.substring_char(n + 1, m).to_owned())
    } else {
        None
    }
}

/// Whether `p` is `base` or lies beneath it.
pub fn is_within(p: &str, base: &str) -> (r: bool)
    ensures
        r == path_starts_with(p@, base@),
{
    strip_root(base, p).is_some()
}

/// The path that a rendered target stands for, given the home directory.
pub fn expand_target(t: &str, home: &str) -> (r: String)
    ensures
        r@ == expand_target_spec(t@, home@),
{
    let n = t.unicode_len();
    if n == 1 && t.get_char(0) == '~' {
        assert(t@ =~= seq!['~']);
        home.to_owned()
    } else if n >= 2 && t.get_char(0) == '~' && t.get_char(1) == '/' {
        assert(t@ != seq!['~']);
        join(home, t.substring_char(2, n))
    } else {
        assert(n == 1 ==> t@ != seq!['~'] || t@[0] == '~');
        t.to_owned()
    }
}

/// A target of `~` stands for the home directory itself, and `~/rest` for
/// `rest` beneath it with one separator between them, also where the home
/// directory is the filesystem root.
pub proof fn lemma_target_expansion(home: Seq<char>, rest: Seq<char>)
    requires
        home.len() > 0,
        rest.len() > 0,
    ensures
        expand_target_spec(seq!['~'], home) == home,
        home.last() != '/' ==> expand_target_spec(seq!['~', '/'] + rest, home) == home + seq!['/']
            + rest,
        home.last() == '/' ==> expand_target_spec(seq!['~', '/'] + rest, home) == home + rest,
        expand_target_spec(seq!['~', '/'] + rest, seq!['/']) == seq!['/'] + rest,
{
    let t = seq!['~', '/'] + rest;
    assert(t.subrange(2, t.len() as int) =~= rest);
    assert(t != seq!['~']) by {
        assert(t.len() != 1);
    }
    assert(seq!['/'].last() == '/');
}

/// A path shortened for display: a leading home directory becomes `~`.
pub open spec fn short_path_spec(path: Seq<char>, home: Seq<char>) -> Seq<char> {
    if home.len() > 0 && is_prefix(home, path) {
        seq!['~'] + path.skip(home.len() as int)
    } else {
        path
    }
}

/// `path` shortened for display: a leading home directory becomes `~`.
pub fn short_path(path: &str, home: &str) -> (r: String)
    ensures
        r@ == short_path_spec(path@, home@),
{
    let n = home.unicode_len();
    if n > 0 && starts_with(path, home) {
        let tilde = String::from_str("~");
        proof {
            reveal_strlit("~");
        }
        let r = tilde.concat(path.substring_char(n, path.unicode_len()));
        assert(r@ =~= seq!['~'] + path@.skip(n as int));
        r
    } else {
        path.to_owned()
    }
}

} // verus!
