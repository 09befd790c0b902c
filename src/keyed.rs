//! Lists of keyed entries, merged as maps: an entry of the later list
//! replaces the earlier entry with the same key.
use vstd::prelude::*;

verus! {

/// Some entry of `v` has the key `k`.
pub open spec fn has_key<V>(v: Seq<(String, V)>, k: Seq<char>) -> bool {
    exists|j: int| 0 <= j < v.len() && (#[trigger] v[j]).0@ == k
}

/// The entries of `base` whose key `over` does not hold, in their order.
pub open spec fn without_keys<V>(base: Seq<(String, V)>, over: Seq<(String, V)>) -> Seq<(String, V)>
    decreases base.len(),
{
    if base.len() == 0 {
        Seq::empty()
    } else {
        let r = without_keys(base.drop_last(), over);
        if has_key(over, base.last().0@) {
            r
        } else {
            r.push(base.last())
        }
    }
}

/// `base` merged with `over`: the entries of `base` that `over` does not
/// replace, then those of `over`.
pub open spec fn merge_keyed_spec<V>(base: Seq<(String, V)>, over: Seq<(String, V)>) -> Seq<(String, V)> {
    without_keys(base, over) + over
}

/// No two entries have the same key.
pub open spec fn unique_keys<V>(v: Seq<(String, V)>) -> bool {
    forall|i: int, j: int| 0 <= i < j < v.len() ==> (#[trigger] v[i]).0@ != (#[trigger] v[j]).0@
}

/// The entries kept from `base` are entries of `base`, in order, whose keys
/// `over` does not hold; they keep unique keys.
proof fn lemma_without_keys<V>(base: Seq<(String, V)>, over: Seq<(String, V)>)
    ensures
        forall|i: int| 0 <= i < without_keys(base, over).len() ==> !has_key(over, (#[trigger] without_keys(base, over)[i]).0@)
            && base.contains(without_keys(base, over)[i]),
        unique_keys(base) ==> unique_keys(without_keys(base, over)),
    decreases base.len(),
{
    if base.len() > 0 {
        let d = base.drop_last();
        lemma_without_keys(d, over);
        let w = without_keys(base, over);
        let wd = without_keys(d, over);
        assert forall|i: int| 0 <= i < w.len() implies !has_key(over, (#[trigger] w[i]).0@) && base.contains(w[i]) by {
            if i < wd.len() {
                assert(w[i] == wd[i]);
                let k = choose|k: int| 0 <= k < d.len() && d[k] == wd[i];
                assert(base[k] == d[k]);
            } else {
                assert(base[base.len() - 1] == base.last());
            }
        }
        if unique_keys(base) {
            assert forall|i: int, j: int| 0 <= i < j < d.len() implies (#[trigger] d[i]).0@ != (#[trigger] d[j]).0@ by {
                assert(d[i] == base[i] && d[j] == base[j]);
            }
            assert forall|i: int, j: int| 0 <= i < j < w.len() implies (#[trigger] w[i]).0@ != (#[trigger] w[j]).0@ by {
                if j < wd.len() {
                    assert(w[i] == wd[i] && w[j] == wd[j]);
                } else {
                    assert(w[i] == wd[i]);
                    let k = choose|k: int| 0 <= k < d.len() && d[k] == wd[i];
                    assert(base[k] == d[k]);
                    assert(w[j] == base[base.len() - 1]);
                }
            }
        }
    }
}

/// Merging two lists with unique keys gives unique keys.
pub proof fn lemma_merge_keyed_unique<V>(base: Seq<(String, V)>, over: Seq<(String, V)>)
    requires
        unique_keys(base),
        unique_keys(over),
    ensures
        unique_keys(merge_keyed_spec(base, over)),
{
    lemma_without_keys(base, over);
    let w = without_keys(base, over);
    let m = merge_keyed_spec(base, over);
    assert forall|i: int, j: int| 0 <= i < j < m.len() implies (#[trigger] m[i]).0@ != (#[trigger] m[j]).0@ by {
        if j < w.len() {
            assert(m[i] == w[i] && m[j] == w[j]);
        } else if i >= w.len() {
            assert(m[i] == over[i - w.len()] && m[j] == over[j - w.len()]);
        } else {
            assert(m[i] == w[i]);
            assert(m[j] == over[j - w.len()]);
            assert(!has_key(over, w[i].0@));
        }
    }
}

/// Whether some entry of `v` has the key `k`.
pub fn contains_key<V>(v: &Vec<(String, V)>, k: &String) -> (r: bool)
    ensures
        r == has_key(v@, k@),
{
    let mut i: usize = 0;
    while i < v.len()
        invariant
            i <= v@.len(),
            forall|j: int| 0 <= j < i ==> (#[trigger] v@[j]).0@ != k@,
        decreases v@.len() - i,
    {
        if v[i].0 == *k {
            return true;
        }
        i = i + 1;
    }
    false
}

/// `base` merged with `over`, where `over` wins on a shared key.
pub fn merge_keyed<V>(base: Vec<(String, V)>, over: Vec<(String, V)>) -> (r: Vec<(String, V)>)
    ensures
        r@ == merge_keyed_spec(base@, over@),
{
    let ghost orig = base@;
    let mut base = base;
    let n = base.len();
    let mut r: Vec<(String, V)> = Vec::new();
    let mut i: usize = 0;
    while base.len() > 0
        invariant
            base@ == orig.skip(i as int),
            i + base@.len() == orig.len(),
            orig.len() == n,
            r@ == without_keys(orig.take(i as int), over@),
        decreases base@.len(),
    {
        let e = base.remove(0);
        assert(orig.take(i + 1).drop_last() =~= orig.take(i as int));
        assert(orig.take(i + 1).last() == e);
        if !contains_key(&over, &e.0) {
            r.push(e);
        }
        i = i + 1;
        assert(base@ =~= orig.skip(i as int));
    }
    assert(orig.take(i as int) =~= orig);
    let mut over = over;
    r.append(&mut over);
    r
}

} // verus!
