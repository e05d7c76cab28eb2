//! Sets of relative file paths and the classification of two of them into
//! removed, added and possibly changed files.
use vstd::prelude::*;

verus! {

/// The paths that the list `v` holds, as a set.
pub open spec fn path_set(v: Seq<String>) -> Set<Seq<char>> {
    Set::new(|p: Seq<char>| exists|j: int| 0 <= j < v.len() && #[trigger] v[j]@ == p)
}

/// Whether `v` holds the path `p`.
pub fn contains_path(v: &Vec<String>, p: &String) -> (r: bool)
    ensures
        r == path_set(v@).contains(p@),
{
    let mut i: usize = 0;
    while i < v.len()
        invariant
            i <= v@.len(),
            forall|j: int| 0 <= j < i ==> #[trigger] v@[j]@ != p@,
        decreases v@.len() - i,
    {
        if v[i] == *p {
            assert(v@[i as int]@ == p@);
            return true;
        }
        i = i + 1;
    }
    false
}

/// The test that keeps a path when `other` holds it (`shared`) or when it does
/// not (`!shared`).
pub open spec fn keeps(other: Set<Seq<char>>, shared: bool) -> spec_fn(String) -> bool {
    |p: String| other.contains(p@) == shared
}

/// Which paths of `source` are kept: those that `other` holds when `keep_shared`,
/// else those that it does not hold.
fn filter_paths(source: &Vec<String>, other: &Vec<String>, keep_shared: bool) -> (r: Vec<String>)
    ensures
        r@ == source@.filter(keeps(path_set(other@), keep_shared)),
        keep_shared ==> path_set(r@) == path_set(source@).intersect(path_set(other@)),
        !keep_shared ==> path_set(r@) == path_set(source@).difference(path_set(other@)),
{
    let mut out: Vec<String> = Vec::new();
    let mut i: usize = 0;
    while i < source.len()
        invariant
            i <= source@.len(),
            out@ == source@.subrange(0, i as int).filter(keeps(path_set(other@), keep_shared)),
            forall|q: Seq<char>| #[trigger] path_set(out@).contains(q) <==> (exists|j: int| 0 <= j < i && #[trigger] source@[j]@ == q)
                && (path_set(other@).contains(q) == keep_shared),
        decreases source@.len() - i,
    {
        let p = &source[i];
        let shared = contains_path(other, p);
        proof {
            reveal(Seq::filter);
            assert(source@.subrange(0, i + 1).drop_last() =~= source@.subrange(0, i as int));
            assert(source@.subrange(0, i + 1).last() == source@[i as int]);
        }
        if shared == keep_shared {
            let ghost before = out@;
            let q = p.clone();
            assert(q == *p);
            out.push(q);
            assert forall|q: Seq<char>| #[trigger] path_set(out@).contains(q) <==> path_set(before).contains(q) || q == p@ by {
                if q == p@ {
                    assert(out@[before.len() as int]@ == q);
                }
                if path_set(before).contains(q) {
                    let j = choose|j: int| 0 <= j < before.len() && before[j]@ == q;
                    assert(out@[j]@ == q);
                }
                if path_set(out@).contains(q) && q != p@ {
                    let j = choose|j: int| 0 <= j < out@.len() && out@[j]@ == q;
                    assert(before[j]@ == q);
                }
            }
        }
        assert forall|q: Seq<char>| #[trigger] path_set(out@).contains(q) <==> (exists|j: int| 0 <= j < i + 1 && #[trigger] source@[j]@ == q)
            && (path_set(other@).contains(q) == keep_shared) by {
            if q == source@[i as int]@ {
                assert(source@[i as int]@ == q);
            }
        }
        i = i + 1;
    }
    assert(source@.subrange(0, source@.len() as int) =~= source@);
    assert(path_set(out@) =~= if keep_shared {
        path_set(source@).intersect(path_set(other@))
    } else {
        path_set(source@).difference(path_set(other@))
    });
    out
}

/// The paths of an old and a new tree, classified.
#[derive(Debug, Clone, PartialEq, Eq)]
pub struct Classification {
    /// Paths only the old tree holds.
    pub removed: Vec<String>,
    /// Paths only the new tree holds.
    pub added: Vec<String>,
    /// Paths both trees hold; their contents may differ.
    pub common: Vec<String>,
}

/// Classifies the paths of an old and a new tree into removed (old only),
/// added (new only) and common ones.
pub fn classify(old: &Vec<String>, new: &Vec<String>) -> (r: Classification)
    ensures
        r.removed@ == old@.filter(keeps(path_set(new@), false)),
        r.added@ == new@.filter(keeps(path_set(old@), false)),
        r.common@ == old@.filter(keeps(path_set(new@), true)),
        path_set(r.removed@) == path_set(old@).difference(path_set(new@)),
        path_set(r.added@) == path_set(new@).difference(path_set(old@)),
        path_set(r.common@) == path_set(old@).intersect(path_set(new@)),
{
    let removed = filter_paths(old, new, false);
    let added = filter_paths(new, old, false);
    let common = filter_paths(old, new, true);
    Classification { removed, added, common }
}

/// Removed, added and common paths partition all the paths of the two trees:
/// together they are the union of both sets, and no two of them share a path.
pub proof fn lemma_classification_partitions(a: Set<Seq<char>>, b: Set<Seq<char>>)
    ensures
        a.difference(b).union(b.difference(a)).union(a.intersect(b)) == a.union(b),
        a.difference(b).disjoint(b.difference(a)),
        a.difference(b).disjoint(a.intersect(b)),
        b.difference(a).disjoint(a.intersect(b)),
{
    assert(a.difference(b).union(b.difference(a)).union(a.intersect(b)) =~= a.union(b));
}

/// Taking the removed paths out of the old set and putting the added ones in
/// gives exactly the new set: a patched tree holds the new tree's files.
pub proof fn lemma_patched_paths_are_new(a: Set<Seq<char>>, b: Set<Seq<char>>)
    ensures
        a.difference(a.difference(b)).union(b.difference(a)) == b,
        a.difference(a.difference(b)) == a.intersect(b),
{
    assert(a.difference(a.difference(b)).union(b.difference(a)) =~= b);
    assert(a.difference(a.difference(b)) =~= a.intersect(b));
}

} // verus!
