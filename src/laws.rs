use vstd::prelude::*;

verus! {

/// The set reached from `s` by inserting the values of `xs` in turn, as
/// `BTreeSet::insert` acts on the set a tree holds.
pub open spec fn insert_all(s: Set<i32>, xs: Seq<i32>) -> Set<i32>
    decreases xs.len(),
{
    if xs.len() == 0 {
        s
    } else {
        insert_all(s, xs.drop_last()).insert(xs.last())
    }
}

/// The set reached from `s` by removing the values of `ys` in turn, as
/// `BTreeSet::remove` acts on the set a tree holds.
pub open spec fn remove_all(s: Set<i32>, ys: Seq<i32>) -> Set<i32>
    decreases ys.len(),
{
    if ys.len() == 0 {
        s
    } else {
        remove_all(s, ys.drop_last()).remove(ys.last())
    }
}

proof fn lemma_insert_all_is_union(s: Set<i32>, xs: Seq<i32>)
    ensures
        insert_all(s, xs) == s.union(xs.to_set()),
    decreases xs.len(),
{
    if xs.len() == 0 {
        assert(s.union(xs.to_set()) =~= s);
    } else {
        let p = xs.drop_last();
        lemma_insert_all_is_union(s, p);
        assert forall|x: i32| #[trigger] xs.contains(x) == (p.contains(x) || x == xs.last()) by {
            if xs.contains(x) {
                let k = choose|k: int| 0 <= k < xs.len() && xs[k] == x;
                if k < p.len() {
                    assert(p[k] == x);
                }
            }
            if p.contains(x) {
                let k = choose|k: int| 0 <= k < p.len() && p[k] == x;
                assert(xs[k] == x);
            }
        }
        assert(insert_all(s, xs) =~= s.union(xs.to_set()));
    }
}

proof fn lemma_remove_all_is_difference(s: Set<i32>, ys: Seq<i32>)
    ensures
        remove_all(s, ys) == s.difference(ys.to_set()),
    decreases ys.len(),
{
    if ys.len() == 0 {
        assert(s.difference(ys.to_set()) =~= s);
    } else {
        let p = ys.drop_last();
        lemma_remove_all_is_difference(s, p);
        assert forall|x: i32| #[trigger] ys.contains(x) == (p.contains(x) || x == ys.last()) by {
            if ys.contains(x) {
                let k = choose|k: int| 0 <= k < ys.len() && ys[k] == x;
                if k < p.len() {
                    assert(p[k] == x);
                }
            }
            if p.contains(x) {
                let k = choose|k: int| 0 <= k < p.len() && p[k] == x;
                assert(ys[k] == x);
            }
        }
        assert(remove_all(s, ys) =~= s.difference(ys.to_set()));
    }
}

/// Inserting any values, repeats allowed, into an empty set and then removing
/// every one of them, in any order, leaves the set empty.
pub proof fn lemma_round_trip(xs: Seq<i32>, ys: Seq<i32>)
    requires
        forall|x: i32| xs.contains(x) ==> ys.contains(x),
    ensures
        remove_all(insert_all(Set::empty(), xs), ys) == Set::<i32>::empty(),
{
    lemma_insert_all_is_union(Set::empty(), xs);
    lemma_remove_all_is_difference(insert_all(Set::empty(), xs), ys);
    assert(remove_all(insert_all(Set::empty(), xs), ys) =~= Set::<i32>::empty());
}

/// Inserting a value already present leaves the set as it was.
pub proof fn lemma_insert_present(s: Set<i32>, v: i32)
    requires
        s.contains(v),
    ensures
        s.insert(v) == s,
{
    assert(s.insert(v) =~= s);
}

/// Removing a value not present leaves the set as it was.
pub proof fn lemma_remove_absent(s: Set<i32>, v: i32)
    requires
        !s.contains(v),
    ensures
        s.remove(v) == s,
{
    assert(s.remove(v) =~= s);
}

} // verus!
