use vstd::prelude::*;
use crate::seqs::{
    sorted, all_below, all_above, lemma_contains_concat, lemma_sorted_concat, lemma_sorted_three,
    lemma_sorted_insert, lemma_sorted_join, lemma_sorted_remove, lemma_sorted_neighbors,
};

verus! {

/// The largest minimum degree accepted: it keeps `2d` within `usize`.
pub const MAX_DEGREE: usize = 0x4000_0000;

/// A B-tree node: an ordered run of keys and, unless it is a leaf, one more
/// child than keys.
pub struct Node {
    pub keys: Vec<i32>,
    pub children: Vec<Node>,
}

/// The values of a subtree in order.
pub open spec fn inorder(n: Node) -> Seq<i32>
    decreases n, 1nat, 0nat,
{
    if n.children.len() == 0 {
        n.keys@
    } else {
        flat_upto(n.keys@, n.children@, n.keys@.len() as int)
    }
}

/// The values of children `0..=i` interleaved with keys `0..i`.
pub open spec fn flat_upto(ks: Seq<i32>, cs: Seq<Node>, i: int) -> Seq<i32>
    decreases cs, 0nat, i,
{
    if i <= 0 || cs.len() == 0 {
        if cs.len() == 0 {
            seq![]
        } else {
            inorder(cs[0])
        }
    } else if i >= cs.len() {
        seq![]
    } else {
        flat_upto(ks, cs, i - 1) + seq![ks[i - 1]] + inorder(cs[i])
    }
}


/// The values of a run of children interleaved with the keys between them.
pub open spec fn flat(ks: Seq<i32>, cs: Seq<Node>) -> Seq<i32> {
    flat_upto(ks, cs, ks.len() as int)
}

/// What precedes child `i` in the values of a node with keys `ks` and children `cs`.
pub open spec fn left_of(ks: Seq<i32>, cs: Seq<Node>, i: int) -> Seq<i32> {
    if i == 0 {
        seq![]
    } else {
        flat(ks.subrange(0, i - 1), cs.subrange(0, i)) + seq![ks[i - 1]]
    }
}

/// What follows child `i` in the values of a node with keys `ks` and children `cs`.
pub open spec fn right_of(ks: Seq<i32>, cs: Seq<Node>, i: int) -> Seq<i32> {
    if i == ks.len() {
        seq![]
    } else {
        seq![ks[i]] + flat(ks.subrange(i + 1, ks.len() as int), cs.subrange(i + 1, cs.len() as int))
    }
}

proof fn lemma_upto_prefix(ks: Seq<i32>, cs: Seq<Node>, ks2: Seq<i32>, cs2: Seq<Node>, i: int)
    requires
        0 <= i < cs.len(),
        i < cs2.len(),
        i <= ks.len(),
        i <= ks2.len(),
        forall|j: int| 0 <= j < i ==> ks[j] == ks2[j],
        forall|j: int| 0 <= j <= i ==> cs[j] == cs2[j],
    ensures
        flat_upto(ks, cs, i) == flat_upto(ks2, cs2, i),
    decreases i,
{
    if i > 0 {
        lemma_upto_prefix(ks, cs, ks2, cs2, i - 1);
    }
}

/// The values of two runs joined by a key are the values of each run around that key.
pub proof fn lemma_flat_concat(ks1: Seq<i32>, cs1: Seq<Node>, k: i32, ks2: Seq<i32>, cs2: Seq<Node>)
    requires
        cs1.len() == ks1.len() + 1,
        cs2.len() == ks2.len() + 1,
    ensures
        flat(ks1 + seq![k] + ks2, cs1 + cs2) == flat(ks1, cs1) + seq![k] + flat(ks2, cs2),
    decreases ks2.len(),
{
    let ks = ks1 + seq![k] + ks2;
    let cs = cs1 + cs2;
    let l1 = ks1.len() as int;
    if ks2.len() == 0 {
        lemma_upto_prefix(ks, cs, ks1, cs1, l1);
        assert(cs[l1 + 1] == cs2[0]);
        assert(flat_upto(ks, cs, l1 + 1) == flat_upto(ks, cs, l1) + seq![ks[l1]] + inorder(cs[l1 + 1]));
        assert(flat(ks2, cs2) == inorder(cs2[0]));
    } else {
        let ks2p = ks2.drop_last();
        let cs2p = cs2.drop_last();
        lemma_flat_concat(ks1, cs1, k, ks2p, cs2p);
        let kp = ks1 + seq![k] + ks2p;
        let cp = cs1 + cs2p;
        let n = ks.len() as int;
        lemma_upto_prefix(ks, cs, kp, cp, n - 1);
        assert(flat_upto(ks, cs, n) == flat_upto(ks, cs, n - 1) + seq![ks[n - 1]] + inorder(cs[n]));
        let m = ks2.len() as int;
        lemma_upto_prefix(ks2, cs2, ks2p, cs2p, m - 1);
        assert(flat_upto(ks2, cs2, m) == flat_upto(ks2, cs2, m - 1) + seq![ks2[m - 1]] + inorder(cs2[m]));
        assert(ks[n - 1] == ks2[m - 1]);
        assert(cs[n] == cs2[m]);
        assert(flat(ks, cs) =~= flat(ks1, cs1) + seq![k] + flat(ks2, cs2));
    }
}

/// The values of a node split around child `i`.
pub proof fn lemma_decompose(ks: Seq<i32>, cs: Seq<Node>, i: int)
    requires
        cs.len() == ks.len() + 1,
        0 <= i <= ks.len(),
    ensures
        flat(ks, cs) == left_of(ks, cs, i) + inorder(cs[i]) + right_of(ks, cs, i),
{
    let l = ks.len() as int;
    if i < l {
        assert(ks =~= ks.subrange(0, i) + seq![ks[i]] + ks.subrange(i + 1, l));
        assert(cs =~= cs.subrange(0, i + 1) + cs.subrange(i + 1, l + 1));
        lemma_flat_concat(ks.subrange(0, i), cs.subrange(0, i + 1), ks[i], ks.subrange(i + 1, l), cs.subrange(i + 1, l + 1));
    }
    let pk = ks.subrange(0, i);
    let pc = cs.subrange(0, i + 1);
    if i > 0 {
        assert(pk =~= pk.subrange(0, i - 1) + seq![pk[i - 1]] + seq![]);
        assert(pc =~= pc.subrange(0, i) + seq![pc[i]]);
        lemma_flat_concat(pk.subrange(0, i - 1), pc.subrange(0, i), pk[i - 1], seq![], seq![pc[i]]);
        assert(pk.subrange(0, i - 1) =~= ks.subrange(0, i - 1));
        assert(pc.subrange(0, i) =~= cs.subrange(0, i));
    }
    assert(flat(pk, pc) == left_of(ks, cs, i) + inorder(cs[i]));
    if i == l {
        assert(pk =~= ks);
        assert(pc =~= cs);
    }
    assert(flat(ks, cs) =~= left_of(ks, cs, i) + inorder(cs[i]) + right_of(ks, cs, i));
}


/// The shape rules of a subtree of height `h` in a tree of minimum degree `d`: at
/// most `2d - 1` keys per node, at least `d - 1` in every node below this one,
/// one more child than keys in every internal node, and every leaf at depth `h`.
pub open spec fn node_wf(n: Node, d: nat, h: nat) -> bool
    decreases h,
{
    &&& n.keys.len() <= 2 * d - 1
    &&& if h == 0 {
        n.children.len() == 0
    } else {
        &&& n.children.len() == n.keys.len() + 1
        &&& forall|j: int|
            0 <= j < n.children.len() ==> d - 1 <= (#[trigger] n.children@[j]).keys.len()
                && node_wf(n.children@[j], d, (h - 1) as nat)
    }
}

proof fn lemma_upto_len(ks: Seq<i32>, cs: Seq<Node>, i: int)
    requires
        0 <= i < cs.len(),
    ensures
        flat_upto(ks, cs, i).len() >= i,
    decreases i,
{
    if i > 0 {
        lemma_upto_len(ks, cs, i - 1);
    }
}

/// A subtree holds at least as many values as its top node has keys.
pub proof fn lemma_len_at_least_keys(n: Node)
    requires
        n.children.len() == 0 || n.children.len() == n.keys.len() + 1,
    ensures
        inorder(n).len() >= n.keys.len(),
{
    if n.children.len() > 0 {
        lemma_upto_len(n.keys@, n.children@, n.keys.len() as int);
    }
}

/// In a sorted node, child `i` is sorted, lies strictly between the keys around
/// it, and holds every value of the node that lies strictly between them.
#[verifier::rlimit(60)]
pub proof fn lemma_child_bracket(ks: Seq<i32>, cs: Seq<Node>, i: int)
    requires
        cs.len() == ks.len() + 1,
        0 <= i <= ks.len(),
        sorted(flat(ks, cs)),
    ensures
        sorted(inorder(cs[i])),
        sorted(left_of(ks, cs, i)),
        sorted(right_of(ks, cs, i)),
        i > 0 ==> all_above(inorder(cs[i]), ks[i - 1]),
        i < ks.len() ==> all_below(inorder(cs[i]), ks[i]),
        i > 0 && i < ks.len() ==> ks[i - 1] < ks[i],
        forall|x: i32|
            #[trigger] flat(ks, cs).contains(x) && (i > 0 ==> ks[i - 1] < x) && (i < ks.len() ==> x
                < ks[i]) ==> inorder(cs[i]).contains(x),
        forall|x: i32|
            (#[trigger] left_of(ks, cs, i).contains(x) ==> i > 0 && x <= ks[i - 1]),
        forall|x: i32|
            (#[trigger] right_of(ks, cs, i).contains(x) ==> i < ks.len() && ks[i] <= x),
{
    let a = left_of(ks, cs, i);
    let c = inorder(cs[i]);
    let b = right_of(ks, cs, i);
    lemma_decompose(ks, cs, i);
    lemma_sorted_concat(a + c, b);
    lemma_sorted_concat(a, c);
    lemma_contains_concat(a + c, b);
    lemma_contains_concat(a, c);
    if i > 0 {
        let la = a.len() - 1;
        assert(a[la] == ks[i - 1]);
        assert forall|j: int| 0 <= j < c.len() implies ks[i - 1] < c[j] by {
            assert(a[la] < c[j]);
        }
        assert forall|x: i32| a.contains(x) implies x <= ks[i - 1] by {
            let j = choose|j: int| 0 <= j < a.len() && a[j] == x;
            if j < la {
                assert(a[j] < a[la]);
            }
        }
    }
    if i < ks.len() {
        assert(b[0] == ks[i]);
        assert forall|j: int| 0 <= j < c.len() implies c[j] < ks[i] by {
            assert((a + c)[a.len() + j] < b[0]);
        }
        assert forall|x: i32| b.contains(x) implies ks[i] <= x by {
            let j = choose|j: int| 0 <= j < b.len() && b[j] == x;
            if j > 0 {
                assert(b[0] < b[j]);
            }
        }
        if i > 0 {
            assert((a + c)[a.len() - 1] < b[0]);
        }
    }
    if i == 0 {
        assert forall|x: i32| !a.contains(x) by {}
    }
    if i == ks.len() {
        assert forall|x: i32| !b.contains(x) by {}
    }
}

/// Where `v` belongs in a sorted run of keys: `(true, i)` when `keys[i] == v`,
/// else `(false, i)` with `i` the first position whose key exceeds `v`, or the
/// length when none does.
pub fn search(keys: &Vec<i32>, v: i32) -> (r: (bool, usize))
    ensures
        r.1 <= keys@.len(),
        forall|j: int| 0 <= j < r.1 ==> keys@[j] < v,
        r.0 ==> r.1 < keys@.len() && keys@[r.1 as int] == v,
        !r.0 ==> (r.1 < keys@.len() ==> v < keys@[r.1 as int]),
        sorted(keys@) ==> r.0 == keys@.contains(v),
{
    let mut i: usize = 0;
    while i < keys.len()
        invariant
            i <= keys@.len(),
            forall|j: int| 0 <= j < i ==> keys@[j] < v,
        decreases keys@.len() - i,
    {
        if keys[i] >= v {
            let found = keys[i] == v;
            proof {
                if !found && sorted(keys@) {
                assert forall|j: int| 0 <= j < keys@.len() implies keys@[j] != v by {
                    if j > i {
                        assert(keys@[i as int] < keys@[j]);
                    }
                }
                }
            }
            return (found, i);
        }
        i = i + 1;
    }
    assert forall|j: int| 0 <= j < keys@.len() implies keys@[j] != v by {}
    (false, i)
}


/// A single child with no keys holds the values of that child.
pub proof fn lemma_flat_single(c: Node)
    ensures
        flat(seq![], seq![c]) == inorder(c),
{
}

/// What surrounds child `i` does not depend on that child.
pub proof fn lemma_update_child(ks: Seq<i32>, cs: Seq<Node>, i: int, c: Node)
    requires
        cs.len() == ks.len() + 1,
        0 <= i <= ks.len(),
    ensures
        left_of(ks, cs.update(i, c), i) == left_of(ks, cs, i),
        right_of(ks, cs.update(i, c), i) == right_of(ks, cs, i),
{
    let cs2 = cs.update(i, c);
    assert(cs2.subrange(0, i) =~= cs.subrange(0, i));
    assert(cs2.subrange(i + 1, cs.len() as int) =~= cs.subrange(i + 1, cs.len() as int));
}

/// Replacing child `i` by two children around a new key `m`.
#[verifier::rlimit(60)]
pub proof fn lemma_expand_child(ks: Seq<i32>, cs: Seq<Node>, i: int, a: Node, m: i32, b: Node)
    requires
        cs.len() == ks.len() + 1,
        0 <= i <= ks.len(),
    ensures
        flat(ks.insert(i, m), cs.subrange(0, i) + seq![a, b] + cs.subrange(i + 1, cs.len() as int))
            == left_of(ks, cs, i) + inorder(a) + seq![m] + inorder(b) + right_of(ks, cs, i),
{
    let l = ks.len() as int;
    let ks2 = ks.insert(i, m);
    let cs2 = cs.subrange(0, i) + seq![a, b] + cs.subrange(i + 1, cs.len() as int);
    lemma_decompose(ks2, cs2, i);
    if i > 0 {
        assert(ks2.subrange(0, i - 1) =~= ks.subrange(0, i - 1));
        assert(cs2.subrange(0, i) =~= cs.subrange(0, i));
    }
    assert(left_of(ks2, cs2, i) == left_of(ks, cs, i));
    assert(cs2[i] == a);
    let rk = ks2.subrange(i + 1, l + 1);
    let rc = cs2.subrange(i + 1, l + 2);
    assert(rk =~= ks.subrange(i, l));
    assert(rc =~= seq![b] + cs.subrange(i + 1, l + 1));
    if i < l {
        assert(rk =~= seq![] + seq![ks[i]] + ks.subrange(i + 1, l));
        lemma_flat_concat(seq![], seq![b], ks[i], ks.subrange(i + 1, l), cs.subrange(i + 1, l + 1));
        lemma_flat_single(b);
    } else {
        assert(rc =~= seq![b]);
        assert(rk =~= seq![]);
        lemma_flat_single(b);
    }
    assert(flat(ks2, cs2) =~= left_of(ks, cs, i) + inorder(a) + seq![m] + inorder(b) + right_of(ks, cs, i));
}

/// `x` lies strictly between the keys around child `i`.
pub open spec fn in_bracket(ks: Seq<i32>, i: int, x: i32) -> bool {
    &&& i > 0 ==> ks[i - 1] < x
    &&& i < ks.len() ==> x < ks[i]
}

/// Replacing child `i` of a sorted node by a sorted subtree whose values lie
/// around it as the old child's did: the node stays sorted, inside the bracket
/// it holds what the new child holds, outside it holds what it held.
#[verifier::rlimit(60)]
pub proof fn lemma_replace_child(ks: Seq<i32>, cs: Seq<Node>, i: int, c2: Node)
    requires
        cs.len() == ks.len() + 1,
        0 <= i <= ks.len(),
        sorted(flat(ks, cs)),
        sorted(inorder(c2)),
        forall|x: i32| #[trigger] inorder(c2).contains(x) ==> in_bracket(ks, i, x),
    ensures
        sorted(flat(ks, cs.update(i, c2))),
        forall|x: i32| #[trigger] inorder(cs[i]).contains(x) ==> in_bracket(ks, i, x),
        forall|x: i32|
            in_bracket(ks, i, x) ==> (#[trigger] flat(ks, cs).contains(x) == inorder(cs[i]).contains(x)),
        forall|x: i32|
            in_bracket(ks, i, x) ==> (#[trigger] flat(ks, cs.update(i, c2)).contains(x) == inorder(
                c2).contains(x)),
        forall|x: i32|
            !in_bracket(ks, i, x) ==> (#[trigger] flat(ks, cs.update(i, c2)).contains(x)
                == flat(ks, cs).contains(x)),
        flat(ks, cs.update(i, c2)).len() == flat(ks, cs).len() - inorder(cs[i]).len() + inorder(
            c2).len(),
{
    let cs2 = cs.update(i, c2);
    let a = left_of(ks, cs, i);
    let b = right_of(ks, cs, i);
    let c = inorder(cs[i]);
    let n2 = inorder(c2);
    lemma_child_bracket(ks, cs, i);
    lemma_decompose(ks, cs, i);
    lemma_update_child(ks, cs, i, c2);
    lemma_decompose(ks, cs2, i);
    assert(cs2[i] == c2);
    lemma_contains_concat(a + c, b);
    lemma_contains_concat(a, c);
    lemma_contains_concat(a + n2, b);
    lemma_contains_concat(a, n2);
    assert forall|x: i32| #[trigger] c.contains(x) implies in_bracket(ks, i, x) by {
        let k = choose|k: int| 0 <= k < c.len() && c[k] == x;
    }
    assert forall|x: i32, y: i32| a.contains(x) && n2.contains(y) implies x < y by {
        assert(in_bracket(ks, i, y));
    }
    assert forall|x: i32, y: i32| n2.contains(x) && b.contains(y) implies x < y by {
        assert(in_bracket(ks, i, x));
    }
    assert forall|x: i32, y: i32| a.contains(x) && b.contains(y) implies x < y by {
        assert(ks[i - 1] < ks[i]);
    }
    lemma_sorted_three(a, n2, b);
}

/// Changing children `i`, `i + 1` and the key between them touches only that
/// window of the node's values.
#[verifier::rlimit(60)]
pub proof fn lemma_pair_window(ks: Seq<i32>, cs: Seq<Node>, i: int, a: Node, k: i32, b: Node)
    requires
        cs.len() == ks.len() + 1,
        0 <= i < ks.len(),
    ensures
        flat(ks, cs) == left_of(ks.remove(i), cs.remove(i + 1), i) + (inorder(cs[i]) + seq![ks[i]]
            + inorder(cs[i + 1])) + right_of(ks.remove(i), cs.remove(i + 1), i),
        flat(ks.update(i, k), cs.update(i, a).update(i + 1, b)) == left_of(ks.remove(i), cs.remove(i + 1), i)
            + (inorder(a) + seq![k] + inorder(b)) + right_of(ks.remove(i), cs.remove(i + 1), i),
{
    let ks0 = ks.remove(i);
    let cs0 = cs.remove(i + 1);
    let n = cs.len() as int;
    lemma_expand_child(ks0, cs0, i, cs[i], ks[i], cs[i + 1]);
    assert(ks0.insert(i, ks[i]) =~= ks);
    assert(cs0.subrange(0, i) + seq![cs[i], cs[i + 1]] + cs0.subrange(i + 1, n - 1) =~= cs);
    lemma_expand_child(ks0, cs0, i, a, k, b);
    assert(ks0.insert(i, k) =~= ks.update(i, k));
    assert(cs0.subrange(0, i) + seq![a, b] + cs0.subrange(i + 1, n - 1) =~= cs.update(i, a).update(i + 1, b));
    assert(left_of(ks0, cs0, i) + inorder(cs[i]) + seq![ks[i]] + inorder(cs[i + 1]) + right_of(ks0, cs0, i)
        =~= left_of(ks0, cs0, i) + (inorder(cs[i]) + seq![ks[i]] + inorder(cs[i + 1])) + right_of(ks0, cs0, i));
    assert(left_of(ks0, cs0, i) + inorder(a) + seq![k] + inorder(b) + right_of(ks0, cs0, i)
        =~= left_of(ks0, cs0, i) + (inorder(a) + seq![k] + inorder(b)) + right_of(ks0, cs0, i));
}

/// Folding children `i`, `i + 1` and the key between them into one child that
/// holds their values keeps the node's values.
pub proof fn lemma_merge_pair(ks: Seq<i32>, cs: Seq<Node>, i: int, m: Node)
    requires
        cs.len() == ks.len() + 1,
        0 <= i < ks.len(),
        inorder(m) == inorder(cs[i]) + seq![ks[i]] + inorder(cs[i + 1]),
    ensures
        flat(ks.remove(i), cs.remove(i + 1).update(i, m)) == flat(ks, cs),
{
    let ks0 = ks.remove(i);
    let cs0 = cs.remove(i + 1).update(i, m);
    let n = cs.len() as int;
    lemma_decompose(ks0, cs0, i);
    lemma_expand_child(ks0, cs0, i, cs[i], ks[i], cs[i + 1]);
    assert(ks0.insert(i, ks[i]) =~= ks);
    assert(cs0.subrange(0, i) + seq![cs[i], cs[i + 1]] + cs0.subrange(i + 1, n - 1) =~= cs);
    assert(flat(ks0, cs0) =~= flat(ks, cs));
}

/// Moving the last child of `a` in front of the children of `b`.
pub proof fn lemma_shift_child(ak: Seq<i32>, ac: Seq<Node>, k: i32, bk: Seq<i32>, bc: Seq<Node>)
    requires
        ac.len() == ak.len() + 1,
        bc.len() == bk.len() + 1,
        ak.len() >= 1,
    ensures
        flat(ak, ac) + seq![k] + flat(bk, bc) == flat(ak.drop_last(), ac.drop_last()) + seq![ak.last()]
            + flat(seq![k] + bk, seq![ac.last()] + bc),
{
    let lc = ac.last();
    assert(ak =~= ak.drop_last() + seq![ak.last()] + seq![]);
    assert(ac =~= ac.drop_last() + seq![lc]);
    lemma_flat_concat(ak.drop_last(), ac.drop_last(), ak.last(), seq![], seq![lc]);
    lemma_flat_single(lc);
    assert(seq![k] + bk =~= seq![] + seq![k] + bk);
    assert(seq![lc] + bc =~= seq![lc] + bc);
    lemma_flat_concat(seq![], seq![lc], k, bk, bc);
    assert(flat(ak, ac) + seq![k] + flat(bk, bc) =~= flat(ak.drop_last(), ac.drop_last()) + seq![ak.last()]
        + flat(seq![k] + bk, seq![ac.last()] + bc));
}

/// Moving the first child of `b` behind the children of `a`.
pub proof fn lemma_shift_child_left(ak: Seq<i32>, ac: Seq<Node>, k: i32, bk: Seq<i32>, bc: Seq<Node>)
    requires
        ac.len() == ak.len() + 1,
        bc.len() == bk.len() + 1,
        bk.len() >= 1,
    ensures
        flat(ak, ac) + seq![k] + flat(bk, bc) == flat(ak + seq![k], ac + seq![bc[0]]) + seq![bk[0]]
            + flat(bk.drop_first(), bc.drop_first()),
{
    let fc = bc[0];
    assert(bk =~= seq![] + seq![bk[0]] + bk.drop_first());
    assert(bc =~= seq![fc] + bc.drop_first());
    lemma_flat_concat(seq![], seq![fc], bk[0], bk.drop_first(), bc.drop_first());
    lemma_flat_single(fc);
    assert(ak + seq![k] =~= ak + seq![k] + seq![]);
    lemma_flat_concat(ak, ac, k, seq![], seq![fc]);
    assert(flat(ak, ac) + seq![k] + flat(bk, bc) =~= flat(ak + seq![k], ac + seq![bc[0]]) + seq![bk[0]]
        + flat(bk.drop_first(), bc.drop_first()));
}

/// Every key of a node is one of its values.
pub proof fn lemma_key_in_inorder(n: Node, j: int)
    requires
        n.children.len() == 0 || n.children.len() == n.keys.len() + 1,
        0 <= j < n.keys.len(),
    ensures
        inorder(n).contains(n.keys@[j]),
{
    if n.children.len() == 0 {
        assert(inorder(n)[j] == n.keys@[j]);
    } else {
        let ks = n.keys@;
        let cs = n.children@;
        lemma_decompose(ks, cs, j);
        lemma_contains_concat(left_of(ks, cs, j) + inorder(cs[j]), right_of(ks, cs, j));
        assert(right_of(ks, cs, j)[0] == ks[j]);
        assert(right_of(ks, cs, j).contains(ks[j]));
    }
}

/// Replacing key `i` of a sorted node by a value that lies on the same side of
/// every other value keeps the node sorted and swaps that one value.
#[verifier::rlimit(60)]
pub proof fn lemma_replace_key(ks: Seq<i32>, cs: Seq<Node>, i: int, k2: i32)
    requires
        cs.len() == ks.len() + 1,
        0 <= i < ks.len(),
        sorted(flat(ks, cs)),
        forall|x: i32| flat(ks, cs).contains(x) && x < ks[i] ==> x < k2,
        forall|x: i32| flat(ks, cs).contains(x) && ks[i] < x ==> k2 < x,
    ensures
        sorted(flat(ks.update(i, k2), cs)),
        flat(ks, cs).contains(ks[i]),
        forall|x: i32|
            #[trigger] flat(ks.update(i, k2), cs).contains(x) == ((flat(ks, cs).contains(x) && x
                != ks[i]) || x == k2),
        flat(ks.update(i, k2), cs).len() == flat(ks, cs).len(),
{
    let ks2 = ks.update(i, k2);
    let l = ks.len() as int;
    lemma_decompose(ks, cs, i);
    lemma_decompose(ks2, cs, i);
    if i > 0 {
        assert(ks2.subrange(0, i - 1) =~= ks.subrange(0, i - 1));
    }
    assert(ks2.subrange(i + 1, l) =~= ks.subrange(i + 1, l));
    let a = left_of(ks, cs, i) + inorder(cs[i]);
    let r = flat(ks.subrange(i + 1, l), cs.subrange(i + 1, l + 1));
    assert(flat(ks, cs) =~= a + seq![ks[i]] + r);
    assert(flat(ks2, cs) =~= a + seq![k2] + r);
    lemma_sorted_join(a, ks[i], r);
    lemma_contains_concat(a + seq![ks[i]], r);
    lemma_contains_concat(a, seq![ks[i]]);
    lemma_contains_concat(a + seq![k2], r);
    lemma_contains_concat(a, seq![k2]);
    let f = flat(ks, cs);
    assert forall|j: int| 0 <= j < a.len() implies a[j] < k2 by {
        assert(f[j] == a[j]);
        assert(f.contains(a[j]));
        assert(a[j] < ks[i]);
    }
    assert forall|j: int| 0 <= j < r.len() implies k2 < r[j] by {
        assert(f[a.len() + 1 + j] == r[j]);
        assert(f.contains(r[j]));
        assert(ks[i] < r[j]);
    }
    lemma_sorted_join(a, k2, r);
    assert forall|x: i32| a.contains(x) implies x != ks[i] by {
        let j = choose|j: int| 0 <= j < a.len() && a[j] == x;
    }
    assert forall|x: i32| r.contains(x) implies x != ks[i] by {
        let j = choose|j: int| 0 <= j < r.len() && r[j] == x;
    }
    assert(seq![ks[i]][0] == ks[i]);
    assert(seq![ks[i]].contains(ks[i]));
    assert(seq![k2][0] == k2);
    assert(seq![k2].contains(k2));
    assert forall|x: i32| #[trigger] seq![k2].contains(x) implies x == k2 by {
        let j = choose|j: int| 0 <= j < 1 && seq![k2][j] == x;
    }
    assert forall|x: i32| #[trigger] seq![ks[i]].contains(x) implies x == ks[i] by {
        let j = choose|j: int| 0 <= j < 1 && seq![ks[i]][j] == x;
    }
}

/// A subtree has one shape height at most.
pub proof fn lemma_height_unique(n: Node, d: nat, h1: nat, h2: nat)
    requires
        node_wf(n, d, h1),
        node_wf(n, d, h2),
    ensures
        h1 == h2,
    decreases h1,
{
    if h1 > 0 && h2 > 0 {
        assert(node_wf(n.children@[0], d, (h1 - 1) as nat));
        assert(node_wf(n.children@[0], d, (h2 - 1) as nat));
        lemma_height_unique(n.children@[0], d, (h1 - 1) as nat, (h2 - 1) as nat);
    }
}

/// A subtree of height `h` whose top node holds a key holds at least `h` values.
pub proof fn lemma_len_at_least_height(n: Node, d: nat, h: nat)
    requires
        d >= 2,
        node_wf(n, d, h),
        h > 0 ==> n.keys.len() >= 1,
    ensures
        inorder(n).len() >= h,
    decreases h,
{
    if h > 0 {
        let ks = n.keys@;
        let cs = n.children@;
        assert(node_wf(cs[0], d, (h - 1) as nat));
        lemma_len_at_least_height(cs[0], d, (h - 1) as nat);
        lemma_decompose(ks, cs, 0);
    }
}

impl Node {
    /// Splits the full child `i` into two children of `d - 1` keys each and lifts
    /// its median key into this node at position `i`.
    #[verifier::rlimit(60)]
    pub fn split_child(&mut self, i: usize, d: usize, Ghost(h): Ghost<nat>)
        requires
            2 <= d <= MAX_DEGREE,
            h > 0,
            node_wf(*old(self), d as nat, h),
            i <= old(self).keys.len(),
            old(self).keys.len() < 2 * d - 1,
            old(self).children@[i as int].keys.len() == 2 * d - 1,
        ensures
            node_wf(*final(self), d as nat, h),
            inorder(*final(self)) == inorder(*old(self)),
            final(self).keys@ == old(self).keys@.insert(i as int, old(self).children@[i as int].keys@[d - 1]),
            final(self).children@[i as int].keys.len() == d - 1,
            final(self).children@[i + 1].keys.len() == d - 1,
    {
        let ghost ks = self.keys@;
        let ghost cs = self.children@;
        let mut c = self.children.remove(i);
        let ghost c0 = c;
        assert(node_wf(c0, d as nat, (h - 1) as nat));
        let right_keys = c.keys.split_off(d);
        let m = c.keys[d - 1];
        c.keys.truncate(d - 1);
        let right_children = if c.children.len() > 0 {
            c.children.split_off(d)
        } else {
            Vec::new()
        };
        let right = Node { keys: right_keys, children: right_children };
        proof {
            assert(c0.keys@ =~= c.keys@ + seq![m] + right.keys@);
            if c0.children.len() > 0 {
                assert(c0.children@ =~= c.children@ + right.children@);
                lemma_flat_concat(c.keys@, c.children@, m, right.keys@, right.children@);
                assert forall|j: int| 0 <= j < c.children.len() implies d - 1 <= (
                #[trigger] c.children@[j]).keys.len() && node_wf(c.children@[j], d as nat, (h - 2) as nat) by {
                    assert(c.children@[j] == c0.children@[j]);
                }
                assert forall|j: int| 0 <= j < right.children.len() implies d - 1 <= (
                #[trigger] right.children@[j]).keys.len() && node_wf(right.children@[j], d as nat, (h - 2) as nat) by {
                    assert(right.children@[j] == c0.children@[j + d]);
                }
            }
            assert(inorder(c0) =~= inorder(c) + seq![m] + inorder(right));
            assert(node_wf(c, d as nat, (h - 1) as nat));
            assert(node_wf(right, d as nat, (h - 1) as nat));
            lemma_decompose(ks, cs, i as int);
            lemma_expand_child(ks, cs, i as int, c, m, right);
        }
        self.keys.insert(i, m);
        self.children.insert(i, right);
        self.children.insert(i, c);
        proof {
            assert(self.children@ =~= cs.subrange(0, i as int) + seq![c, right] + cs.subrange(i + 1, cs.len() as int));
            assert forall|j: int| 0 <= j < self.children.len() implies d - 1 <= (
            #[trigger] self.children@[j]).keys.len() && node_wf(self.children@[j], d as nat, (h - 1) as nat) by {
                if j < i {
                    assert(self.children@[j] == cs[j]);
                } else if j > i + 1 {
                    assert(self.children@[j] == cs[j - 1]);
                }
            }
            assert(inorder(*self) =~= inorder(*old(self)));
        }
    }

    /// Folds the minimal children `i` and `i + 1` and the key between them into
    /// child `i`, which then holds `2d - 1` keys.
    #[verifier::rlimit(60)]
    pub fn merge_children(&mut self, i: usize, d: usize, Ghost(h): Ghost<nat>)
        requires
            2 <= d <= MAX_DEGREE,
            h > 0,
            node_wf(*old(self), d as nat, h),
            i < old(self).keys.len(),
            old(self).children@[i as int].keys.len() == d - 1,
            old(self).children@[i + 1].keys.len() == d - 1,
        ensures
            node_wf(*final(self), d as nat, h),
            inorder(*final(self)) == inorder(*old(self)),
            final(self).keys@ == old(self).keys@.remove(i as int),
            final(self).children@[i as int].keys.len() == 2 * d - 1,
            inorder(final(self).children@[i as int]) == inorder(old(self).children@[i as int]) + seq![
                old(self).keys@[i as int]] + inorder(old(self).children@[i + 1]),
    {
        let ghost ks = self.keys@;
        let ghost cs = self.children@;
        let mut right = self.children.remove(i + 1);
        let k = self.keys.remove(i);
        let mut left = self.children.remove(i);
        let ghost a = left;
        let ghost b = right;
        proof {
            assert(node_wf(a, d as nat, (h - 1) as nat));
            assert(node_wf(b, d as nat, (h - 1) as nat));
        }
        left.keys.push(k);
        left.keys.append(&mut right.keys);
        left.children.append(&mut right.children);
        proof {
            assert(left.keys@ =~= a.keys@ + seq![k] + b.keys@);
            assert(left.children@ =~= a.children@ + b.children@);
            if h > 1 {
                lemma_flat_concat(a.keys@, a.children@, k, b.keys@, b.children@);
                assert forall|j: int| 0 <= j < left.children.len() implies d - 1 <= (
                #[trigger] left.children@[j]).keys.len() && node_wf(left.children@[j], d as nat, (h - 2) as nat) by {
                    if j < a.children.len() {
                        assert(left.children@[j] == a.children@[j]);
                    } else {
                        assert(left.children@[j] == b.children@[j - a.children.len()]);
                    }
                }
            }
            assert(node_wf(left, d as nat, (h - 1) as nat));
            assert(inorder(left) == inorder(a) + seq![k] + inorder(b));
            lemma_merge_pair(ks, cs, i as int, left);
        }
        self.children.insert(i, left);
        proof {
            assert(self.children@ =~= cs.remove(i + 1).update(i as int, left));
            assert forall|j: int| 0 <= j < self.children.len() implies d - 1 <= (
            #[trigger] self.children@[j]).keys.len() && node_wf(self.children@[j], d as nat, (h - 1) as nat) by {
                if j < i {
                    assert(self.children@[j] == cs[j]);
                } else if j > i {
                    assert(self.children@[j] == cs[j + 1]);
                }
            }
        }
    }

    /// Moves key `i - 1` down into the front of child `i` and the last key of
    /// child `i - 1` up in its place, with the last child of that sibling.
    #[verifier::rlimit(60)]
    pub fn rotate_right(&mut self, i: usize, d: usize, Ghost(h): Ghost<nat>)
        requires
            2 <= d <= MAX_DEGREE,
            h > 0,
            node_wf(*old(self), d as nat, h),
            1 <= i <= old(self).keys.len(),
            old(self).children@[i - 1].keys.len() >= d,
            old(self).children@[i as int].keys.len() == d - 1,
        ensures
            node_wf(*final(self), d as nat, h),
            inorder(*final(self)) == inorder(*old(self)),
            final(self).keys@ == old(self).keys@.update(i - 1, old(self).children@[i - 1].keys@.last()),
            final(self).children@[i as int].keys.len() == d,
    {
        let ghost ks = self.keys@;
        let ghost cs = self.children@;
        let mut left = self.children.remove(i - 1);
        let mut cur = self.children.remove(i - 1);
        let ghost a = left;
        let ghost b = cur;
        proof {
            assert(node_wf(a, d as nat, (h - 1) as nat));
            assert(node_wf(b, d as nat, (h - 1) as nat));
        }
        let last = left.keys.len() - 1;
        let lk = left.keys[last];
        left.keys.truncate(last);
        let sep = self.keys[i - 1];
        self.keys[i - 1] = lk;
        cur.keys.insert(0, sep);
        match left.children.pop() {
            Some(lc) => {
                cur.children.insert(0, lc);
            },
            None => {},
        }
        proof {
            assert(left.keys@ =~= a.keys@.drop_last());
            assert(cur.keys@ =~= seq![sep] + b.keys@);
            if h > 1 {
                assert(left.children@ =~= a.children@.drop_last());
                assert(cur.children@ =~= seq![a.children@.last()] + b.children@);
                lemma_shift_child(a.keys@, a.children@, sep, b.keys@, b.children@);
                assert forall|j: int| 0 <= j < left.children.len() implies d - 1 <= (
                #[trigger] left.children@[j]).keys.len() && node_wf(left.children@[j], d as nat, (h - 2) as nat) by {
                    assert(left.children@[j] == a.children@[j]);
                }
                assert forall|j: int| 0 <= j < cur.children.len() implies d - 1 <= (
                #[trigger] cur.children@[j]).keys.len() && node_wf(cur.children@[j], d as nat, (h - 2) as nat) by {
                    if j == 0 {
                        assert(cur.children@[j] == a.children@[a.children.len() - 1]);
                    } else {
                        assert(cur.children@[j] == b.children@[j - 1]);
                    }
                }
            } else {
                assert(a.keys@ =~= left.keys@ + seq![lk]);
            }
            assert(inorder(a) + seq![sep] + inorder(b) =~= inorder(left) + seq![lk] + inorder(cur));
            assert(node_wf(left, d as nat, (h - 1) as nat));
            assert(node_wf(cur, d as nat, (h - 1) as nat));
            lemma_pair_window(ks, cs, i - 1, left, lk, cur);
        }
        self.children.insert(i - 1, cur);
        self.children.insert(i - 1, left);
        proof {
            assert(self.children@ =~= cs.update(i - 1, left).update(i as int, cur));
            assert forall|j: int| 0 <= j < self.children.len() implies d - 1 <= (
            #[trigger] self.children@[j]).keys.len() && node_wf(self.children@[j], d as nat, (h - 1) as nat) by {
                if j < i - 1 || j > i {
                    assert(self.children@[j] == cs[j]);
                }
            }
        }
    }

    /// Moves key `i` down onto the end of child `i` and the first key of child
    /// `i + 1` up in its place, with the first child of that sibling.
    #[verifier::rlimit(60)]
    pub fn rotate_left(&mut self, i: usize, d: usize, Ghost(h): Ghost<nat>)
        requires
            2 <= d <= MAX_DEGREE,
            h > 0,
            node_wf(*old(self), d as nat, h),
            i < old(self).keys.len(),
            old(self).children@[i + 1].keys.len() >= d,
            old(self).children@[i as int].keys.len() == d - 1,
        ensures
            node_wf(*final(self), d as nat, h),
            inorder(*final(self)) == inorder(*old(self)),
            final(self).keys@ == old(self).keys@.update(i as int, old(self).children@[i + 1].keys@[0]),
            final(self).children@[i as int].keys.len() == d,
    {
        let ghost ks = self.keys@;
        let ghost cs = self.children@;
        let mut cur = self.children.remove(i);
        let mut right = self.children.remove(i);
        let ghost a = cur;
        let ghost b = right;
        proof {
            assert(node_wf(a, d as nat, (h - 1) as nat));
            assert(node_wf(b, d as nat, (h - 1) as nat));
        }
        let rk = right.keys.remove(0);
        let sep = self.keys[i];
        self.keys[i] = rk;
        cur.keys.push(sep);
        if right.children.len() > 0 {
            let fc = right.children.remove(0);
            cur.children.push(fc);
        }
        proof {
            assert(right.keys@ =~= b.keys@.drop_first());
            assert(cur.keys@ =~= a.keys@ + seq![sep]);
            if h > 1 {
                assert(right.children@ =~= b.children@.drop_first());
                assert(cur.children@ =~= a.children@ + seq![b.children@[0]]);
                lemma_shift_child_left(a.keys@, a.children@, sep, b.keys@, b.children@);
                assert forall|j: int| 0 <= j < right.children.len() implies d - 1 <= (
                #[trigger] right.children@[j]).keys.len() && node_wf(right.children@[j], d as nat, (h - 2) as nat) by {
                    assert(right.children@[j] == b.children@[j + 1]);
                }
                assert forall|j: int| 0 <= j < cur.children.len() implies d - 1 <= (
                #[trigger] cur.children@[j]).keys.len() && node_wf(cur.children@[j], d as nat, (h - 2) as nat) by {
                    if j < a.children.len() {
                        assert(cur.children@[j] == a.children@[j]);
                    } else {
                        assert(cur.children@[j] == b.children@[0]);
                    }
                }
            } else {
                assert(b.keys@ =~= seq![rk] + right.keys@);
            }
            assert(inorder(a) + seq![sep] + inorder(b) =~= inorder(cur) + seq![rk] + inorder(right));
            assert(node_wf(right, d as nat, (h - 1) as nat));
            assert(node_wf(cur, d as nat, (h - 1) as nat));
            lemma_pair_window(ks, cs, i as int, cur, rk, right);
        }
        self.children.insert(i, right);
        self.children.insert(i, cur);
        proof {
            assert(self.children@ =~= cs.update(i as int, cur).update(i + 1, right));
            assert forall|j: int| 0 <= j < self.children.len() implies d - 1 <= (
            #[trigger] self.children@[j]).keys.len() && node_wf(self.children@[j], d as nat, (h - 1) as nat) by {
                if j < i || j > i + 1 {
                    assert(self.children@[j] == cs[j]);
                }
            }
        }
    }

    /// Makes child `i` hold at least `d` keys before a removal steps into it:
    /// borrows from the left sibling, else from the right one, else merges with
    /// the right sibling, or with the left one when there is none. Returns where
    /// that child now stands; every value that belonged under child `i` belongs
    /// under it.
    #[verifier::rlimit(60)]
    pub fn ensure_not_minimal(&mut self, i: usize, d: usize, Ghost(h): Ghost<nat>) -> (j: usize)
        requires
            2 <= d <= MAX_DEGREE,
            h > 0,
            node_wf(*old(self), d as nat, h),
            sorted(inorder(*old(self))),
            i <= old(self).keys.len(),
            old(self).keys.len() >= 1,
            old(self).children@[i as int].keys.len() == d - 1,
        ensures
            node_wf(*final(self), d as nat, h),
            inorder(*final(self)) == inorder(*old(self)),
            j <= final(self).keys.len(),
            final(self).children@[j as int].keys.len() >= d,
            final(self).keys.len() + 1 >= old(self).keys.len(),
            forall|x: i32|
                #[trigger] in_bracket(old(self).keys@, i as int, x) ==> in_bracket(final(self).keys@, j as int, x),
    {
        let ghost ks = self.keys@;
        let ghost cs = self.children@;
        let l = self.keys.len();
        if i > 0 && self.children[i - 1].keys.len() >= d {
            proof {
                lemma_child_bracket(ks, cs, i - 1);
                let ln = cs[i - 1];
                assert(node_wf(ln, d as nat, (h - 1) as nat));
                lemma_key_in_inorder(ln, ln.keys.len() - 1);
            }
            self.rotate_right(i, d, Ghost(h));
            i
        } else if i < l && self.children[i + 1].keys.len() >= d {
            proof {
                lemma_child_bracket(ks, cs, i + 1);
                assert(node_wf(cs[i + 1], d as nat, (h - 1) as nat));
                lemma_key_in_inorder(cs[i + 1], 0);
            }
            self.rotate_left(i, d, Ghost(h));
            i
        } else if i < l {
            proof {
                lemma_child_bracket(ks, cs, i + 1);
            }
            self.merge_children(i, d, Ghost(h));
            i
        } else {
            proof {
                lemma_child_bracket(ks, cs, i - 1);
            }
            self.merge_children(i - 1, d, Ghost(h));
            i - 1
        }
    }

    /// The largest value of a subtree: the last key of its rightmost leaf.
    pub fn max_value(&self, d: usize, Ghost(h): Ghost<nat>) -> (r: i32)
        requires
            d >= 2,
            node_wf(*self, d as nat, h),
            self.keys.len() >= 1,
        ensures
            inorder(*self).len() > 0,
            r == inorder(*self).last(),
    {
        proof {
            lemma_len_at_least_keys(*self);
        }
        let mut n: &Node = self;
        let ghost mut g: nat = h;
        loop
            invariant
                d >= 2,
                node_wf(*n, d as nat, g),
                n.keys.len() >= 1,
                inorder(*n).len() > 0,
                inorder(*self).len() > 0,
                inorder(*n).last() == inorder(*self).last(),
            decreases g,
        {
            if n.children.len() == 0 {
                return n.keys[n.keys.len() - 1];
            }
            let last = n.children.len() - 1;
            proof {
                let ks = n.keys@;
                let cs = n.children@;
                lemma_decompose(ks, cs, last as int);
                assert(node_wf(cs[last as int], d as nat, (g - 1) as nat));
                lemma_len_at_least_keys(cs[last as int]);
                assert(inorder(*n) =~= left_of(ks, cs, last as int) + inorder(cs[last as int]));
                g = (g - 1) as nat;
            }
            n = &n.children[last];
        }
    }

    /// The smallest value of a subtree: the first key of its leftmost leaf.
    pub fn min_value(&self, d: usize, Ghost(h): Ghost<nat>) -> (r: i32)
        requires
            d >= 2,
            node_wf(*self, d as nat, h),
            self.keys.len() >= 1,
        ensures
            inorder(*self).len() > 0,
            r == inorder(*self)[0],
    {
        proof {
            lemma_len_at_least_keys(*self);
        }
        let mut n: &Node = self;
        let ghost mut g: nat = h;
        loop
            invariant
                d >= 2,
                node_wf(*n, d as nat, g),
                n.keys.len() >= 1,
                inorder(*n).len() > 0,
                inorder(*self).len() > 0,
                inorder(*n)[0] == inorder(*self)[0],
            decreases g,
        {
            if n.children.len() == 0 {
                return n.keys[0];
            }
            proof {
                let ks = n.keys@;
                let cs = n.children@;
                lemma_decompose(ks, cs, 0);
                assert(node_wf(cs[0], d as nat, (g - 1) as nat));
                lemma_len_at_least_keys(cs[0]);
                assert(inorder(*n) =~= inorder(cs[0]) + right_of(ks, cs, 0));
                g = (g - 1) as nat;
            }
            n = &n.children[0];
        }
    }

    /// Inserts `v` into the subtree under a node that is not full, splitting
    /// each full node before stepping into it. Returns whether `v` was absent.
    #[verifier::rlimit(60)]
    pub fn insert_nonfull(&mut self, v: i32, d: usize, Ghost(h): Ghost<nat>) -> (r: bool)
        requires
            2 <= d <= MAX_DEGREE,
            node_wf(*old(self), d as nat, h),
            old(self).keys.len() < 2 * d - 1,
            sorted(inorder(*old(self))),
        ensures
            node_wf(*final(self), d as nat, h),
            sorted(inorder(*final(self))),
            r == !inorder(*old(self)).contains(v),
            forall|x: i32|
                #[trigger] inorder(*final(self)).contains(x) == (inorder(*old(self)).contains(x) || x
                    == v),
            inorder(*final(self)).len() == inorder(*old(self)).len() + if r { 1int } else { 0int },
            final(self).keys.len() >= old(self).keys.len(),
        decreases h,
    {
        let (found, i) = search(&self.keys, v);
        if self.children.len() == 0 {
            if found {
                return false;
            }
            proof {
                lemma_sorted_insert(self.keys@, i as int, v);
            }
            self.keys.insert(i, v);
            return true;
        }
        proof {
            let ks = self.keys@;
            let cs = self.children@;
            lemma_child_bracket(ks, cs, i as int);
            lemma_decompose(ks, cs, i as int);
            lemma_contains_concat(left_of(ks, cs, i as int) + inorder(cs[i as int]), right_of(ks, cs, i as int));
            lemma_contains_concat(left_of(ks, cs, i as int), inorder(cs[i as int]));
        }
        if found {
            proof {
                let ks = self.keys@;
                let cs = self.children@;
                assert(right_of(ks, cs, i as int)[0] == v);
                assert(right_of(ks, cs, i as int).contains(v));
            }
            return false;
        }
        let mut i = i;
        if self.children[i].keys.len() == 2 * d - 1 {
            self.split_child(i, d, Ghost(h));
            let m = self.keys[i];
            if m == v {
                proof {
                    let ks = self.keys@;
                    let cs = self.children@;
                    lemma_decompose(ks, cs, i as int);
                    lemma_contains_concat(left_of(ks, cs, i as int) + inorder(cs[i as int]), right_of(ks, cs, i as int));
                    assert(right_of(ks, cs, i as int)[0] == v);
                    assert(right_of(ks, cs, i as int).contains(v));
                }
                return false;
            }
            if m < v {
                i = i + 1;
            }
        }
        let ghost ks = self.keys@;
        let ghost cs = self.children@;
        proof {
            assert(in_bracket(ks, i as int, v));
            assert(node_wf(cs[i as int], d as nat, (h - 1) as nat));
            lemma_child_bracket(ks, cs, i as int);
        }
        let r = self.children[i].insert_nonfull(v, d, Ghost((h - 1) as nat));
        proof {
            let c2 = self.children@[i as int];
            assert(self.children@ == cs.update(i as int, c2));
            lemma_replace_child(ks, cs, i as int, c2);
            assert forall|j: int| 0 <= j < self.children.len() implies d - 1 <= (
            #[trigger] self.children@[j]).keys.len() && node_wf(self.children@[j], d as nat, (h - 1) as nat) by {
                if j != i {
                    assert(self.children@[j] == cs[j]);
                }
            }
        }
        r
    }

    /// Removes `v` from the subtree under this node, topping up each minimal
    /// child before stepping into it. Returns whether `v` was present.
    #[verifier::rlimit(60)]
    pub fn remove_from(&mut self, v: i32, d: usize, Ghost(h): Ghost<nat>) -> (r: bool)
        requires
            2 <= d <= MAX_DEGREE,
            node_wf(*old(self), d as nat, h),
            sorted(inorder(*old(self))),
            h > 0 ==> old(self).keys.len() >= 1,
        ensures
            node_wf(*final(self), d as nat, h),
            sorted(inorder(*final(self))),
            r == inorder(*old(self)).contains(v),
            forall|x: i32|
                #[trigger] inorder(*final(self)).contains(x) == (inorder(*old(self)).contains(x) && x
                    != v),
            inorder(*final(self)).len() == inorder(*old(self)).len() - if r { 1int } else { 0int },
            final(self).keys.len() + 1 >= old(self).keys.len(),
        decreases h, 1nat,
    {
        let (found, i) = search(&self.keys, v);
        if self.children.len() == 0 {
            if !found {
                return false;
            }
            proof {
                lemma_sorted_remove(self.keys@, i as int);
            }
            self.keys.remove(i);
            return true;
        }
        if found {
            return self.remove_key_at(i, v, d, Ghost(h));
        }
        let mut i = i;
        proof {
            assert(in_bracket(self.keys@, i as int, v));
        }
        if self.children[i].keys.len() < d {
            i = self.ensure_not_minimal(i, d, Ghost(h));
        }
        let ghost ks = self.keys@;
        let ghost cs = self.children@;
        proof {
            assert(in_bracket(ks, i as int, v));
            assert(node_wf(cs[i as int], d as nat, (h - 1) as nat));
            lemma_child_bracket(ks, cs, i as int);
        }
        let r = self.children[i].remove_from(v, d, Ghost((h - 1) as nat));
        proof {
            let c2 = self.children@[i as int];
            assert(self.children@ == cs.update(i as int, c2));
            lemma_replace_child(ks, cs, i as int, c2);
            assert forall|j: int| 0 <= j < self.children.len() implies d - 1 <= (
            #[trigger] self.children@[j]).keys.len() && node_wf(self.children@[j], d as nat, (h - 1) as nat) by {
                if j != i {
                    assert(self.children@[j] == cs[j]);
                }
            }
        }
        r
    }

    /// Removes key `i`, equal to `v`, of this internal node: replaced by its
    /// predecessor or successor when the child on that side can spare a key,
    /// else the two children around it are merged and the removal goes on in
    /// the merged child.
    #[verifier::rlimit(60)]
    fn remove_key_at(&mut self, i: usize, v: i32, d: usize, Ghost(h): Ghost<nat>) -> (r: bool)
        requires
            2 <= d <= MAX_DEGREE,
            h > 0,
            node_wf(*old(self), d as nat, h),
            sorted(inorder(*old(self))),
            i < old(self).keys.len(),
            old(self).keys@[i as int] == v,
        ensures
            r,
            node_wf(*final(self), d as nat, h),
            sorted(inorder(*final(self))),
            inorder(*old(self)).contains(v),
            forall|x: i32|
                #[trigger] inorder(*final(self)).contains(x) == (inorder(*old(self)).contains(x) && x
                    != v),
            inorder(*final(self)).len() == inorder(*old(self)).len() - 1,
            final(self).keys.len() + 1 >= old(self).keys.len(),
        decreases h, 0nat,
    {
        let ghost ks = self.keys@;
        let ghost cs = self.children@;
        let ghost f0 = inorder(*self);
        proof {
            lemma_child_bracket(ks, cs, i as int);
            lemma_child_bracket(ks, cs, i + 1);
            assert(node_wf(cs[i as int], d as nat, (h - 1) as nat));
            assert(node_wf(cs[i + 1], d as nat, (h - 1) as nat));
            lemma_key_in_inorder(*self, i as int);
            lemma_decompose(ks, cs, i as int);
            lemma_decompose(ks, cs, i + 1);
        }
        if self.children[i].keys.len() >= d {
            let p = self.children[i].max_value(d, Ghost((h - 1) as nat));
            proof {
                let c = inorder(cs[i as int]);
                let a = left_of(ks, cs, i as int);
                assert(c.contains(p));
                assert(f0 =~= (a + c) + right_of(ks, cs, i as int));
                assert(f0[a.len() + c.len() - 1] == p);
                assert(f0[(a.len() + c.len()) as int] == v);
                lemma_sorted_neighbors(f0, a.len() + c.len() - 1);
                assert(p < v);
            }
            self.children[i].remove_from(p, d, Ghost((h - 1) as nat));
            let ghost cs1 = self.children@;
            proof {
                let c2 = cs1[i as int];
                assert(cs1 == cs.update(i as int, c2));
                assert(forall|x: i32| #[trigger] inorder(c2).contains(x) ==> inorder(cs[i as int]).contains(x));
                lemma_replace_child(ks, cs, i as int, c2);
                assert(in_bracket(ks, i as int, p));
                assert forall|x: i32| flat(ks, cs1).contains(x) && x < ks[i as int] implies x < p by {
                    if in_bracket(ks, i as int, x) {
                        assert(inorder(c2).contains(x));
                    }
                    assert(f0.contains(x));
                }
                lemma_replace_key(ks, cs1, i as int, p);
            }
            self.keys.set(i, p);
            proof {
                assert(self.keys@ == ks.update(i as int, p));
                assert forall|j: int| 0 <= j < self.children.len() implies d - 1 <= (
                #[trigger] self.children@[j]).keys.len() && node_wf(self.children@[j], d as nat, (h - 1) as nat) by {
                    if j != i {
                        assert(self.children@[j] == cs[j]);
                    }
                }
            }
            true
        } else if self.children[i + 1].keys.len() >= d {
            let s = self.children[i + 1].min_value(d, Ghost((h - 1) as nat));
            proof {
                let c = inorder(cs[i + 1]);
                let a = left_of(ks, cs, i + 1);
                assert(c.contains(s));
                assert(f0 =~= (a + c) + right_of(ks, cs, i + 1));
                assert(a[a.len() - 1] == v);
                assert(f0[a.len() - 1] == v);
                assert(f0[a.len() as int] == s);
                lemma_sorted_neighbors(f0, a.len() - 1);
                assert(v < s);
            }
            self.children[i + 1].remove_from(s, d, Ghost((h - 1) as nat));
            let ghost cs1 = self.children@;
            proof {
                let c2 = cs1[i + 1];
                assert(cs1 == cs.update(i + 1, c2));
                assert(forall|x: i32| #[trigger] inorder(c2).contains(x) ==> inorder(cs[i + 1]).contains(x));
                lemma_replace_child(ks, cs, i + 1, c2);
                assert(in_bracket(ks, i + 1, s));
                assert forall|x: i32| flat(ks, cs1).contains(x) && ks[i as int] < x implies s < x by {
                    if in_bracket(ks, i + 1, x) {
                        assert(inorder(c2).contains(x));
                    }
                    assert(f0.contains(x));
                }
                lemma_replace_key(ks, cs1, i as int, s);
            }
            self.keys.set(i, s);
            proof {
                assert(self.keys@ == ks.update(i as int, s));
                assert forall|j: int| 0 <= j < self.children.len() implies d - 1 <= (
                #[trigger] self.children@[j]).keys.len() && node_wf(self.children@[j], d as nat, (h - 1) as nat) by {
                    if j != i + 1 {
                        assert(self.children@[j] == cs[j]);
                    }
                }
            }
            true
        } else {
            self.merge_children(i, d, Ghost(h));
            let ghost ks1 = self.keys@;
            let ghost cs1 = self.children@;
            proof {
                lemma_child_bracket(ks1, cs1, i as int);
                assert(node_wf(cs1[i as int], d as nat, (h - 1) as nat));
                let m = inorder(cs1[i as int]);
                assert(m[inorder(cs[i as int]).len() as int] == v);
                assert(m.contains(v));
            }
            self.children[i].remove_from(v, d, Ghost((h - 1) as nat));
            proof {
                let c2 = self.children@[i as int];
                assert(self.children@ == cs1.update(i as int, c2));
                lemma_replace_child(ks1, cs1, i as int, c2);
                assert(in_bracket(ks1, i as int, v));
                assert forall|j: int| 0 <= j < self.children.len() implies d - 1 <= (
                #[trigger] self.children@[j]).keys.len() && node_wf(self.children@[j], d as nat, (h - 1) as nat) by {
                    if j != i {
                        assert(self.children@[j] == cs1[j]);
                    }
                }
            }
            true
        }
    }

    /// The height of this subtree when it keeps the shape rules of minimum
    /// degree `d`, else `None`.
    #[verifier::rlimit(60)]
    pub fn shape_height(&self, d: usize) -> (r: Option<usize>)
        requires
            2 <= d <= MAX_DEGREE,
        ensures
            r matches Some(h) ==> node_wf(*self, d as nat, h as nat),
            r is None ==> forall|h: nat| #[trigger] node_wf(*self, d as nat, h) ==> h > usize::MAX,
        decreases *self,
    {
        if self.keys.len() > 2 * d - 1 {
            return None;
        }
        if self.children.len() == 0 {
            return Some(0);
        }
        if self.children.len() - 1 != self.keys.len() {
            return None;
        }
        let ghost dn = d as nat;
        let mut first: usize = 0;
        let mut j: usize = 0;
        while j < self.children.len()
            invariant
                self.children.len() == self.keys.len() + 1,
                self.keys.len() <= 2 * dn - 1,
                dn == d as nat,
                2 <= d <= MAX_DEGREE,
                0 <= j <= self.children.len(),
                forall|k: int|
                    0 <= k < j ==> dn - 1 <= (#[trigger] self.children@[k]).keys.len()
                        && node_wf(self.children@[k], dn, first as nat),
            decreases self.children.len() - j,
        {
            let c = &self.children[j];
            if c.keys.len() < d - 1 {
                proof {
                    assert forall|h: nat| #[trigger] node_wf(*self, dn, h) implies h > usize::MAX by {
                        if h > 0 {
                            assert(dn - 1 <= self.children@[j as int].keys.len());
                        }
                    }
                }
                return None;
            }
            match c.shape_height(d) {
                None => {
                    proof {
                        assert forall|h: nat| #[trigger] node_wf(*self, dn, h) implies h > usize::MAX by {
                            assert(h > 0);
                            assert(node_wf(self.children@[j as int], dn, (h - 1) as nat));
                        }
                    }
                    return None;
                },
                Some(hc) => {
                    if j == 0 {
                        first = hc;
                    } else if hc != first {
                        proof {
                            assert forall|h: nat| #[trigger] node_wf(*self, dn, h) implies h > usize::MAX by {
                                assert(h > 0);
                                assert(node_wf(self.children@[j as int], dn, (h - 1) as nat));
                                assert(node_wf(self.children@[0], dn, (h - 1) as nat));
                                lemma_height_unique(self.children@[j as int], dn, (h - 1) as nat, hc as nat);
                                lemma_height_unique(self.children@[0], dn, (h - 1) as nat, first as nat);
                            }
                        }
                        return None;
                    }
                },
            }
            j = j + 1;
        }
        if first == usize::MAX {
            proof {
                assert forall|h: nat| #[trigger] node_wf(*self, dn, h) implies h > usize::MAX by {
                    assert(h > 0);
                    assert(node_wf(self.children@[0], dn, (h - 1) as nat));
                    lemma_height_unique(self.children@[0], dn, (h - 1) as nat, first as nat);
                }
            }
            return None;
        }
        Some(first + 1)
    }

    /// Appends the values of this subtree, in order, to `out`.
    pub fn collect_values(&self, out: &mut Vec<i32>, Ghost(d): Ghost<nat>, Ghost(h): Ghost<nat>)
        requires
            node_wf(*self, d, h),
        ensures
            final(out)@ == old(out)@ + inorder(*self),
        decreases h,
    {
        if self.children.len() == 0 {
            let mut j: usize = 0;
            while j < self.keys.len()
                invariant
                    0 <= j <= self.keys.len(),
                    out@ == old(out)@ + self.keys@.subrange(0, j as int),
                decreases self.keys.len() - j,
            {
                out.push(self.keys[j]);
                j = j + 1;
                proof {
                    assert(self.keys@.subrange(0, j as int) =~= self.keys@.subrange(0, j - 1) + seq![self.keys@[j - 1]]);
                }
            }
            proof {
                assert(self.keys@.subrange(0, j as int) =~= self.keys@);
            }
            return;
        }
        let ghost ks = self.keys@;
        let ghost cs = self.children@;
        let mut j: usize = 0;
        while j < self.children.len()
            invariant
                self.children.len() == self.keys.len() + 1,
                ks == self.keys@,
                cs == self.children@,
                node_wf(*self, d, h),
                h > 0,
                0 <= j <= self.children.len(),
                j == 0 ==> out@ == old(out)@,
                j > 0 ==> out@ == old(out)@ + flat_upto(ks, cs, j - 1),
            decreases self.children.len() - j,
        {
            let c = &self.children[j];
            if j > 0 {
                out.push(self.keys[j - 1]);
            }
            proof {
                assert(node_wf(cs[j as int], d, (h - 1) as nat));
            }
            c.collect_values(out, Ghost(d), Ghost((h - 1) as nat));
            j = j + 1;
            proof {
                if j == 1 {
                    assert(out@ =~= old(out)@ + flat_upto(ks, cs, 0));
                } else {
                    assert(flat_upto(ks, cs, j - 1) == flat_upto(ks, cs, j - 2) + seq![ks[j - 2]] + inorder(cs[j - 1]));
                    assert(out@ =~= old(out)@ + flat_upto(ks, cs, j - 1));
                }
            }
        }
    }
}

} // verus!
