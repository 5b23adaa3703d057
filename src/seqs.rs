use vstd::prelude::*;

verus! {

/// The values of `s` are strictly increasing.
pub open spec fn sorted(s: Seq<i32>) -> bool {
    forall|i: int, j: int| 0 <= i < j < s.len() ==> s[i] < s[j]
}

/// Every value of `s` is below `k`.
pub open spec fn all_below(s: Seq<i32>, k: i32) -> bool {
    forall|i: int| 0 <= i < s.len() ==> s[i] < k
}

/// Every value of `s` is above `k`.
pub open spec fn all_above(s: Seq<i32>, k: i32) -> bool {
    forall|i: int| 0 <= i < s.len() ==> k < s[i]
}

/// Membership distributes over concatenation.
pub proof fn lemma_contains_concat(a: Seq<i32>, b: Seq<i32>)
    ensures
        forall|x: i32| #[trigger] (a + b).contains(x) == (a.contains(x) || b.contains(x)),
{
    assert forall|x: i32| #[trigger] (a + b).contains(x) == (a.contains(x) || b.contains(x)) by {
        if (a + b).contains(x) {
            let i = choose|i: int| 0 <= i < (a + b).len() && (a + b)[i] == x;
            if i >= a.len() {
                assert(b[i - a.len()] == x);
            }
        }
        if a.contains(x) {
            let i = choose|i: int| 0 <= i < a.len() && a[i] == x;
            assert((a + b)[i] == x);
        }
        if b.contains(x) {
            let i = choose|i: int| 0 <= i < b.len() && b[i] == x;
            assert((a + b)[a.len() + i] == x);
        }
    }
}

/// A sequence split around a pivot is sorted exactly when both sides are sorted
/// and lie on the proper side of the pivot.
pub proof fn lemma_sorted_join(a: Seq<i32>, k: i32, b: Seq<i32>)
    ensures
        sorted(a + seq![k] + b) == (sorted(a) && sorted(b) && all_below(a, k) && all_above(b, k)),
{
    let s = a + seq![k] + b;
    assert forall|i: int| 0 <= i < a.len() implies s[i] == a[i] by {}
    assert(s[a.len() as int] == k);
    assert forall|i: int| 0 <= i < b.len() implies s[a.len() + 1 + i] == b[i] by {}
    if sorted(s) {
        assert forall|i: int, j: int| 0 <= i < j < a.len() implies a[i] < a[j] by {
            assert(s[i] < s[j]);
        }
        assert forall|i: int, j: int| 0 <= i < j < b.len() implies b[i] < b[j] by {
            assert(s[a.len() + 1 + i] < s[a.len() + 1 + j]);
        }
        assert forall|i: int| 0 <= i < a.len() implies a[i] < k by {
            assert(s[i] < s[a.len() as int]);
        }
        assert forall|i: int| 0 <= i < b.len() implies k < b[i] by {
            assert(s[a.len() as int] < s[a.len() + 1 + i]);
        }
    }
    if sorted(a) && sorted(b) && all_below(a, k) && all_above(b, k) {
        assert forall|i: int, j: int| 0 <= i < j < s.len() implies s[i] < s[j] by {
            if j < a.len() {
            } else if i < a.len() && j == a.len() {
            } else if i < a.len() {
                assert(s[j] == b[j - a.len() - 1]);
            } else if i == a.len() {
                assert(s[j] == b[j - a.len() - 1]);
            } else {
                assert(s[i] == b[i - a.len() - 1]);
                assert(s[j] == b[j - a.len() - 1]);
            }
        }
    }
}

/// A sorted sequence holds no value twice.
pub proof fn lemma_sorted_no_duplicates(s: Seq<i32>)
    requires
        sorted(s),
    ensures
        s.no_duplicates(),
{
    assert forall|i: int, j: int| 0 <= i < s.len() && 0 <= j < s.len() && i != j implies s[i]
        != s[j] by {
        if i < j {
            assert(s[i] < s[j]);
        } else {
            assert(s[j] < s[i]);
        }
    }
}


/// A concatenation is sorted exactly when both parts are and the first lies wholly
/// below the second.
pub proof fn lemma_sorted_concat(a: Seq<i32>, b: Seq<i32>)
    ensures
        sorted(a + b) == (sorted(a) && sorted(b) && forall|i: int, j: int|
            0 <= i < a.len() && 0 <= j < b.len() ==> a[i] < b[j]),
{
    let s = a + b;
    if sorted(s) {
        assert forall|i: int, j: int| 0 <= i < j < a.len() implies a[i] < a[j] by {
            assert(s[i] < s[j]);
        }
        assert forall|i: int, j: int| 0 <= i < j < b.len() implies b[i] < b[j] by {
            assert(s[a.len() + i] < s[a.len() + j]);
        }
        assert forall|i: int, j: int| 0 <= i < a.len() && 0 <= j < b.len() implies a[i] < b[j] by {
            assert(s[i] < s[a.len() + j]);
        }
    }
    if sorted(a) && sorted(b) && forall|i: int, j: int|
        0 <= i < a.len() && 0 <= j < b.len() ==> a[i] < b[j] {
        assert forall|i: int, j: int| 0 <= i < j < s.len() implies s[i] < s[j] by {
            if j < a.len() {
            } else if i < a.len() {
                assert(s[j] == b[j - a.len()]);
            } else {
                assert(s[i] == b[i - a.len()]);
                assert(s[j] == b[j - a.len()]);
            }
        }
    }
}

/// Three sorted sequences, each wholly below the next, join into a sorted one.
pub proof fn lemma_sorted_three(a: Seq<i32>, c: Seq<i32>, b: Seq<i32>)
    requires
        sorted(a),
        sorted(c),
        sorted(b),
        forall|x: i32, y: i32| a.contains(x) && c.contains(y) ==> x < y,
        forall|x: i32, y: i32| c.contains(x) && b.contains(y) ==> x < y,
        forall|x: i32, y: i32| a.contains(x) && b.contains(y) ==> x < y,
    ensures
        sorted(a + c + b),
{
    assert forall|i: int, j: int| 0 <= i < a.len() && 0 <= j < c.len() implies a[i] < c[j] by {
        assert(a.contains(a[i]) && c.contains(c[j]));
    }
    lemma_sorted_concat(a, c);
    assert forall|i: int, j: int| 0 <= i < (a + c).len() && 0 <= j < b.len() implies (a + c)[i]
        < b[j] by {
        assert(b.contains(b[j]));
        if i < a.len() {
            assert(a.contains(a[i]));
        } else {
            assert(c.contains(c[i - a.len()]));
        }
    }
    lemma_sorted_concat(a + c, b);
}


/// Inserting a value at its place keeps a sequence sorted and adds exactly it.
pub proof fn lemma_sorted_insert(s: Seq<i32>, i: int, v: i32)
    requires
        sorted(s),
        0 <= i <= s.len(),
        forall|j: int| 0 <= j < i ==> s[j] < v,
        i < s.len() ==> v < s[i],
    ensures
        sorted(s.insert(i, v)),
        forall|x: i32| #[trigger] s.insert(i, v).contains(x) == (s.contains(x) || x == v),
{
    let t = s.insert(i, v);
    assert forall|a: int, b: int| 0 <= a < b < t.len() implies t[a] < t[b] by {
        if b < i {
        } else if b == i {
        } else if a < i {
            assert(t[b] == s[b - 1]);
            assert(s[a] < s[b - 1]);
        } else if a == i {
            assert(t[b] == s[b - 1]);
            if b - 1 > i {
                assert(s[i] < s[b - 1]);
            }
        } else {
            assert(t[a] == s[a - 1]);
            assert(t[b] == s[b - 1]);
        }
    }
    assert forall|x: i32| #[trigger] t.contains(x) == (s.contains(x) || x == v) by {
        if t.contains(x) {
            let k = choose|k: int| 0 <= k < t.len() && t[k] == x;
            if k < i {
                assert(s[k] == x);
            } else if k > i {
                assert(s[k - 1] == x);
            }
        }
        if s.contains(x) {
            let k = choose|k: int| 0 <= k < s.len() && s[k] == x;
            if k < i {
                assert(t[k] == x);
            } else {
                assert(t[k + 1] == x);
            }
        }
        if x == v {
            assert(t[i] == v);
        }
    }
}


/// Removing one position of a sorted sequence keeps it sorted and drops exactly
/// that value.
pub proof fn lemma_sorted_remove(s: Seq<i32>, i: int)
    requires
        sorted(s),
        0 <= i < s.len(),
    ensures
        sorted(s.remove(i)),
        forall|x: i32| #[trigger] s.remove(i).contains(x) == (s.contains(x) && x != s[i]),
{
    let t = s.remove(i);
    assert forall|a: int, b: int| 0 <= a < b < t.len() implies t[a] < t[b] by {
        if b < i {
        } else if a < i {
            assert(t[b] == s[b + 1]);
        } else {
            assert(t[a] == s[a + 1]);
            assert(t[b] == s[b + 1]);
        }
    }
    assert forall|x: i32| #[trigger] t.contains(x) == (s.contains(x) && x != s[i]) by {
        if t.contains(x) {
            let k = choose|k: int| 0 <= k < t.len() && t[k] == x;
            if k < i {
                assert(s[k] == x);
                assert(s[k] < s[i]);
            } else {
                assert(s[k + 1] == x);
                assert(s[i] < s[k + 1]);
            }
        }
        if s.contains(x) && x != s[i] {
            let k = choose|k: int| 0 <= k < s.len() && s[k] == x;
            if k < i {
                assert(t[k] == x);
            } else {
                assert(t[k - 1] == x);
            }
        }
    }
}

/// No value of a sorted sequence lies strictly between two neighbours.
pub proof fn lemma_sorted_neighbors(s: Seq<i32>, j: int)
    requires
        sorted(s),
        0 <= j,
        j + 1 < s.len(),
    ensures
        forall|x: i32| #[trigger] s.contains(x) ==> x <= s[j] || s[j + 1] <= x,
{
    assert forall|x: i32| #[trigger] s.contains(x) implies x <= s[j] || s[j + 1] <= x by {
        let k = choose|k: int| 0 <= k < s.len() && s[k] == x;
        if k < j {
            assert(s[k] < s[j]);
        } else if k > j + 1 {
            assert(s[j + 1] < s[k]);
        }
    }
}

} // verus!
