use vstd::prelude::*;
use crate::node::{
    Node, MAX_DEGREE, inorder, node_wf, search, left_of, right_of, lemma_child_bracket,
    lemma_decompose, lemma_flat_single, lemma_len_at_least_height, lemma_height_unique,
};
use crate::seqs::{sorted, lemma_contains_concat, lemma_sorted_no_duplicates};

verus! {

/// An ordered set of `i32` values kept in a B-tree of a fixed minimum degree.
pub struct BTreeSet {
    root: Node,
    min_degree: usize,
    size: usize,
    height: Ghost<nat>,
}

impl View for BTreeSet {
    type V = Set<i32>;

    closed spec fn view(&self) -> Set<i32> {
        inorder(self.root).to_set()
    }
}

impl BTreeSet {
    /// The root node.
    pub closed spec fn root_spec(&self) -> Node {
        self.root
    }

    /// The minimum degree the tree was built with.
    pub closed spec fn degree(&self) -> nat {
        self.min_degree as nat
    }

    /// The depth of every leaf.
    pub closed spec fn height(&self) -> nat {
        self.height@
    }

    /// The values in ascending order.
    pub closed spec fn values(&self) -> Seq<i32> {
        inorder(self.root)
    }

    /// All the invariants of the tree, for a tree whose leaves lie at depth `h`.
    pub closed spec fn valid_at(&self, h: nat) -> bool {
        &&& 2 <= self.min_degree <= MAX_DEGREE
        &&& node_wf(self.root, self.min_degree as nat, h)
        &&& h > 0 ==> self.root.keys.len() >= 1
        &&& sorted(inorder(self.root))
        &&& self.size == inorder(self.root).len()
    }

    /// All the invariants of the tree.
    pub closed spec fn wf(&self) -> bool {
        self.valid_at(self.height@)
    }

    /// The shape of a well-formed tree: node sizes within bounds below the root,
    /// the root within `2d - 1` keys and holding a key when internal, and every
    /// leaf at the same depth; the values ascend strictly and make up the set.
    pub proof fn lemma_shape(&self)
        requires
            self.wf(),
        ensures
            node_wf(self.root_spec(), self.degree(), self.height()),
            self.height() > 0 ==> self.root_spec().keys.len() >= 1,
            sorted(self.values()),
            self.values() == inorder(self.root_spec()),
            self@ == self.values().to_set(),
            self@.len() == self.values().len(),
            2 <= self.degree(),
    {
        lemma_sorted_no_duplicates(inorder(self.root));
        inorder(self.root).unique_seq_to_set();
    }

    /// An empty set whose nodes hold between `d - 1` and `2d - 1` keys.
    pub fn new(d: usize) -> (r: Self)
        requires
            2 <= d <= MAX_DEGREE,
        ensures
            r.wf(),
            r@ == Set::<i32>::empty(),
            r.degree() == d,
    {
        let r = BTreeSet {
            root: Node { keys: Vec::new(), children: Vec::new() },
            min_degree: d,
            size: 0,
            height: Ghost(0),
        };
        assert(inorder(r.root) =~= Seq::<i32>::empty());
        assert(r@ =~= Set::<i32>::empty());
        r
    }

    /// The number of values held.
    pub fn len(&self) -> (r: usize)
        requires
            self.wf(),
        ensures
            r == self@.len(),
    {
        proof {
            self.lemma_shape();
        }
        self.size
    }

    /// Adds `v`; returns whether it was absent. A full root is split first, which
    /// is the only place where the tree grows in height.
    #[verifier::rlimit(60)]
    pub fn insert(&mut self, v: i32) -> (r: bool)
        requires
            old(self).wf(),
            old(self)@.len() < usize::MAX,
        ensures
            final(self).wf(),
            r == !old(self)@.contains(v),
            final(self)@ == old(self)@.insert(v),
            !r ==> final(self)@ == old(self)@,
            final(self).degree() == old(self).degree(),
    {
        proof {
            self.lemma_shape();
        }
        let ghost before = inorder(self.root);
        let d = self.min_degree;
        if self.root.keys.len() == 2 * d - 1 {
            let mut top = Node { keys: Vec::new(), children: Vec::new() };
            std::mem::swap(&mut top, &mut self.root);
            let mut children: Vec<Node> = Vec::new();
            children.push(top);
            let mut grown = Node { keys: Vec::new(), children };
            proof {
                lemma_flat_single(top);
                assert(grown.children@ =~= seq![top]);
                assert(inorder(grown) == inorder(top));
                assert(node_wf(grown, d as nat, self.height@ + 1));
            }
            grown.split_child(0, d, Ghost(self.height@ + 1));
            self.root = grown;
            self.height = Ghost(self.height@ + 1);
        }
        let r = self.root.insert_nonfull(v, d, Ghost(self.height@));
        if r {
            self.size = self.size + 1;
        }
        proof {
            let after = inorder(self.root);
            assert(self@ =~= old(self)@.insert(v)) by {
                assert forall|x: i32| self@.contains(x) == old(self)@.insert(v).contains(x) by {
                    assert(after.contains(x) == (before.contains(x) || x == v));
                }
            }
        }
        r
    }

    /// Takes `v` out; returns whether it was present. An internal root left
    /// without keys gives way to its only child, which is the only place where
    /// the tree shrinks in height.
    #[verifier::rlimit(60)]
    pub fn remove(&mut self, v: i32) -> (r: bool)
        requires
            old(self).wf(),
        ensures
            final(self).wf(),
            r == old(self)@.contains(v),
            final(self)@ == old(self)@.remove(v),
            !r ==> final(self)@ == old(self)@,
            final(self).degree() == old(self).degree(),
    {
        proof {
            self.lemma_shape();
        }
        let ghost before = inorder(self.root);
        let d = self.min_degree;
        let r = self.root.remove_from(v, d, Ghost(self.height@));
        if r {
            self.size = self.size - 1;
        }
        if self.root.keys.len() == 0 && self.root.children.len() > 0 {
            let ghost top = self.root;
            proof {
                assert(top.children.len() == 1);
                assert(top.keys@ =~= seq![]);
                assert(top.children@ =~= seq![top.children@[0]]);
                lemma_flat_single(top.children@[0]);
                assert(node_wf(top.children@[0], d as nat, (self.height@ - 1) as nat));
            }
            match self.root.children.pop() {
                Some(c) => {
                    self.root = c;
                    self.height = Ghost((self.height@ - 1) as nat);
                },
                None => {},
            }
        }
        proof {
            let after = inorder(self.root);
            assert(self@ =~= old(self)@.remove(v)) by {
                assert forall|x: i32| self@.contains(x) == old(self)@.remove(v).contains(x) by {
                    assert(after.contains(x) == (before.contains(x) && x != v));
                }
            }
        }
        r
    }

    /// Walks the whole tree and reports whether it keeps every invariant: node
    /// sizes, one more child than keys in internal nodes, leaves at one depth,
    /// values strictly ascending, and the cached size.
    #[verifier::rlimit(60)]
    pub fn check_structure(&self) -> (r: bool)
        ensures
            r == exists|h: nat| self.valid_at(h),
            self.wf() ==> r,
    {
        let d = self.min_degree;
        if d < 2 || d > MAX_DEGREE {
            return false;
        }
        let h = match self.root.shape_height(d) {
            None => {
                proof {
                    assert forall|g: nat| !self.valid_at(g) by {
                        if self.valid_at(g) {
                            lemma_len_at_least_height(self.root, d as nat, g);
                        }
                    }
                }
                return false;
            },
            Some(h) => h,
        };
        if h > 0 && self.root.keys.len() == 0 {
            proof {
                assert forall|g: nat| !self.valid_at(g) by {
                    if self.valid_at(g) {
                        lemma_height_unique(self.root, d as nat, g, h as nat);
                    }
                }
            }
            return false;
        }
        let mut vals: Vec<i32> = Vec::new();
        self.root.collect_values(&mut vals, Ghost(d as nat), Ghost(h as nat));
        assert(vals@ =~= inorder(self.root));
        let mut k: usize = 1;
        while k < vals.len()
            invariant
                1 <= k,
                vals@ == inorder(self.root),
                forall|a: int, b: int| 0 <= a < b < k && b < vals@.len() ==> vals@[a] < vals@[b],
            decreases vals.len() - k,
        {
            if vals[k - 1] >= vals[k] {
                proof {
                    assert(!sorted(vals@));
                    assert forall|g: nat| !self.valid_at(g) by {}
                }
                return false;
            }
            k = k + 1;
        }
        assert(sorted(vals@));
        if vals.len() != self.size {
            proof {
                assert forall|g: nat| !self.valid_at(g) by {}
            }
            return false;
        }
        proof {
            assert(self.valid_at(h as nat));
            if self.wf() {
            }
        }
        true
    }

    /// The root node.
    pub fn root(&self) -> (r: &Node)
        ensures
            *r == self.root_spec(),
    {
        &self.root
    }

    /// The minimum degree the tree was built with.
    pub fn min_degree(&self) -> (r: usize)
        ensures
            r == self.degree(),
    {
        self.min_degree
    }

    /// The depth of the leaves: zero while the root is a leaf.
    pub fn depth(&self) -> (r: usize)
        requires
            self.wf(),
        ensures
            r == self.height(),
    {
        let ghost d = self.min_degree as nat;
        proof {
            lemma_len_at_least_height(self.root, d, self.height@);
        }
        let mut n: &Node = &self.root;
        let mut k: usize = 0;
        let ghost mut g: nat = self.height@;
        while n.children.len() > 0
            invariant
                d >= 2,
                node_wf(*n, d, g),
                k + g == self.height@,
                self.height@ <= usize::MAX,
            decreases g,
        {
            proof {
                assert(node_wf(n.children@[0], d, (g - 1) as nat));
                g = (g - 1) as nat;
            }
            n = &n.children[0];
            k = k + 1;
        }
        k
    }

    /// Whether `v` is held.
    #[verifier::rlimit(60)]
    pub fn contains(&self, v: i32) -> (r: bool)
        requires
            self.wf(),
        ensures
            r == self@.contains(v),
    {
        let ghost d = self.min_degree as nat;
        let ghost top = inorder(self.root);
        let mut n: &Node = &self.root;
        let ghost mut h: nat = self.height@;
        loop
            invariant
                d >= 2,
                node_wf(*n, d, h),
                sorted(inorder(*n)),
                top.contains(v) == inorder(*n).contains(v),
                self@ == top.to_set(),
            decreases h,
        {
            let (found, i) = search(&n.keys, v);
            if n.children.len() == 0 {
                proof {
                    assert(inorder(*n) == n.keys@);
                }
                return found;
            }
            let ghost ks = n.keys@;
            let ghost cs = n.children@;
            proof {
                lemma_child_bracket(ks, cs, i as int);
                lemma_decompose(ks, cs, i as int);
                lemma_contains_concat(left_of(ks, cs, i as int) + inorder(cs[i as int]), right_of(ks, cs, i as int));
                lemma_contains_concat(left_of(ks, cs, i as int), inorder(cs[i as int]));
            }
            if found {
                proof {
                    assert(right_of(ks, cs, i as int)[0] == v);
                    assert(right_of(ks, cs, i as int).contains(v));
                }
                return true;
            }
            n = &n.children[i];
            proof {
                h = (h - 1) as nat;
            }
        }
    }
}

} // verus!
