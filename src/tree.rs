use vstd::prelude::*;

verus! {

/// The node indices below `n`, in order.
pub open spec fn indices(n: nat) -> Seq<usize> {
    Seq::new(n, |i: int| i as usize)
}

/// A scene hierarchy stored as an arena: node `i` has an optional parent and may
/// carry a mesh. A parent is always added before its children, so every parent
/// index is smaller than its child's, which keeps the hierarchy acyclic.
pub struct SceneTree {
    parents: Vec<Option<usize>>,
    meshes: Vec<bool>,
}

impl SceneTree {
    pub closed spec fn len(self) -> nat {
        self.parents@.len()
    }

    pub closed spec fn parent_of(self, n: int) -> Option<usize> {
        self.parents@[n]
    }

    pub closed spec fn has_mesh(self, n: int) -> bool {
        self.meshes@[n]
    }

    pub closed spec fn wf(self) -> bool {
        &&& self.meshes@.len() == self.parents@.len()
        &&& self.parents@.len() <= usize::MAX
        &&& forall|i: int|
            #![trigger self.parents@[i]]
            0 <= i < self.parents@.len() && self.parents@[i] is Some ==> (
            self.parents@[i]->0 as int) < i
    }

    /// Every parent index lies below its child's.
    pub proof fn lemma_parent_below(self, n: int)
        requires
            self.wf(),
            0 <= n < self.len(),
            self.parent_of(n) is Some,
        ensures
            (self.parent_of(n)->0 as int) < n,
    {
    }

    /// Every node index fits in a `usize`.
    pub proof fn lemma_len_fits(self)
        requires
            self.wf(),
        ensures
            self.len() <= usize::MAX,
    {
    }

    /// The nodes from the root down to `n`, ending with `n`.
    pub open spec fn chain(self, n: int) -> Seq<usize>
        decreases n,
    {
        if 0 <= n < self.len() {
            match self.parent_of(n) {
                Some(p) => if (p as int) < n {
                    self.chain(p as int).push(n as usize)
                } else {
                    seq![n as usize]
                },
                None => seq![n as usize],
            }
        } else {
            Seq::empty()
        }
    }

    /// `d` lies strictly below `r` in the hierarchy.
    pub open spec fn is_descendant(self, d: int, r: int) -> bool
        decreases d,
    {
        if 0 <= d < self.len() {
            match self.parent_of(d) {
                Some(p) => (p as int) < d && (p as int == r || self.is_descendant(p as int, r)),
                None => false,
            }
        } else {
            false
        }
    }

    /// The nodes strictly below `r` that carry a mesh, in index order.
    pub open spec fn meshes_below_spec(self, r: int) -> Seq<usize> {
        indices(self.len()).filter(self.mesh_below(r))
    }

    /// Holds of the nodes strictly below `r` that carry a mesh.
    pub open spec fn mesh_below(self, r: int) -> spec_fn(usize) -> bool {
        |i: usize| self.has_mesh(i as int) && self.is_descendant(i as int, r)
    }

    /// The world transform of the last node of `c`, built root first: the
    /// root's transform is `local` of the root, and each further node's is
    /// `then_local` of its parent's world transform and its own `local`.
    pub open spec fn compose_along<X>(
        c: Seq<usize>,
        local: spec_fn(usize) -> X,
        then_local: spec_fn(X, X) -> X,
    ) -> X
        decreases c.len(),
    {
        if c.len() <= 1 {
            local(c[0])
        } else {
            then_local(Self::compose_along(c.drop_last(), local, then_local), local(c.last()))
        }
    }

    /// A node's chain is its parent's chain followed by the node itself, so a
    /// node's world transform is its parent's world transform composed with the
    /// node's local transform. Along root, middle and leaf, the leaf's chain is
    /// exactly those three, and composing it equals composing root and middle
    /// first and then the leaf's local transform.
    pub proof fn lemma_chain_extends<X>(
        self,
        root: usize,
        mid: usize,
        leaf: usize,
        local: spec_fn(usize) -> X,
        then_local: spec_fn(X, X) -> X,
    )
        requires
            self.wf(),
            leaf < self.len(),
            self.parent_of(leaf as int) == Some(mid),
            self.parent_of(mid as int) == Some(root),
        ensures
            self.chain(leaf as int) == self.chain(mid as int).push(leaf),
            Self::compose_along(self.chain(leaf as int), local, then_local) == then_local(
                Self::compose_along(self.chain(mid as int), local, then_local),
                local(leaf),
            ),
            self.parent_of(root as int) is None ==> self.chain(leaf as int) == seq![root, mid, leaf],
    {
        self.lemma_parent_below(leaf as int);
        self.lemma_parent_below(mid as int);
        let c = self.chain(leaf as int);
        assert(c.drop_last() =~= self.chain(mid as int));
        if self.parent_of(root as int) is None {
            assert(self.chain(root as int) == seq![root]);
            assert(self.chain(mid as int) =~= seq![root, mid]);
            assert(c =~= seq![root, mid, leaf]);
        }
    }

    pub fn new() -> (r: Self)
        ensures
            r.wf(),
            r.len() == 0,
    {
        SceneTree { parents: Vec::new(), meshes: Vec::new() }
    }

    pub fn node_count(&self) -> (r: usize)
        requires
            self.wf(),
        ensures
            r == self.len(),
    {
        self.parents.len()
    }

    /// Adds a node under `parent` (or as a root) and returns its index; `None`
    /// when `parent` names no existing node, or when no index is left.
    pub fn add_node(&mut self, parent: Option<usize>, has_mesh: bool) -> (r: Option<usize>)
        requires
            old(self).wf(),
        ensures
            final(self).wf(),
            (match parent {
                Some(p) => p >= old(self).len(),
                None => false,
            } || old(self).len() == usize::MAX) ==> r is None && *final(self) == *old(self),
            (match parent {
                Some(p) => p < old(self).len(),
                None => true,
            } && old(self).len() < usize::MAX) ==> r == Some(old(self).len() as usize) && final(self).len() == old(self).len() + 1
                && final(self).parent_of(old(self).len() as int) == parent
                && final(self).has_mesh(old(self).len() as int) == has_mesh
                && forall|i: int|
                0 <= i < old(self).len() ==> final(self).parent_of(i) == old(self).parent_of(i)
                    && final(self).has_mesh(i) == old(self).has_mesh(i),
    {
        let n = self.parents.len();
        if n == usize::MAX {
            return None;
        }
        if let Some(p) = parent {
            if p >= n {
                return None;
            }
        }
        self.parents.push(parent);
        self.meshes.push(has_mesh);
        proof {
            assert forall|i: int|
                0 <= i < self.parents@.len() && #[trigger] self.parents@[i] is Some implies (
                self.parents@[i]->0 as int) < i by {
                if i < n as int {
                    assert(self.parents@[i] == old(self).parents@[i]);
                }
            }
        }
        Some(n)
    }

    pub fn parent(&self, n: usize) -> (r: Option<usize>)
        requires
            self.wf(),
            n < self.len(),
        ensures
            r == self.parent_of(n as int),
    {
        self.parents[n]
    }

    pub fn mesh_at(&self, n: usize) -> (r: bool)
        requires
            self.wf(),
            n < self.len(),
        ensures
            r == self.has_mesh(n as int),
    {
        self.meshes[n]
    }

    /// The ancestor chain of `n`, root first and `n` last: the order in which
    /// local transforms are composed into `n`'s world transform.
    pub fn ancestor_chain(&self, n: usize) -> (r: Vec<usize>)
        requires
            self.wf(),
            n < self.len(),
        ensures
            r@ == self.chain(n as int),
    {
        let mut cur: usize = n;
        let mut acc: Vec<usize> = Vec::new();
        loop
            invariant
                self.wf(),
                cur < self.len(),
                self.chain(n as int) == self.chain(cur as int) + acc@,
            decreases cur,
        {
            let ghost before = acc@;
            acc.insert(0, cur);
            match self.parents[cur] {
                None => {
                    assert(self.chain(n as int) =~= acc@);
                    return acc;
                },
                Some(p) => {
                    proof {
                        self.lemma_parent_below(cur as int);
                        assert(self.chain(cur as int) == self.chain(p as int).push(cur));
                        assert(self.chain(p as int).push(cur) + before =~= self.chain(p as int)
                            + acc@);
                    }
                    cur = p;
                },
            }
        }
    }

    /// Whether `d` lies strictly below `r`.
    pub fn descends_from(&self, d: usize, r: usize) -> (b: bool)
        requires
            self.wf(),
            d < self.len(),
        ensures
            b == self.is_descendant(d as int, r as int),
    {
        let mut cur: usize = d;
        loop
            invariant
                self.wf(),
                cur < self.len(),
                self.is_descendant(d as int, r as int) == self.is_descendant(cur as int, r as int),
            decreases cur,
        {
            match self.parents[cur] {
                None => {
                    return false;
                },
                Some(p) => {
                    proof {
                        self.lemma_parent_below(cur as int);
                    }
                    if p == r {
                        return true;
                    }
                    cur = p;
                },
            }
        }
    }

    /// Every node strictly below `r` that carries a mesh, in index order.
    pub fn meshes_below(&self, r: usize) -> (v: Vec<usize>)
        requires
            self.wf(),
        ensures
            v@ == self.meshes_below_spec(r as int),
    {
        let n = self.parents.len();
        let mut v: Vec<usize> = Vec::new();
        let mut i: usize = 0;
        while i < n
            invariant
                self.wf(),
                n == self.len(),
                i <= n,
                v@ == indices(i as nat).filter(self.mesh_below(r as int)),
            decreases n - i,
        {
            proof {
                let s = indices((i + 1) as nat);
                assert(s.drop_last() =~= indices(i as nat));
                assert(s.last() == i);
                reveal(Seq::filter);
            }
            if self.meshes[i] && self.descends_from(i, r) {
                v.push(i);
            }
            i = i + 1;
        }
        v
    }
}

} // verus!
