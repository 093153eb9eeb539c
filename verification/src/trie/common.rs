//! Node indices and the arena of leaves.
use vstd::prelude::*;

verus! {

/// The greatest index that a leaf or a branching can have.
pub const INDEX_MAX: usize = 0x7fff_ffff;

/// Index of any node: a branching when it is not negative, else a leaf.
#[derive(Copy, Clone, Eq, PartialEq, Hash, Debug, Structural)]
pub struct NodeIndex(pub i32);

/// Index of a leaf, held as `-1 - position`.
#[derive(Copy, Clone, Eq, PartialEq, Hash, Debug, Structural)]
pub struct LeafIndex(pub i32);

/// Index of a branching, held as its position.
#[derive(Copy, Clone, Eq, PartialEq, Hash, Debug, Structural)]
pub struct BranchingIndex(pub i32);

impl NodeIndex {
    pub fn root() -> (r: Self)
        ensures
            r == NodeIndex(0),
    {
        Self(0)
    }

    pub fn root_leaf() -> (r: Self)
        ensures
            r == NodeIndex(-1i32),
    {
        Self(-1)
    }

    pub fn is_root(&self) -> (r: bool)
        ensures
            r == (self.0 == 0),
    {
        self.0 == 0
    }

    pub fn is_branching(&self) -> (r: bool)
        ensures
            r == (self.0 >= 0),
    {
        self.0 >= 0
    }

    pub fn is_leaf(&self) -> (r: bool)
        ensures
            r == (self.0 < 0),
    {
        self.0 < 0
    }

    pub fn as_leaf(&self) -> (r: LeafIndex)
        requires
            self.0 < 0,
        ensures
            r == LeafIndex(self.0),
    {
        LeafIndex(self.0)
    }

    pub fn as_branching(&self) -> (r: BranchingIndex)
        requires
            self.0 >= 0,
        ensures
            r == BranchingIndex(self.0),
    {
        BranchingIndex(self.0)
    }

    /// The node index of a leaf.
    pub fn of_leaf(i: LeafIndex) -> (r: Self)
        ensures
            r == NodeIndex(i.0),
    {
        Self(i.0)
    }

    /// The node index of a branching.
    pub fn of_branching(i: BranchingIndex) -> (r: Self)
        ensures
            r == NodeIndex(i.0),
    {
        Self(i.0)
    }

    /// Whether the node is this leaf.
    pub fn is_leaf_index(&self, other: &LeafIndex) -> (r: bool)
        ensures
            r == (self.0 == other.0),
    {
        self.0 == other.0
    }

    /// Whether the node is this branching.
    pub fn is_branching_index(&self, other: &BranchingIndex) -> (r: bool)
        ensures
            r == (self.0 == other.0),
    {
        self.0 == other.0
    }
}

impl LeafIndex {
    /// The position of the leaf in its arena.
    pub open spec fn idx(self) -> int {
        -1 - self.0
    }

    pub fn root_leaf() -> (r: Self)
        ensures
            r == LeafIndex(-1i32),
            r.idx() == 0,
    {
        Self(-1)
    }

    pub fn is_root_leaf(&self) -> (r: bool)
        ensures
            r == (self.0 == -1),
    {
        self.0 == -1
    }

    pub fn index(&self) -> (r: usize)
        requires
            self.0 < 0,
        ensures
            r == self.idx(),
    {
        (-1 - self.0) as usize
    }

    /// The index of the leaf at position `i`.
    pub fn from_index(i: usize) -> (r: Self)
        requires
            i <= INDEX_MAX,
        ensures
            r.idx() == i,
            r.0 < 0,
    {
        Self(-1 - (i as i32))
    }
}

impl BranchingIndex {
    pub fn root() -> (r: Self)
        ensures
            r == BranchingIndex(0),
    {
        Self(0)
    }

    pub fn is_root(&self) -> (r: bool)
        ensures
            r == (self.0 == 0),
    {
        self.0 == 0
    }

    pub fn index(&self) -> (r: usize)
        requires
            self.0 >= 0,
        ensures
            r == self.0,
    {
        self.0 as usize
    }

    /// The index of the branching at position `i`.
    pub fn from_index(i: usize) -> (r: Self)
        requires
            i <= INDEX_MAX,
        ensures
            r.0 == i,
    {
        Self(i as i32)
    }
}

/// `Vec::shrink_to_fit`: the elements stay as they are.
#[verifier::external_body]
pub(crate) fn vec_shrink_to_fit<T>(v: &mut Vec<T>)
    ensures
        final(v)@ == old(v)@,
{
    v.shrink_to_fit();
}

/// A prefix and the value stored for it.
pub struct Leaf<K, V> {
    pub prefix: K,
    pub value: V,
}

impl<K, V> Leaf<K, V> {
    pub fn new(k: K, v: V) -> (r: Self)
        ensures
            r.prefix == k,
            r.value == v,
    {
        Self { prefix: k, value: v }
    }

    pub fn prefix(&self) -> (r: &K)
        ensures
            *r == self.prefix,
    {
        &self.prefix
    }

    pub fn get(&self) -> (r: (&K, &V))
        ensures
            *r.0 == self.prefix,
            *r.1 == self.value,
    {
        (&self.prefix, &self.value)
    }

    pub fn get_mut(&mut self) -> (r: (&K, &mut V))
        ensures
            *r.0 == old(self).prefix,
            *r.1 == old(self).value,
            final(self).prefix == old(self).prefix,
            final(self).value == *final(r.1),
    {
        (&self.prefix, &mut self.value)
    }

    /// The prefix and the value, by value.
    pub fn into_pair(self) -> (r: (K, V))
        ensures
            r.0 == self.prefix,
            r.1 == self.value,
    {
        (self.prefix, self.value)
    }
}

/// The arena of leaves: a dense sequence addressed by `LeafIndex`.
pub struct TrieLeaves<L>(pub Vec<L>);

impl<L> View for TrieLeaves<L> {
    type V = Seq<L>;

    open spec fn view(&self) -> Seq<L> {
        self.0@
    }
}

impl<K, V> TrieLeaves<Leaf<K, V>> {
    /// An arena that holds one leaf, the root leaf.
    pub fn new(capacity: usize, k: K, v: V) -> (r: Self)
        ensures
            r@ == seq![Leaf { prefix: k, value: v }],
    {
        let mut leaves = Vec::with_capacity(capacity);
        leaves.push(Leaf::new(k, v));
        Self(leaves)
    }
}

impl<L> TrieLeaves<L> {
    /// Appends a leaf and returns its index.
    pub fn push(&mut self, leaf: L) -> (r: LeafIndex)
        requires
            old(self)@.len() <= INDEX_MAX,
        ensures
            final(self)@ == old(self)@.push(leaf),
            r.idx() == old(self)@.len(),
            r.0 < 0,
    {
        let index = LeafIndex::from_index(self.0.len());
        self.0.push(leaf);
        index
    }

    /// Takes the last leaf away.
    pub fn remove_last(&mut self) -> (r: Option<L>)
        ensures
            old(self)@.len() == 0 ==> r.is_none() && final(self)@ == old(self)@,
            old(self)@.len() > 0 ==> r == Some(old(self)@.last()) && final(self)@ == old(
                self,
            )@.drop_last(),
    {
        self.0.pop()
    }

    /// Takes the leaf at `i` away; the last leaf takes its place.
    pub fn remove(&mut self, i: LeafIndex) -> (r: L)
        requires
            0 <= i.idx() < old(self)@.len(),
        ensures
            r == old(self)@[i.idx()],
            final(self)@ == old(self)@.update(i.idx(), old(self)@.last()).drop_last(),
    {
        self.0.swap_remove(i.index())
    }

    pub fn len(&self) -> (r: usize)
        ensures
            r == self@.len(),
    {
        self.0.len()
    }

    /// Gives back the memory that the arena does not use.
    pub fn shrink_to_fit(&mut self)
        ensures
            final(self)@ == old(self)@,
    {
        vec_shrink_to_fit(&mut self.0);
    }

    /// Puts `leaf` at `i` and returns the leaf that was there.
    pub fn replace_at(&mut self, i: LeafIndex, leaf: L) -> (r: L)
        requires
            0 <= i.idx() < old(self)@.len(),
        ensures
            r == old(self)@[i.idx()],
            final(self)@ == old(self)@.update(i.idx(), leaf),
    {
        self.0.push(leaf);
        let r = self.0.swap_remove(i.index());
        assert(self@ =~= old(self)@.update(i.idx(), leaf));
        r
    }

    /// The leaf at `i`, to be changed in place.
    pub fn at_mut(&mut self, i: LeafIndex) -> (r: &mut L)
        requires
            0 <= i.idx() < old(self)@.len(),
        ensures
            *r == old(self)@[i.idx()],
            final(self)@ == old(self)@.update(i.idx(), *final(r)),
    {
        &mut self.0[i.index()]
    }

    /// The leaf at `i`.
    pub fn at(&self, i: LeafIndex) -> (r: &L)
        requires
            0 <= i.idx() < self@.len(),
        ensures
            *r == self@[i.idx()],
    {
        &self.0[i.index()]
    }
}

impl<K: Copy, V> TrieLeaves<Leaf<K, V>> {
    /// Gives each leaf the value that `f` returns for its prefix and its value.
    pub fn update_values<F: Fn(&K, &V) -> V>(&mut self, f: &F)
        requires
            forall|j: int|
                0 <= j < old(self)@.len() ==> f.requires(
                    (&(#[trigger] old(self)@[j]).prefix, &old(self)@[j].value),
                ),
        ensures
            final(self)@.len() == old(self)@.len(),
            forall|j: int|
                0 <= j < old(self)@.len() ==> (#[trigger] final(self)@[j]).prefix == old(
                    self,
                )@[j].prefix && f.ensures(
                    (&old(self)@[j].prefix, &old(self)@[j].value),
                    final(self)@[j].value,
                ),
    {
        let n = self.0.len();
        let mut j: usize = 0;
        while j < n
            invariant
                0 <= j <= n,
                n == self@.len(),
                n == old(self)@.len(),
                forall|i: int| j <= i < n ==> #[trigger] self@[i] == old(self)@[i],
                forall|i: int|
                    0 <= i < n ==> f.requires(
                        (&(#[trigger] old(self)@[i]).prefix, &old(self)@[i].value),
                    ),
                forall|i: int|
                    0 <= i < j ==> (#[trigger] self@[i]).prefix == old(self)@[i].prefix
                        && f.ensures(
                        (&old(self)@[i].prefix, &old(self)@[i].value),
                        self@[i].value,
                    ),
            decreases n - j,
        {
            let leaf = &self.0[j];
            assert(*leaf == old(self)@[j as int]);
            let k = leaf.prefix;
            let w = f(&leaf.prefix, &leaf.value);
            self.0.set(j, Leaf::new(k, w));
            j += 1;
        }
    }
}

} // verus!
