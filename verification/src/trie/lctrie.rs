//! The level-compressed trie: built once from a radix trie, it tests several
//! bits at each branching.
use vstd::prelude::*;
use crate::prefix::cover::{coverage, IpPrefixCoverage, IpPrefixCovering};
use crate::prefix::slot::{bit16, BitSlot};
use crate::prefix::IpPrefix;
use crate::trie::common::{BranchingIndex, Leaf, LeafIndex, NodeIndex, TrieLeaves, INDEX_MAX};
use crate::trie::patricia::{BranchingTree, RadixTrie};

verus! {

/// The number of slots that the header of a compressed branching takes.
pub const HEADER: usize = 3;

/// The greatest number of bits that a compressed branching tests.
pub const MAX_SIZE: u8 = 15;

/// A letter read with the mask of `size` bits is under the fan-out of `size`
/// bits; so is a letter of `avail` bits moved up by `up` bits to `size` bits.
pub proof fn lemma_letter(x: u16, size: u8, avail: u8, up: u8)
    by (bit_vector)
    ensures
        1 <= size <= 15 ==> (x & !(!0u16 << size)) < (1u16 << size),
        1 <= size <= 15 ==> (1u16 << size) >= 2,
        1 <= avail < size <= 15 && up == size - avail ==> ((x & !(!0u16 << avail)) << up) < (1u16
            << size),
{
}

/// Bit `d` of a letter of `size` bits, counted from its first bit.
pub open spec fn lbit(k: u16, size: int, d: int) -> bool {
    1 <= d <= size && (k >> ((size - d) as u16)) & 1 == 1
}

/// The bits of a letter: of a word read with the mask of `size` bits; of a
/// word of `avail` bits moved up to `size` bits; of the letter that has the
/// bits of two letters; and what a probe of one bit tells.
pub proof fn lemma_letter_bits(w: u16, k: u16, size: u16, sh: u16, avail: u16, up: u16, low: u16)
    by (bit_vector)
    ensures
        1 <= size <= 15 && sh < size ==> (((w & !(!0u16 << size)) >> sh) & 1 == 1) == ((w >> sh)
            & 1 == 1),
        1 <= avail < size <= 15 && up == size - avail && sh < size && sh >= up && low == sh - up
            ==> ((((w & !(!0u16 << avail)) << up) >> sh) & 1 == 1) == ((w >> low) & 1 == 1),
        1 <= avail < size <= 15 && up == size - avail && sh < up ==> (((w & !(!0u16 << avail))
            << up) >> sh) & 1 == 0,
        (0u16 >> sh) & 1 == 0,
        sh < 16 ==> (((w & k) >> sh) & 1 == 1) == (((w >> sh) & 1 == 1) && ((k >> sh) & 1 == 1)),
        sh < 16 ==> ((k & (1u16 << sh)) == 0) == ((k >> sh) & 1 == 0),
        sh < 16 ==> ((k >> sh) & 1 == 0 || (k >> sh) & 1 == 1),
        (w & k) <= k,
        (k & w) <= k,
{
}

/// Two letters of `size` bits that differ have a bit at which they differ.
pub proof fn lemma_letters_differ(x: u16, y: u16, size: int) -> (d: int)
    requires
        1 <= size <= 15,
        x < (1u16 << (size as u16)),
        y < (1u16 << (size as u16)),
        x != y,
    ensures
        1 <= d <= size,
        lbit(x, size, d) != lbit(y, size, d),
{
    let z = x ^ y;
    vstd::std_specs::bits::axiom_u16_leading_zeros(z);
    let lz = vstd::std_specs::bits::u16_leading_zeros(z) as int;
    let sz = size as u16;
    assert(x != y ==> (x ^ y) != 0) by (bit_vector);
    let sh: u16 = (15 - lz) as u16;
    assert((z >> sh) & 1 != 0);
    assert(1 <= sz <= 15 && x < (1u16 << sz) && y < (1u16 << sz) && sh < 16 && ((x ^ y) >> sh) & 1
        != 0 ==> sh < sz && (((x >> sh) & 1 == 1) != ((y >> sh) & 1 == 1))) by (bit_vector);
    size - sh
}

/// The header of a compressed branching: it tests the `size` bits after the
/// first `shift` bits.
#[derive(Copy, Clone, Debug)]
pub struct Compressed {
    pub shift: u8,
    pub size: u8,
    pub mask: u16,
    pub escape: LeafIndex,
    pub parent: BranchingIndex,
}

impl Compressed {
    pub fn new(shift: u8, size: u8, escape: LeafIndex, parent: BranchingIndex) -> (r: Self)
        requires
            1 <= size <= MAX_SIZE,
        ensures
            r.shift == shift,
            r.size == size,
            r.mask == !(!0u16 << size),
            r.escape == escape,
            r.parent == parent,
    {
        Self { shift, size, mask: !(!0u16 << size), escape, parent }
    }

    /// The number of children.
    pub fn children(&self) -> (r: u16)
        requires
            1 <= self.size <= MAX_SIZE,
        ensures
            r == 1u16 << self.size,
            r >= 2,
    {
        proof {
            lemma_letter(0, self.size, 0, 0);
        }
        1u16 << self.size
    }

    /// The letter of `slot` at this branching: the bits after the first
    /// `shift`, as many as the branching tests, read as a number.  Bits after
    /// the end of the slot read as zero.
    pub fn letter<B: BitSlot>(&self, slot: &B) -> (r: u16)
        requires
            1 <= self.size <= MAX_SIZE,
            self.mask == !(!0u16 << self.size),
        ensures
            r < (1u16 << self.size),
            forall|d: int|
                1 <= d <= self.size ==> #[trigger] lbit(r, self.size as int, d) == slot.bit(
                    self.shift + d,
                ),
    {
        let len = B::len_bits();
        let ghost size = self.size as int;
        proof {
            B::lemma_bit_range(*slot, 0);
        }
        if self.shift >= len {
            proof {
                lemma_letter(0, self.size, 0, 0);
                assert forall|d: int| 1 <= d <= size implies #[trigger] lbit(0u16, size, d)
                    == slot.bit(self.shift + d) by {
                    lemma_letter_bits(0, 0, 0, (size - d) as u16, 0, 0, 0);
                    B::lemma_bit_range(*slot, self.shift + d);
                }
            }
            0
        } else if self.size <= len - self.shift {
            let moved = slot.shr(len - self.shift - self.size);
            let word: u16 = moved.last_16_bits();
            let r: u16 = word & self.mask;
            proof {
                lemma_letter(word, self.size, 0, 0);
                assert forall|d: int| 1 <= d <= size implies #[trigger] lbit(r, size, d)
                    == slot.bit(self.shift + d) by {
                    let sh = (size - d) as u16;
                    lemma_letter_bits(word, 0, self.size as u16, sh, 0, 0, 0);
                    let j = 16 - size + d;
                    assert(bit16(word, j) == moved.bit(B::width() - 16 + j));
                    assert((16 - j) as u16 == sh);
                }
            }
            r
        } else {
            let avail: u8 = len - self.shift;
            let up: u8 = self.size - avail;
            let word: u16 = slot.last_16_bits();
            let r: u16 = (word & !(!0u16 << avail)) << up;
            proof {
                lemma_letter(word, self.size, avail, up);
                assert forall|d: int| 1 <= d <= size implies #[trigger] lbit(r, size, d)
                    == slot.bit(self.shift + d) by {
                    let sh = (size - d) as u16;
                    if d <= avail {
                        let low = (avail - d) as u16;
                        lemma_letter_bits(
                            word,
                            0,
                            self.size as u16,
                            sh,
                            avail as u16,
                            up as u16,
                            low,
                        );
                        let j = 16 - avail + d;
                        assert(bit16(word, j) == slot.bit(B::width() - 16 + j));
                        assert((16 - j) as u16 == low);
                    } else {
                        lemma_letter_bits(word, 0, self.size as u16, sh, avail as u16, up as u16, 0);
                        B::lemma_bit_range(*slot, self.shift + d);
                    }
                }
            }
            r
        }
    }

    /// The number of slots that a branching with so many children takes.
    pub fn offset(children: u16) -> (r: usize)
        ensures
            r == children + HEADER,
    {
        children as usize + HEADER
    }
}

/// The arena of compressed branchings: one sequence of slots that holds the
/// records one after another.  A record is a header of three slots (the
/// first bits and the number of bits tested, the escape, the parent) and then
/// one slot for each child.
pub struct CompressedTree {
    pub memzone: Vec<NodeIndex>,
    /// For each slot, whether a record starts there.
    pub starts: Ghost<Seq<bool>>,
}

impl CompressedTree {
    pub open spec fn len(&self) -> int {
        self.memzone@.len() as int
    }

    /// A record starts at `b`.
    pub open spec fn is_rec(&self, b: int) -> bool {
        0 <= b < self.len() && self.starts@[b]
    }

    pub open spec fn shift(&self, b: int) -> int {
        (self.memzone@[b].0 as int) % 256
    }

    pub open spec fn size(&self, b: int) -> int {
        (self.memzone@[b].0 as int) / 256
    }

    pub open spec fn fan(&self, b: int) -> int {
        (1u16 << (self.size(b) as u8)) as int
    }

    pub open spec fn esc(&self, b: int) -> int {
        -1 - self.memzone@[b + 1].0
    }

    pub open spec fn par(&self, b: int) -> int {
        self.memzone@[b + 2].0 as int
    }

    pub open spec fn kid(&self, b: int, k: int) -> NodeIndex {
        self.memzone@[b + 3 + k]
    }

    /// What holds of the header of the record at `b`, in a trie of `nl`
    /// leaves over slots of `w` bits.
    pub open spec fn head_ok(&self, b: int, nl: int, w: int) -> bool {
        &&& 0 <= self.memzone@[b].0
        &&& 1 <= self.size(b) <= MAX_SIZE
        &&& self.shift(b) + self.size(b) <= w
        &&& b + 3 + self.fan(b) <= self.len()
        &&& 0 <= self.esc(b) < nl
        &&& self.is_rec(self.par(b))
        &&& (b == 0 ==> self.par(b) == 0 && self.esc(b) == 0)
        &&& (b != 0 ==> self.shift(self.par(b)) < self.shift(b))
        &&& self.shift(0) <= self.shift(b)
    }

    /// What holds of child `k` of the record at `b`: a leaf of the trie, or a
    /// record that tests later bits.
    pub open spec fn kid_ok(&self, b: int, k: int, nl: int) -> bool {
        let c = self.kid(b, k).0 as int;
        if c < 0 {
            -1 - c < nl
        } else {
            self.is_rec(c) && self.shift(c) > self.shift(b)
        }
    }

    /// What holds of the record at `b`.
    pub open spec fn rec_ok(&self, b: int, nl: int, w: int) -> bool {
        &&& self.head_ok(b, nl, w)
        &&& forall|k: int| 0 <= k < self.fan(b) ==> #[trigger] self.kid_ok(b, k, nl)
    }

    /// The invariant of the arena, in a trie of `nl` leaves over slots of `w` bits.
    pub open spec fn wf(&self, nl: int, w: int) -> bool {
        &&& 0 <= self.len() <= INDEX_MAX
        &&& self.starts@.len() == self.len()
        &&& w <= 128
        &&& self.packed()
        &&& self.dense()
        &&& (self.len() > 0 ==> self.is_rec(0))
        &&& forall|b: int| self.is_rec(b) ==> #[trigger] self.rec_ok(b, nl, w)
    }

    /// The records of `before` are records still, with the same headers but
    /// for their parents.
    pub open spec fn grown_from(&self, before: &Self) -> bool {
        &&& before.len() <= self.len()
        &&& forall|b: int|
            before.is_rec(b) ==> #[trigger] self.is_rec(b) && self.memzone@[b] == before.memzone@[b]
                && self.memzone@[b + 1] == before.memzone@[b + 1]
    }

    /// An arena without records, with room for the compression of `n` branchings.
    pub fn with_capacity(n: usize) -> (r: Self)
        ensures
            r.len() == 0,
            r.starts@.len() == 0,
    {
        let room = if n < (usize::MAX / 6) - 1 {
            (n + 1) * 6
        } else {
            0
        };
        let memzone: Vec<NodeIndex> = Vec::with_capacity(room);
        let ghost none = Seq::<bool>::empty();
        Self { memzone, starts: Ghost(none) }
    }

    /// The header of the record at `b` can be read: it holds a number of
    /// bits that a record can test and a leaf as the escape, and the record
    /// lies in the arena.
    pub open spec fn head_fits(&self, b: int) -> bool {
        &&& 0 <= b
        &&& 0 <= self.memzone@[b].0
        &&& 1 <= self.size(b) <= MAX_SIZE
        &&& self.end(b) <= self.len()
        &&& self.memzone@[b + 1].0 < 0
    }

    /// The header of the record at `b`.
    pub fn header(&self, b: BranchingIndex) -> (r: Compressed)
        requires
            self.head_fits(b.0 as int),
        ensures
            r.shift == self.shift(b.0 as int),
            r.size == self.size(b.0 as int),
            r.mask == !(!0u16 << r.size),
            r.escape.idx() == self.esc(b.0 as int),
            r.escape.0 < 0,
            r.parent.0 == self.par(b.0 as int),
    {
        let i = b.index();
        let word = self.memzone[i].0;
        let shift = (word % 256) as u8;
        let size = (word / 256) as u8;
        Compressed::new(shift, size, LeafIndex(self.memzone[i + 1].0), BranchingIndex(self.memzone[i + 2].0))
    }

    /// Child `k` of the record at `b`.
    pub fn child(&self, b: BranchingIndex, k: u16) -> (r: NodeIndex)
        requires
            self.head_fits(b.0 as int),
            k < self.fan(b.0 as int),
        ensures
            r == self.kid(b.0 as int, k as int),
    {
        self.memzone[b.index() + HEADER + k as usize]
    }

    /// Appends a record whose children are all its escape, and returns where it starts.
    pub fn push(
        &mut self,
        parent: BranchingIndex,
        escape: LeafIndex,
        shift: u8,
        size: u8,
        nl: Ghost<int>,
        w: Ghost<int>,
    ) -> (r: BranchingIndex)
        requires
            old(self).wf(nl@, w@),
            1 <= size <= MAX_SIZE,
            shift + size <= w@,
            old(self).len() + 3 + (1u16 << size) <= INDEX_MAX,
            escape.0 < 0,
            escape.idx() < nl@,
            if old(self).len() == 0 {
                parent.0 == 0 && escape.idx() == 0
            } else {
                old(self).is_rec(parent.0 as int) && old(self).shift(parent.0 as int) < shift
            },
        ensures
            final(self).wf(nl@, w@),
            final(self).grown_from(old(self)),
            r.0 == old(self).len(),
            final(self).is_rec(r.0 as int),
            final(self).len() == old(self).len() + 3 + (1u16 << size),
            final(self).shift(r.0 as int) == shift,
            final(self).size(r.0 as int) == size,
            final(self).esc(r.0 as int) == escape.idx(),
            final(self).par(r.0 as int) == parent.0,
            forall|i: int| 0 <= i < old(self).len() ==> final(self).memzone@[i] == old(self).memzone@[i],
            forall|b: int| final(self).is_rec(b) ==> old(self).is_rec(b) || b == r.0,
    {
        let ghost t0 = *self;
        let index = BranchingIndex::from_index(self.memzone.len());
        let ghost at = index.0 as int;
        proof {
            lemma_letter(0, size, 0, 0);
        }
        let fan: u16 = 1u16 << size;
        self.memzone.push(NodeIndex(shift as i32 + 256 * (size as i32)));
        self.memzone.push(NodeIndex(escape.0));
        self.memzone.push(NodeIndex(parent.0));
        proof {
            self.starts = Ghost(t0.starts@.push(true).push(false).push(false));
        }
        let mut k: u16 = 0;
        while k < fan
            invariant
                0 <= k <= fan,
                fan == 1u16 << size,
                at == t0.len(),
                self.len() == at + 3 + k,
                self.starts@.len() == self.len(),
                self.starts@[at],
                self.len() <= INDEX_MAX,
                at + 3 + fan <= INDEX_MAX,
                t0.starts@.len() == at,
                forall|i: int| 0 <= i < at ==> self.memzone@[i] == t0.memzone@[i],
                forall|i: int| 0 <= i < at ==> self.starts@[i] == t0.starts@[i],
                forall|i: int| at < i < self.len() ==> !self.starts@[i],
                self.memzone@[at].0 == shift + 256 * size,
                self.memzone@[at + 1] == NodeIndex(escape.0),
                self.memzone@[at + 2] == NodeIndex(parent.0),
                forall|i: int| at + 3 <= i < self.len() ==> self.memzone@[i] == NodeIndex(escape.0),
            decreases fan - k,
        {
            self.memzone.push(NodeIndex(escape.0));
            proof {
                self.starts = Ghost(self.starts@.push(false));
            }
            k += 1;
        }
        proof {
            assert(self.size(at) == size);
            assert(self.shift(at) == shift);
            assert forall|b: int| self.is_rec(b) implies t0.is_rec(b) || b == at by {}
            assert forall|b: int, r: int|
                #![trigger self.is_rec(b), self.is_rec(r)]
                self.is_rec(b) && self.is_rec(r) && b < r implies b + 3 + self.fan(b) <= r by {
                assert(t0.is_rec(b));
                assert(t0.rec_ok(b, nl@, w@));
                if r != at {
                    assert(t0.is_rec(r));
                }
            }
            assert forall|b: int| t0.is_rec(b) implies #[trigger] self.is_rec(b) && self.memzone@[b]
                == t0.memzone@[b] && self.memzone@[b + 1] == t0.memzone@[b + 1] by {
                assert(t0.rec_ok(b, nl@, w@));
            }
            assert forall|b: int| self.is_rec(b) implies #[trigger] self.end(b) == self.len()
                || self.is_rec(self.end(b)) by {
                if b != at {
                    assert(t0.is_rec(b));
                    assert(t0.rec_ok(b, nl@, w@));
                    assert(self.fan(b) == t0.fan(b));
                    assert(t0.end(b) == t0.len() || t0.is_rec(t0.end(b)));
                }
            }
            if t0.len() > 0 {
                assert(t0.is_rec(0));
                assert(t0.rec_ok(parent.0 as int, nl@, w@));
                assert(self.memzone@[0] == t0.memzone@[0]);
            }
            assert forall|b: int| self.is_rec(b) implies #[trigger] self.rec_ok(b, nl@, w@) by {
                if b == at {
                    assert forall|j: int| 0 <= j < self.fan(b) implies #[trigger] self.kid_ok(
                        b,
                        j,
                        nl@,
                    ) by {}
                } else {
                    assert(t0.is_rec(b));
                    assert(t0.rec_ok(b, nl@, w@));
                    assert(self.fan(b) == t0.fan(b));
                    assert forall|j: int| 0 <= j < self.fan(b) implies #[trigger] self.kid_ok(
                        b,
                        j,
                        nl@,
                    ) by {
                        assert(t0.kid_ok(b, j, nl@));
                    }
                }
            }
        }
        index
    }

    /// Sets child `k` of the record at `b`.
    pub fn set_child(&mut self, b: BranchingIndex, k: u16, x: NodeIndex, nl: Ghost<int>, w: Ghost<int>)
        requires
            old(self).wf(nl@, w@),
            old(self).is_rec(b.0 as int),
            k < old(self).fan(b.0 as int),
            if x.0 < 0 {
                -1 - x.0 < nl@
            } else {
                old(self).is_rec(x.0 as int) && old(self).shift(x.0 as int) > old(self).shift(
                    b.0 as int,
                )
            },
        ensures
            final(self).wf(nl@, w@),
            final(self).grown_from(old(self)),
            final(self).starts == old(self).starts,
            final(self).memzone@ == old(self).memzone@.update(b.0 + 3 + k, x),
    {
        let ghost t0 = *self;
        proof {
            assert(t0.rec_ok(b.0 as int, nl@, w@));
        }
        self.memzone.set(b.index() + HEADER + k as usize, x);
        proof {
            let at = b.0 + 3 + k;
            t0.lemma_slot_of_child(b.0 as int, k as int, nl@, w@);
            assert forall|r: int| t0.is_rec(r) implies #[trigger] self.is_rec(r) && self.memzone@[r]
                == t0.memzone@[r] && self.memzone@[r + 1] == t0.memzone@[r + 1] by {
                assert(t0.rec_ok(r, nl@, w@));
                t0.lemma_apart(b.0 as int, k as int, r, nl@, w@);
            }
            assert forall|r: int| self.is_rec(r) implies self.fan(r) == t0.fan(r) && self.shift(r)
                == t0.shift(r) by {
                t0.lemma_apart(b.0 as int, k as int, r, nl@, w@);
            }
            assert(t0.is_rec(0));
            t0.lemma_apart(b.0 as int, k as int, 0, nl@, w@);
            assert(self.memzone@[0] == t0.memzone@[0]);
            assert(self.is_rec(0));
            assert forall|c: int, r: int|
                #![trigger self.is_rec(c), self.is_rec(r)]
                self.is_rec(c) && self.is_rec(r) && c < r implies c + 3 + self.fan(c) <= r by {
                assert(t0.is_rec(c) && t0.is_rec(r));
                t0.lemma_apart(b.0 as int, k as int, c, nl@, w@);
            }
            assert(self.packed());
            assert forall|r: int| self.is_rec(r) implies #[trigger] self.end(r) == self.len()
                || self.is_rec(self.end(r)) by {
                assert(t0.is_rec(r));
                assert(self.fan(r) == t0.fan(r));
                assert(t0.end(r) == t0.len() || t0.is_rec(t0.end(r)));
            }
            assert forall|r: int| self.is_rec(r) implies #[trigger] self.rec_ok(r, nl@, w@) by {
                assert(t0.rec_ok(r, nl@, w@));
                t0.lemma_apart(b.0 as int, k as int, r, nl@, w@);
                let p = t0.par(r);
                assert(t0.is_rec(p));
                assert(self.par(r) == p);
                assert(self.head_ok(r, nl@, w@));
                assert forall|j: int| 0 <= j < self.fan(r) implies #[trigger] self.kid_ok(
                    r,
                    j,
                    nl@,
                ) by {
                    assert(t0.kid_ok(r, j, nl@));
                    t0.lemma_kids_apart(b.0 as int, k as int, r, j, nl@, w@);
                    if r == b.0 && j == k {
                        assert(self.kid(r, j) == x);
                    } else {
                        assert(self.kid(r, j) == t0.kid(r, j));
                    }
                }
            }
        }
    }

    /// The slots of two children are two slots, but where both are the same
    /// child of the same record.
    pub proof fn lemma_kids_apart(&self, b: int, k: int, r: int, j: int, nl: int, w: int)
        requires
            self.wf(nl, w),
            self.is_rec(b),
            0 <= k < self.fan(b),
            self.is_rec(r),
            0 <= j < self.fan(r),
        ensures
            (b + 3 + k == r + 3 + j) ==> (b == r && k == j),
    {
        assert(self.rec_ok(b, nl, w));
        assert(self.rec_ok(r, nl, w));
    }

    /// Sets the parent of the record at `b`.
    pub fn set_parent(&mut self, b: BranchingIndex, p: BranchingIndex, nl: Ghost<int>, w: Ghost<int>)
        requires
            old(self).wf(nl@, w@),
            old(self).is_rec(b.0 as int),
            b.0 != 0,
            old(self).is_rec(p.0 as int),
            old(self).shift(p.0 as int) < old(self).shift(b.0 as int),
        ensures
            final(self).wf(nl@, w@),
            final(self).grown_from(old(self)),
            final(self).starts == old(self).starts,
            final(self).memzone@ == old(self).memzone@.update(b.0 + 2, NodeIndex(p.0)),
    {
        let ghost t0 = *self;
        proof {
            assert(t0.rec_ok(b.0 as int, nl@, w@));
        }
        self.memzone.set(b.index() + 2, NodeIndex(p.0));
        proof {
            assert forall|r: int| t0.is_rec(r) implies #[trigger] self.is_rec(r) && self.memzone@[r]
                == t0.memzone@[r] && self.memzone@[r + 1] == t0.memzone@[r + 1] by {
                assert(t0.rec_ok(r, nl@, w@));
                t0.lemma_heads_apart(b.0 as int, r, nl@, w@);
            }
            assert forall|r: int| self.is_rec(r) implies self.fan(r) == t0.fan(r) && self.shift(r)
                == t0.shift(r) by {
                t0.lemma_heads_apart(b.0 as int, r, nl@, w@);
            }
            assert(t0.is_rec(0));
            t0.lemma_heads_apart(b.0 as int, 0, nl@, w@);
            assert(self.memzone@[0] == t0.memzone@[0]);
            assert(self.is_rec(0));
            assert forall|c: int, r: int|
                #![trigger self.is_rec(c), self.is_rec(r)]
                self.is_rec(c) && self.is_rec(r) && c < r implies c + 3 + self.fan(c) <= r by {
                assert(t0.is_rec(c) && t0.is_rec(r));
                t0.lemma_heads_apart(b.0 as int, c, nl@, w@);
            }
            assert(self.packed());
            assert forall|r: int| self.is_rec(r) implies #[trigger] self.end(r) == self.len()
                || self.is_rec(self.end(r)) by {
                assert(t0.is_rec(r));
                assert(self.fan(r) == t0.fan(r));
                assert(t0.end(r) == t0.len() || t0.is_rec(t0.end(r)));
            }
            assert forall|r: int| self.is_rec(r) implies #[trigger] self.rec_ok(r, nl@, w@) by {
                assert(t0.rec_ok(r, nl@, w@));
                t0.lemma_heads_apart(b.0 as int, r, nl@, w@);
                assert(t0.is_rec(t0.par(r)));
                assert(self.head_ok(r, nl@, w@));
                assert forall|j: int| 0 <= j < self.fan(r) implies #[trigger] self.kid_ok(
                    r,
                    j,
                    nl@,
                ) by {
                    assert(t0.kid_ok(r, j, nl@));
                    t0.lemma_apart(r, j, b.0 as int, nl@, w@);
                    assert(self.kid(r, j) == t0.kid(r, j));
                }
            }
        }
    }

    /// The header slots of two records are apart.
    pub proof fn lemma_heads_apart(&self, b: int, r: int, nl: int, w: int)
        requires
            self.wf(nl, w),
            self.is_rec(b),
            self.is_rec(r),
        ensures
            b != r ==> b + 2 != r && b + 2 != r + 1 && b + 2 != r + 2,
            b + 2 != r,
            b + 2 != r + 1,
    {
        assert(self.rec_ok(b, nl, w));
        assert(self.rec_ok(r, nl, w));
        lemma_letter(0, self.size(b) as u8, 0, 0);
        lemma_letter(0, self.size(r) as u8, 0, 0);
    }

    /// The arena is that of some trie.
    pub open spec fn laid_out(&self) -> bool {
        exists|nl: int, w: int| self.wf(nl, w)
    }

    /// The records in the order in which they lie in the arena: for each,
    /// where it starts, and its header.
    pub fn iter(&self) -> (r: Vec<(BranchingIndex, Compressed)>)
        requires
            self.laid_out(),
        ensures
            forall|i: int|
                0 <= i < r@.len() ==> {
                    let b = (#[trigger] r@[i]).0.0 as int;
                    &&& self.is_rec(b)
                    &&& r@[i].1.shift == self.shift(b)
                    &&& r@[i].1.size == self.size(b)
                    &&& r@[i].1.escape.idx() == self.esc(b)
                    &&& r@[i].1.parent.0 == self.par(b)
                    &&& b == if i == 0 {
                        0
                    } else {
                        self.end(r@[i - 1].0.0 as int)
                    }
                },
            forall|b: int|
                self.is_rec(b) ==> exists|i: int| 0 <= i < r@.len() && (#[trigger] r@[i]).0.0 == b,
    {
        let ghost (nl, w) = choose|nl: int, w: int| self.wf(nl, w);
        let mut out: Vec<(BranchingIndex, Compressed)> = Vec::new();
        let mut pos: usize = 0;
        while pos < self.memzone.len()
            invariant
                self.wf(nl, w),
                pos <= self.len(),
                pos == self.len() || self.is_rec(pos as int),
                out@.len() == 0 <==> pos == 0,
                out@.len() > 0 ==> pos == self.end(out@.last().0.0 as int),
                forall|i: int|
                    0 <= i < out@.len() ==> {
                        let b = (#[trigger] out@[i]).0.0 as int;
                        &&& self.is_rec(b)
                        &&& b < pos
                        &&& out@[i].1.shift == self.shift(b)
                        &&& out@[i].1.size == self.size(b)
                        &&& out@[i].1.escape.idx() == self.esc(b)
                        &&& out@[i].1.parent.0 == self.par(b)
                        &&& b == if i == 0 {
                            0
                        } else {
                            self.end(out@[i - 1].0.0 as int)
                        }
                    },
                forall|b: int|
                    self.is_rec(b) && b < pos ==> exists|i: int|
                        0 <= i < out@.len() && (#[trigger] out@[i]).0.0 == b,
            decreases self.len() - pos,
        {
            let at = BranchingIndex::from_index(pos);
            proof {
                assert(self.rec_ok(pos as int, nl, w));
                assert(self.end(pos as int) == self.len() || self.is_rec(self.end(pos as int)));
            }
            let head = self.header(at);
            let ghost before = out@;
            let ghost from = pos as int;
            out.push((at, head));
            pos = pos + HEADER + head.children() as usize;
            proof {
                assert forall|b: int| self.is_rec(b) && b < pos implies exists|i: int|
                    0 <= i < out@.len() && (#[trigger] out@[i]).0.0 == b by {
                    if b < from {
                        let i = choose|i: int| 0 <= i < before.len() && (#[trigger] before[i]).0.0 == b;
                        assert(out@[i] == before[i]);
                    } else {
                        if b != from {
                            assert(self.is_rec(from) && self.is_rec(b));
                        }
                        assert(out@[out@.len() - 1].0.0 == b);
                    }
                }
                assert forall|i: int| 0 <= i < out@.len() implies self.is_rec(
                    (#[trigger] out@[i]).0.0 as int,
                ) && out@[i].0.0 < pos by {
                    if i < before.len() {
                        assert(out@[i] == before[i]);
                    }
                }
            }
        }
        out
    }

    /// Where the record at `b` ends.
    pub open spec fn end(&self, b: int) -> int {
        b + 3 + self.fan(b)
    }

    /// The records lie one after another: each ends where the next starts,
    /// or where the arena ends.
    pub open spec fn dense(&self) -> bool {
        forall|b: int|
            self.is_rec(b) ==> #[trigger] self.end(b) == self.len() || self.is_rec(self.end(b))
    }

    /// The records do not overlap.
    pub open spec fn packed(&self) -> bool {
        forall|b: int, r: int|
            #![trigger self.is_rec(b), self.is_rec(r)]
            self.is_rec(b) && self.is_rec(r) && b < r ==> b + 3 + self.fan(b) <= r
    }

    /// The slot of child `k` of the record at `b` lies in the arena.
    pub proof fn lemma_slot_of_child(&self, b: int, k: int, nl: int, w: int)
        requires
            self.wf(nl, w),
            self.is_rec(b),
            0 <= k < self.fan(b),
        ensures
            0 <= b + 3 + k < self.len(),
    {
        assert(self.rec_ok(b, nl, w));
    }

    /// The slot of child `k` of the record at `b` is none of the three header
    /// slots of the record at `r`.
    pub proof fn lemma_apart(&self, b: int, k: int, r: int, nl: int, w: int)
        requires
            self.wf(nl, w),
            self.is_rec(b),
            0 <= k < self.fan(b),
            self.is_rec(r),
        ensures
            b + 3 + k != r,
            b + 3 + k != r + 1,
            b + 3 + k != r + 2,
    {
        assert(self.rec_ok(b, nl, w));
        assert(self.rec_ok(r, nl, w));
    }
}

/// The number of branchings of a radix trie that are not compressed yet.
pub open spec fn count_none(done: Seq<Option<BranchingIndex>>) -> nat
    decreases done.len(),
{
    if done.len() == 0 {
        0
    } else {
        count_none(done.drop_last()) + if done.last().is_none() {
            1nat
        } else {
            0nat
        }
    }
}

/// Marking a branching that was not compressed takes one from the count.
pub proof fn lemma_count_none(done: Seq<Option<BranchingIndex>>, i: int, x: BranchingIndex)
    requires
        0 <= i < done.len(),
        done[i].is_none(),
    ensures
        count_none(done) >= 1,
        count_none(done.update(i, Some(x))) == count_none(done) - 1,
    decreases done.len(),
{
    let upd = done.update(i, Some(x));
    if i == done.len() - 1 {
        assert(upd.drop_last() =~= done.drop_last());
    } else {
        lemma_count_none(done.drop_last(), i, x);
        assert(upd.drop_last() =~= done.drop_last().update(i, Some(x)));
    }
}

/// A cell of a compressed branching: the branching `top` of the radix trie
/// that the compressed branching was made of, the bits that it tests, and a
/// letter, which names one child.
pub struct Cell {
    pub top: int,
    pub shift: int,
    pub size: int,
    pub letter: u16,
}

impl Cell {
    /// The side that the letter takes at the branching `n` of the radix trie.
    pub open spec fn side<S: BitSlot>(&self, t: &BranchingTree<S>, n: int) -> int {
        if lbit(self.letter, self.size, t.bit(n) - self.shift) {
            1
        } else {
            0
        }
    }

    /// The branching `n` of the radix trie lies in the cell: it is `top`, or
    /// it is reached from `top` by the bits of the letter, tests a bit of the
    /// cell, and has the escape of `top`.
    pub open spec fn has<S: BitSlot>(&self, t: &BranchingTree<S>, n: int) -> bool
        decreases t.bit(n),
    {
        if n == self.top {
            true
        } else if 0 < n < t.len() && 0 <= t.par(n) < t.len() && t.bit(t.par(n)) < t.bit(n) {
            &&& self.has(t, t.par(n))
            &&& t.kid(t.par(n), self.side(t, t.par(n))) == NodeIndex(n as i32)
            &&& t.bit(n) <= self.shift + self.size
            &&& t.esc(n) == t.esc(self.top)
        } else {
            false
        }
    }

    /// The bits that leaf `j` has among those of the cell are those of the letter.
    pub open spec fn compat<S: BitSlot>(&self, t: &BranchingTree<S>, j: int) -> bool {
        forall|d: int|
            #![trigger lbit(self.letter, self.size, d)]
            1 <= d <= self.size && self.shift + d <= t.plen(j) ==> t.pslot(j).bit(self.shift + d)
                == lbit(self.letter, self.size, d)
    }

    /// Leaf `j` settles the cell, whose deepest branching in the radix trie
    /// is `n0`: of the leaf that `n0` holds for the letter and of the escapes
    /// from `n0` upwards, it is the first that has the bits of the letter.
    pub open spec fn settled<S: BitSlot>(&self, t: &BranchingTree<S>, n0: int, j: int) -> bool {
        let l0 = -1 - t.kid(n0, self.side(t, n0)).0;
        &&& self.compat(t, j)
        &&& 0 <= j < t.pfx@.len()
        &&& (j == l0 || exists|a: int|
            {
                &&& #[trigger] t.upward(a, n0)
                &&& j == t.esc(a)
                &&& !self.compat(t, l0)
                &&& forall|m: int|
                    t.upward(m, n0) && t.bit(m) > t.bit(a) ==> !self.compat(t, #[trigger] t.esc(m))
            })
    }

    /// The node `c` is right for the cell: a compressed branching made of
    /// the branching `rc` of the radix trie, the first that the letter
    /// reaches after the bits of the cell; or a leaf that settles the cell.
    pub open spec fn holds<S: BitSlot>(&self, t: &BranchingTree<S>, c: int, rc: int) -> bool {
        if c >= 0 {
            let pr = t.par(rc);
            &&& 0 < rc < t.len()
            &&& self.has(t, pr)
            &&& t.kid(pr, self.side(t, pr)) == NodeIndex(rc as i32)
            &&& t.bit(rc) > self.shift + self.size
        } else {
            exists|n0: int|
                {
                    &&& #[trigger] self.has(t, n0)
                    &&& t.kid(n0, self.side(t, n0)).0 < 0
                    &&& self.settled(t, n0, -1 - c)
                }
        }
    }

    /// The test of a leaf against the letter: the letter that the slot of the
    /// leaf gives, cut at its length, is the letter of the cell cut by the
    /// letter that the mask of the leaf gives, where and only where the leaf
    /// has the bits of the letter.
    pub proof fn lemma_compat_test<S: BitSlot>(
        &self,
        t: &BranchingTree<S>,
        j: int,
        trunc: S,
        mask: S,
        x: u16,
        m: u16,
    )
        requires
            1 <= self.size <= 15,
            0 <= self.shift,
            forall|i: int| trunc.bit(i) == (i <= t.plen(j) && t.pslot(j).bit(i)),
            forall|i: int| mask.bit(i) <==> 1 <= i <= t.plen(j),
            x < (1u16 << (self.size as u16)),
            self.letter < (1u16 << (self.size as u16)),
            forall|d: int|
                1 <= d <= self.size ==> #[trigger] lbit(x, self.size, d) == trunc.bit(
                    self.shift + d,
                ),
            forall|d: int|
                1 <= d <= self.size ==> #[trigger] lbit(m, self.size, d) == mask.bit(self.shift + d),
        ensures
            (x == self.letter & m) <==> self.compat(t, j),
    {
        let y = self.letter & m;
        let k = self.letter;
        lemma_letter_bits(m, k, 0, 0, 0, 0, 0);
        assert forall|d: int| 1 <= d <= self.size implies lbit(y, self.size, d) == (lbit(
            k,
            self.size,
            d,
        ) && lbit(m, self.size, d)) by {
            lemma_letter_bits(k, m, 0, (self.size - d) as u16, 0, 0, 0);
        }
        if x == y {
            assert forall|d: int|
                #![trigger lbit(self.letter, self.size, d)]
                1 <= d <= self.size && self.shift + d <= t.plen(j) implies t.pslot(j).bit(
                self.shift + d,
            ) == lbit(self.letter, self.size, d) by {
                assert(lbit(x, self.size, d) == trunc.bit(self.shift + d));
                assert(lbit(m, self.size, d) == mask.bit(self.shift + d));
            }
        } else {
            if self.compat(t, j) {
                let d = lemma_letters_differ(x, y, self.size);
                assert(lbit(x, self.size, d) == trunc.bit(self.shift + d));
                assert(lbit(m, self.size, d) == mask.bit(self.shift + d));
                assert(lbit(k, self.size, d) == lbit(self.letter, self.size, d));
                assert(false);
            }
        }
    }

    /// What lies in a cell lies below `top`, tests a bit of the cell, and has
    /// the escape of `top`.
    pub proof fn lemma_has<S: BitSlot>(&self, t: &BranchingTree<S>, n: int)
        requires
            t.inv(),
            0 <= self.top < t.len(),
            self.has(t, n),
        ensures
            t.upward(self.top, n),
            0 <= n < t.len(),
            t.bit(self.top) <= t.bit(n),
            t.esc(n) == t.esc(self.top),
            n != self.top ==> t.bit(n) <= self.shift + self.size && self.has(t, t.par(n)),
        decreases t.bit(n),
    {
        if n != self.top {
            self.lemma_has(t, t.par(n));
            assert(t.node_ok(n));
            t.lemma_above_step(self.top, n);
        }
    }

    /// What lies above a branching of a cell, and not above `top`, lies in the cell.
    pub proof fn lemma_has_above<S: BitSlot>(&self, t: &BranchingTree<S>, n: int, m: int)
        requires
            t.inv(),
            0 <= self.top < t.len(),
            self.has(t, n),
            t.upward(m, n),
            t.bit(m) >= t.bit(self.top),
        ensures
            self.has(t, m),
        decreases t.bit(n),
    {
        self.lemma_has(t, n);
        if m != n {
            assert(t.node_ok(n));
            if n == self.top {
                t.lemma_above(m, n);
            } else {
                self.lemma_has_above(t, t.par(n), m);
            }
        }
    }

    /// The slot `s` has the letter of the cell at the bits of the cell.
    pub open spec fn reads<B: BitSlot>(&self, s: B) -> bool {
        forall|d: int|
            1 <= d <= self.size ==> #[trigger] lbit(self.letter, self.size, d) == s.bit(
                self.shift + d,
            )
    }

    /// A slot that has the letter of the cell, and for which `top` lies on
    /// the way down in the radix trie, has every branching of the cell on
    /// that way, and takes at each the side of the letter.
    pub proof fn lemma_on_trail<S: BitSlot, B: BitSlot>(&self, t: &BranchingTree<S>, n: int, s: B)
        requires
            t.inv(),
            0 <= self.top < t.len(),
            self.shift == t.bit(self.top) - 1,
            1 <= self.size,
            self.has(t, n),
            t.on_trail(s, self.top),
            self.reads(s),
        ensures
            t.on_trail(s, n),
            t.side(n, s) == self.side(t, n),
        decreases t.bit(n),
    {
        self.lemma_has(t, n);
        assert(t.node_ok(n));
        assert(t.node_ok(self.top));
        if n != self.top {
            self.lemma_on_trail(t, t.par(n), s);
        }
        let d = t.bit(n) - self.shift;
        assert(lbit(self.letter, self.size, d) == s.bit(self.shift + d));
    }
}

/// The level-compressed trie: the arena of compressed branchings and the arena of leaves.
pub struct LevelCompressedTrie<K: IpPrefix, V> {
    pub branching: CompressedTree,
    pub leaves: TrieLeaves<Leaf<K, V>>,
    /// The branchings of the radix trie that the trie was made of.
    pub tree: Ghost<BranchingTree<K::Slot>>,
    /// For each record, the branching of the radix trie that it was made of.
    pub origin: Ghost<Seq<int>>,
    /// For each record, the number of its children that are settled.
    pub progress: Ghost<Seq<int>>,
}

impl<K: IpPrefix, V> LevelCompressedTrie<K, V> {
    pub open spec fn nl(&self) -> int {
        self.leaves@.len() as int
    }

    pub open spec fn width() -> int {
        K::Slot::width() as int
    }

    /// The branching of the radix trie that the record at `b` was made of.
    pub open spec fn rb(&self, b: int) -> int {
        self.origin@[b]
    }

    /// The cell of the letter `k` of the record at `b`.
    pub open spec fn cell(&self, b: int, k: u16) -> Cell {
        Cell {
            top: self.rb(b),
            shift: self.branching.shift(b),
            size: self.branching.size(b),
            letter: k,
        }
    }

    /// What holds of child `k` of the record at `b` once it is settled.
    pub open spec fn cell_ok(&self, b: int, k: u16) -> bool {
        let c = self.branching.kid(b, k as int).0 as int;
        self.cell(b, k).holds(&self.tree@, c, self.rb(c))
    }

    /// What links the record at `b` to its parent: the parent was made of a
    /// branching above, and the branchings between have the escape of the
    /// record or that of its parent.
    pub open spec fn chained(&self, b: int) -> bool {
        let t = self.tree@;
        let pb = self.branching.par(b);
        &&& t.above(self.rb(pb), self.rb(b))
        &&& forall|m: int|
            t.upward(m, self.rb(b)) && t.bit(m) > t.bit(self.rb(pb)) ==> #[trigger] t.esc(m)
                == self.branching.esc(b) || t.esc(m) == self.branching.esc(pb)
    }

    /// What holds of the record at `b`, as to the radix trie.
    pub open spec fn rec_sem(&self, b: int) -> bool {
        let t = self.tree@;
        &&& 0 <= self.rb(b) < t.len()
        &&& self.branching.shift(b) == t.bit(self.rb(b)) - 1
        &&& self.branching.esc(b) == t.esc(self.rb(b))
        &&& (b == 0 ==> self.rb(b) == 0)
        &&& (b != 0 ==> self.chained(b))
        &&& 0 <= self.progress@[b] <= self.branching.fan(b)
        &&& forall|k: u16| 0 <= k < self.progress@[b] ==> #[trigger] self.cell_ok(b, k)
    }

    /// The leaves are those of the radix trie.
    pub open spec fn leaf_matches(&self, j: int) -> bool {
        let p = self.leaves@[j].prefix;
        p.valid() && self.tree@.pfx@[j] == (p.spec_bitslot(), p.spec_len())
    }

    /// The trie, as far as it is built, follows the radix trie.
    pub open spec fn sem(&self) -> bool {
        &&& self.tree@.inv()
        &&& self.tree@.pfx@.len() == self.leaves@.len()
        &&& forall|j: int| 0 <= j < self.leaves@.len() ==> #[trigger] self.leaf_matches(j)
        &&& self.origin@.len() == self.branching.len()
        &&& self.progress@.len() == self.branching.len()
        &&& forall|b: int| self.branching.is_rec(b) ==> #[trigger] self.rec_sem(b)
    }

    /// Every child of every record is settled.
    pub open spec fn complete(&self) -> bool {
        forall|b: int|
            self.branching.is_rec(b) ==> #[trigger] self.progress@[b] == self.branching.fan(b)
    }

    /// What holds of the leaves: each is valid, and the first is the root.
    pub open spec fn leaves_ok(&self) -> bool {
        &&& 1 <= self.leaves@.len() <= INDEX_MAX
        &&& self.leaves@[0].prefix.spec_len() == 0
        &&& forall|j: int| 0 <= j < self.leaves@.len() ==> (#[trigger] self.leaves@[j]).prefix.valid()
    }

    /// The invariant of the trie.
    pub open spec fn wf(&self) -> bool {
        &&& self.leaves_ok()
        &&& self.branching.wf(self.nl(), Self::width())
        &&& self.branching.is_rec(0)
        &&& self.sem()
        &&& self.complete()
    }

    /// The prefix of leaf `j` covers `q`.
    pub open spec fn covers<Q: IpPrefix>(&self, j: int, q: Q) -> bool {
        coverage(self.leaves@[j].prefix, q) != IpPrefixCoverage::NoCover
    }

    /// The prefix of leaf `j` denotes the same range as `q`.
    pub open spec fn holds<Q: IpPrefix>(&self, j: int, q: Q) -> bool {
        coverage(self.leaves@[j].prefix, q) == IpPrefixCoverage::SameRange
    }

    /// The number of leaves, which is at least one.
    pub fn len(&self) -> (r: usize)
        requires
            self.wf(),
        ensures
            r == self.leaves@.len(),
            r >= 1,
    {
        self.leaves.len()
    }

    /// The state of a compression: `tree` is the arena of the radix trie
    /// that gave the leaves, `done` tells for each of its branchings the
    /// compressed branching made of it, if any, and `pending` is at least
    /// the number of those that have none; the arena has room for five slots
    /// for each of them.
    pub open spec fn building(
        &self,
        tree: &BranchingTree<K::Slot>,
        done: Seq<Option<BranchingIndex>>,
        pending: int,
    ) -> bool {
        &&& self.leaves_ok()
        &&& *tree == self.tree@
        &&& self.sem()
        &&& self.branching.wf(self.nl(), Self::width())
        &&& done.len() == tree.len()
        &&& count_none(done) <= pending
        &&& self.branching.len() + 5 * pending <= INDEX_MAX
        &&& forall|i: int|
            0 <= i < done.len() && (#[trigger] done[i]).is_some() ==> self.branching.is_rec(
                done[i].unwrap().0 as int,
            ) && self.rb(done[i].unwrap().0 as int) == i
        &&& forall|r: int| self.branching.is_rec(r) ==> #[trigger] self.marked(done, r)
    }

    /// The record at `r` is the one that `done` tells for the branching
    /// that it was made of.
    pub open spec fn marked(&self, done: Seq<Option<BranchingIndex>>, r: int) -> bool {
        0 <= self.rb(r) < done.len() && done[self.rb(r)] == Some(BranchingIndex(r as i32))
    }

    /// No two records were made of the same branching of the radix trie.
    pub open spec fn distinct(&self) -> bool {
        forall|r1: int, r2: int|
            #![trigger self.branching.is_rec(r1), self.branching.is_rec(r2)]
            self.branching.is_rec(r1) && self.branching.is_rec(r2) && self.rb(r1) == self.rb(r2)
                ==> r1 == r2
    }

    /// What is marked in `before` is marked in `after` in the same way.
    pub open spec fn marks_kept(
        before: Seq<Option<BranchingIndex>>,
        after: Seq<Option<BranchingIndex>>,
    ) -> bool {
        &&& before.len() == after.len()
        &&& forall|i: int|
            0 <= i < before.len() && (#[trigger] before[i]).is_some() ==> after[i] == before[i]
    }

    /// The trie is `before` but for the slot `hole` of the arena and for
    /// what has come since.
    pub open spec fn kept(&self, before: &Self, hole: int) -> bool {
        &&& self.tree == before.tree
        &&& self.leaves == before.leaves
        &&& before.branching.len() <= self.branching.len()
        &&& forall|i: int|
            0 <= i < before.branching.len() && i != hole ==> #[trigger] self.branching.memzone@[i]
                == before.branching.memzone@[i]
        &&& forall|i: int|
            0 <= i < before.branching.len() ==> #[trigger] self.branching.starts@[i]
                == before.branching.starts@[i]
        &&& forall|i: int|
            0 <= i < before.branching.len() ==> #[trigger] self.origin@[i] == before.origin@[i]
        &&& forall|i: int|
            0 <= i < before.branching.len() ==> #[trigger] self.progress@[i]
                == before.progress@[i]
    }

    /// Every child of every record from `lo` on is settled.
    pub open spec fn complete_from(&self, lo: int) -> bool {
        forall|b: int|
            self.branching.is_rec(b) && b >= lo ==> #[trigger] self.progress@[b]
                == self.branching.fan(b)
    }

    /// What is kept of what was kept is kept, where the slot that changed
    /// has come since.
    pub proof fn lemma_kept_trans(&self, mid: &Self, before: &Self, hole: int)
        requires
            mid.kept(before, -1),
            self.kept(mid, hole),
            hole >= before.branching.len(),
        ensures
            self.kept(before, -1),
    {
        assert forall|i: int| 0 <= i < before.branching.len() implies #[trigger] self.branching.memzone@[i]
            == before.branching.memzone@[i] by {
            assert(mid.branching.memzone@[i] == before.branching.memzone@[i]);
        }
        assert forall|i: int| 0 <= i < before.branching.len() implies #[trigger] self.branching.starts@[i]
            == before.branching.starts@[i] by {
            assert(mid.branching.starts@[i] == before.branching.starts@[i]);
        }
        assert forall|i: int| 0 <= i < before.branching.len() implies #[trigger] self.origin@[i]
            == before.origin@[i] by {
            assert(mid.origin@[i] == before.origin@[i]);
        }
        assert forall|i: int| 0 <= i < before.branching.len() implies #[trigger] self.progress@[i]
            == before.progress@[i] by {
            assert(mid.progress@[i] == before.progress@[i]);
        }
    }

    /// Records that were complete and are kept are complete.
    pub proof fn lemma_kept_complete(&self, before: &Self, hole: int, lo: int)
        requires
            before.complete_from(lo),
            self.complete_from(before.branching.len() as int),
            self.kept(before, hole),
            before.branching.wf(before.nl(), Self::width()),
            forall|r: int| before.branching.is_rec(r) ==> r != hole,
        ensures
            self.complete_from(lo),
    {
        assert forall|b: int| self.branching.is_rec(b) && b >= lo implies #[trigger] self.progress@[b]
            == self.branching.fan(b) by {
            if b < before.branching.len() {
                assert(self.branching.starts@[b] == before.branching.starts@[b]);
                assert(before.branching.is_rec(b));
                assert(self.branching.memzone@[b] == before.branching.memzone@[b]);
                assert(self.progress@[b] == before.progress@[b]);
            }
        }
    }

    /// The slot of child `k` of the record at `r`.
    pub open spec fn slot_of(r: int, k: int) -> int {
        r + 3 + k
    }

    /// The slot `hole` is no slot of a header, and no slot of a child that is settled.
    pub open spec fn free_slot(&self, hole: int) -> bool {
        &&& forall|r: int, k: int|
            self.branching.is_rec(r) && 0 <= k < self.progress@[r] ==> #[trigger] Self::slot_of(
                r,
                k,
            ) != hole
        &&& forall|r: int|
            #![trigger self.branching.is_rec(r)]
            self.branching.is_rec(r) ==> r + 2 != hole && r + 1 != hole && r != hole
    }

    /// The slot of a child that is not settled is free.
    pub proof fn lemma_free_slot(&self, b: int, k: int)
        requires
            self.sem(),
            self.branching.wf(self.nl(), Self::width()),
            self.branching.is_rec(b),
            self.progress@[b] <= k < self.branching.fan(b),
        ensures
            self.free_slot(b + 3 + k),
    {
        let nl = self.nl();
        let w = Self::width();
        assert(self.rec_sem(b));
        assert forall|r: int, j: int|
            self.branching.is_rec(r) && 0 <= j < self.progress@[r] implies #[trigger] Self::slot_of(
            r,
            j,
        ) != b + 3 + k by {
            assert(self.rec_sem(r));
            self.branching.lemma_kids_apart(b, k, r, j, nl, w);
        }
        assert forall|r: int|
            #![trigger self.branching.is_rec(r)]
            self.branching.is_rec(r) implies r + 2 != b + 3 + k && r + 1 != b + 3 + k && r != b + 3
            + k by {
            self.branching.lemma_apart(b, k, r, nl, w);
        }
    }

    /// A record that is kept, with the children that were settled, is as
    /// the radix trie wants it.
    pub proof fn lemma_kept_rec(&self, before: &Self, hole: int, b: int)
        requires
            before.sem(),
            before.branching.wf(before.nl(), Self::width()),
            self.kept(before, hole),
            before.branching.is_rec(b),
            hole == -1 || before.free_slot(hole),
        ensures
            self.rec_sem(b),
            self.branching.is_rec(b),
            self.cell(b, 0).top == before.cell(b, 0).top,
            self.branching.memzone@[b] == before.branching.memzone@[b],
            self.branching.memzone@[b + 1] == before.branching.memzone@[b + 1],
            self.branching.memzone@[b + 2] == before.branching.memzone@[b + 2],
    {
        let t = self.tree@;
        let nl = before.nl();
        let w = Self::width();
        assert(before.rec_sem(b));
        assert(before.branching.rec_ok(b, nl, w));
        assert(self.branching.starts@[b] == before.branching.starts@[b]);
        assert(self.branching.memzone@[b] == before.branching.memzone@[b]);
        assert(self.branching.memzone@[b + 1] == before.branching.memzone@[b + 1]);
        assert(self.branching.memzone@[b + 2] == before.branching.memzone@[b + 2]);
        assert(self.origin@[b] == before.origin@[b]);
        assert(self.progress@[b] == before.progress@[b]);
        let pb = before.branching.par(b);
        assert(before.branching.is_rec(pb));
        assert(before.branching.rec_ok(pb, nl, w));
        assert(self.branching.memzone@[pb + 1] == before.branching.memzone@[pb + 1]);
        assert(self.origin@[pb] == before.origin@[pb]);
        assert forall|k: u16| 0 <= k < self.progress@[b] implies #[trigger] self.cell_ok(b, k) by {
            assert(before.cell_ok(b, k));
            assert(before.branching.kid_ok(b, k as int, nl));
            assert(Self::slot_of(b, k as int) != hole);
            assert(self.branching.memzone@[b + 3 + k] == before.branching.memzone@[b + 3 + k]);
            let c = before.branching.kid(b, k as int).0 as int;
            if c >= 0 {
                assert(self.origin@[c] == before.origin@[c]);
            }
            assert(self.cell(b, k) == before.cell(b, k));
        }
    }

    /// The trie follows the radix trie where it is kept, with the children
    /// that were settled, where every record that has come is as the radix
    /// trie wants it.
    pub proof fn lemma_kept_sem(&self, before: &Self, hole: int)
        requires
            before.sem(),
            before.branching.wf(before.nl(), Self::width()),
            self.kept(before, hole),
            self.origin@.len() == self.branching.len(),
            self.progress@.len() == self.branching.len(),
            hole == -1 || before.free_slot(hole),
            forall|b: int|
                self.branching.is_rec(b) && b >= before.branching.len() ==> #[trigger] self.rec_sem(
                    b,
                ),
        ensures
            self.sem(),
    {
        assert forall|j: int| 0 <= j < self.leaves@.len() implies #[trigger] self.leaf_matches(j) by {
            assert(before.leaf_matches(j));
        }
        assert forall|b: int| self.branching.is_rec(b) implies #[trigger] self.rec_sem(b) by {
            if b < before.branching.len() {
                assert(self.branching.starts@[b] == before.branching.starts@[b]);
                self.lemma_kept_rec(before, hole, b);
            }
        }
    }

    /// The marks are kept: each names a record that is kept.
    pub proof fn lemma_kept_marks(&self, before: &Self, hole: int, done: Seq<Option<BranchingIndex>>)
        requires
            self.kept(before, hole),
            forall|i: int|
                0 <= i < done.len() && (#[trigger] done[i]).is_some() ==> before.branching.is_rec(
                    done[i].unwrap().0 as int,
                ) && before.rb(done[i].unwrap().0 as int) == i,
        ensures
            forall|i: int|
                0 <= i < done.len() && (#[trigger] done[i]).is_some() ==> self.branching.is_rec(
                    done[i].unwrap().0 as int,
                ) && self.rb(done[i].unwrap().0 as int) == i,
    {
        assert forall|i: int|
            0 <= i < done.len() && (#[trigger] done[i]).is_some() implies self.branching.is_rec(
            done[i].unwrap().0 as int,
        ) && self.rb(done[i].unwrap().0 as int) == i by {
            let n = done[i].unwrap().0 as int;
            assert(self.branching.starts@[n] == before.branching.starts@[n]);
            assert(self.origin@[n] == before.origin@[n]);
        }
    }

    /// What is kept of what was kept as a whole is kept.
    pub proof fn lemma_kept_after(&self, mid: &Self, before: &Self, hole: int)
        requires
            mid.kept(before, -1),
            self.kept(mid, hole),
        ensures
            self.kept(before, hole),
    {
        assert forall|i: int|
            0 <= i < before.branching.len() && i != hole implies #[trigger] self.branching.memzone@[i]
            == before.branching.memzone@[i] by {
            assert(mid.branching.memzone@[i] == before.branching.memzone@[i]);
        }
        assert forall|i: int| 0 <= i < before.branching.len() implies #[trigger] self.branching.starts@[i]
            == before.branching.starts@[i] by {
            assert(mid.branching.starts@[i] == before.branching.starts@[i]);
        }
        assert forall|i: int| 0 <= i < before.branching.len() implies #[trigger] self.origin@[i]
            == before.origin@[i] by {
            assert(mid.origin@[i] == before.origin@[i]);
        }
        assert forall|i: int| 0 <= i < before.branching.len() implies #[trigger] self.progress@[i]
            == before.progress@[i] by {
            assert(mid.progress@[i] == before.progress@[i]);
        }
    }

    /// A trie that differs from another in the count of settled children
    /// only has the same cells.
    pub proof fn lemma_same_cells(&self, other: &Self, r: int, k: u16)
        requires
            self.branching == other.branching,
            self.origin == other.origin,
            self.tree == other.tree,
        ensures
            self.cell_ok(r, k) == other.cell_ok(r, k),
            self.chained(r) == other.chained(r),
    {
        assert(self.cell(r, k) == other.cell(r, k));
    }

    /// Makes a compressed branching of the branching `b` of the radix trie,
    /// as a child of `parent` for the letter `letter`, and of what lies below `b`.
    pub fn compress(
        &mut self,
        tree: &BranchingTree<K::Slot>,
        b: BranchingIndex,
        parent: BranchingIndex,
        done: &mut Vec<Option<BranchingIndex>>,
        comp: u8,
        pending: &mut usize,
        letter: Ghost<u16>,
    ) -> (r: BranchingIndex)
        requires
            old(self).building(tree, old(done)@, *old(pending) as int),
            0 <= b.0 < tree.len(),
            old(done)@[b.0 as int].is_none(),
            comp < 16,
            if old(self).branching.len() == 0 {
                parent.0 == 0 && b.0 == 0
            } else {
                &&& old(self).branching.is_rec(parent.0 as int)
                &&& b.0 > 0
                &&& old(self).cell(parent.0 as int, letter@).has(tree, tree.par(b.0 as int))
                &&& tree.kid(
                    tree.par(b.0 as int),
                    old(self).cell(parent.0 as int, letter@).side(tree, tree.par(b.0 as int)),
                ) == NodeIndex(b.0)
                &&& tree.bit(b.0 as int) > old(self).branching.shift(parent.0 as int) + old(
                    self,
                ).branching.size(parent.0 as int)
            },
        ensures
            final(self).building(tree, final(done)@, *final(pending) as int),
            final(self).branching.grown_from(&old(self).branching),
            final(self).kept(old(self), -1),
            final(self).complete_from(r.0 as int),
            Self::marks_kept(old(done)@, final(done)@),
            *final(pending) <= *old(pending),
            r.0 == old(self).branching.len(),
            final(self).branching.is_rec(r.0 as int),
            final(self).rb(r.0 as int) == b.0,
        decreases 256 - tree.bit(b.0 as int), 1int,
    {
        let ghost nl = self.nl();
        let ghost w = Self::width();
        let ghost bi = b.0 as int;
        let ghost s0 = *self;
        proof {
            tree.lemma_inv_shape();
            assert(tree.node_ok(bi));
            assert(tree.node_ok(0));
            K::Slot::lemma_bit_range(tree.path(0), 0);
            lemma_count_none(done@, bi, b);
        }
        let level = tree.compression_level(b, comp);
        let node = *tree.at(b);
        let shift: u8 = node.bit - 1;
        let width: u8 = K::Slot::len_bits();
        let mut size: u8 = level + 1;
        if size > width - shift {
            size = width - shift;
        }
        while size > 1 && (1usize << size) > INDEX_MAX - 3 - 5 * (*pending - 1)
            - self.branching.memzone.len()
            invariant
                1 <= size <= MAX_SIZE,
                size <= level + 1,
                shift + size <= w,
                *pending >= 1,
                self.branching.len() + 5 * *pending <= INDEX_MAX,
            decreases size,
        {
            size = size - 1;
        }
        proof {
            lemma_letter(0, size, 0, 0);
            assert(size == 1 ==> (1u16 << size) == 2) by (bit_vector);
            assert(1 <= size <= 15 ==> (1usize << size) == (1u16 << size)) by (bit_vector);
            if s0.branching.len() > 0 {
                assert(s0.rec_sem(parent.0 as int));
                assert(s0.branching.rec_ok(parent.0 as int, nl, w));
            }
        }
        let current = self.branching.push(parent, node.escape, shift, size, Ghost(nl), Ghost(w));
        done.set(b.index(), Some(current));
        *pending = *pending - 1;
        let ghost ci = current.0 as int;
        let ghost fan_i = (1u16 << size) as int;
        proof {
            let more_origin = Seq::new((3 + fan_i) as nat, |i: int| bi);
            let more_progress = Seq::new((3 + fan_i) as nat, |i: int| 0int);
            self.origin = Ghost(s0.origin@ + more_origin);
            self.progress = Ghost(s0.progress@ + more_progress);
            assert(self.branching.rec_ok(ci, nl, w));
            assert(self.rb(ci) == bi);
            assert(self.progress@[ci] == 0);
            assert(self.branching.size(ci) == size);
            assert(self.branching.shift(ci) == shift);
            assert forall|i: int| 0 <= i < s0.branching.len() implies #[trigger] self.branching.starts@[i]
                == s0.branching.starts@[i] by {
                if s0.branching.starts@[i] {
                    assert(s0.branching.is_rec(i));
                    assert(self.branching.is_rec(i));
                } else if self.branching.starts@[i] {
                    assert(self.branching.is_rec(i));
                }
            }
            assert(self.kept(&s0, -1));
            if s0.branching.len() > 0 {
                let pi = parent.0 as int;
                let pc = s0.cell(pi, letter@);
                assert(s0.branching.rec_ok(pi, nl, w));
                assert(self.branching.memzone@[pi] == s0.branching.memzone@[pi]);
                assert(self.branching.memzone@[pi + 1] == s0.branching.memzone@[pi + 1]);
                assert(self.origin@[pi] == s0.origin@[pi]);
                pc.lemma_has(tree, tree.par(bi));
                tree.lemma_above_step(pc.top, bi);
                assert forall|m: int|
                    tree.upward(m, bi) && tree.bit(m) > tree.bit(pc.top) implies #[trigger] tree.esc(
                    m,
                ) == self.branching.esc(ci) || tree.esc(m) == self.branching.esc(pi) by {
                    if m != bi {
                        assert(tree.upward(m, tree.par(bi)));
                        pc.lemma_has_above(tree, tree.par(bi), m);
                        pc.lemma_has(tree, m);
                    }
                }
                assert(self.chained(ci));
            }
            assert(self.rec_sem(ci));
            assert forall|r: int|
                self.branching.is_rec(r) && r >= s0.branching.len() implies #[trigger] self.rec_sem(
                r,
            ) by {
                assert(s0.branching.is_rec(r) || r == ci);
            }
            self.lemma_kept_sem(&s0, -1);
            assert(done@ =~= old(done)@.update(bi, Some(current)));
            lemma_count_none(old(done)@, bi, current);
            self.lemma_kept_marks(&s0, -1, old(done)@);
            assert forall|i: int|
                0 <= i < done@.len() && (#[trigger] done@[i]).is_some() implies self.branching.is_rec(
                done@[i].unwrap().0 as int,
            ) && self.rb(done@[i].unwrap().0 as int) == i by {
                if i != bi {
                    assert(old(done)@[i].is_some());
                }
            }
            assert forall|r: int| self.branching.is_rec(r) implies #[trigger] self.marked(
                done@,
                r,
            ) by {
                if r != ci {
                    assert(s0.branching.is_rec(r));
                    assert(s0.marked(old(done)@, r));
                    assert(self.origin@[r] == s0.origin@[r]);
                }
            }
            assert(self.building(tree, done@, *pending as int));
            tree.lemma_level_one(bi, 15);
            tree.lemma_level_from(
                bi,
                comp as int,
                1,
                tree.spec_level_max(bi, 15, tree.esc(bi)),
                0,
                tree.count_cut(bi, tree.bit(bi)),
            );
            assert(self.complete_from(ci + 1)) by {
                assert forall|r: int| self.branching.is_rec(r) && r >= ci + 1 implies #[trigger] self.progress@[r]
                    == self.branching.fan(r) by {
                    assert(s0.branching.is_rec(r) || r == ci);
                }
            }
        }
        let fan = self.branching.header(current).children();
        let mut i: u16 = 0;
        while i < fan
            invariant
                0 <= i <= fan,
                nl == self.nl(),
                w == Self::width(),
                comp < 16,
                0 <= bi < tree.len(),
                bi == b.0,
                ci == current.0,
                ci == s0.branching.len(),
                self.building(tree, done@, *pending as int),
                self.branching.grown_from(&s0.branching),
                self.kept(&s0, -1),
                Self::marks_kept(old(done)@, done@),
                *pending <= *old(pending),
                self.branching.is_rec(ci),
                self.branching.fan(ci) == fan,
                self.rb(ci) == bi,
                self.progress@[ci] == i,
                self.branching.shift(ci) == tree.bit(bi) - 1,
                1 <= self.branching.size(ci) <= 15,
                self.branching.esc(ci) == tree.esc(bi),
                tree.spec_level_max(bi, 15, tree.esc(bi)) >= self.branching.size(ci),
                self.complete_from(ci + 1),
            decreases fan - i,
        {
            let ghost before = *self;
            proof {
                assert(self.rec_sem(ci));
                assert(self.branching.rec_ok(ci, nl, w));
            }
            self.compute_compressed_child(
                tree,
                current,
                i,
                1,
                b,
                b,
                done,
                comp,
                pending,
                Ghost(15int),
            );
            let ghost mid = *self;
            proof {
                let hole = ci + 3 + i;
                before.lemma_free_slot(ci, i as int);
                mid.lemma_kept_rec(&before, hole, ci);
                mid.lemma_kept_trans(&before, &s0, hole);
                mid.lemma_kept_complete(&before, hole, ci + 1);
                self.progress = Ghost(mid.progress@.update(ci, i + 1));
                assert forall|r: int| self.branching.is_rec(r) implies #[trigger] self.rec_sem(r) by {
                    assert(mid.rec_sem(r));
                    self.lemma_same_cells(&mid, r, 0);
                    assert forall|k: u16| 0 <= k < self.progress@[r] implies #[trigger] self.cell_ok(
                        r,
                        k,
                    ) by {
                        self.lemma_same_cells(&mid, r, k);
                        if r == ci && k == i {
                            assert(mid.cell_ok(ci, i));
                        } else {
                            assert(mid.cell_ok(r, k));
                        }
                    }
                }
                assert forall|j: int| 0 <= j < self.leaves@.len() implies #[trigger] self.leaf_matches(
                    j,
                ) by {
                    assert(mid.leaf_matches(j));
                }
                assert(self.sem());
                assert forall|j: int|
                    0 <= j < done@.len() && (#[trigger] done@[j]).is_some() implies self.branching.is_rec(
                    done@[j].unwrap().0 as int,
                ) && self.rb(done@[j].unwrap().0 as int) == j by {
                    assert(mid.branching.is_rec(done@[j].unwrap().0 as int));
                }
                assert forall|r: int| self.branching.is_rec(r) implies #[trigger] self.marked(
                    done@,
                    r,
                ) by {
                    assert(mid.marked(done@, r));
                }
                assert(self.kept(&s0, -1));
                assert(self.complete_from(ci + 1)) by {
                    assert forall|r: int|
                        self.branching.is_rec(r) && r >= ci + 1 implies #[trigger] self.progress@[r]
                        == self.branching.fan(r) by {
                        assert(mid.progress@[r] == mid.branching.fan(r));
                    }
                }
                assert forall|r: int| s0.branching.is_rec(r) implies #[trigger] self.branching.is_rec(
                    r,
                ) && self.branching.memzone@[r] == s0.branching.memzone@[r]
                    && self.branching.memzone@[r + 1] == s0.branching.memzone@[r + 1] by {
                    assert(before.branching.is_rec(r));
                    assert(before.branching.memzone@[r] == s0.branching.memzone@[r]);
                    assert(mid.branching.is_rec(r));
                }
            }
            i += 1;
        }
        proof {
            assert(self.complete_from(ci)) by {
                assert forall|r: int| self.branching.is_rec(r) && r >= ci implies #[trigger] self.progress@[r]
                    == self.branching.fan(r) by {
                    if r != ci {
                        assert(r >= ci + 1);
                    }
                }
            }
        }
        current
    }

    /// Finds the child for the letter `currchild` of the compressed
    /// branching `current`, and sets it.  `b` is the branching of the radix
    /// trie that tests the bit at `depth` among the bits that `current`
    /// tests; from `b`, `levels` levels have the escape of `current`.
    ///
    /// Where the letter leads to a leaf of the radix trie, the child is that
    /// leaf if it has the bits of the letter, else the first escape upwards
    /// that has them; where it leads to a branching that tests a later bit
    /// than `current` does, the child is the compressed branching made of
    /// that branching.
    pub fn compute_compressed_child(
        &mut self,
        tree: &BranchingTree<K::Slot>,
        current: BranchingIndex,
        currchild: u16,
        depth: u8,
        start: BranchingIndex,
        b: BranchingIndex,
        done: &mut Vec<Option<BranchingIndex>>,
        comp: u8,
        pending: &mut usize,
        levels: Ghost<int>,
    )
        requires
            old(self).building(tree, old(done)@, *old(pending) as int),
            old(self).branching.is_rec(current.0 as int),
            currchild < old(self).branching.fan(current.0 as int),
            1 <= depth <= old(self).branching.size(current.0 as int),
            0 <= b.0 < tree.len(),
            tree.bit(b.0 as int) == old(self).branching.shift(current.0 as int) + depth,
            comp < 16,
            old(self).cell(current.0 as int, currchild).has(tree, b.0 as int),
            old(self).progress@[current.0 as int] <= currchild,
            tree.spec_level_max(b.0 as int, levels@, old(self).branching.esc(current.0 as int))
                >= old(self).branching.size(current.0 as int) - depth + 1,
        ensures
            final(self).building(tree, final(done)@, *final(pending) as int),
            final(self).branching.grown_from(&old(self).branching),
            final(self).kept(old(self), current.0 + 3 + currchild),
            final(self).complete_from(old(self).branching.len() as int),
            final(self).cell_ok(current.0 as int, currchild),
            Self::marks_kept(old(done)@, final(done)@),
            *final(pending) <= *old(pending),
        decreases 256 - tree.bit(b.0 as int), 0int,
    {
        let ghost nl = self.nl();
        let ghost w = Self::width();
        let ghost ci = current.0 as int;
        let ghost bi = b.0 as int;
        let ghost s0 = *self;
        let ghost cell = self.cell(ci, currchild);
        let ghost hole = ci + 3 + currchild;
        proof {
            tree.lemma_inv_shape();
            assert(tree.node_ok(bi));
            assert(tree.kid_ok(bi, 0));
            assert(tree.kid_ok(bi, 1));
            assert(self.branching.rec_ok(ci, nl, w));
            assert(self.rec_sem(ci));
            self.lemma_free_slot(ci, currchild as int);
            cell.lemma_has(tree, bi);
        }
        let c = self.branching.header(current);
        let node = *tree.at(b);
        let probe: u16 = 1u16 << (c.size - depth);
        proof {
            lemma_letter_bits(0, currchild, 0, (c.size - depth) as u16, 0, 0, 0);
        }
        let thechild = if currchild & probe == 0 {
            node.child[0]
        } else {
            node.child[1]
        };
        proof {
            assert(thechild == tree.kid(bi, cell.side(tree, bi)));
        }
        if thechild.is_leaf() {
            let mut leaf = thechild.as_leaf();
            let mut at = b;
            let ghost l0 = leaf.idx();
            let ghost mut a: int = bi;
            let ghost mut moved = false;
            let tr = self.leaves.at(leaf).prefix.bitslot_trunc();
            let mk = self.leaves.at(leaf).prefix.bitmask();
            let mut matching: u16 = c.letter(&tr);
            let first: u16 = c.letter(&mk);
            let mut child: u16 = currchild & first;
            proof {
                assert(self.leaf_matches(l0));
                cell.lemma_compat_test(tree, l0, tr, mk, matching, first);
            }
            while matching != child && !leaf.is_root_leaf()
                invariant
                    *self == s0,
                    self.building(tree, done@, *pending as int),
                    nl == self.nl(),
                    cell == self.cell(ci, currchild),
                    0 <= bi < tree.len(),
                    0 <= at.0 < tree.len(),
                    leaf.0 < 0,
                    0 <= leaf.idx() < nl,
                    1 <= c.size <= MAX_SIZE,
                    c.size == cell.size,
                    c.shift == cell.shift,
                    c.mask == !(!0u16 << c.size),
                    currchild == cell.letter,
                    currchild < (1u16 << c.size),
                    (matching == child) <==> cell.compat(tree, leaf.idx()),
                    l0 == -1 - tree.kid(bi, cell.side(tree, bi)).0,
                    if moved {
                        &&& tree.upward(a, bi)
                        &&& leaf.idx() == tree.esc(a)
                        &&& at.0 == tree.par(a)
                        &&& !cell.compat(tree, l0)
                        &&& forall|m: int|
                            tree.upward(m, bi) && tree.bit(m) > tree.bit(a) ==> !cell.compat(
                                tree,
                                #[trigger] tree.esc(m),
                            )
                    } else {
                        leaf.idx() == l0 && at.0 == bi
                    },
                decreases
                        if leaf.0 == -1 {
                            0
                        } else {
                            tree.bit(at.0 as int) + 1
                        },
            {
                let ghost tried = leaf.idx();
                let ghost was = a;
                let ghost ai = at.0 as int;
                proof {
                    assert(tree.node_ok(ai));
                    assert(tree.node_ok(tree.par(ai)));
                    assert(tree.node_ok(0));
                    if moved {
                        tree.lemma_above(was, bi);
                        assert(tree.node_ok(was));
                        assert(was != 0);
                        if was != bi {
                            tree.lemma_above_walk(ai, was, bi);
                        } else {
                            tree.lemma_above_step(ai, bi);
                        }
                    }
                    assert(tree.upward(ai, bi));
                    assert forall|m: int|
                        tree.upward(m, bi) && tree.bit(m) > tree.bit(ai) implies !cell.compat(
                        tree,
                        #[trigger] tree.esc(m),
                    ) by {
                        tree.lemma_above(m, bi);
                        if moved {
                            if tree.bit(m) <= tree.bit(was) {
                                tree.lemma_between(bi, was, m);
                            }
                        }
                    }
                }
                leaf = tree.at(at).escape;
                let tr = self.leaves.at(leaf).prefix.bitslot_trunc();
                let mk = self.leaves.at(leaf).prefix.bitmask();
                matching = c.letter(&tr);
                let word: u16 = c.letter(&mk);
                child = currchild & word;
                proof {
                    assert(self.leaf_matches(leaf.idx()));
                    cell.lemma_compat_test(tree, leaf.idx(), tr, mk, matching, word);
                    a = ai;
                    moved = true;
                }
                at = tree.at(at).parent;
            }
            proof {
                let j = leaf.idx();
                assert(tree.plen(0) == 0);
                assert(cell.compat(tree, j));
                if moved {
                    assert(tree.upward(a, bi));
                }
                assert(cell.settled(tree, bi, j));
                assert(cell.holds(tree, leaf.0 as int, 0));
            }
            self.branching.set_child(
                current,
                currchild,
                NodeIndex::of_leaf(leaf),
                Ghost(nl),
                Ghost(w),
            );
            proof {
                assert(self.kept(&s0, hole));
                assert forall|r: int|
                    self.branching.is_rec(r) && r >= s0.branching.len() implies #[trigger] self.rec_sem(
                    r,
                ) by {}
                self.lemma_kept_sem(&s0, hole);
                self.lemma_kept_marks(&s0, hole, done@);
                assert forall|r: int| self.branching.is_rec(r) implies #[trigger] self.marked(
                    done@,
                    r,
                ) by {
                    assert(s0.branching.is_rec(r));
                    assert(s0.marked(done@, r));
                    assert(self.origin@[r] == s0.origin@[r]);
                }
                s0.lemma_kept_rec_head(self, hole, ci);
                assert(self.cell(ci, currchild) == cell);
                assert(self.cell_ok(ci, currchild));
                assert(self.branching.grown_from(&s0.branching));
            }
        } else {
            let next = thechild.as_branching();
            let ghost ni = next.0 as int;
            proof {
                assert(tree.node_ok(ni));
                assert(tree.kid_ok(bi, cell.side(tree, bi)));
            }
            let below: u8 = tree.at(next).bit - c.shift;
            if below > c.size {
                let made = match done[next.index()] {
                    Some(n) => {
                        proof {
                            assert(done@[ni].is_some());
                            assert(self.rec_sem(n.0 as int));
                        }
                        n
                    },
                    None => {
                        let made = self.compress(
                            tree,
                            next,
                            current,
                            done,
                            comp,
                            pending,
                            Ghost(currchild),
                        );
                        proof {
                            assert(self.rec_sem(made.0 as int));
                        }
                        made
                    },
                };
                let ghost s2 = *self;
                proof {
                    assert(s2.branching.grown_from(&s0.branching));
                    s0.lemma_kept_rec_head(&s2, -1, ci);
                    s2.lemma_kept_rec(&s0, -1, ci);
                    s2.lemma_free_slot(ci, currchild as int);
                    assert(s2.branching.shift(made.0 as int) == tree.bit(ni) - 1);
                }
                self.branching.set_child(
                    current,
                    currchild,
                    NodeIndex::of_branching(made),
                    Ghost(nl),
                    Ghost(w),
                );
                proof {
                    assert(self.kept(&s2, hole));
                    assert forall|r: int|
                        self.branching.is_rec(r) && r >= s2.branching.len() implies #[trigger] self.rec_sem(
                        r,
                    ) by {}
                    self.lemma_kept_sem(&s2, hole);
                    self.lemma_kept_marks(&s2, hole, done@);
                    assert forall|r: int| self.branching.is_rec(r) implies #[trigger] self.marked(
                        done@,
                        r,
                    ) by {
                        assert(s2.branching.is_rec(r));
                        assert(s2.marked(done@, r));
                        assert(self.origin@[r] == s2.origin@[r]);
                    }
                    self.lemma_kept_after(&s2, &s0, hole);
                    self.lemma_kept_complete(&s2, hole, s0.branching.len() as int);
                    s2.lemma_kept_rec_head(self, hole, ci);
                    assert(self.cell(ci, currchild) == cell);
                    assert(self.rb(made.0 as int) == ni);
                    assert(self.cell_ok(ci, currchild));
                    assert(s2.branching.grown_from(&s0.branching)) by {
                        if s2 != s0 {
                        }
                    }
                    self.branching.lemma_grown_trans(&s2.branching, &s0.branching);
                }
            } else {
                proof {
                    tree.lemma_level_step(
                        bi,
                        levels@,
                        self.branching.esc(ci),
                        cell.side(tree, bi),
                    );
                    tree.lemma_level_esc(ni, levels@ - 1, self.branching.esc(ci));
                    assert(cell.has(tree, ni));
                }
                self.compute_compressed_child(
                    tree,
                    current,
                    currchild,
                    below,
                    start,
                    next,
                    done,
                    comp,
                    pending,
                    Ghost(levels@ - 1),
                );
            }
        }
    }

    /// The header of a record that is kept is kept.
    pub proof fn lemma_kept_rec_head(&self, after: &Self, hole: int, b: int)
        requires
            self.sem(),
            self.branching.wf(self.nl(), Self::width()),
            after.kept(self, hole),
            self.branching.is_rec(b),
            hole == -1 || self.free_slot(hole),
        ensures
            after.branching.is_rec(b),
            after.branching.shift(b) == self.branching.shift(b),
            after.branching.size(b) == self.branching.size(b),
            after.branching.fan(b) == self.branching.fan(b),
            after.branching.esc(b) == self.branching.esc(b),
            after.rb(b) == self.rb(b),
            after.progress@[b] == self.progress@[b],
    {
        after.lemma_kept_rec(self, hole, b);
    }
}

/// A sequence of marks of which none is set counts as many as it is long.
pub proof fn lemma_count_all_none(done: Seq<Option<BranchingIndex>>)
    requires
        forall|i: int| 0 <= i < done.len() ==> (#[trigger] done[i]).is_none(),
    ensures
        count_none(done) == done.len(),
    decreases done.len(),
{
    if done.len() > 0 {
        lemma_count_all_none(done.drop_last());
    }
}

impl CompressedTree {
    /// What has grown from what has grown from an arena has grown from it.
    pub proof fn lemma_grown_trans(&self, mid: &Self, before: &Self)
        requires
            mid.grown_from(before),
            self.grown_from(mid),
        ensures
            self.grown_from(before),
    {
        assert forall|b: int| before.is_rec(b) implies #[trigger] self.is_rec(b) && self.memzone@[b]
            == before.memzone@[b] && self.memzone@[b + 1] == before.memzone@[b + 1] by {
            assert(mid.is_rec(b));
            assert(mid.memzone@[b] == before.memzone@[b]);
            assert(self.is_rec(b));
            assert(self.memzone@[b] == mid.memzone@[b]);
        }
    }

    /// The arena has the records of `before`, with the same bits tested and
    /// the same escapes; parents may differ.
    pub open spec fn reparented_from(&self, before: &Self) -> bool {
        &&& self.len() == before.len()
        &&& self.starts == before.starts
        &&& self.grown_from(before)
    }
}

impl<K: IpPrefix, V> LevelCompressedTrie<K, V> {
    /// The record at `up` is the record at `b`, or it was made of a branching
    /// above, and the branchings between have the escape of `b` or that of `up`.
    pub open spec fn linked_up(&self, b: int, up: int) -> bool {
        let t = self.tree@;
        b == up || {
            &&& t.above(self.rb(up), self.rb(b))
            &&& forall|m: int|
                t.upward(m, self.rb(b)) && t.bit(m) > t.bit(self.rb(up)) ==> #[trigger] t.esc(m)
                    == self.branching.esc(b) || t.esc(m) == self.branching.esc(up)
        }
    }

    /// The trie is `before` but for parents.
    pub open spec fn reparented(&self, before: &Self) -> bool {
        &&& self.tree == before.tree
        &&& self.leaves == before.leaves
        &&& self.origin == before.origin
        &&& self.progress == before.progress
        &&& self.branching.reparented_from(&before.branching)
        &&& forall|r: int, k: int|
            before.branching.is_rec(r) && 0 <= k < before.branching.fan(r) ==> #[trigger] self.branching.memzone@[Self::slot_of(
                r,
                k,
            )] == before.branching.memzone@[Self::slot_of(r, k)]
    }

    /// A record whose parent is kept is as the radix trie wants it in a trie
    /// that differs by parents only.
    pub proof fn lemma_reparented_rec(&self, before: &Self, r: int)
        requires
            before.sem(),
            before.branching.wf(before.nl(), Self::width()),
            self.reparented(before),
            before.branching.is_rec(r),
            r != 0 ==> self.chained(r),
        ensures
            self.rec_sem(r),
    {
        let nl = before.nl();
        let w = Self::width();
        assert(before.rec_sem(r));
        assert(before.branching.rec_ok(r, nl, w));
        assert(self.branching.is_rec(r));
        assert(self.branching.memzone@[r] == before.branching.memzone@[r]);
        assert(self.branching.memzone@[r + 1] == before.branching.memzone@[r + 1]);
        assert forall|k: u16| 0 <= k < self.progress@[r] implies #[trigger] self.cell_ok(r, k) by {
            assert(before.cell_ok(r, k));
            assert(self.branching.memzone@[Self::slot_of(r, k as int)]
                == before.branching.memzone@[Self::slot_of(r, k as int)]);
            assert(self.cell(r, k) == before.cell(r, k));
        }
    }

    /// A record whose parent and the escape of whose parent are kept stays
    /// linked to its parent.
    pub proof fn lemma_reparented_chain(&self, before: &Self, r: int)
        requires
            before.sem(),
            before.branching.wf(before.nl(), Self::width()),
            self.reparented(before),
            before.branching.is_rec(r),
            r != 0,
            self.branching.par(r) == before.branching.par(r),
        ensures
            self.chained(r),
    {
        let nl = before.nl();
        let w = Self::width();
        assert(before.rec_sem(r));
        assert(before.branching.rec_ok(r, nl, w));
        let pb = before.branching.par(r);
        assert(before.branching.is_rec(pb));
        assert(self.branching.is_rec(r));
        assert(self.branching.is_rec(pb));
        assert(self.branching.memzone@[r + 1] == before.branching.memzone@[r + 1]);
        assert(self.branching.memzone@[pb + 1] == before.branching.memzone@[pb + 1]);
    }

    /// Below the record at `q`, the ways up are short: a record that is a
    /// child of a record of the same escape has the parent of that record,
    /// which is `u` for the escape `e` of the record at `q`; it is then the
    /// parent of every record of a run of records of one escape.  A record
    /// of another escape than its holder keeps its parent, which takes the
    /// place of `u` below it.
    pub open spec fn flat(&self, q: int, e: int, u: int) -> bool
        decreases 256 - self.branching.shift(q),
    {
        forall|k: int|
            0 <= k < self.branching.fan(q) ==> {
                let c = (#[trigger] self.branching.kid(q, k)).0 as int;
                c >= 0 && self.branching.shift(q) < self.branching.shift(c) ==> (
                if self.branching.esc(c) == e {
                    self.branching.par(c) == u && self.flat(c, e, u)
                } else {
                    self.flat(c, self.branching.esc(c), self.branching.par(c))
                })
            }
    }

    /// What `flat` says of child `k` of the record at `q`.
    pub open spec fn flat_kid(&self, q: int, k: int, e: int, u: int) -> bool {
        let c = self.branching.kid(q, k).0 as int;
        c >= 0 && self.branching.shift(q) < self.branching.shift(c) ==> (if self.branching.esc(c)
            == e {
            self.branching.par(c) == u && self.flat(c, e, u)
        } else {
            self.flat(c, self.branching.esc(c), self.branching.par(c))
        })
    }

    /// The ways up are short below a record where they are below each child.
    pub proof fn lemma_flat_close(&self, q: int, e: int, u: int)
        requires
            forall|k: int| 0 <= k < self.branching.fan(q) ==> #[trigger] self.flat_kid(q, k, e, u),
        ensures
            self.flat(q, e, u),
    {
        assert forall|k: int| 0 <= k < self.branching.fan(q) implies {
            let c = (#[trigger] self.branching.kid(q, k)).0 as int;
            c >= 0 && self.branching.shift(q) < self.branching.shift(c) ==> (if self.branching.esc(
                c,
            ) == e {
                self.branching.par(c) == u && self.flat(c, e, u)
            } else {
                self.flat(c, self.branching.esc(c), self.branching.par(c))
            })
        } by {
            assert(self.flat_kid(q, k, e, u));
        }
    }

    /// The parents are those of `before`, but for records made of
    /// branchings that lie below the branching that the record at `b` was made of.
    pub open spec fn moved_below(&self, before: &Self, b: int) -> bool {
        forall|x: int|
            before.branching.is_rec(x) && #[trigger] self.branching.par(x) != before.branching.par(
                x,
            ) ==> before.tree@.above(before.rb(b), before.rb(x))
    }

    /// The parents are those of `before`, but for the record at `c` and for
    /// records made of branchings that lie below the branching that it was made of.
    pub open spec fn moved_at(&self, before: &Self, c: int) -> bool {
        forall|x: int|
            before.branching.is_rec(x) && #[trigger] self.branching.par(x) != before.branching.par(
                x,
            ) ==> x == c || before.tree@.above(before.rb(c), before.rb(x))
    }

    /// A child that is a record was made of a branching below the
    /// branching that its holder was made of, the first after the bits that
    /// the holder tests.
    pub proof fn lemma_kid_below(&self, q: int, k: int)
        requires
            self.wf(),
            self.branching.is_rec(q),
            0 <= k < self.branching.fan(q),
            self.branching.kid(q, k).0 >= 0,
        ensures
            ({
                let c = self.branching.kid(q, k).0 as int;
                let t = self.tree@;
                &&& self.branching.is_rec(c)
                &&& self.branching.shift(q) < self.branching.shift(c)
                &&& 0 <= self.rb(q) < t.len()
                &&& 0 < self.rb(c) < t.len()
                &&& t.above(self.rb(q), self.rb(c))
                &&& t.bit(self.rb(c)) > self.branching.shift(q) + self.branching.size(q)
                &&& t.bit(t.par(self.rb(c))) <= self.branching.shift(q) + self.branching.size(q)
            }),
    {
        let nl = self.nl();
        let w = Self::width();
        let t = self.tree@;
        let c = self.branching.kid(q, k).0 as int;
        assert(self.branching.rec_ok(q, nl, w));
        assert(self.branching.kid_ok(q, k, nl));
        assert(self.rec_sem(q));
        assert(self.progress@[q] == self.branching.fan(q));
        let ku = k as u16;
        assert(self.cell_ok(q, ku));
        let cell = self.cell(q, ku);
        let rc = self.rb(c);
        let pr = t.par(rc);
        cell.lemma_has(&t, pr);
        assert(t.node_ok(rc));
        t.lemma_above_step(self.rb(q), rc);
    }

    /// Nothing lies below what two children of one record were made of,
    /// where no two records were made of the same branching.
    pub proof fn lemma_siblings_apart(&self, b: int, k1: int, k2: int, x: int)
        requires
            self.wf(),
            self.distinct(),
            self.branching.is_rec(b),
            0 <= k1 < self.branching.fan(b),
            0 <= k2 < self.branching.fan(b),
            self.branching.kid(b, k1).0 >= 0,
            self.branching.kid(b, k2).0 >= 0,
            self.branching.kid(b, k1) != self.branching.kid(b, k2),
            0 <= x < self.tree@.len(),
            self.tree@.upward(self.rb(self.branching.kid(b, k1).0 as int), x),
        ensures
            !self.tree@.upward(self.rb(self.branching.kid(b, k2).0 as int), x),
    {
        let t = self.tree@;
        let c1 = self.branching.kid(b, k1).0 as int;
        let c2 = self.branching.kid(b, k2).0 as int;
        let r1 = self.rb(c1);
        let r2 = self.rb(c2);
        self.lemma_kid_below(b, k1);
        self.lemma_kid_below(b, k2);
        assert(self.branching.is_rec(c1) && self.branching.is_rec(c2));
        assert(r1 != r2);
        if t.upward(r2, x) {
            if t.bit(r1) == t.bit(r2) {
                t.lemma_upward_same(x, r1, r2);
            } else if t.bit(r1) < t.bit(r2) {
                t.lemma_upward_order(x, r1, r2);
                assert(t.node_ok(r2));
                if t.par(r2) != r1 {
                    t.lemma_above(r1, t.par(r2));
                }
            } else {
                t.lemma_upward_order(x, r2, r1);
                assert(t.node_ok(r1));
                if t.par(r1) != r2 {
                    t.lemma_above(r2, t.par(r1));
                }
            }
        }
    }

    /// What `flat` says of each child.
    pub proof fn lemma_flat_open(&self, q: int, k: int, e: int, u: int)
        requires
            self.flat(q, e, u),
            0 <= k < self.branching.fan(q),
        ensures
            self.flat_kid(q, k, e, u),
    {
        let c = self.branching.kid(q, k);
    }

    /// The ways up are short below the record at `q` in a trie that differs
    /// by parents only, and not by the parents of the records below.
    pub proof fn lemma_flat_frame(&self, after: &Self, q: int, e: int, u: int)
        requires
            self.wf(),
            after.reparented(self) || *after == *self,
            self.branching.is_rec(q),
            forall|x: int|
                self.branching.is_rec(x) && self.tree@.above(self.rb(q), self.rb(x))
                    ==> #[trigger] after.branching.par(x) == self.branching.par(x),
            self.flat(q, e, u),
        ensures
            after.flat(q, e, u),
        decreases 256 - self.branching.shift(q),
    {
        if *after != *self {
            let t = self.tree@;
            self.lemma_same_heads(after, q);
            assert forall|k: int| 0 <= k < after.branching.fan(q) implies #[trigger] after.flat_kid(
                q,
                k,
                e,
                u,
            ) by {
                self.lemma_flat_open(q, k, e, u);
                self.branching.lemma_slot_of_child(q, k, self.nl(), Self::width());
                assert(after.branching.memzone@[Self::slot_of(q, k)]
                    == self.branching.memzone@[Self::slot_of(q, k)]);
                assert(after.branching.kid(q, k) == self.branching.kid(q, k));
                let c = self.branching.kid(q, k).0 as int;
                if c >= 0 {
                    self.lemma_kid_below(q, k);
                    self.lemma_same_heads(after, c);
                    assert(after.branching.par(c) == self.branching.par(c));
                    assert forall|x: int|
                        self.branching.is_rec(x) && t.above(
                            self.rb(c),
                            self.rb(x),
                        ) implies #[trigger] after.branching.par(x) == self.branching.par(x) by {
                        assert(self.rec_sem(x));
                        t.lemma_above_trans(self.rb(q), self.rb(c), self.rb(x));
                    }
                    if self.branching.esc(c) == e {
                        self.lemma_flat_frame(after, c, e, u);
                    } else {
                        self.lemma_flat_frame(after, c, self.branching.esc(c), self.branching.par(c));
                    }
                }
            }
            after.lemma_flat_close(q, e, u);
        }
    }

    /// Once child `i` of the record at `b` has been seen to, the ways up are
    /// short below the children up to `i`: what was done below child `i`
    /// has left the others as they were.
    pub proof fn lemma_flat_next(&self, after: &Self, b: int, i: int, e: int, u: int)
        requires
            self.wf(),
            self.distinct(),
            after.reparented(self) || *after == *self,
            self.branching.is_rec(b),
            0 <= i < self.branching.fan(b),
            self.branching.kid(b, i).0 >= 0,
            after.moved_at(self, self.branching.kid(b, i).0 as int),
            forall|k: int| 0 <= k < i ==> #[trigger] self.flat_kid(b, k, e, u),
            after.flat_kid(b, i, e, u),
        ensures
            forall|k: int| 0 <= k <= i ==> #[trigger] after.flat_kid(b, k, e, u),
    {
        let t = self.tree@;
        let c = self.branching.kid(b, i).0 as int;
        self.lemma_kid_below(b, i);
        if *after != *self {
            self.lemma_same_heads(after, b);
        }
        assert forall|k: int| 0 <= k <= i implies #[trigger] after.flat_kid(b, k, e, u) by {
            if k < i && *after != *self {
                assert(self.flat_kid(b, k, e, u));
                self.branching.lemma_slot_of_child(b, k, self.nl(), Self::width());
                self.branching.lemma_slot_of_child(b, i, self.nl(), Self::width());
                assert(after.branching.memzone@[Self::slot_of(b, k)]
                    == self.branching.memzone@[Self::slot_of(b, k)]);
                assert(after.branching.memzone@[Self::slot_of(b, i)]
                    == self.branching.memzone@[Self::slot_of(b, i)]);
                assert(after.branching.kid(b, k) == self.branching.kid(b, k));
                assert(after.branching.kid(b, i) == self.branching.kid(b, i));
                let d = self.branching.kid(b, k).0 as int;
                if d >= 0 {
                    if d == c {
                        assert(after.flat_kid(b, i, e, u));
                    } else {
                        self.lemma_kid_below(b, k);
                        self.lemma_same_heads(after, d);
                        assert(t.upward(self.rb(d), self.rb(d)));
                        self.lemma_siblings_apart(b, k, i, self.rb(d));
                        assert(after.branching.par(d) == self.branching.par(d));
                        assert forall|x: int|
                            self.branching.is_rec(x) && t.above(
                                self.rb(d),
                                self.rb(x),
                            ) implies #[trigger] after.branching.par(x) == self.branching.par(
                            x,
                        ) by {
                            assert(self.rec_sem(x));
                            self.lemma_siblings_apart(b, k, i, self.rb(x));
                        }
                        if self.branching.esc(d) == e {
                            self.lemma_flat_frame(after, d, e, u);
                        } else {
                            self.lemma_flat_frame(
                                after,
                                d,
                                self.branching.esc(d),
                                self.branching.par(d),
                            );
                        }
                    }
                }
            }
        }
    }

    /// No two records were made of the same branching in a trie that
    /// differs by parents only.
    pub proof fn lemma_distinct_same(&self, after: &Self)
        requires
            after.reparented(self) || *after == *self,
            self.distinct(),
        ensures
            after.distinct(),
    {
        assert forall|r1: int, r2: int|
            #![trigger after.branching.is_rec(r1), after.branching.is_rec(r2)]
            after.branching.is_rec(r1) && after.branching.is_rec(r2) && after.rb(r1) == after.rb(
                r2,
            ) implies r1 == r2 by {
            assert(self.branching.is_rec(r1) && self.branching.is_rec(r2));
        }
    }

    /// Child `k` of the record at `b` is the same in a trie that differs by
    /// parents only.
    pub proof fn lemma_same_kid(&self, after: &Self, b: int, k: int)
        requires
            self.wf(),
            after.reparented(self) || *after == *self,
            self.branching.is_rec(b),
            0 <= k < self.branching.fan(b),
        ensures
            after.branching.kid(b, k) == self.branching.kid(b, k),
    {
        self.branching.lemma_slot_of_child(b, k, self.nl(), Self::width());
        if *after != *self {
            assert(after.branching.memzone@[Self::slot_of(b, k)]
                == self.branching.memzone@[Self::slot_of(b, k)]);
        }
    }

    /// A record of another escape than a record that holds it has the
    /// parent that it had in `before`.
    pub open spec fn tops_kept(&self, before: &Self) -> bool {
        forall|q: int, k: int|
            before.branching.is_rec(q) && 0 <= k < before.branching.fan(q) && (
            #[trigger] before.branching.kid(q, k)).0 >= 0 && before.branching.esc(
                before.branching.kid(q, k).0 as int,
            ) != before.branching.esc(q) ==> self.branching.par(before.branching.kid(q, k).0 as int)
                == before.branching.par(before.branching.kid(q, k).0 as int)
    }

    /// The records that hold one record have one escape.
    pub proof fn lemma_holders_agree(&self, q1: int, k1: int, q2: int, k2: int)
        requires
            self.wf(),
            self.branching.is_rec(q1),
            self.branching.is_rec(q2),
            0 <= k1 < self.branching.fan(q1),
            0 <= k2 < self.branching.fan(q2),
            self.branching.kid(q1, k1).0 >= 0,
            self.branching.kid(q1, k1) == self.branching.kid(q2, k2),
        ensures
            self.branching.esc(q1) == self.branching.esc(q2),
    {
        let t = self.tree@;
        let c = self.branching.kid(q1, k1).0 as int;
        let pr = t.par(self.rb(c));
        self.lemma_kid_below(q1, k1);
        self.lemma_kid_below(q2, k2);
        assert(self.rec_sem(q1));
        assert(self.rec_sem(q2));
        assert(self.progress@[q1] == self.branching.fan(q1));
        assert(self.progress@[q2] == self.branching.fan(q2));
        assert(self.cell_ok(q1, k1 as u16));
        assert(self.cell_ok(q2, k2 as u16));
        self.cell(q1, k1 as u16).lemma_has(&t, pr);
        self.cell(q2, k2 as u16).lemma_has(&t, pr);
    }

    /// The records of another escape than their holders have kept their
    /// parents once child `i` of the record at `b` has been seen to.
    pub proof fn lemma_tops_step(&self, s0: &Self, mid: &Self, after: &Self, b: int, i: int)
        requires
            self.wf(),
            mid.wf(),
            s0.wf(),
            self.reparented(s0) || *self == *s0,
            mid.reparented(self) || *mid == *self,
            after.reparented(mid) || *after == *mid,
            self.branching.is_rec(b),
            0 <= i < self.branching.fan(b),
            self.branching.kid(b, i).0 >= 0,
            self.tops_kept(s0),
            forall|x: int|
                self.branching.is_rec(x) && x != self.branching.kid(b, i).0
                    ==> #[trigger] mid.branching.par(x) == self.branching.par(x),
            mid.branching.par(self.branching.kid(b, i).0 as int) != self.branching.par(
                self.branching.kid(b, i).0 as int,
            ) ==> self.branching.esc(self.branching.kid(b, i).0 as int) == self.branching.esc(b),
            after.tops_kept(mid),
        ensures
            after.tops_kept(s0),
    {
        let c = self.branching.kid(b, i).0 as int;
        assert forall|q: int, k: int|
            s0.branching.is_rec(q) && 0 <= k < s0.branching.fan(q) && (
            #[trigger] s0.branching.kid(q, k)).0 >= 0 && s0.branching.esc(
                s0.branching.kid(q, k).0 as int,
            ) != s0.branching.esc(q) implies after.branching.par(s0.branching.kid(q, k).0 as int)
            == s0.branching.par(s0.branching.kid(q, k).0 as int) by {
            let d = s0.branching.kid(q, k).0 as int;
            s0.lemma_kid_below(q, k);
            s0.lemma_same_kid(self, q, k);
            s0.lemma_same_heads(self, q);
            s0.lemma_same_heads(self, d);
            self.lemma_same_kid(mid, q, k);
            self.lemma_same_heads(mid, q);
            self.lemma_same_heads(mid, d);
            assert(self.branching.kid(q, k).0 == d);
            assert(mid.branching.kid(q, k).0 == d);
            if d == c {
                self.lemma_holders_agree(q, k, b, i);
            }
            assert(mid.branching.par(d) == self.branching.par(d));
        }
    }

    /// What has moved once child `i` of the record at `b` has been seen to:
    /// the child itself, in `mid`, and records below it, in `after`.
    pub proof fn lemma_skip_step(&self, s0: &Self, mid: &Self, after: &Self, b: int, i: int)
        requires
            self.wf(),
            mid.wf(),
            self.reparented(s0) || *self == *s0,
            mid.reparented(self) || *mid == *self,
            after.reparented(mid) || *after == *mid,
            s0.branching.is_rec(b),
            self.branching.is_rec(b),
            0 <= i < self.branching.fan(b),
            self.branching.kid(b, i).0 >= 0,
            self.moved_below(s0, b),
            forall|x: int|
                self.branching.is_rec(x) && x != self.branching.kid(b, i).0
                    ==> #[trigger] mid.branching.par(x) == self.branching.par(x),
            after.moved_below(mid, self.branching.kid(b, i).0 as int),
        ensures
            after.moved_below(s0, b),
            after.moved_at(self, self.branching.kid(b, i).0 as int),
            after.branching.par(self.branching.kid(b, i).0 as int) == mid.branching.par(
                self.branching.kid(b, i).0 as int,
            ),
    {
        let t = self.tree@;
        let c = self.branching.kid(b, i).0 as int;
        self.lemma_kid_below(b, i);
        assert(mid.branching.is_rec(c));
        assert(self.rec_sem(c));
        assert(self.rec_sem(b));
        if after.branching.par(c) != mid.branching.par(c) {
            t.lemma_above(self.rb(c), self.rb(c));
        }
        assert forall|x: int|
            self.branching.is_rec(x) && #[trigger] after.branching.par(x) != self.branching.par(
                x,
            ) implies x == c || t.above(self.rb(c), self.rb(x)) by {
            if x != c {
                assert(mid.branching.par(x) == self.branching.par(x));
                assert(mid.branching.is_rec(x));
            }
        }
        assert forall|x: int|
            s0.branching.is_rec(x) && #[trigger] after.branching.par(x) != s0.branching.par(
                x,
            ) implies s0.tree@.above(s0.rb(b), s0.rb(x)) by {
            assert(self.branching.is_rec(x));
            assert(self.rec_sem(x));
            if self.branching.par(x) == s0.branching.par(x) {
                if x != c {
                    t.lemma_above_trans(self.rb(b), self.rb(c), self.rb(x));
                }
            }
        }
    }

    /// Shortens the ways up: below `b`, a record whose escape is that of
    /// its holder gets the parent of its holder, which is `up` for the
    /// escape `esc` of `b`, so that a way up passes each escape once.  A
    /// record of another escape than its holder keeps its parent, and no
    /// parent changes but those of records below `b`.
    pub fn skip_redundant_parent(&mut self, b: BranchingIndex, esc: LeafIndex, up: BranchingIndex)
        requires
            old(self).wf(),
            old(self).branching.is_rec(b.0 as int),
            old(self).branching.is_rec(up.0 as int),
            old(self).branching.shift(up.0 as int) <= old(self).branching.shift(b.0 as int),
            esc.idx() == old(self).branching.esc(b.0 as int),
            old(self).linked_up(b.0 as int, up.0 as int),
        ensures
            final(self).wf(),
            final(self).reparented(old(self)),
            final(self).moved_below(old(self), b.0 as int),
            final(self).tops_kept(old(self)),
            old(self).distinct() ==> final(self).flat(b.0 as int, esc.idx(), up.0 as int),
        decreases 256 - old(self).branching.shift(b.0 as int),
    {
        let ghost nl = self.nl();
        let ghost w = Self::width();
        let ghost s0 = *self;
        let ghost t0 = self.branching;
        let ghost t = self.tree@;
        let ghost bi = b.0 as int;
        let ghost ui = up.0 as int;
        proof {
            assert(t0.rec_ok(bi, nl, w));
            assert(t0.rec_ok(ui, nl, w));
            assert(self.rec_sem(bi));
            assert(self.rec_sem(ui));
        }
        let fan = self.branching.header(b).children();
        let mut i: u16 = 0;
        while i < fan
            invariant
                0 <= i <= fan,
                nl == self.nl(),
                w == Self::width(),
                t == self.tree@,
                bi == b.0,
                ui == up.0,
                self.wf(),
                self.reparented(&s0),
                self.moved_below(&s0, bi),
                self.tops_kept(&s0),
                s0.distinct() ==> self.distinct(),
                s0.distinct() ==> forall|k: int|
                    0 <= k < i ==> #[trigger] self.flat_kid(bi, k, esc.idx(), ui),
                t0 == old(self).branching,
                t0 == s0.branching,
                s0.wf(),
                t0.is_rec(bi),
                t0.is_rec(ui),
                t0.shift(ui) <= t0.shift(bi),
                fan == t0.fan(bi),
                t0.shift(bi) < 256,
                esc.idx() == t0.esc(bi),
                s0.linked_up(bi, ui),
                self.linked_up(bi, ui),
                self.branching.esc(bi) == t0.esc(bi),
                self.branching.shift(bi) == t0.shift(bi),
                self.branching.shift(ui) == t0.shift(ui),
                self.branching.fan(bi) == fan,
            decreases fan - i,
        {
            let ghost s1 = *self;
            proof {
                assert(self.branching.is_rec(bi));
                assert(self.branching.is_rec(ui));
                assert(self.branching.rec_ok(bi, nl, w));
                assert(self.branching.rec_ok(ui, nl, w));
                assert(self.branching.kid_ok(bi, i as int, nl));
                assert(self.rec_sem(bi));
                assert(self.progress@[bi] == self.branching.fan(bi));
                assert(self.cell_ok(bi, i));
            }
            let c = self.branching.child(b, i);
            if c.is_branching() {
                let bb = c.as_branching();
                let ghost bbi = bb.0 as int;
                proof {
                    assert(self.branching.rec_ok(bbi, nl, w));
                    assert(self.rec_sem(bbi));
                    assert(self.branching.rec_ok(0, nl, w));
                }
                let head = self.branching.header(bb);
                if head.escape.0 == esc.0 {
                    proof {
                        self.lemma_skip(bi, ui, i, bbi);
                    }
                    self.branching.set_parent(bb, up, Ghost(nl), Ghost(w));
                    let ghost s2 = *self;
                    proof {
                        assert(s2.reparented(&s1)) by {
                            assert forall|r: int, k: int|
                                s1.branching.is_rec(r) && 0 <= k < s1.branching.fan(
                                    r,
                                ) implies #[trigger] s2.branching.memzone@[Self::slot_of(r, k)]
                                == s1.branching.memzone@[Self::slot_of(r, k)] by {
                                s1.branching.lemma_apart(r, k, bbi, nl, w);
                                s1.branching.lemma_slot_of_child(r, k, nl, w);
                            }
                        }
                        assert(s2.linked_up(bbi, ui)) by {
                            assert(s2.branching.is_rec(bbi));
                            assert(s2.branching.is_rec(ui));
                            assert(s2.branching.memzone@[bbi + 1] == s1.branching.memzone@[bbi + 1]);
                            assert(s2.branching.memzone@[ui + 1] == s1.branching.memzone@[ui + 1]);
                        }
                        assert(s2.chained(bbi));
                        assert forall|r: int| s2.branching.is_rec(r) implies #[trigger] s2.rec_sem(
                            r,
                        ) by {
                            assert(s1.branching.is_rec(r));
                            assert(s1.branching.rec_ok(r, nl, w));
                            if r != bbi && r != 0 {
                                s1.branching.lemma_heads_apart(bbi, r, nl, w);
                                s2.lemma_reparented_chain(&s1, r);
                            }
                            s2.lemma_reparented_rec(&s1, r);
                        }
                        assert forall|j: int| 0 <= j < s2.leaves@.len() implies #[trigger] s2.leaf_matches(
                            j,
                        ) by {
                            assert(s1.leaf_matches(j));
                        }
                        assert(s2.sem());
                        assert(s2.complete()) by {
                            assert forall|r: int| s2.branching.is_rec(r) implies #[trigger] s2.progress@[r]
                                == s2.branching.fan(r) by {
                                assert(s1.branching.is_rec(r));
                                assert(s1.progress@[r] == s1.branching.fan(r));
                                assert(s2.branching.memzone@[r] == s1.branching.memzone@[r]);
                            }
                        }
                        assert(s2.branching.is_rec(0));
                        assert(s2.wf());
                        assert(s2.branching.memzone@[bbi] == s1.branching.memzone@[bbi]);
                        assert forall|x: int|
                            s1.branching.is_rec(x) && x != bbi implies #[trigger] s2.branching.par(
                            x,
                        ) == s1.branching.par(x) by {
                            assert(s1.branching.rec_ok(x, nl, w));
                        }
                        if s0.distinct() {
                            s1.lemma_distinct_same(&s2);
                        }
                        assert(s2.branching.memzone@[bi] == s1.branching.memzone@[bi]);
                        assert(s2.branching.memzone@[ui] == s1.branching.memzone@[ui]);
                        assert(0 <= 256 - s2.branching.shift(bbi) < 256 - t0.shift(bi));
                    }
                    self.skip_redundant_parent(bb, esc, up);
                    proof {
                        self.lemma_reparented_trans(&s2, &s1);
                        s1.lemma_skip_step(&s0, &s2, &*self, bi, i as int);
                        s1.lemma_tops_step(&s0, &s2, &*self, bi, i as int);
                        if s0.distinct() {
                            s1.lemma_distinct_same(&*self);
                            s1.lemma_same_heads(self, bi);
                            s1.lemma_same_heads(self, bbi);
                            s1.lemma_same_kid(&*self, bi, i as int);
                            assert(self.flat_kid(bi, i as int, esc.idx(), ui));
                            s1.lemma_flat_next(&*self, bi, i as int, esc.idx(), ui);
                        }
                    }
                } else {
                    proof {
                        assert(self.branching.is_rec(head.parent.0 as int));
                        assert(self.chained(bbi));
                        assert(0 <= 256 - self.branching.shift(bbi) < 256 - t0.shift(bi));
                    }
                    self.skip_redundant_parent(bb, head.escape, head.parent);
                    proof {
                        s1.lemma_skip_step(&s0, &s1, &*self, bi, i as int);
                        s1.lemma_tops_step(&s0, &s1, &*self, bi, i as int);
                        if s0.distinct() {
                            s1.lemma_distinct_same(&*self);
                            s1.lemma_same_heads(self, bi);
                            s1.lemma_same_heads(self, bbi);
                            s1.lemma_same_kid(&*self, bi, i as int);
                            assert(self.flat_kid(bi, i as int, esc.idx(), ui));
                            s1.lemma_flat_next(&*self, bi, i as int, esc.idx(), ui);
                        }
                    }
                }
                proof {
                    assert(self.reparented(&s1) || *self == s1);
                    assert(s1.reparented(&s0) || s1 == s0);
                    self.lemma_reparented_trans(&s1, &s0);
                    assert(self.branching.is_rec(bi));
                    assert(self.branching.is_rec(ui));
                    s0.lemma_same_heads(self, bi);
                    s0.lemma_same_heads(self, ui);
                }
            } else {
                proof {
                    assert(self.flat_kid(bi, i as int, esc.idx(), ui));
                }
            }
            i += 1;
        }
        proof {
            if s0.distinct() {
                self.lemma_flat_close(bi, esc.idx(), ui);
            }
        }
    }

    /// The headers of a record are the same, but for the parent, in a trie
    /// that differs by parents only.
    pub proof fn lemma_same_heads(&self, after: &Self, r: int)
        requires
            after.reparented(self),
            self.branching.is_rec(r),
        ensures
            after.branching.is_rec(r),
            after.branching.shift(r) == self.branching.shift(r),
            after.branching.size(r) == self.branching.size(r),
            after.branching.fan(r) == self.branching.fan(r),
            after.branching.esc(r) == self.branching.esc(r),
            after.rb(r) == self.rb(r),
    {
        assert(after.branching.is_rec(r));
        assert(after.branching.memzone@[r] == self.branching.memzone@[r]);
    }

    /// Tries that differ by parents only, in turn, differ by parents only.
    pub proof fn lemma_reparented_trans(&self, mid: &Self, before: &Self)
        requires
            self.reparented(mid) || *self == *mid,
            mid.reparented(before) || *mid == *before,
        ensures
            self.reparented(before) || *self == *before,
    {
        if *self != *mid && *mid != *before {
            assert forall|r: int| before.branching.is_rec(r) implies #[trigger] self.branching.is_rec(
                r,
            ) && self.branching.memzone@[r] == before.branching.memzone@[r]
                && self.branching.memzone@[r + 1] == before.branching.memzone@[r + 1] by {
                assert(mid.branching.is_rec(r));
                assert(mid.branching.memzone@[r] == before.branching.memzone@[r]);
                assert(self.branching.is_rec(r));
            }
            assert forall|r: int, k: int|
                before.branching.is_rec(r) && 0 <= k < before.branching.fan(
                    r,
                ) implies #[trigger] self.branching.memzone@[Self::slot_of(r, k)]
                == before.branching.memzone@[Self::slot_of(r, k)] by {
                assert(mid.branching.is_rec(r));
                assert(mid.branching.memzone@[r] == before.branching.memzone@[r]);
                assert(mid.branching.memzone@[Self::slot_of(r, k)]
                    == before.branching.memzone@[Self::slot_of(r, k)]);
            }
        }
    }

    /// A child that has the escape of the record at `b` can take the place of
    /// `b` on the way up to `up`: the branchings between what `up` was made
    /// of and what the child was made of have the escape of the child or
    /// that of `up`.
    pub proof fn lemma_skip(&self, b: int, up: int, k: u16, bb: int)
        requires
            self.wf(),
            self.branching.is_rec(b),
            self.branching.is_rec(up),
            self.branching.is_rec(bb),
            0 <= k < self.branching.fan(b),
            self.branching.kid(b, k as int) == NodeIndex(bb as i32),
            self.branching.esc(bb) == self.branching.esc(b),
            self.linked_up(b, up),
        ensures
            self.linked_up(bb, up),
            bb != up,
            bb != 0,
            self.branching.shift(up) < self.branching.shift(bb),
    {
        let t = self.tree@;
        let nl = self.nl();
        let w = Self::width();
        assert(self.rec_sem(b));
        assert(self.rec_sem(bb));
        assert(self.rec_sem(up));
        assert(self.branching.rec_ok(b, nl, w));
        assert(self.branching.kid_ok(b, k as int, nl));
        assert(self.progress@[b] == self.branching.fan(b));
        assert(self.cell_ok(b, k));
        let cell = self.cell(b, k);
        let rc = self.rb(bb);
        let pr = t.par(rc);
        cell.lemma_has(&t, pr);
        assert(t.node_ok(rc));
        t.lemma_above_step(self.rb(b), rc);
        if b != up {
            t.lemma_above_trans(self.rb(up), self.rb(b), rc);
            t.lemma_above(self.rb(up), self.rb(b));
        }
        t.lemma_above(self.rb(b), rc);
        assert(t.above(self.rb(up), rc));
        assert forall|m: int|
            t.upward(m, rc) && t.bit(m) > t.bit(self.rb(up)) implies #[trigger] t.esc(m)
            == self.branching.esc(bb) || t.esc(m) == self.branching.esc(up) by {
            if m != rc {
                assert(t.upward(m, pr));
                if t.bit(m) >= t.bit(self.rb(b)) {
                    cell.lemma_has_above(&t, pr, m);
                    cell.lemma_has(&t, m);
                } else {
                    t.lemma_upward_order(pr, m, self.rb(b));
                }
            }
        }
        t.lemma_above(self.rb(up), rc);
    }

    /// The compression of a radix trie: the leaves are those of the radix
    /// trie, as they are.
    pub fn new(trie: RadixTrie<K, V>) -> (r: Self)
        requires
            trie.wf(),
            5 * trie.branching.len() <= INDEX_MAX,
        ensures
            r.wf(),
            r.leaves == trie.leaves,
            r.tree@ == trie.branching,
            r.distinct(),
            r.flat(0, 0, 0),
    {
        let count = trie.branching.count();
        let RadixTrie { branching: tree, leaves } = trie;
        let ghost none = Seq::<int>::empty();
        let mut lctrie = Self {
            branching: CompressedTree::with_capacity(count),
            leaves,
            tree: Ghost(tree),
            origin: Ghost(none),
            progress: Ghost(none),
        };
        let mut done: Vec<Option<BranchingIndex>> = Vec::new();
        let mut i: usize = 0;
        while i < count
            invariant
                0 <= i <= count,
                done@.len() == i,
                forall|j: int| 0 <= j < i ==> (#[trigger] done@[j]).is_none(),
            decreases count - i,
        {
            done.push(None);
            i += 1;
        }
        let mut pending: usize = count;
        proof {
            lemma_count_all_none(done@);
            K::Slot::lemma_bit_range(trie.branching.path(0), 0);
            assert(trie.leaf_matches(0));
            assert forall|j: int| 0 <= j < lctrie.leaves@.len() implies (
            #[trigger] lctrie.leaves@[j]).prefix.valid() by {
                assert(trie.leaf_matches(j));
            }
            assert forall|j: int| 0 <= j < lctrie.leaves@.len() implies #[trigger] lctrie.leaf_matches(
                j,
            ) by {
                assert(trie.leaf_matches(j));
            }
            assert(lctrie.branching.packed());
            assert(lctrie.sem());
        }
        lctrie.compress(
            &tree,
            BranchingIndex::root(),
            BranchingIndex::root(),
            &mut done,
            0,
            &mut pending,
            Ghost(0u16),
        );
        let ghost built = lctrie;
        proof {
            assert(lctrie.branching.rec_ok(0, lctrie.nl(), Self::width()));
            assert forall|r1: int, r2: int|
                #![trigger lctrie.branching.is_rec(r1), lctrie.branching.is_rec(r2)]
                lctrie.branching.is_rec(r1) && lctrie.branching.is_rec(r2) && lctrie.rb(r1)
                    == lctrie.rb(r2) implies r1 == r2 by {
                assert(lctrie.marked(done@, r1));
                assert(lctrie.marked(done@, r2));
            }
        }
        lctrie.skip_redundant_parent(
            BranchingIndex::root(),
            LeafIndex::root_leaf(),
            BranchingIndex::root(),
        );
        proof {
            built.lemma_distinct_same(&lctrie);
        }
        lctrie
    }

    /// Leaf `l` is the longest prefix match of `q`: it covers `q`, and no leaf
    /// that covers `q` is longer.
    pub open spec fn is_lpm<Q: IpPrefix>(&self, l: int, q: Q) -> bool {
        &&& 0 <= l < self.leaves@.len()
        &&& self.covers(l, q)
        &&& forall|j: int|
            0 <= j < self.leaves@.len() && #[trigger] self.covers(j, q)
                ==> self.leaves@[j].prefix.spec_len() <= self.leaves@[l].prefix.spec_len()
    }

    /// The trie holds a prefix that denotes the same range as `q`.
    pub open spec fn present<Q: IpPrefix>(&self, q: Q) -> bool {
        exists|j: int| 0 <= j < self.leaves@.len() && #[trigger] self.holds(j, q)
    }

    /// A leaf that covers a range whose slot has the letter of a cell has
    /// the bits of the letter.
    pub proof fn lemma_covered_compat<B: BitSlot>(&self, cell: Cell, j: int, s: B, lq: int)
        requires
            cell.reads(s),
            0 <= cell.shift,
            self.tree@.covered(j, s, lq),
        ensures
            cell.compat(&self.tree@, j),
    {
        let t = self.tree@;
        assert forall|d: int|
            #![trigger lbit(cell.letter, cell.size, d)]
            1 <= d <= cell.size && cell.shift + d <= t.plen(j) implies t.pslot(j).bit(
            cell.shift + d,
        ) == lbit(cell.letter, cell.size, d) by {
            assert(lbit(cell.letter, cell.size, d) == s.bit(cell.shift + d));
        }
    }

    /// The leaf of a cell, where it covers the range, ends a walk in the
    /// radix trie that has passed no leaf that covers the range.
    pub proof fn lemma_cell_walk<B: BitSlot>(&self, cell: Cell, n0: int, l: int, s: B, lq: int)
        requires
            self.tree@.inv(),
            0 <= cell.top < self.tree@.len(),
            cell.shift == self.tree@.bit(cell.top) - 1,
            1 <= cell.size,
            cell.reads(s),
            self.tree@.on_trail(s, cell.top),
            cell.has(&self.tree@, n0),
            self.tree@.kid(n0, cell.side(&self.tree@, n0)).0 < 0,
            cell.settled(&self.tree@, n0, l),
            l != self.tree@.esc(cell.top),
            self.tree@.covered(l, s, lq),
        ensures
            exists|n: int| self.tree@.walked(s, lq, n0, n, l),
    {
        let t = self.tree@;
        assert(t.node_ok(cell.top));
        cell.lemma_on_trail(&t, n0, s);
        cell.lemma_has(&t, n0);
        let l0 = -1 - t.kid(n0, cell.side(&t, n0)).0;
        assert(t.next(n0, s) == t.kid(n0, cell.side(&t, n0)));
        if l == l0 {
            assert(t.walked(s, lq, n0, n0, l));
        } else {
            let a = choose|a: int|
                {
                    &&& #[trigger] t.upward(a, n0)
                    &&& l == t.esc(a)
                    &&& !cell.compat(&t, l0)
                    &&& forall|m: int|
                        t.upward(m, n0) && t.bit(m) > t.bit(a) ==> !cell.compat(
                            &t,
                            #[trigger] t.esc(m),
                        )
                };
            if t.covered(l0, s, lq) {
                self.lemma_covered_compat(cell, l0, s, lq);
            }
            assert forall|m: int| t.upward(m, n0) && t.bit(m) > t.bit(a) implies !t.covered(
                #[trigger] t.esc(m),
                s,
                lq,
            ) || t.esc(m) == l by {
                if t.covered(t.esc(m), s, lq) {
                    self.lemma_covered_compat(cell, t.esc(m), s, lq);
                }
            }
            assert(t.walked(s, lq, n0, a, l));
        }
    }

    /// The escape of the record of a cell starts a walk upwards in the radix
    /// trie, where the leaf of the cell does not cover the range or is that
    /// escape: no leaf passed covers the range.
    pub proof fn lemma_cell_start<B: BitSlot>(&self, cell: Cell, n0: int, l: int, s: B, lq: int)
        requires
            self.tree@.inv(),
            0 <= cell.top < self.tree@.len(),
            cell.shift == self.tree@.bit(cell.top) - 1,
            1 <= cell.size,
            cell.reads(s),
            self.tree@.on_trail(s, cell.top),
            cell.has(&self.tree@, n0),
            self.tree@.kid(n0, cell.side(&self.tree@, n0)).0 < 0,
            cell.settled(&self.tree@, n0, l),
            l == self.tree@.esc(cell.top) || !self.tree@.covered(l, s, lq),
        ensures
            self.tree@.walked(s, lq, n0, cell.top, self.tree@.esc(cell.top)),
    {
        let t = self.tree@;
        let e = t.esc(cell.top);
        assert(t.node_ok(cell.top));
        cell.lemma_on_trail(&t, n0, s);
        cell.lemma_has(&t, n0);
        let l0 = -1 - t.kid(n0, cell.side(&t, n0)).0;
        assert(t.next(n0, s) == t.kid(n0, cell.side(&t, n0)));
        if l0 != t.esc(n0) && t.covered(l0, s, lq) {
            self.lemma_covered_compat(cell, l0, s, lq);
            assert(l == l0);
        }
        assert forall|m: int| t.upward(m, n0) && t.bit(m) > t.bit(cell.top) implies !t.covered(
            #[trigger] t.esc(m),
            s,
            lq,
        ) || t.esc(m) == e by {
            t.lemma_above(m, n0);
            cell.lemma_has_above(&t, n0, m);
            cell.lemma_has(&t, m);
        }
    }

    /// One step of the walk upwards, from a record whose escape does not
    /// cover the range to its parent.
    pub proof fn lemma_up_step<B: BitSlot>(&self, b: int, n0: int, s: B, lq: int)
        requires
            self.wf(),
            self.branching.is_rec(b),
            b != 0,
            self.tree@.walked(s, lq, n0, self.rb(b), self.branching.esc(b)),
            !self.tree@.covered(self.branching.esc(b), s, lq),
        ensures
            self.tree@.walked(
                s,
                lq,
                n0,
                self.rb(self.branching.par(b)),
                self.branching.esc(self.branching.par(b)),
            ),
    {
        let t = self.tree@;
        let nl = self.nl();
        let w = Self::width();
        let pb = self.branching.par(b);
        assert(self.rec_sem(b));
        assert(self.branching.rec_ok(b, nl, w));
        assert(self.rec_sem(pb));
        let r = self.rb(b);
        let rp = self.rb(pb);
        t.lemma_above(r, n0);
        t.lemma_above(rp, r);
        if r != n0 {
            t.lemma_above_trans(rp, r, n0);
        }
        assert(t.upward(rp, n0));
        let deepest = -1 - t.next(n0, s).0;
        assert(t.node_ok(n0));
        assert(t.kid_ok(n0, t.side(n0, s)));
        assert forall|m: int| t.upward(m, n0) && t.bit(m) > t.bit(rp) implies !t.covered(
            #[trigger] t.esc(m),
            s,
            lq,
        ) || t.esc(m) == self.branching.esc(pb) by {
            if t.bit(m) <= t.bit(r) {
                t.lemma_above(m, n0);
                if t.bit(m) < t.bit(r) {
                    t.lemma_upward_order(n0, m, r);
                } else if m != r {
                    assert(t.node_ok(r));
                    assert(t.node_ok(0));
                    t.lemma_between(n0, r, m);
                }
                assert(t.upward(m, r));
            }
        }
        if self.branching.esc(pb) == deepest && deepest != t.esc(n0) && rp == n0 {
            assert(t.node_ok(rp));
            t.lemma_above(rp, r);
        }
    }

    /// The leaf of the longest prefix match of `k`: go down by the letters
    /// of `k` to a leaf; where that leaf does not cover `k`, go up from
    /// escape to escape to the first that does.
    pub fn inner_lookup<Q>(&self, k: &Q) -> (r: LeafIndex) where
        Q: IpPrefix<Addr = K::Addr>,
        K: IpPrefixCovering<Q>,

        requires
            self.wf(),
        ensures
            r.0 < 0,
            self.is_lpm(r.idx(), *k),
    {
        let ghost nl = self.nl();
        let ghost w = Self::width();
        let ghost t = self.tree@;
        let ghost lq = k.spec_len() as int;
        let slot = k.bitslot();
        let mut b = BranchingIndex::root();
        let mut l = LeafIndex::root_leaf();
        let ghost mut cell = self.cell(0, 0);
        proof {
            assert forall|j: int|
                #![trigger self.covers(j, *k)]
                #![trigger t.covered(j, slot, lq)]
                0 <= j < nl implies (self.covers(j, *k) <==> t.covered(j, slot, lq)) by {
                assert(self.leaf_matches(j));
            }
            assert(self.rec_sem(0));
        }
        loop
            invariant
                self.wf(),
                nl == self.nl(),
                w == Self::width(),
                t == self.tree@,
                self.branching.is_rec(b.0 as int),
                t.on_trail(slot, self.rb(b.0 as int)),
            ensures
                self.branching.is_rec(b.0 as int),
                l.0 < 0,
                0 <= l.idx() < nl,
                t.on_trail(slot, self.rb(b.0 as int)),
                cell == self.cell(b.0 as int, cell.letter),
                cell.letter < self.branching.fan(b.0 as int),
                cell.reads(slot),
                self.branching.kid(b.0 as int, cell.letter as int) == NodeIndex(l.0),
            decreases 256 - self.branching.shift(b.0 as int),
        {
            let ghost bi = b.0 as int;
            proof {
                assert(self.branching.rec_ok(bi, nl, w));
                assert(self.rec_sem(bi));
            }
            let head = self.branching.header(b);
            let letter = head.letter(&slot);
            proof {
                assert(self.branching.kid_ok(bi, letter as int, nl));
                assert(self.progress@[bi] == self.branching.fan(bi));
                assert(self.cell_ok(bi, letter));
                cell = self.cell(bi, letter);
                assert(cell.reads(slot));
            }
            let n = self.branching.child(b, letter);
            if n.is_branching() {
                proof {
                    let rc = self.rb(n.0 as int);
                    let pr = t.par(rc);
                    cell.lemma_on_trail(&t, pr, slot);
                    assert(t.node_ok(rc));
                    assert(t.next(pr, slot) == NodeIndex(rc as i32));
                    assert(t.on_trail(slot, rc));
                }
                b = n.as_branching();
            } else {
                l = n.as_leaf();
                break ;
            }
        }
        let ghost bi = b.0 as int;
        let ghost n0: int = 0;
        proof {
            assert(self.branching.rec_ok(bi, nl, w));
            assert(self.rec_sem(bi));
            assert(self.progress@[bi] == self.branching.fan(bi));
            assert(self.cell_ok(bi, cell.letter));
            n0 = choose|n0: int|
                {
                    &&& #[trigger] cell.has(&t, n0)
                    &&& t.kid(n0, cell.side(&t, n0)).0 < 0
                    &&& cell.settled(&t, n0, l.idx())
                };
        }
        let mut head = self.branching.header(b);
        if l.0 != head.escape.0 {
            if self.leaves.at(l).prefix.covers(k) {
                proof {
                    self.lemma_cell_walk(cell, n0, l.idx(), slot, lq);
                    let n = choose|n: int| t.walked(slot, lq, n0, n, l.idx());
                    assert forall|j: int| 0 <= j < nl && #[trigger] self.covers(j, *k) implies self.leaves@[j].prefix.spec_len()
                        <= self.leaves@[l.idx()].prefix.spec_len() by {
                        t.lemma_lookup_max(slot, lq, n0, n, l.idx(), j);
                        assert(self.leaf_matches(j));
                        assert(self.leaf_matches(l.idx()));
                    }
                }
                return l;
            }
        }
        proof {
            self.lemma_cell_start(cell, n0, l.idx(), slot, lq);
        }
        l = head.escape;
        while !self.leaves.at(l).prefix.covers(k)
            invariant
                self.wf(),
                nl == self.nl(),
                w == Self::width(),
                t == self.tree@,
                lq == k.spec_len(),
                self.branching.is_rec(b.0 as int),
                head.parent.0 == self.branching.par(b.0 as int),
                l.0 < 0,
                l.idx() == self.branching.esc(b.0 as int),
                0 <= l.idx() < nl,
                t.walked(slot, lq, n0, self.rb(b.0 as int), l.idx()),
                forall|j: int|
                    #![trigger self.covers(j, *k)]
                    #![trigger t.covered(j, slot, lq)]
                    0 <= j < nl ==> (self.covers(j, *k) <==> t.covered(j, slot, lq)),
            decreases self.branching.shift(b.0 as int),
        {
            proof {
                assert(self.branching.rec_ok(b.0 as int, nl, w));
                assert(self.branching.rec_ok(0, nl, w));
                assert(self.leaf_matches(0));
                assert(self.covers(0, *k));
                assert(self.branching.rec_ok(self.branching.par(b.0 as int), nl, w));
                self.lemma_up_step(b.0 as int, n0, slot, lq);
            }
            b = head.parent;
            head = self.branching.header(b);
            l = head.escape;
        }
        proof {
            assert forall|j: int| 0 <= j < nl && #[trigger] self.covers(j, *k) implies self.leaves@[j].prefix.spec_len()
                <= self.leaves@[l.idx()].prefix.spec_len() by {
                t.lemma_lookup_max(slot, lq, n0, self.rb(b.0 as int), l.idx(), j);
                assert(self.leaf_matches(j));
                assert(self.leaf_matches(l.idx()));
            }
        }
        l
    }

    /// The longest prefix that covers `k`, and its value.
    pub fn lookup<Q>(&self, k: &Q) -> (r: (&K, &V)) where
        Q: IpPrefix<Addr = K::Addr>,
        K: IpPrefixCovering<Q>,

        requires
            self.wf(),
        ensures
            exists|l: int|
                self.is_lpm(l, *k) && *r.0 == (#[trigger] self.leaves@[l]).prefix && *r.1
                    == self.leaves@[l].value,
    {
        let l = self.inner_lookup(k);
        self.leaves.at(l).get()
    }

    /// The longest prefix that covers `k`, and its value, which can be changed.
    pub fn lookup_mut<Q>(&mut self, k: &Q) -> (r: (&K, &mut V)) where
        Q: IpPrefix<Addr = K::Addr>,
        K: IpPrefixCovering<Q>,

        requires
            old(self).wf(),
        ensures
            exists|l: int|
                old(self).is_lpm(l, *k) && *r.0 == (#[trigger] old(self).leaves@[l]).prefix
                    && *r.1 == old(self).leaves@[l].value && final(self).leaves@ == old(
                    self,
                ).leaves@.update(l, Leaf { prefix: old(self).leaves@[l].prefix, value: *final(r.1) }),
            final(self).branching == old(self).branching,
            final(self).tree == old(self).tree,
            final(self).origin == old(self).origin,
            final(self).progress == old(self).progress,
    {
        let l = self.inner_lookup(k);
        self.leaves.at_mut(l).get_mut()
    }

    /// The value of the prefix that denotes the same range as `k`, if the
    /// trie holds one.
    pub fn get<Q>(&self, k: &Q) -> (r: Option<&V>) where
        Q: IpPrefix<Addr = K::Addr>,
        K: IpPrefixCovering<Q>,

        requires
            self.wf(),
        ensures
            r.is_some() <==> self.present(*k),
            r matches Some(v) ==> exists|j: int|
                0 <= j < self.leaves@.len() && #[trigger] self.holds(j, *k) && *v
                    == self.leaves@[j].value,
    {
        let l = self.inner_lookup(k);
        proof {
            assert forall|j: int|
                0 <= j < self.leaves@.len() && #[trigger] self.holds(j, *k) implies self.holds(
                l.idx(),
                *k,
            ) by {
                assert(self.covers(j, *k));
            }
        }
        if k.len() == self.leaves.at(l).prefix.len() {
            assert(self.holds(l.idx(), *k));
            Some(self.leaves.at(l).get().1)
        } else {
            None
        }
    }

    /// The value, which can be changed, of the prefix that denotes the same
    /// range as `k`, if the trie holds one.
    pub fn get_mut<Q>(&mut self, k: &Q) -> (r: Option<&mut V>) where
        Q: IpPrefix<Addr = K::Addr>,
        K: IpPrefixCovering<Q>,

        requires
            old(self).wf(),
        ensures
            r.is_some() <==> old(self).present(*k),
            r matches Some(v) ==> exists|j: int|
                0 <= j < old(self).leaves@.len() && #[trigger] old(self).holds(j, *k) && *v == old(
                    self,
                ).leaves@[j].value && final(self).leaves@ == old(self).leaves@.update(
                    j,
                    Leaf { prefix: old(self).leaves@[j].prefix, value: *final(v) },
                ),
            r.is_none() ==> final(self).leaves@ == old(self).leaves@,
            final(self).branching == old(self).branching,
            final(self).tree == old(self).tree,
            final(self).origin == old(self).origin,
            final(self).progress == old(self).progress,
    {
        let l = self.inner_lookup(k);
        proof {
            assert forall|j: int|
                0 <= j < self.leaves@.len() && #[trigger] self.holds(j, *k) implies self.holds(
                l.idx(),
                *k,
            ) by {
                assert(self.covers(j, *k));
            }
        }
        if k.len() == self.leaves.at(l).prefix.len() {
            assert(self.holds(l.idx(), *k));
            Some(self.leaves.at_mut(l).get_mut().1)
        } else {
            None
        }
    }

    /// No two leaves denote the same range.
    pub proof fn lemma_leaves_apart(&self, j1: int, j2: int)
        requires
            self.wf(),
            0 <= j1 < self.leaves@.len(),
            0 <= j2 < self.leaves@.len(),
            j1 != j2,
        ensures
            coverage(self.leaves@[j1].prefix, self.leaves@[j2].prefix)
                != IpPrefixCoverage::SameRange,
    {
        let t = self.tree@;
        assert(self.leaf_matches(j1));
        assert(self.leaf_matches(j2));
        if j1 < j2 {
            assert(!t.same_range(j1, j2));
        } else {
            assert(!t.same_range(j2, j1));
        }
    }

    /// The longest prefix match is one leaf.
    pub proof fn lemma_lpm_unique<Q: IpPrefix>(&self, q: Q, l1: int, l2: int)
        requires
            self.wf(),
            self.is_lpm(l1, q),
            self.is_lpm(l2, q),
        ensures
            l1 == l2,
    {
        if l1 != l2 {
            self.lemma_leaves_apart(l1, l2);
            let a = self.leaves@[l1];
            let b = self.leaves@[l2];
            assert(a.prefix.spec_len() == b.prefix.spec_len());
            assert(coverage(a.prefix, b.prefix) == IpPrefixCoverage::SameRange);
        }
    }

    /// Compression keeps the longest prefix match: the leaf that a lookup
    /// finds in the compression of a radix trie is the leaf that a lookup
    /// finds in the radix trie.
    pub proof fn lemma_same_as_radix<Q: IpPrefix>(&self, radix: &RadixTrie<K, V>, q: Q, l1: int, l2: int)
        requires
            radix.wf(),
            self.wf(),
            self.leaves == radix.leaves,
            radix.is_lpm(l1, q),
            self.is_lpm(l2, q),
        ensures
            l1 == l2,
    {
        assert forall|j: int| 0 <= j < self.leaves@.len() implies (#[trigger] self.covers(j, q)
            == radix.covers(j, q)) by {}
        assert(self.is_lpm(l1, q)) by {
            assert forall|j: int|
                0 <= j < self.leaves@.len() && #[trigger] self.covers(j, q) implies self.leaves@[j].prefix.spec_len()
                <= self.leaves@[l1].prefix.spec_len() by {
                assert(radix.covers(j, q));
            }
        }
        self.lemma_lpm_unique(q, l1, l2);
    }

    /// Two compressions with the same leaves find the same leaf for every lookup.
    pub proof fn lemma_same_answers<Q: IpPrefix>(&self, other: &Self, q: Q, l1: int, l2: int)
        requires
            self.wf(),
            other.wf(),
            self.leaves == other.leaves,
            self.is_lpm(l1, q),
            other.is_lpm(l2, q),
        ensures
            l1 == l2,
    {
        assert forall|j: int| 0 <= j < self.leaves@.len() implies (#[trigger] self.covers(j, q)
            == other.covers(j, q)) by {}
        assert(self.is_lpm(l2, q)) by {
            assert forall|j: int|
                0 <= j < self.leaves@.len() && #[trigger] self.covers(j, q) implies self.leaves@[j].prefix.spec_len()
                <= self.leaves@[l2].prefix.spec_len() by {
                assert(other.covers(j, q));
            }
        }
        self.lemma_lpm_unique(q, l1, l2);
    }

    /// The trie keeps its invariant when values change and prefixes stay.
    pub proof fn lemma_values_free<W>(&self, t: &LevelCompressedTrie<K, W>)
        requires
            self.wf(),
            t.branching == self.branching,
            t.tree == self.tree,
            t.origin == self.origin,
            t.progress == self.progress,
            t.leaves@.len() == self.leaves@.len(),
            forall|j: int|
                0 <= j < self.leaves@.len() ==> (#[trigger] t.leaves@[j]).prefix
                    == self.leaves@[j].prefix,
        ensures
            t.wf(),
    {
        assert forall|j: int| 0 <= j < t.leaves@.len() implies (#[trigger] t.leaves@[j]).prefix.valid() by {
            assert(self.leaves@[j].prefix.valid());
        }
        assert forall|j: int| 0 <= j < t.leaves@.len() implies #[trigger] t.leaf_matches(j) by {
            assert(self.leaf_matches(j));
        }
        assert forall|b: int| t.branching.is_rec(b) implies #[trigger] t.rec_sem(b) by {
            assert(self.rec_sem(b));
            assert forall|k: u16| 0 <= k < t.progress@[b] implies #[trigger] t.cell_ok(b, k) by {
                assert(self.cell_ok(b, k));
                assert(t.cell(b, k) == self.cell(b, k));
            }
        }
        assert forall|b: int| t.branching.is_rec(b) implies #[trigger] t.progress@[b]
            == t.branching.fan(b) by {
            assert(self.progress@[b] == self.branching.fan(b));
        }
    }

    /// A trie with the same prefixes, laid out in the same way, whose values
    /// are those that `f` gives for the values of this trie.
    pub fn map<W, F: Fn(&V) -> W>(&self, f: F) -> (r: LevelCompressedTrie<K, W>)
        requires
            self.wf(),
            forall|j: int|
                0 <= j < self.leaves@.len() ==> f.requires((&(#[trigger] self.leaves@[j]).value,)),
        ensures
            r.wf(),
            r.branching.memzone@ == self.branching.memzone@,
            r.leaves@.len() == self.leaves@.len(),
            forall|j: int|
                0 <= j < self.leaves@.len() ==> (#[trigger] r.leaves@[j]).prefix
                    == self.leaves@[j].prefix && f.ensures(
                    (&self.leaves@[j].value,),
                    r.leaves@[j].value,
                ),
    {
        let n = self.leaves.len();
        let mut leaves: Vec<Leaf<K, W>> = Vec::with_capacity(n);
        let mut j: usize = 0;
        while j < n
            invariant
                0 <= j <= n,
                n == self.leaves@.len(),
                leaves@.len() == j,
                forall|i: int|
                    0 <= i < self.leaves@.len() ==> f.requires(
                        (&(#[trigger] self.leaves@[i]).value,),
                    ),
                forall|i: int|
                    0 <= i < j ==> (#[trigger] leaves@[i]).prefix == self.leaves@[i].prefix
                        && f.ensures((&self.leaves@[i].value,), leaves@[i].value),
            decreases n - j,
        {
            let leaf = &self.leaves.0[j];
            assert(*leaf == self.leaves@[j as int]);
            let w = f(&leaf.value);
            leaves.push(Leaf::new(leaf.prefix, w));
            j += 1;
        }
        let m = self.branching.memzone.len();
        let mut memzone: Vec<NodeIndex> = Vec::with_capacity(m);
        let mut i: usize = 0;
        while i < m
            invariant
                0 <= i <= m,
                m == self.branching.memzone@.len(),
                memzone@ == self.branching.memzone@.subrange(0, i as int),
            decreases m - i,
        {
            memzone.push(self.branching.memzone[i]);
            assert(memzone@ =~= self.branching.memzone@.subrange(0, i + 1));
            i += 1;
        }
        assert(memzone@ =~= self.branching.memzone@);
        let r = LevelCompressedTrie {
            branching: CompressedTree { memzone, starts: self.branching.starts },
            leaves: TrieLeaves(leaves),
            tree: self.tree,
            origin: self.origin,
            progress: self.progress,
        };
        proof {
            let nl = self.nl();
            let w = Self::width();
            let same = LevelCompressedTrie::<K, W> {
                branching: self.branching,
                leaves: r.leaves,
                tree: self.tree,
                origin: self.origin,
                progress: self.progress,
            };
            self.lemma_values_free(&same);
            assert forall|j: int| 0 <= j < r.leaves@.len() implies #[trigger] r.leaf_matches(j) by {
                assert(same.leaf_matches(j));
            }
            assert forall|j: int| 0 <= j < r.leaves@.len() implies (#[trigger] r.leaves@[j]).prefix.valid() by {
                assert(self.leaves@[j].prefix.valid());
            }
            assert forall|b: int| r.branching.is_rec(b) implies #[trigger] r.branching.rec_ok(
                b,
                nl,
                w,
            ) by {
                assert(self.branching.is_rec(b));
                assert(self.branching.rec_ok(b, nl, w));
                assert forall|k: int| 0 <= k < r.branching.fan(b) implies #[trigger] r.branching.kid_ok(
                    b,
                    k,
                    nl,
                ) by {
                    assert(self.branching.kid_ok(b, k, nl));
                }
            }
            assert forall|b: int, c: int|
                #![trigger r.branching.is_rec(b), r.branching.is_rec(c)]
                r.branching.is_rec(b) && r.branching.is_rec(c) && b < c implies b + 3
                + r.branching.fan(b) <= c by {
                assert(self.branching.is_rec(b) && self.branching.is_rec(c));
            }
            assert forall|b: int| r.branching.is_rec(b) implies #[trigger] r.branching.end(b)
                == r.branching.len() || r.branching.is_rec(r.branching.end(b)) by {
                assert(self.branching.is_rec(b));
                assert(self.branching.end(b) == self.branching.len() || self.branching.is_rec(
                    self.branching.end(b),
                ));
            }
            assert forall|b: int| r.branching.is_rec(b) implies #[trigger] r.rec_sem(b) by {
                assert(same.rec_sem(b));
                assert(self.branching.is_rec(b));
                assert(self.branching.rec_ok(b, nl, w));
                assert forall|k: u16| 0 <= k < r.progress@[b] implies #[trigger] r.cell_ok(b, k) by {
                    assert(same.cell_ok(b, k));
                    assert(self.branching.kid_ok(b, k as int, nl));
                    assert(r.cell(b, k) == same.cell(b, k));
                }
                let pb = self.branching.par(b);
                assert(self.branching.is_rec(pb));
                assert(self.branching.rec_ok(pb, nl, w));
            }
            assert forall|b: int| r.branching.is_rec(b) implies #[trigger] r.progress@[b]
                == r.branching.fan(b) by {
                assert(same.progress@[b] == same.branching.fan(b));
            }
        }
        r
    }

    /// The leaves, in the order of the arena: the root leaf first.
    pub fn iter(&self) -> (r: Vec<&Leaf<K, V>>)
        ensures
            r@.len() == self.leaves@.len(),
            forall|j: int| 0 <= j < r@.len() ==> *(#[trigger] r@[j]) == self.leaves@[j],
    {
        let mut out: Vec<&Leaf<K, V>> = Vec::new();
        let n = self.leaves.len();
        let mut j: usize = 0;
        while j < n
            invariant
                0 <= j <= n,
                n == self.leaves@.len(),
                out@.len() == j,
                forall|i: int| 0 <= i < j ==> *(#[trigger] out@[i]) == self.leaves@[i],
            decreases n - j,
        {
            out.push(&self.leaves.0[j]);
            j += 1;
        }
        out
    }
}

impl<K: IpPrefix, V> LevelCompressedTrie<K, V> {
    /// Gives each leaf the value that `f` returns for its prefix and its
    /// value.  The prefixes and the branchings stay as they are.
    pub fn iter_mut<F: Fn(&K, &V) -> V>(&mut self, f: &F)
        requires
            old(self).wf(),
            forall|j: int|
                0 <= j < old(self).leaves@.len() ==> f.requires(
                    (&(#[trigger] old(self).leaves@[j]).prefix, &old(self).leaves@[j].value),
                ),
        ensures
            final(self).wf(),
            final(self).branching == old(self).branching,
            final(self).tree == old(self).tree,
            final(self).leaves@.len() == old(self).leaves@.len(),
            forall|j: int|
                0 <= j < old(self).leaves@.len() ==> (#[trigger] final(self).leaves@[j]).prefix
                    == old(self).leaves@[j].prefix && f.ensures(
                    (&old(self).leaves@[j].prefix, &old(self).leaves@[j].value),
                    final(self).leaves@[j].value,
                ),
    {
        self.leaves.update_values(f);
        proof {
            old(self).lemma_values_free(&*self);
        }
    }
}

} // verus!
