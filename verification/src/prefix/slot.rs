//! Fixed-width bit slots, addressed by 1-based position from the most significant bit.
use vstd::prelude::*;

verus! {

/// A fixed-width slot of bits.
///
/// Positions are 1-based and start at the most significant bit.  Every
/// contract of this trait is stated over `bit`, the value of one position;
/// positions outside `1..=width()` read as `false`, so a narrow slot behaves
/// as if it were extended with zeros on the right.
pub trait BitSlot: Sized + Copy {
    /// Number of bits of the slot.
    spec fn width() -> nat;

    /// The bit at position `pos`.
    spec fn bit(&self, pos: int) -> bool;

    /// Two slots with the same bits are the same slot.
    proof fn lemma_bits_decide(a: Self, b: Self)
        requires
            forall|i: int| 1 <= i <= Self::width() ==> a.bit(i) == b.bit(i),
        ensures
            a == b,
    ;

    /// Nothing is set outside the slot, and no slot is wider than 128 bits.
    proof fn lemma_bit_range(a: Self, pos: int)
        ensures
            16 <= Self::width() <= 128,
            a.bit(pos) ==> 1 <= pos <= Self::width(),
    ;

    /// The length of the slot (number of bits).
    fn len_bits() -> (r: u8)
        ensures
            r == Self::width(),
    ;

    /// A slot with only the bit at `pos` set.
    fn single_bit(pos: u8) -> (r: Self)
        requires
            1 <= pos <= Self::width(),
        ensures
            forall|i: int| r.bit(i) <==> i == pos,
    ;

    /// A slot with the first `len` bits set and the others cleared.
    fn bitmask(len: u8) -> (r: Self)
        requires
            len <= Self::width(),
        ensures
            forall|i: int| r.bit(i) <==> 1 <= i <= len,
    ;

    /// Position of the first bit set, or `width() + 1` when no bit is set.
    fn first_bit(&self) -> (r: u8)
        ensures
            1 <= r <= Self::width() + 1,
            forall|i: int| 1 <= i < r ==> !self.bit(i),
            r <= Self::width() ==> self.bit(r as int),
    ;

    /// Whether the bit at `pos` is set.
    fn is_set(&self, pos: u8) -> (r: bool)
        ensures
            r == self.bit(pos as int),
    ;

    /// The last 16 bits of the slot.
    fn last_16_bits(&self) -> (r: u16)
        ensures
            forall|j: int| 1 <= j <= 16 ==> bit16(r, j) == self.bit(Self::width() - 16 + j),
    ;

    /// Bitwise and.
    fn bitand(self, other: Self) -> (r: Self)
        ensures
            forall|i: int| r.bit(i) == (self.bit(i) && other.bit(i)),
    ;

    /// Bitwise exclusive or.
    fn bitxor(self, other: Self) -> (r: Self)
        ensures
            forall|i: int| r.bit(i) == (self.bit(i) != other.bit(i)),
    ;

    /// Shift towards the least significant bit by `n` positions.
    fn shr(self, n: u8) -> (r: Self)
        requires
            n < Self::width(),
        ensures
            forall|i: int| r.bit(i) == (n < i <= Self::width() && self.bit(i - n)),
    ;

    /// Whether both slots hold the same bits.
    fn same(&self, other: &Self) -> (r: bool)
        ensures
            r == (*self == *other),
    ;
}

/// The bit at position `pos` (1 is the most significant) of a 16-bit word.
pub open spec fn bit16(x: u16, pos: int) -> bool {
    1 <= pos <= 16 && (x >> ((16 - pos) as u16)) & 1 == 1
}

/// The bit at position `pos` (1 is the most significant) of a 32-bit word.
pub open spec fn bit32(x: u32, pos: int) -> bool {
    1 <= pos <= 32 && (x >> ((32 - pos) as u32)) & 1 == 1
}

/// The 32-bit word whose first `len` bits are set and whose other bits are clear.
pub open spec fn mask32(len: u8) -> u32 {
    if len == 0 {
        0
    } else {
        (!0u32) << ((32 - len) as u8)
    }
}

/// How masks and the bitwise operators act on one bit of a 32-bit word;
/// `s` and `t` are shift amounts, `s16` is `s` as a 16-bit word.
#[verifier::rlimit(60)]
pub proof fn lemma_word32(x: u32, y: u32, s: u32, t: u32, s16: u16)
    by (bit_vector)
    ensures
        s < 32 && t < 32 ==> ((((1u32 << t) >> s) & 1 == 1) <==> s == t),
        ((0u32 >> s) & 1) == 0,
        s < 32 && t < 32 ==> (((((!0u32) << t) >> s) & 1 == 1) <==> s >= t),
        ((x >> s) & 1 != 0) <==> ((x >> s) & 1 == 1),
        s16 < 16 && s == s16 ==> ((((x as u16) >> s16) & 1 == 1) <==> ((x >> s) & 1 == 1)),
        (((x & y) >> s) & 1 == 1) <==> (((x >> s) & 1 == 1) && ((y >> s) & 1 == 1)),
        (((x | y) >> s) & 1 == 1) <==> (((x >> s) & 1 == 1) || ((y >> s) & 1 == 1)),
        (((x ^ y) >> s) & 1 == 1) <==> (((x >> s) & 1 == 1) != ((y >> s) & 1 == 1)),
        x != y ==> (x ^ y) != 0,
{
}

/// One bit of a 32-bit word shifted right by `n`; `s8` and `u8` are shift
/// amounts as bytes, `s` is `s8` as a word.
#[verifier::rlimit(60)]
pub proof fn lemma_shift32(x: u32, y: u32, s: u32, s8: u8, u8: u8, n: u8)
    by (bit_vector)
    ensures
        s == s8 as u32 ==> (x >> s) == (x >> s8),
        s == s8 as u32 ==> (y >> s) == (y >> s8),
        n < 32 && s8 < 32 && u8 == s8 + n && u8 < 32 ==> ((x >> n) >> s8) & 1 == (x >> u8) & 1,
        n < 32 && s8 < 32 && s8 + n >= 32 ==> ((x >> n) >> s8) & 1 == 0,
{
}

/// Two 32-bit words that differ have a position at which they differ.
pub proof fn lemma_differ32(a: u32, b: u32) -> (p: int)
    requires
        a != b,
    ensures
        1 <= p <= 32,
        bit32(a, p) != bit32(b, p),
{
    let d = a ^ b;
    vstd::std_specs::bits::axiom_u32_leading_zeros(d);
    let z = vstd::std_specs::bits::u32_leading_zeros(d) as int;
    let p: int = z + 1;
    let s: u32 = (31 - z) as u32;
    lemma_word32(a, b, s, 0, 0);
    lemma_word32(d, 0, s, 0, 0);
    assert((d >> s) & 1 != 0);
    assert(s == (32 - p) as u32);
    p
}

impl BitSlot for u32 {
    open spec fn width() -> nat {
        32
    }

    open spec fn bit(&self, pos: int) -> bool {
        bit32(*self, pos)
    }

    proof fn lemma_bits_decide(a: Self, b: Self) {
        if a != b {
            let p = lemma_differ32(a, b);
            assert(a.bit(p) != b.bit(p));
        }
    }

    proof fn lemma_bit_range(a: Self, pos: int) {
    }

    fn len_bits() -> (r: u8) {
        32
    }

    fn single_bit(pos: u8) -> (r: Self) {
        let r: u32 = 1u32 << (32 - pos);
        proof {
            assert forall|i: int| r.bit(i) <==> i == pos by {
                if 1 <= i <= 32 {
                    lemma_word32(0, 0, (32 - i) as u32, (32 - pos) as u32, 0);
                }
            }
        }
        r
    }

    fn bitmask(len: u8) -> (r: Self)
        ensures
            r == mask32(len),
    {
        let r: u32 = if len == 0 {
            0
        } else {
            (!0u32) << (32 - len)
        };
        proof {
            assert forall|i: int| r.bit(i) <==> 1 <= i <= len by {
                if 1 <= i <= 32 {
                    lemma_word32(0, 0, (32 - i) as u32, (32 - len) as u32, 0);
                }
            }
        }
        r
    }

    fn first_bit(&self) -> (r: u8) {
        let x: u32 = *self;
        let z: u32 = x.leading_zeros();
        proof {
            vstd::std_specs::bits::axiom_u32_leading_zeros(x);
        }
        assert(0 <= z <= 32);
        let r: u8 = (z as u8) + 1;
        proof {
            let lz = vstd::std_specs::bits::u32_leading_zeros(x) as int;
            assert(r == lz + 1);
            assert forall|i: int| 1 <= i < r implies !x.bit(i) by {
                let j: u32 = (32 - i) as u32;
                assert(32 - lz <= j < 32);
                assert((x >> j) & 1 == 0);
            }
            if r <= 32 {
                let s: u32 = (31 - z) as u32;
                assert(s == (32 - r) as u32);
                assert((x >> s) & 1 != 0);
                lemma_word32(x, 0, s, 0, 0);
                assert(x.bit(r as int));
            }
            assert(1 <= r <= 32 + 1);
            assert(<u32 as BitSlot>::width() == 32);
            assert(r <= 32 ==> (*self).bit(r as int));
        }
        r
    }

    fn is_set(&self, pos: u8) -> (r: bool) {
        if pos == 0 || pos > 32 {
            false
        } else {
            let x: u32 = *self;
            let s: u8 = 32 - pos;
            proof {
                lemma_word32(x, 0, s as u32, 0, 0);
                lemma_shift32(x, 0, s as u32, s, 0, 0);
            }
            (x >> s) & 1 != 0
        }
    }

    fn last_16_bits(&self) -> (r: u16) {
        let x: u32 = *self;
        let r: u16 = x as u16;
        proof {
            assert forall|j: int| 1 <= j <= 16 implies bit16(r, j) == x.bit(32 - 16 + j) by {
                lemma_word32(x, 0, (16 - j) as u32, 0, (16 - j) as u16);
            }
        }
        r
    }

    fn bitand(self, other: Self) -> (r: Self)
        ensures
            r == self & other,
    {
        let r: u32 = self & other;
        proof {
            assert forall|i: int| r.bit(i) == (self.bit(i) && other.bit(i)) by {
                if 1 <= i <= 32 {
                    lemma_word32(self, other, (32 - i) as u32, 0, 0);
                }
            }
        }
        r
    }

    fn bitxor(self, other: Self) -> (r: Self)
        ensures
            r == self ^ other,
    {
        let r: u32 = self ^ other;
        proof {
            assert forall|i: int| r.bit(i) == (self.bit(i) != other.bit(i)) by {
                if 1 <= i <= 32 {
                    lemma_word32(self, other, (32 - i) as u32, 0, 0);
                }
            }
        }
        r
    }

    fn shr(self, n: u8) -> (r: Self)
        ensures
            r == self >> n,
    {
        let r: u32 = self >> n;
        proof {
            assert forall|i: int| r.bit(i) == (n < i <= 32 && self.bit(i - n)) by {
                if 1 <= i <= 32 {
                    let s: u8 = (32 - i) as u8;
                    if i > n {
                        let u: u8 = (32 - (i - n)) as u8;
                        lemma_shift32(self, r, s as u32, s, u, n);
                        lemma_shift32(self, r, u as u32, u, 0, 0);
                    } else {
                        lemma_shift32(self, r, s as u32, s, 0, n);
                    }
                }
            }
        }
        r
    }

    fn same(&self, other: &Self) -> (r: bool) {
        *self == *other
    }
}

/// The bit at position `pos` (1 is the most significant) of a 64-bit word.
pub open spec fn bit64(x: u64, pos: int) -> bool {
    1 <= pos <= 64 && (x >> ((64 - pos) as u64)) & 1 == 1
}

/// The 64-bit word whose first `len` bits are set and whose other bits are clear.
pub open spec fn mask64(len: u8) -> u64 {
    if len == 0 {
        0
    } else {
        (!0u64) << ((64 - len) as u8)
    }
}

/// How masks and the bitwise operators act on one bit of a 64-bit word;
/// `s` and `t` are shift amounts, `s16` is `s` as a 16-bit word.
#[verifier::rlimit(60)]
pub proof fn lemma_word64(x: u64, y: u64, s: u64, t: u64, s16: u16)
    by (bit_vector)
    ensures
        s < 64 && t < 64 ==> ((((1u64 << t) >> s) & 1 == 1) <==> s == t),
        ((0u64 >> s) & 1) == 0,
        s < 64 && t < 64 ==> (((((!0u64) << t) >> s) & 1 == 1) <==> s >= t),
        ((x >> s) & 1 != 0) <==> ((x >> s) & 1 == 1),
        s16 < 16 && s == s16 ==> ((((x as u16) >> s16) & 1 == 1) <==> ((x >> s) & 1 == 1)),
        (((x & y) >> s) & 1 == 1) <==> (((x >> s) & 1 == 1) && ((y >> s) & 1 == 1)),
        (((x | y) >> s) & 1 == 1) <==> (((x >> s) & 1 == 1) || ((y >> s) & 1 == 1)),
        (((x ^ y) >> s) & 1 == 1) <==> (((x >> s) & 1 == 1) != ((y >> s) & 1 == 1)),
        x != y ==> (x ^ y) != 0,
{
}

/// One bit of a 64-bit word shifted right by `n`; `s8` and `u8` are shift
/// amounts as bytes, `s` is `s8` as a word.
#[verifier::rlimit(60)]
pub proof fn lemma_shift64(x: u64, y: u64, s: u64, s8: u8, u8: u8, n: u8)
    by (bit_vector)
    ensures
        s == s8 as u64 ==> (x >> s) == (x >> s8),
        s == s8 as u64 ==> (y >> s) == (y >> s8),
        n < 64 && s8 < 64 && u8 == s8 + n && u8 < 64 ==> ((x >> n) >> s8) & 1 == (x >> u8) & 1,
        n < 64 && s8 < 64 && s8 + n >= 64 ==> ((x >> n) >> s8) & 1 == 0,
{
}

/// Two 64-bit words that differ have a position at which they differ.
pub proof fn lemma_differ64(a: u64, b: u64) -> (p: int)
    requires
        a != b,
    ensures
        1 <= p <= 64,
        bit64(a, p) != bit64(b, p),
{
    let d = a ^ b;
    vstd::std_specs::bits::axiom_u64_leading_zeros(d);
    let z = vstd::std_specs::bits::u64_leading_zeros(d) as int;
    let p: int = z + 1;
    let s: u64 = (63 - z) as u64;
    lemma_word64(a, b, s, 0, 0);
    lemma_word64(d, 0, s, 0, 0);
    assert((d >> s) & 1 != 0);
    assert(s == (64 - p) as u64);
    p
}

impl BitSlot for u64 {
    open spec fn width() -> nat {
        64
    }

    open spec fn bit(&self, pos: int) -> bool {
        bit64(*self, pos)
    }

    proof fn lemma_bits_decide(a: Self, b: Self) {
        if a != b {
            let p = lemma_differ64(a, b);
            assert(a.bit(p) != b.bit(p));
        }
    }

    proof fn lemma_bit_range(a: Self, pos: int) {
    }

    fn len_bits() -> (r: u8) {
        64
    }

    fn single_bit(pos: u8) -> (r: Self) {
        let r: u64 = 1u64 << (64 - pos);
        proof {
            assert forall|i: int| r.bit(i) <==> i == pos by {
                if 1 <= i <= 64 {
                    lemma_word64(0, 0, (64 - i) as u64, (64 - pos) as u64, 0);
                }
            }
        }
        r
    }

    fn bitmask(len: u8) -> (r: Self)
        ensures
            r == mask64(len),
    {
        let r: u64 = if len == 0 {
            0
        } else {
            (!0u64) << (64 - len)
        };
        proof {
            assert forall|i: int| r.bit(i) <==> 1 <= i <= len by {
                if 1 <= i <= 64 {
                    lemma_word64(0, 0, (64 - i) as u64, (64 - len) as u64, 0);
                }
            }
        }
        r
    }

    fn first_bit(&self) -> (r: u8) {
        let x: u64 = *self;
        let z: u32 = x.leading_zeros();
        proof {
            vstd::std_specs::bits::axiom_u64_leading_zeros(x);
        }
        assert(0 <= z <= 64);
        let r: u8 = (z as u8) + 1;
        proof {
            let lz = vstd::std_specs::bits::u64_leading_zeros(x) as int;
            assert(r == lz + 1);
            assert forall|i: int| 1 <= i < r implies !x.bit(i) by {
                let j: u64 = (64 - i) as u64;
                assert(64 - lz <= j < 64);
                assert((x >> j) & 1 == 0);
            }
            if r <= 64 {
                let s: u64 = (63 - z) as u64;
                assert(s == (64 - r) as u64);
                assert((x >> s) & 1 != 0);
                lemma_word64(x, 0, s, 0, 0);
                assert(x.bit(r as int));
            }
            assert(1 <= r <= 64 + 1);
            assert(<u64 as BitSlot>::width() == 64);
            assert(r <= 64 ==> (*self).bit(r as int));
        }
        r
    }

    fn is_set(&self, pos: u8) -> (r: bool) {
        if pos == 0 || pos > 64 {
            false
        } else {
            let x: u64 = *self;
            let s: u8 = 64 - pos;
            proof {
                lemma_word64(x, 0, s as u64, 0, 0);
                lemma_shift64(x, 0, s as u64, s, 0, 0);
            }
            (x >> s) & 1 != 0
        }
    }

    fn last_16_bits(&self) -> (r: u16) {
        let x: u64 = *self;
        let r: u16 = x as u16;
        proof {
            assert forall|j: int| 1 <= j <= 16 implies bit16(r, j) == x.bit(64 - 16 + j) by {
                lemma_word64(x, 0, (16 - j) as u64, 0, (16 - j) as u16);
            }
        }
        r
    }

    fn bitand(self, other: Self) -> (r: Self)
        ensures
            r == self & other,
    {
        let r: u64 = self & other;
        proof {
            assert forall|i: int| r.bit(i) == (self.bit(i) && other.bit(i)) by {
                if 1 <= i <= 64 {
                    lemma_word64(self, other, (64 - i) as u64, 0, 0);
                }
            }
        }
        r
    }

    fn bitxor(self, other: Self) -> (r: Self)
        ensures
            r == self ^ other,
    {
        let r: u64 = self ^ other;
        proof {
            assert forall|i: int| r.bit(i) == (self.bit(i) != other.bit(i)) by {
                if 1 <= i <= 64 {
                    lemma_word64(self, other, (64 - i) as u64, 0, 0);
                }
            }
        }
        r
    }

    fn shr(self, n: u8) -> (r: Self)
        ensures
            r == self >> n,
    {
        let r: u64 = self >> n;
        proof {
            assert forall|i: int| r.bit(i) == (n < i <= 64 && self.bit(i - n)) by {
                if 1 <= i <= 64 {
                    let s: u8 = (64 - i) as u8;
                    if i > n {
                        let u: u8 = (64 - (i - n)) as u8;
                        lemma_shift64(self, r, s as u64, s, u, n);
                        lemma_shift64(self, r, u as u64, u, 0, 0);
                    } else {
                        lemma_shift64(self, r, s as u64, s, 0, n);
                    }
                }
            }
        }
        r
    }

    fn same(&self, other: &Self) -> (r: bool) {
        *self == *other
    }
}

/// The upper 64 bits of a 128-bit word.
pub open spec fn upper64(x: u128) -> u64 {
    (x >> 64) as u64
}

/// A bit of either half of a 128-bit word is the bit of the whole word at the
/// matching place; `s` is a shift within a half, `t` and `v` the shifts within
/// the word that match it in the upper and in the lower half.
pub proof fn lemma_halves128(a: u128, b: u128, s: u64, t: u128, v: u128)
    by (bit_vector)
    ensures
        a != b ==> (((a >> 64) as u64) != ((b >> 64) as u64) || a as u64 != b as u64),
        s < 64 && t == s + 64 ==> ((((a >> 64) as u64) >> s) & 1 == 1) == ((a >> t) & 1 == 1),
        s < 64 && t == s + 64 ==> ((((b >> 64) as u64) >> s) & 1 == 1) == ((b >> t) & 1 == 1),
        s < 64 && v == s ==> (((a as u64) >> s) & 1 == 1) == ((a >> v) & 1 == 1),
        s < 64 && v == s ==> (((b as u64) >> s) & 1 == 1) == ((b >> v) & 1 == 1),
{
}

/// The bit at position `pos` (1 is the most significant) of a 128-bit word.
pub open spec fn bit128(x: u128, pos: int) -> bool {
    1 <= pos <= 128 && (x >> ((128 - pos) as u128)) & 1 == 1
}

/// The 128-bit word whose first `len` bits are set and whose other bits are clear.
pub open spec fn mask128(len: u8) -> u128 {
    if len == 0 {
        0
    } else {
        (!0u128) << ((128 - len) as u8)
    }
}

/// How masks and the bitwise operators act on one bit of a 128-bit word;
/// `s` and `t` are shift amounts, `s16` is `s` as a 16-bit word.
#[verifier::rlimit(60)]
pub proof fn lemma_word128(x: u128, y: u128, s: u128, t: u128, s16: u16)
    by (bit_vector)
    ensures
        s < 128 && t < 128 ==> ((((1u128 << t) >> s) & 1 == 1) <==> s == t),
        ((0u128 >> s) & 1) == 0,
        s < 128 && t < 128 ==> (((((!0u128) << t) >> s) & 1 == 1) <==> s >= t),
        ((x >> s) & 1 != 0) <==> ((x >> s) & 1 == 1),
        s16 < 16 && s == s16 ==> ((((x as u16) >> s16) & 1 == 1) <==> ((x >> s) & 1 == 1)),
        (((x & y) >> s) & 1 == 1) <==> (((x >> s) & 1 == 1) && ((y >> s) & 1 == 1)),
        (((x | y) >> s) & 1 == 1) <==> (((x >> s) & 1 == 1) || ((y >> s) & 1 == 1)),
        (((x ^ y) >> s) & 1 == 1) <==> (((x >> s) & 1 == 1) != ((y >> s) & 1 == 1)),
        x != y ==> (x ^ y) != 0,
{
}

/// One bit of a 128-bit word shifted right by `n`; `s8` and `u8` are shift
/// amounts as bytes, `s` is `s8` as a word.
#[verifier::rlimit(60)]
pub proof fn lemma_shift128(x: u128, y: u128, s: u128, s8: u8, u8: u8, n: u8)
    by (bit_vector)
    ensures
        s == s8 as u128 ==> (x >> s) == (x >> s8),
        s == s8 as u128 ==> (y >> s) == (y >> s8),
        n < 128 && s8 < 128 && u8 == s8 + n && u8 < 128 ==> ((x >> n) >> s8) & 1 == (x >> u8) & 1,
        n < 128 && s8 < 128 && s8 + n >= 128 ==> ((x >> n) >> s8) & 1 == 0,
{
}

/// Two 128-bit words that differ have a position at which they differ.
pub proof fn lemma_differ128(a: u128, b: u128) -> (p: int)
    requires
        a != b,
    ensures
        1 <= p <= 128,
        bit128(a, p) != bit128(b, p),
{
    lemma_halves128(a, b, 0, 0, 0);
    if upper64(a) != upper64(b) {
        let q = lemma_differ64(upper64(a), upper64(b));
        lemma_halves128(a, b, (64 - q) as u64, (128 - q) as u128, (64 - q) as u128);
        q
    } else {
        let q = lemma_differ64(a as u64, b as u64);
        lemma_halves128(a, b, (64 - q) as u64, (128 - q) as u128, (64 - q) as u128);
        q + 64
    }
}

impl BitSlot for u128 {
    open spec fn width() -> nat {
        128
    }

    open spec fn bit(&self, pos: int) -> bool {
        bit128(*self, pos)
    }

    proof fn lemma_bits_decide(a: Self, b: Self) {
        if a != b {
            let p = lemma_differ128(a, b);
            assert(a.bit(p) != b.bit(p));
        }
    }

    proof fn lemma_bit_range(a: Self, pos: int) {
    }

    fn len_bits() -> (r: u8) {
        128
    }

    fn single_bit(pos: u8) -> (r: Self) {
        let r: u128 = 1u128 << (128 - pos);
        proof {
            assert forall|i: int| r.bit(i) <==> i == pos by {
                if 1 <= i <= 128 {
                    lemma_word128(0, 0, (128 - i) as u128, (128 - pos) as u128, 0);
                }
            }
        }
        r
    }

    fn bitmask(len: u8) -> (r: Self)
        ensures
            r == mask128(len),
    {
        let r: u128 = if len == 0 {
            0
        } else {
            (!0u128) << (128 - len)
        };
        proof {
            assert forall|i: int| r.bit(i) <==> 1 <= i <= len by {
                if 1 <= i <= 128 {
                    lemma_word128(0, 0, (128 - i) as u128, (128 - len) as u128, 0);
                }
            }
        }
        r
    }

    fn first_bit(&self) -> (r: u8) {
        let x: u128 = *self;
        let hi: u64 = (x >> 64) as u64;
        let lo: u64 = x as u64;
        proof {
            assert forall|i: int| 1 <= i <= 64 implies x.bit(i) == hi.bit(i) by {
                lemma_halves128(x, x, (64 - i) as u64, (128 - i) as u128, 0);
            }
            assert forall|i: int| 65 <= i <= 128 implies x.bit(i) == lo.bit(i - 64) by {
                lemma_halves128(x, x, (128 - i) as u64, 0, (128 - i) as u128);
            }
        }
        let h: u8 = hi.first_bit();
        if h <= 64 {
            h
        } else {
            let l: u8 = lo.first_bit();
            l + 64
        }
    }

    fn is_set(&self, pos: u8) -> (r: bool) {
        if pos == 0 || pos > 128 {
            false
        } else {
            let x: u128 = *self;
            let s: u8 = 128 - pos;
            proof {
                lemma_word128(x, 0, s as u128, 0, 0);
                lemma_shift128(x, 0, s as u128, s, 0, 0);
            }
            (x >> s) & 1 != 0
        }
    }

    fn last_16_bits(&self) -> (r: u16) {
        let x: u128 = *self;
        let r: u16 = x as u16;
        proof {
            assert forall|j: int| 1 <= j <= 16 implies bit16(r, j) == x.bit(128 - 16 + j) by {
                lemma_word128(x, 0, (16 - j) as u128, 0, (16 - j) as u16);
            }
        }
        r
    }

    fn bitand(self, other: Self) -> (r: Self)
        ensures
            r == self & other,
    {
        let r: u128 = self & other;
        proof {
            assert forall|i: int| r.bit(i) == (self.bit(i) && other.bit(i)) by {
                if 1 <= i <= 128 {
                    lemma_word128(self, other, (128 - i) as u128, 0, 0);
                }
            }
        }
        r
    }

    fn bitxor(self, other: Self) -> (r: Self)
        ensures
            r == self ^ other,
    {
        let r: u128 = self ^ other;
        proof {
            assert forall|i: int| r.bit(i) == (self.bit(i) != other.bit(i)) by {
                if 1 <= i <= 128 {
                    lemma_word128(self, other, (128 - i) as u128, 0, 0);
                }
            }
        }
        r
    }

    fn shr(self, n: u8) -> (r: Self)
        ensures
            r == self >> n,
    {
        let r: u128 = self >> n;
        proof {
            assert forall|i: int| r.bit(i) == (n < i <= 128 && self.bit(i - n)) by {
                if 1 <= i <= 128 {
                    let s: u8 = (128 - i) as u8;
                    if i > n {
                        let u: u8 = (128 - (i - n)) as u8;
                        lemma_shift128(self, r, s as u128, s, u, n);
                        lemma_shift128(self, r, u as u128, u, 0, 0);
                    } else {
                        lemma_shift128(self, r, s as u128, s, 0, n);
                    }
                }
            }
        }
        r
    }

    fn same(&self, other: &Self) -> (r: bool) {
        *self == *other
    }
}

/// A bit of a 64-bit word moved to the upper half of a 128-bit word, and of
/// such a word with a length written in its last byte; `s` is a shift amount.
pub proof fn lemma_widen128(x: u64, y: u128, l: u8, s: u128, v: u64)
    by (bit_vector)
    ensures
        s < 64 ==> ((((x as u128) << 64) >> s) & 1 == 0),
        64 <= s < 128 && v == s - 64 ==> ((((x as u128) << 64) >> s) & 1 == 1) == ((x >> v) & 1 == 1),
        l <= 120 ==> ((y & mask128(l)) | (l as u128)) as u8 == l,
        8 <= s < 128 ==> (((y | (l as u128)) >> s) & 1 == 1) == ((y >> s) & 1 == 1),
        (((y >> 64) as u64) as u128) << 64 == y & mask128(64),
{
}

/// A bit of a 64-bit word with a length written in its last byte.
pub proof fn lemma_tail64(y: u64, l: u8, s: u64)
    by (bit_vector)
    ensures
        l <= 56 ==> ((y & mask64(l)) | (l as u64)) as u8 == l,
        8 <= s < 64 ==> (((y | (l as u64)) >> s) & 1 == 1) == ((y >> s) & 1 == 1),
{
}

/// The upper half of a 128-bit word: its first 64 bits.
pub fn upper_half(x: u128) -> (r: u64)
    ensures
        r == upper64(x),
        forall|i: int| r.bit(i) == (i <= 64 && x.bit(i)),
{
    let r: u64 = (x >> 64) as u64;
    proof {
        assert forall|i: int| r.bit(i) == (i <= 64 && x.bit(i)) by {
            if 1 <= i <= 64 {
                lemma_halves128(x, x, (64 - i) as u64, (128 - i) as u128, 0);
            }
        }
    }
    r
}

/// A 64-bit word as the upper half of a 128-bit word whose lower half is zero.
pub fn widen(x: u64) -> (r: u128)
    ensures
        r == (x as u128) << 64,
        forall|i: int| r.bit(i) == x.bit(i),
{
    let r: u128 = (x as u128) << 64;
    proof {
        assert forall|i: int| r.bit(i) == x.bit(i) by {
            if 1 <= i <= 128 {
                lemma_widen128(x, 0, 0, (128 - i) as u128, (64 - i) as u64);
            }
        }
    }
    r
}

} // verus!
