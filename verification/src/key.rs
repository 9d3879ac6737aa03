//! Fixed-width keys and the total order the trees and the generated code share.

use vstd::prelude::*;

verus! {

/// Result of comparing two keys.
#[derive(Clone, Copy, Debug, PartialEq, Eq, Structural)]
pub enum Order {
    Less,
    Equal,
    Greater,
}

/// A fixed-width key of at most 128 bits.
///
/// A key is read as two signed 64-bit limbs. Keys are ordered by their limbs,
/// lexicographically, the first limb being the most significant.
pub trait Key: Copy {
    /// The two limbs of the key, most significant first.
    spec fn limbs(self) -> (i64, i64);

    /// Distinct keys have distinct limbs.
    proof fn limbs_injective(a: Self, b: Self)
        requires
            a.limbs() == b.limbs(),
        ensures
            a == b,
    ;

    fn to_limbs(&self) -> (r: (i64, i64))
        ensures
            r == self.limbs(),
    ;
}

/// Number of values a limb can take.
pub open spec fn limb_span() -> int {
    0x1_0000_0000_0000_0000
}

/// Position of a pair of limbs in the key order: pairs are ranked by their
/// first limb, and by their second where the first limbs are equal.
pub open spec fn rank_of(limbs: (i64, i64)) -> int {
    limbs.0 * limb_span() + (limbs.1 + 0x8000_0000_0000_0000)
}

/// Position of a key in the key order: `a` sorts before `b` exactly when
/// `rank(a) < rank(b)`.
pub open spec fn rank<K: Key>(k: K) -> int {
    rank_of(k.limbs())
}

/// Every rank is strictly above this bound.
pub open spec fn rank_floor() -> int {
    -0x8000_0000_0000_0000 * limb_span() - 1
}

/// Every rank is strictly below this bound.
pub open spec fn rank_ceiling() -> int {
    0x8000_0000_0000_0000 * limb_span()
}

/// Keys with the same rank are the same key, and every rank lies strictly
/// between `rank_floor()` and `rank_ceiling()`.
pub proof fn rank_properties<K: Key>(a: K, b: K)
    ensures
        rank_floor() < rank(a) < rank_ceiling(),
        rank(a) == rank(b) <==> a == b,
{
    if rank(a) == rank(b) {
        K::limbs_injective(a, b);
    }
}

/// The rank of a key as a machine integer.
pub fn rank_value<K: Key>(k: &K) -> (r: i128)
    ensures
        r == rank(*k),
{
    let limbs = k.to_limbs();
    let first: i128 = limbs.0 as i128;
    let second: i128 = limbs.1 as i128;
    first * 0x1_0000_0000_0000_0000 + (second + 0x8000_0000_0000_0000)
}

/// Three-way comparison of two keys by their limbs.
pub fn compare<K: Key>(a: &K, b: &K) -> (o: Order)
    ensures
        o == Order::Less <==> rank(*a) < rank(*b),
        o == Order::Equal <==> *a == *b,
        o == Order::Greater <==> rank(*a) > rank(*b),
{
    let x = a.to_limbs();
    let y = b.to_limbs();
    proof {
        rank_properties(*a, *b);
    }
    if x.0 < y.0 || (x.0 == y.0 && x.1 < y.1) {
        Order::Less
    } else if x.0 == y.0 && x.1 == y.1 {
        Order::Equal
    } else {
        Order::Greater
    }
}

/// A 32-bit key is its own first limb; its second limb is zero.
impl Key for i32 {
    open spec fn limbs(self) -> (i64, i64) {
        (self as i64, 0i64)
    }

    proof fn limbs_injective(a: Self, b: Self) {
    }

    fn to_limbs(&self) -> (r: (i64, i64)) {
        (*self as i64, 0)
    }
}

/// The 64-bit word whose little-endian bytes are `b0` to `b7`.
pub open spec fn word_of(b0: u8, b1: u8, b2: u8, b3: u8, b4: u8, b5: u8, b6: u8, b7: u8) -> u64 {
    (b0 as u64) | (b1 as u64) << 8 | (b2 as u64) << 16 | (b3 as u64) << 24 | (b4 as u64) << 32
        | (b5 as u64) << 40 | (b6 as u64) << 48 | (b7 as u64) << 56
}

/// The limb stored little-endian in the eight bytes of `bytes` from `at` on.
pub open spec fn limb_at(bytes: Seq<u8>, at: int) -> i64 {
    word_of(
        bytes[at],
        bytes[at + 1],
        bytes[at + 2],
        bytes[at + 3],
        bytes[at + 4],
        bytes[at + 5],
        bytes[at + 6],
        bytes[at + 7],
    ) as i64
}

/// A limb determines its eight bytes.
pub proof fn word_of_injective(
    a0: u8, a1: u8, a2: u8, a3: u8, a4: u8, a5: u8, a6: u8, a7: u8,
    b0: u8, b1: u8, b2: u8, b3: u8, b4: u8, b5: u8, b6: u8, b7: u8,
)
    requires
        word_of(a0, a1, a2, a3, a4, a5, a6, a7) as i64 == word_of(
            b0, b1, b2, b3, b4, b5, b6, b7) as i64,
    ensures
        a0 == b0 && a1 == b1 && a2 == b2 && a3 == b3 && a4 == b4 && a5 == b5 && a6 == b6 && a7
            == b7,
{
    let x = word_of(a0, a1, a2, a3, a4, a5, a6, a7);
    let y = word_of(b0, b1, b2, b3, b4, b5, b6, b7);
    assert(x as i64 == y as i64 ==> x == y) by (bit_vector);
    assert(((a0 as u64) | (a1 as u64) << 8 | (a2 as u64) << 16 | (a3 as u64) << 24 | (a4 as u64)
        << 32 | (a5 as u64) << 40 | (a6 as u64) << 48 | (a7 as u64) << 56) == ((b0 as u64) | (
    b1 as u64) << 8 | (b2 as u64) << 16 | (b3 as u64) << 24 | (b4 as u64) << 32 | (b5 as u64)
        << 40 | (b6 as u64) << 48 | (b7 as u64) << 56) ==> a0 == b0 && a1 == b1 && a2 == b2 && a3
        == b3 && a4 == b4 && a5 == b5 && a6 == b6 && a7 == b7) by (bit_vector);
}

fn load_limb(bytes: &[u8; 16], at: usize) -> (r: i64)
    requires
        at == 0 || at == 8,
    ensures
        r == limb_at(bytes@, at as int),
{
    let w: u64 = (bytes[at] as u64) | (bytes[at + 1] as u64) << 8 | (bytes[at + 2] as u64) << 16 | (
    bytes[at + 3] as u64) << 24 | (bytes[at + 4] as u64) << 32 | (bytes[at + 5] as u64) << 40 | (
    bytes[at + 6] as u64) << 48 | (bytes[at + 7] as u64) << 56;
    w as i64
}

/// A sixteen-byte key has as its limbs the two 64-bit words that stand in
/// its first and its second eight bytes, least significant byte first, read
/// as signed numbers. That is how the generated code loads and compares them.
impl Key for [u8; 16] {
    open spec fn limbs(self) -> (i64, i64) {
        (limb_at(self@, 0), limb_at(self@, 8))
    }

    proof fn limbs_injective(a: Self, b: Self) {
        word_of_injective(a[0], a[1], a[2], a[3], a[4], a[5], a[6], a[7], b[0], b[1], b[2], b[3], b[4], b[5], b[6], b[7]);
        word_of_injective(a[8], a[9], a[10], a[11], a[12], a[13], a[14], a[15], b[8], b[9], b[10], b[11], b[12], b[13], b[14], b[15]);
        assert(a@ =~= b@);
        assert(a =~= b);
    }

    fn to_limbs(&self) -> (r: (i64, i64)) {
        (load_limb(self, 0), load_limb(self, 8))
    }
}

} // verus!
