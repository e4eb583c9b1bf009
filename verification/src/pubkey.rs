//! Account addresses.

use crate::ordered::Ranked;
use vstd::prelude::*;

verus! {

/// A 32-byte account address, ordered byte by byte.
#[derive(Debug, Clone, Copy, PartialEq, Eq, PartialOrd, Ord, Hash)]
pub struct Pubkey {
    pub bytes: [u8; 32],
}

/// The bytes read as one big-endian number.
pub open spec fn big_endian(s: Seq<u8>) -> int
    decreases s.len(),
{
    if s.len() == 0 {
        0
    } else {
        big_endian(s.drop_last()) * 256 + s.last()
    }
}

/// `a` comes before `b` at the first byte where they differ.
pub open spec fn bytes_before(a: Seq<u8>, b: Seq<u8>) -> bool {
    exists|i: int|
        0 <= i < a.len() && i < b.len() && a.take(i) == b.take(i) && #[trigger] a[i] < b[i]
}

proof fn lemma_big_endian_before(a: Seq<u8>, b: Seq<u8>, i: int)
    requires
        a.len() == b.len(),
        0 <= i < a.len(),
        a.take(i) == b.take(i),
        a[i] < b[i],
    ensures
        big_endian(a) < big_endian(b),
    decreases a.len(),
{
    let a1 = a.drop_last();
    let b1 = b.drop_last();
    if i == a.len() - 1 {
        assert(a1 =~= a.take(i));
        assert(b1 =~= b.take(i));
    } else {
        assert(a1.take(i) =~= a.take(i));
        assert(b1.take(i) =~= b.take(i));
        lemma_big_endian_before(a1, b1, i);
    }
}

proof fn lemma_first_difference(a: Seq<u8>, b: Seq<u8>, n: int) -> (r: int)
    requires
        a.len() == b.len(),
        0 <= n <= a.len(),
        a.take(n) == b.take(n),
        a != b,
    ensures
        0 <= r < a.len(),
        a.take(r) == b.take(r),
        a[r] != b[r],
    decreases a.len() - n,
{
    if n == a.len() {
        assert(a =~= a.take(n));
        assert(b =~= b.take(n));
        n
    } else if a[n] != b[n] {
        n
    } else {
        assert(a.take(n + 1) =~= a.take(n).push(a[n]));
        assert(b.take(n + 1) =~= b.take(n).push(b[n]));
        lemma_first_difference(a, b, n + 1)
    }
}

/// Addresses rank in byte-wise lexicographic order.
pub proof fn rank_is_byte_order(a: Pubkey, b: Pubkey)
    ensures
        (a.rank() < b.rank()) == bytes_before(a.bytes@, b.bytes@),
{
    let x = a.bytes@;
    let y = b.bytes@;
    if bytes_before(x, y) {
        let i = choose|i: int|
            0 <= i < x.len() && i < y.len() && x.take(i) == y.take(i) && #[trigger] x[i] < y[i];
        lemma_big_endian_before(x, y, i);
    }
    if a.rank() < b.rank() {
        assert(x.take(0) =~= y.take(0));
        let i = lemma_first_difference(x, y, 0);
        if y[i] < x[i] {
            lemma_big_endian_before(y, x, i);
        }
        assert(x[i] < y[i]);
    }
}

impl Ranked for Pubkey {
    open spec fn rank(self) -> int {
        big_endian(self.bytes@)
    }

    proof fn rank_injective(a: Self, b: Self) {
        let x = a.bytes@;
        let y = b.bytes@;
        if x != y {
            assert(x.take(0) =~= y.take(0));
            let i = lemma_first_difference(x, y, 0);
            if x[i] < y[i] {
                lemma_big_endian_before(x, y, i);
            } else {
                lemma_big_endian_before(y, x, i);
            }
        }
        assert(a.bytes =~= b.bytes);
    }

    fn precedes(&self, other: &Self) -> (before: bool) {
        let mut i: usize = 0;
        while i < 32
            invariant
                0 <= i <= 32,
                self.bytes@.take(i as int) == other.bytes@.take(i as int),
            decreases 32 - i,
        {
            if self.bytes[i] != other.bytes[i] {
                let before = self.bytes[i] < other.bytes[i];
                proof {
                    if before {
                        lemma_big_endian_before(self.bytes@, other.bytes@, i as int);
                    } else {
                        lemma_big_endian_before(other.bytes@, self.bytes@, i as int);
                    }
                }
                return before;
            }
            proof {
                assert(self.bytes@.take(i + 1) =~= self.bytes@.take(i as int).push(
                    self.bytes@[i as int],
                ));
                assert(other.bytes@.take(i + 1) =~= other.bytes@.take(i as int).push(
                    other.bytes@[i as int],
                ));
            }
            i = i + 1;
        }
        proof {
            assert(self.bytes@ =~= self.bytes@.take(32));
            assert(other.bytes@ =~= other.bytes@.take(32));
        }
        false
    }

    fn same(&self, other: &Self) -> (equal: bool) {
        let mut i: usize = 0;
        while i < 32
            invariant
                0 <= i <= 32,
                forall|j: int| 0 <= j < i ==> self.bytes@[j] == other.bytes@[j],
            decreases 32 - i,
        {
            if self.bytes[i] != other.bytes[i] {
                return false;
            }
            i = i + 1;
        }
        assert(self.bytes =~= other.bytes);
        true
    }
}

impl Pubkey {
    pub fn new_from_array(bytes: [u8; 32]) -> (key: Self)
        ensures
            key.bytes == bytes,
    {
        Pubkey { bytes }
    }

    pub fn to_bytes(&self) -> (bytes: [u8; 32])
        ensures
            bytes == self.bytes,
    {
        self.bytes
    }
}

} // verus!
