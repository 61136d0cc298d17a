//! The bitmap of the pieces a client holds, with the count of pieces
//! downloaded so far.

use vstd::prelude::*;

use bit_vec::BitVec;

verus! {

// ----- outside: bit_vec::BitVec -----

#[verifier::external_type_specification]
#[verifier::external_body]
#[verifier::reject_recursive_types(B)]
pub struct ExBitVec<B = u32>(BitVec<B>);

/// The bits a `BitVec` holds, first bit first.
pub uninterp spec fn bitvec_bits(v: BitVec) -> Seq<bool>;

/// Bit `k` of `bits` as 0 or 1; 0 past the end.
pub open spec fn bit_at(bits: Seq<bool>, k: int) -> int {
    if 0 <= k < bits.len() && bits[k] {
        1
    } else {
        0
    }
}

/// Byte `i` of the packed bits: bit `8i` is its high-order bit, bit `8i + 7`
/// its low-order one.
pub open spec fn packed_byte(bits: Seq<bool>, i: int) -> u8 {
    (bit_at(bits, 8 * i) * 128 + bit_at(bits, 8 * i + 1) * 64 + bit_at(bits, 8 * i + 2) * 32 + bit_at(bits, 8 * i + 3)
        * 16 + bit_at(bits, 8 * i + 4) * 8 + bit_at(bits, 8 * i + 5) * 4 + bit_at(bits, 8 * i + 6) * 2 + bit_at(
        bits,
        8 * i + 7,
    )) as u8
}

/// The bits packed into bytes, eight to a byte, high-order bit first; a
/// last partial byte is filled with zero bits.
pub open spec fn pack_bits(bits: Seq<bool>) -> Seq<u8> {
    Seq::new(((bits.len() + 7) / 8) as nat, |i: int| packed_byte(bits, i))
}

/// `BitVec::from_elem`: `nbits` bits, each equal to `bit`.
#[verifier::external_body]
fn bitvec_from_elem(nbits: usize, bit: bool) -> (v: BitVec)
    ensures
        bitvec_bits(v) == Seq::new(nbits as nat, |_i: int| bit),
{
    BitVec::from_elem(nbits, bit)
}

/// `BitVec::set`: bit `i` becomes `x`; it panics when `i` is out of bounds.
#[verifier::external_body]
fn bitvec_set(v: &mut BitVec, i: usize, x: bool)
    requires
        i < bitvec_bits(*old(v)).len(),
    ensures
        bitvec_bits(*final(v)) == bitvec_bits(*old(v)).update(i as int, x),
{
    v.set(i, x)
}

/// `BitVec::get`: bit `i`, or nothing when `i` is out of bounds.
#[verifier::external_body]
fn bitvec_get(v: &BitVec, i: usize) -> (r: Option<bool>)
    ensures
        r == if i < bitvec_bits(*v).len() {
            Some(bitvec_bits(*v)[i as int])
        } else {
            None::<bool>
        },
{
    v.get(i)
}

/// `BitVec::to_bytes`: the bits packed into bytes, high-order bit first, the
/// last byte filled with zero bits.
#[verifier::external_body]
fn bitvec_to_bytes(v: &BitVec) -> (r: Vec<u8>)
    ensures
        r@ == pack_bits(bitvec_bits(*v)),
{
    v.to_bytes()
}

// ----- the bitmap -----

/// Which pieces are held, and how many pieces have been recorded.
#[derive(Debug)]
pub struct Bitmap {
    vec: BitVec,
    size: usize,
    len: usize,
}

impl Bitmap {
    #[verifier::type_invariant]
    spec fn inv(self) -> bool {
        bitvec_bits(self.vec).len() == self.size
    }

    /// Bit `i` tells whether piece `i` is held.
    pub closed spec fn bits(self) -> Seq<bool> {
        bitvec_bits(self.vec)
    }

    /// The number of bits: the number of pieces.
    pub open spec fn spec_size(self) -> nat {
        self.bits().len()
    }

    /// How many pieces have been recorded.
    pub closed spec fn spec_len(self) -> usize {
        self.len
    }

    /// A bitmap of `size` bits, none set, nothing recorded.
    pub fn new(size: usize) -> (b: Bitmap)
        ensures
            b.bits() == Seq::new(size as nat, |_i: int| false),
            b.spec_size() == size,
            b.spec_len() == 0,
    {
        Bitmap { vec: bitvec_from_elem(size, false), size, len: 0 }
    }

    /// The bits packed into bytes, high-order bit first.
    pub fn to_bytes(&self) -> (r: Vec<u8>)
        ensures
            r@ == pack_bits(self.bits()),
    {
        bitvec_to_bytes(&self.vec)
    }

    /// Records piece `idx`: its bit is set and the count goes up by one
    /// (also when the bit was set already).
    pub fn set(&mut self, idx: usize)
        requires
            idx < old(self).spec_size(),
            old(self).spec_len() < usize::MAX,
        ensures
            final(self).bits() == old(self).bits().update(idx as int, true),
            final(self).spec_size() == old(self).spec_size(),
            final(self).spec_len() == old(self).spec_len() + 1,
    {
        let mut taken = Bitmap::new(0);
        std::mem::swap(&mut taken, self);
        proof {
            use_type_invariant(&taken);
        }
        let Bitmap { mut vec, size, len } = taken;
        bitvec_set(&mut vec, idx, true);
        *self = Bitmap { vec, size, len: len + 1 };
    }

    /// Whether piece `id` is held.
    pub fn have(&self, id: usize) -> (r: bool)
        requires
            id < self.spec_size(),
        ensures
            r == self.bits()[id as int],
    {
        proof {
            use_type_invariant(self);
        }
        match bitvec_get(&self.vec, id) {
            Some(b) => b,
            None => false,
        }
    }

    /// The number of bits.
    pub fn size(&self) -> (r: usize)
        ensures
            r == self.spec_size(),
    {
        proof {
            use_type_invariant(self);
        }
        self.size
    }

    /// How many pieces have been recorded.
    pub fn len(&self) -> (r: usize)
        ensures
            r == self.spec_len(),
    {
        self.len
    }

    /// How many pieces are still missing.
    pub fn left(&self) -> (r: usize)
        requires
            self.spec_len() <= self.spec_size(),
        ensures
            r == self.spec_size() - self.spec_len(),
    {
        proof {
            use_type_invariant(self);
        }
        self.size - self.len
    }
}

/// Recording piece `i` (the state `set` leaves: `after` from `before`): piece
/// `i` is then held, every other piece is held exactly when it was before,
/// and one piece fewer is missing.
pub proof fn lemma_set_then_have(before: Bitmap, after: Bitmap, i: int, j: int)
    requires
        0 <= i < before.bits().len(),
        0 <= j < before.bits().len(),
        before.spec_len() < before.spec_size(),
        after.bits() == before.bits().update(i, true),
        after.spec_size() == before.spec_size(),
        after.spec_len() == before.spec_len() + 1,
    ensures
        after.bits()[j] == (j == i || before.bits()[j]),
        after.spec_size() - after.spec_len() == before.spec_size() - before.spec_len() - 1,
{
}

} // verus!
