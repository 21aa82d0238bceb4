//! Bit sequences, stored in a bit vector of the `bitvec` crate.

use vstd::prelude::*;
use bitvec::vec::BitVec;
use bitvec::order::Lsb0;

verus! {

/// A growable sequence of bits, kept in a `bitvec::vec::BitVec`. Its fields
/// are hidden from the verifier: all that is known of it is what the private
/// operations below state over [`bits_of`].
#[verifier::external_body]
pub struct Bits {
    inner: BitVec<usize, Lsb0>,
}

/// The bits that a bit vector holds, first to last.
pub uninterp spec fn bits_of(b: Bits) -> Seq<bool>;

impl View for Bits {
    type V = Seq<bool>;

    open spec fn view(&self) -> Seq<bool> {
        bits_of(*self)
    }
}

/// The largest number of bits that a bit vector can hold
/// (`BitSlice::MAX_BITS`: the top three bits of a length are not available).
pub open spec fn max_bits() -> int {
    usize::MAX as int / 8
}

/// `BitVec::new`: a bit vector without bits.
#[verifier::external_body]
pub(crate) fn bits_new() -> (b: Bits)
    ensures
        bits_of(b) == Seq::<bool>::empty(),
{
    Bits { inner: BitVec::new() }
}

/// `BitVec::len`: the number of bits held, never above `BitSlice::MAX_BITS`.
#[verifier::external_body]
pub(crate) fn bits_len(b: &Bits) -> (n: usize)
    ensures
        n == bits_of(*b).len(),
{
    b.inner.len()
}

/// `BitVec::push`: the bit is added at the end. The call panics where the new
/// length would exceed `BitSlice::MAX_BITS`, which `requires` rules out.
#[verifier::external_body]
pub(crate) fn bits_push(b: &mut Bits, value: bool)
    requires
        bits_of(*old(b)).len() < max_bits(),
    ensures
        bits_of(*final(b)) == bits_of(*old(b)).push(value),
{
    b.inner.push(value)
}

/// `BitVec::append`: all bits of `other` move to the end of `b`, in order, and
/// `other` is left without bits. The joint length must not exceed
/// `BitSlice::MAX_BITS`.
#[verifier::external_body]
pub(crate) fn bits_append(b: &mut Bits, other: &mut Bits)
    requires
        bits_of(*old(b)).len() + bits_of(*old(other)).len() <= max_bits(),
    ensures
        bits_of(*final(b)) == bits_of(*old(b)) + bits_of(*old(other)),
        bits_of(*final(other)) == Seq::<bool>::empty(),
{
    b.inner.append(&mut other.inner)
}

/// Indexing a `BitVec` with a `usize` (`Index::index`): the bit at position
/// `i`, which must lie within the vector.
#[verifier::external_body]
pub(crate) fn bits_get(b: &Bits, i: usize) -> (bit: bool)
    requires
        i < bits_of(*b).len(),
    ensures
        bit == bits_of(*b)[i as int],
{
    b.inner[i]
}

impl Bits {
    /// An empty bit sequence.
    pub fn new() -> (b: Bits)
        ensures
            b@ == Seq::<bool>::empty(),
    {
        bits_new()
    }

    /// The number of bits.
    pub fn len(&self) -> (n: usize)
        ensures
            n == self@.len(),
    {
        bits_len(self)
    }

    /// The bit at position `i`, or `None` where `i` is past the end.
    pub fn get(&self, i: usize) -> (bit: Option<bool>)
        ensures
            bit == (if i < self@.len() {
                Some(self@[i as int])
            } else {
                None
            }),
    {
        if i < bits_len(self) {
            Some(bits_get(self, i))
        } else {
            None
        }
    }

    /// Adds `bit` at the end and returns `true`; where the sequence is full
    /// already, leaves it as it is and returns `false`.
    pub fn push(&mut self, bit: bool) -> (pushed: bool)
        ensures
            pushed <==> old(self)@.len() < max_bits(),
            pushed ==> final(self)@ == old(self)@.push(bit),
            !pushed ==> final(self)@ == old(self)@,
    {
        if bits_len(self) < usize::MAX / 8 {
            bits_push(self, bit);
            true
        } else {
            false
        }
    }

    /// The bits as a vector of booleans.
    pub fn to_vec(&self) -> (v: Vec<bool>)
        ensures
            v@ == self@,
    {
        let n: usize = bits_len(self);
        let mut v: Vec<bool> = Vec::new();
        let mut i: usize = 0;
        while i < n
            invariant
                n == self@.len(),
                i <= n,
                v@ == self@.subrange(0, i as int),
            decreases n - i,
        {
            v.push(bits_get(self, i));
            assert(self@.subrange(0, i + 1) =~= self@.subrange(0, i as int).push(self@[i as int]));
            i += 1;
        }
        assert(self@.subrange(0, n as int) =~= self@);
        v
    }

    /// The bit sequence that holds the booleans of `v`, or `None` where they
    /// are more than a bit vector can hold.
    pub fn from_vec(v: &Vec<bool>) -> (b: Option<Bits>)
        ensures
            b is Some <==> v@.len() <= max_bits(),
            b is Some ==> b->0@ == v@,
    {
        if v.len() > usize::MAX / 8 {
            return None;
        }
        let mut b = bits_new();
        let mut i: usize = 0;
        while i < v.len()
            invariant
                v@.len() <= max_bits(),
                i <= v@.len(),
                b@ == v@.subrange(0, i as int),
            decreases v@.len() - i,
        {
            bits_push(&mut b, v[i]);
            assert(v@.subrange(0, i + 1) =~= v@.subrange(0, i as int).push(v@[i as int]));
            i += 1;
        }
        assert(v@.subrange(0, v@.len() as int) =~= v@);
        Some(b)
    }
}

} // verus!
