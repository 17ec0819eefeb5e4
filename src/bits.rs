//! Bit rows of the partition matrix, kept in `bitvec_simd::BitVec`.
//!
//! The vector itself is opaque to the verifier; what it holds is named by
//! `bits_of`, and each method the index uses has a contract over that name.
use vstd::prelude::*;

verus! {

/// A row of bits, one per data point (or per point of a block).
///
/// `bitvec_simd::BitVec` is held in a field rather than declared to the
/// verifier directly: the declaration would have to repeat the vector's
/// bounds, which name a trait of `smallvec`.
#[verifier::external_body]
pub struct Bits {
    inner: bitvec_simd::BitVec,
}

/// The bits a row holds, in position order.
pub uninterp spec fn bits_of(b: Bits) -> Seq<bool>;

/// Whether the storage past the last bit is all zeros, so that whole-storage
/// counts equal counts over the row.
pub uninterp spec fn tail_clear(b: Bits) -> bool;

/// Number of `true` entries in a sequence.
pub open spec fn count_true(s: Seq<bool>) -> nat
    decreases s.len(),
{
    if s.len() == 0 {
        0
    } else {
        count_true(s.drop_last()) + if s.last() { 1nat } else { 0nat }
    }
}

/// `r` lists, in strictly increasing order, exactly the positions where `s` is `true`.
pub open spec fn lists_true_positions(r: Seq<usize>, s: Seq<bool>) -> bool {
    &&& forall|j: int, l: int| 0 <= j < l < r.len() ==> r[j] < r[l]
    &&& forall|j: int| 0 <= j < r.len() ==> r[j] < s.len() && s[r[j] as int]
    &&& forall|i: int| 0 <= i < s.len() && s[i] ==> exists|j: int| 0 <= j < r.len() && r[j] == i
}

/// `r` lists, in strictly increasing order, exactly the positions below `z`
/// where `s` is `true`.
pub open spec fn lists_true_below(r: Seq<usize>, s: Seq<bool>, z: int) -> bool {
    &&& forall|j: int, l: int| 0 <= j < l < r.len() ==> r[j] < r[l]
    &&& forall|j: int| 0 <= j < r.len() ==> r[j] < z && s[r[j] as int]
    &&& forall|i: int| 0 <= i < z && s[i] ==> exists|j: int| 0 <= j < r.len() && r[j] == i
}

/// Looking at one more position keeps the list exact: it grows by that
/// position when `s` is `true` there.
pub proof fn lemma_true_below_step(r: Seq<usize>, s: Seq<bool>, z: int)
    requires
        lists_true_below(r, s, z),
        0 <= z < s.len(),
        z <= usize::MAX,
    ensures
        lists_true_below(if s[z] { r.push(z as usize) } else { r }, s, z + 1),
{
    let r2 = if s[z] { r.push(z as usize) } else { r };
    assert forall|i: int| 0 <= i < z + 1 && s[i] implies exists|j: int| 0 <= j < r2.len() && r2[j] == i by {
        if i < z {
            let j = choose|j: int| 0 <= j < r.len() && r[j] == i;
            assert(r2[j] == i);
        } else {
            assert(r2[r.len() as int] == i);
        }
    }
}

/// Below the full length, the list is the list of all true positions.
pub proof fn lemma_true_below_full(r: Seq<usize>, s: Seq<bool>)
    requires
        lists_true_below(r, s, s.len() as int),
    ensures
        lists_true_positions(r, s),
{
}

impl Bits {
    /// Relies on `BitVec::zeros`: `n` bits, all zero, storage zeroed.
    #[verifier::external_body]
    pub(crate) fn zeros(n: usize) -> (r: Bits)
        ensures
            bits_of(r) == Seq::new(n as nat, |i: int| false),
            tail_clear(r),
    {
        Bits { inner: bitvec_simd::BitVec::zeros(n) }
    }

    /// Relies on `BitVec::ones`: `n` bits, all one.
    #[verifier::external_body]
    pub(crate) fn ones(n: usize) -> (r: Bits)
        ensures
            bits_of(r) == Seq::new(n as nat, |i: int| true),
    {
        Bits { inner: bitvec_simd::BitVec::ones(n) }
    }

    /// Relies on `BitVec::from_bool_iterator`: one bit per item, in order,
    /// with the storage past the last bit left zero.
    #[verifier::external_body]
    pub(crate) fn from_bools(v: &Vec<bool>) -> (r: Bits)
        ensures
            bits_of(r) == v@,
            tail_clear(r),
    {
        Bits { inner: bitvec_simd::BitVec::from_bool_iterator(v.iter().copied()) }
    }

    /// Relies on `BitVec::and_inplace`: bitwise and, lane by lane
    /// (it panics on rows of different lengths).
    #[verifier::external_body]
    pub(crate) fn and_with(&mut self, other: &Bits)
        requires
            bits_of(*old(self)).len() == bits_of(*other).len(),
        ensures
            bits_of(*final(self)) == Seq::new(
                bits_of(*old(self)).len(),
                |i: int| bits_of(*old(self))[i] && bits_of(*other)[i],
            ),
    {
        self.inner.and_inplace(&other.inner)
    }

    /// Relies on `BitVec::or_inplace`: bitwise or, lane by lane
    /// (it panics on rows of different lengths).
    #[verifier::external_body]
    pub(crate) fn or_with(&mut self, other: &Bits)
        requires
            bits_of(*old(self)).len() == bits_of(*other).len(),
        ensures
            bits_of(*final(self)) == Seq::new(
                bits_of(*old(self)).len(),
                |i: int| bits_of(*old(self))[i] || bits_of(*other)[i],
            ),
    {
        self.inner.or_inplace(&other.inner)
    }

    /// Relies on `BitVec::inverse`: every bit of the row flipped.
    #[verifier::external_body]
    pub(crate) fn inverse(&self) -> (r: Bits)
        ensures
            bits_of(r) == Seq::new(bits_of(*self).len(), |i: int| !bits_of(*self)[i]),
    {
        Bits { inner: self.inner.inverse() }
    }

    /// Relies on `BitVec::xor_cloned`: bitwise exclusive or, lane by lane;
    /// zero storage past the end stays zero.
    #[verifier::external_body]
    pub(crate) fn xor(&self, other: &Bits) -> (r: Bits)
        requires
            bits_of(*self).len() == bits_of(*other).len(),
        ensures
            bits_of(r) == Seq::new(
                bits_of(*self).len(),
                |i: int| bits_of(*self)[i] != bits_of(*other)[i],
            ),
            tail_clear(*self) && tail_clear(*other) ==> tail_clear(r),
    {
        Bits { inner: self.inner.xor_cloned(&other.inner) }
    }

    /// Relies on `BitVec::count_ones`: the ones of the whole storage, summed
    /// in a `u32`.
    #[verifier::external_body]
    pub(crate) fn count_ones(&self) -> (r: usize)
        requires
            tail_clear(*self),
            bits_of(*self).len() <= u32::MAX,
        ensures
            r == count_true(bits_of(*self)),
    {
        self.inner.count_ones()
    }

    /// Relies on `BitVec::into_usizes`: the positions of the set bits below
    /// the length, in increasing order.
    #[verifier::external_body]
    pub(crate) fn into_positions(self) -> (r: Vec<usize>)
        ensures
            lists_true_positions(r@, bits_of(self)),
    {
        self.inner.into_usizes()
    }

    /// Relies on `BitVec`'s derived `Clone`: same storage, same length.
    #[verifier::external_body]
    pub(crate) fn copy(&self) -> (r: Bits)
        ensures
            bits_of(r) == bits_of(*self),
            tail_clear(r) == tail_clear(*self),
    {
        Bits { inner: self.inner.clone() }
    }
}

} // verus!
