//! The membership grid: one bit per cell, held in a `bitvec` bit-vector.
use vstd::prelude::*;
use bitvec::vec::BitVec;

verus! {

/// A row-major grid of membership bits.
///
/// `BitVec`'s declaration carries bounds on traits of its own crate, so the
/// vector is held here, out of Verus's sight, and read through `bits_of`.
#[verifier::external_body]
pub struct Bits {
    v: BitVec,
}

/// The bits that a `Bits` holds, in order.
pub uninterp spec fn bits_of(b: Bits) -> Seq<bool>;

/// The number of `true` entries of `s`.
pub open spec fn count_true(s: Seq<bool>) -> nat
    decreases s.len(),
{
    if s.len() == 0 {
        0
    } else {
        count_true(s.drop_last()) + if s.last() { 1nat } else { 0nat }
    }
}

/// Writing one entry changes the count by what was written less what was there.
pub proof fn lemma_count_update(s: Seq<bool>, i: int, b: bool)
    requires
        0 <= i < s.len(),
    ensures
        count_true(s.update(i, b)) == count_true(s) + (if b { 1int } else { 0int }) - (if s[i] { 1int } else { 0int }),
    decreases s.len(),
{
    let u = s.update(i, b);
    if i == s.len() - 1 {
        assert(u.drop_last() =~= s.drop_last());
    } else {
        lemma_count_update(s.drop_last(), i, b);
        assert(u.drop_last() =~= s.drop_last().update(i, b));
    }
}

/// The count is at most the length; it is zero exactly when no entry is
/// `true`, and the length exactly when every entry is.
pub proof fn lemma_count_bounds(s: Seq<bool>)
    ensures
        count_true(s) <= s.len(),
        count_true(s) == 0 <==> forall|i: int| 0 <= i < s.len() ==> !#[trigger] s[i],
        count_true(s) == s.len() <==> forall|i: int| 0 <= i < s.len() ==> #[trigger] s[i],
    decreases s.len(),
{
    if s.len() > 0 {
        let t = s.drop_last();
        lemma_count_bounds(t);
        assert(forall|i: int| 0 <= i < t.len() ==> #[trigger] t[i] == s[i]);
        if count_true(s) == 0 {
            assert forall|i: int| 0 <= i < s.len() implies !#[trigger] s[i] by {
                if i < t.len() {
                    assert(!t[i]);
                }
            }
        }
        if count_true(s) == s.len() {
            assert forall|i: int| 0 <= i < s.len() implies #[trigger] s[i] by {
                if i < t.len() {
                    assert(t[i]);
                }
            }
        }
        if forall|i: int| 0 <= i < s.len() ==> !#[trigger] s[i] {
            assert(!s[s.len() - 1]);
            assert forall|i: int| 0 <= i < t.len() implies !#[trigger] t[i] by {
                assert(!s[i]);
            }
        }
        if forall|i: int| 0 <= i < s.len() ==> #[trigger] s[i] {
            assert(s[s.len() - 1]);
            assert forall|i: int| 0 <= i < t.len() implies #[trigger] t[i] by {
                assert(s[i]);
            }
        }
    }
}

impl Bits {
    pub open spec fn view(&self) -> Seq<bool> {
        bits_of(*self)
    }

    /// Relies on `BitVec::repeat`: a vector of `len` copies of `false`.
    #[verifier::external_body]
    pub(crate) fn zeros(len: usize) -> (r: Bits)
        ensures
            bits_of(r) == Seq::new(len as nat, |_i: int| false),
    {
        Bits { v: BitVec::repeat(false, len) }
    }

    /// Relies on `BitVec::len`: the number of bits held.
    #[verifier::external_body]
    pub(crate) fn len(&self) -> (r: usize)
        ensures
            r == bits_of(*self).len(),
    {
        self.v.len()
    }

    /// Relies on indexing a `BitSlice` by `usize`: the bit at `i`.
    #[verifier::external_body]
    pub(crate) fn get(&self, i: usize) -> (r: bool)
        requires
            i < bits_of(*self).len(),
        ensures
            r == bits_of(*self)[i as int],
    {
        self.v[i]
    }

    /// Relies on `BitSlice::set`: writes one bit and leaves the others.
    #[verifier::external_body]
    pub(crate) fn set(&mut self, i: usize, value: bool)
        requires
            i < bits_of(*old(self)).len(),
        ensures
            bits_of(*final(self)) == bits_of(*old(self)).update(i as int, value),
    {
        self.v.set(i, value)
    }

    /// Relies on `BitSlice::count_ones`: the number of set bits.
    #[verifier::external_body]
    pub(crate) fn count_ones(&self) -> (r: usize)
        ensures
            r == count_true(bits_of(*self)),
    {
        self.v.count_ones()
    }

    /// Relies on `BitVec`'s `Clone`: a vector with the same bits.
    #[verifier::external_body]
    pub(crate) fn copy(&self) -> (r: Bits)
        ensures
            bits_of(r) == bits_of(*self),
    {
        Bits { v: self.v.clone() }
    }
}

} // verus!
