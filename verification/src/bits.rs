//! Vote records: one bit per validator of a session.
//!
//! A record is kept in a `BitVec` of the `bitvec` crate. Its contents are named
//! by [`bits`], and every operation on it that this library uses is stated over
//! that name.
use bitvec::order::Lsb0;
use bitvec::vec::BitVec;
use vstd::prelude::*;

verus! {

/// A record of votes: the i'th bit belongs to the i'th validator of the session.
#[verifier::external_body]
#[derive(PartialEq, Eq, Debug)]
pub struct VoteBits {
    inner: BitVec<Lsb0, u8>,
}

/// The bits that a record holds, in index order.
pub uninterp spec fn bits(v: VoteBits) -> Seq<bool>;

impl View for VoteBits {
    type V = Seq<bool>;

    open spec fn view(&self) -> Seq<bool> {
        bits(*self)
    }
}

/// The number of bits that are set.
pub open spec fn count(s: Seq<bool>) -> nat
    decreases s.len(),
{
    if s.len() == 0 {
        0
    } else {
        count(s.drop_last()) + (if s.last() {
            1nat
        } else {
            0nat
        })
    }
}

/// The indices of the bits that are set, in ascending order.
pub open spec fn ones(s: Seq<bool>) -> Seq<int>
    decreases s.len(),
{
    if s.len() == 0 {
        Seq::empty()
    } else if s.last() {
        ones(s.drop_last()).push(s.len() - 1)
    } else {
        ones(s.drop_last())
    }
}

/// `n` cleared bits.
pub open spec fn zeros(n: nat) -> Seq<bool> {
    Seq::new(n, |i: int| false)
}

/// Bitwise or, as long as `a`; where `b` ends early it counts as cleared.
pub open spec fn union(a: Seq<bool>, b: Seq<bool>) -> Seq<bool> {
    Seq::new(a.len(), |i: int| a[i] || (i < b.len() && b[i]))
}

/// Bitwise and, as long as `a`; where `b` ends early it counts as cleared.
pub open spec fn intersection(a: Seq<bool>, b: Seq<bool>) -> Seq<bool> {
    Seq::new(a.len(), |i: int| a[i] && i < b.len() && b[i])
}

/// Bitwise negation.
pub open spec fn complement(a: Seq<bool>) -> Seq<bool> {
    Seq::new(a.len(), |i: int| !a[i])
}

impl VoteBits {
    /// `BitVec::repeat` with a cleared bit: a record of `n` cleared bits. A
    /// `BitVec` holds at most `usize::MAX / 8` bits, and the call panics beyond
    /// that.
    #[verifier::external_body]
    pub(crate) fn repeat_cleared(n: usize) -> (r: VoteBits)
        requires
            n <= usize::MAX / 8,
        ensures
            bits(r) == zeros(n as nat),
    {
        VoteBits { inner: BitVec::repeat(false, n) }
    }

    /// `BitVec::len`: the number of bits. It never exceeds what a `BitVec` can
    /// hold, `usize::MAX / 8`.
    #[verifier::external_body]
    pub(crate) fn size(&self) -> (r: usize)
        ensures
            r == bits(*self).len(),
            r <= usize::MAX / 8,
    {
        self.inner.len()
    }

    /// `BitSlice::get` with a single index: the bit there, or `None` past the
    /// end.
    #[verifier::external_body]
    pub(crate) fn bit(&self, i: usize) -> (r: Option<bool>)
        ensures
            r == (if i < bits(*self).len() {
                Some(bits(*self)[i as int])
            } else {
                None
            }),
    {
        self.inner.get(i).map(|b| *b)
    }

    /// `BitSlice::set`: writes one bit. The call panics past the end.
    #[verifier::external_body]
    pub(crate) fn write(&mut self, i: usize, b: bool)
        requires
            i < bits(*old(self)).len(),
        ensures
            bits(*final(self)) == bits(*old(self)).update(i as int, b),
    {
        self.inner.set(i, b)
    }

    /// `BitSlice::count_ones`: the number of set bits.
    #[verifier::external_body]
    pub(crate) fn count_ones(&self) -> (r: usize)
        ensures
            r == count(bits(*self)),
    {
        self.inner.count_ones()
    }

    /// `BitSlice::iter_ones`, collected: the indices of the set bits, ascending.
    #[verifier::external_body]
    pub(crate) fn iter_ones(&self) -> (r: Vec<usize>)
        ensures
            r@.map_values(|i: usize| i as int) == ones(bits(*self)),
    {
        self.inner.iter_ones().collect()
    }

    /// `BitOrAssign` of a `BitSlice` with the bits of another: where the right
    /// side ends early, it supplies cleared bits.
    #[verifier::external_body]
    pub(crate) fn or_assign(&mut self, other: &VoteBits)
        ensures
            bits(*final(self)) == union(bits(*old(self)), bits(*other)),
    {
        *self.inner |= other.inner.iter().by_val();
    }

    /// `BitAndAssign` of a `BitSlice` with the bits of another: where the right
    /// side ends early, it supplies cleared bits.
    #[verifier::external_body]
    pub(crate) fn and_assign(&mut self, other: &VoteBits)
        ensures
            bits(*final(self)) == intersection(bits(*old(self)), bits(*other)),
    {
        *self.inner &= other.inner.iter().by_val();
    }

    /// `Not` of a `BitVec`: every bit negated.
    #[verifier::external_body]
    pub(crate) fn negated(self) -> (r: VoteBits)
        ensures
            bits(r) == complement(bits(self)),
    {
        VoteBits { inner: !self.inner }
    }

    /// `Clone` of a `BitVec`: a record of the same bits.
    #[verifier::external_body]
    pub(crate) fn duplicate(&self) -> (r: VoteBits)
        ensures
            bits(r) == bits(*self),
    {
        VoteBits { inner: self.inner.clone() }
    }

    /// The record that holds the given bits.
    pub fn from_bools(source: &Vec<bool>) -> (r: VoteBits)
        requires
            source.len() <= usize::MAX / 8,
        ensures
            r@ == source@,
    {
        let mut r = VoteBits::repeat_cleared(source.len());
        let mut i: usize = 0;
        while i < source.len()
            invariant
                i <= source.len(),
                r@.len() == source.len(),
                forall|j: int| 0 <= j < i ==> r@[j] == source@[j],
            decreases source.len() - i,
        {
            r.write(i, source[i]);
            i = i + 1;
        }
        r
    }

    /// The bits of the record, one `bool` each.
    pub fn to_bools(&self) -> (r: Vec<bool>)
        ensures
            r@ == self@,
    {
        let mut r: Vec<bool> = Vec::new();
        let n: usize = self.size();
        let mut i: usize = 0;
        while i < n
            invariant
                i <= n,
                n == self@.len(),
                r@ =~= self@.take(i as int),
            decreases n - i,
        {
            match self.bit(i) {
                Some(b) => r.push(b),
                None => {},
            }
            i = i + 1;
        }
        r
    }
}

impl Clone for VoteBits {
    fn clone(&self) -> (r: VoteBits)
        ensures
            r@ == self@,
    {
        self.duplicate()
    }
}

pub proof fn lemma_count_bounded(s: Seq<bool>)
    ensures
        count(s) <= s.len(),
    decreases s.len(),
{
    if s.len() > 0 {
        lemma_count_bounded(s.drop_last());
    }
}

/// Setting bits never lowers the count.
pub proof fn lemma_count_monotone(a: Seq<bool>, b: Seq<bool>)
    requires
        a.len() <= b.len(),
        forall|i: int| 0 <= i < a.len() && a[i] ==> b[i],
    ensures
        count(a) <= count(b),
    decreases b.len(),
{
    if b.len() > 0 {
        if a.len() == b.len() {
            lemma_count_monotone(a.drop_last(), b.drop_last());
        } else {
            lemma_count_monotone(a, b.drop_last());
        }
    }
}

/// Two records of one length overlap by what their counts exceed their union.
pub proof fn lemma_count_overlap(a: Seq<bool>, b: Seq<bool>)
    requires
        a.len() == b.len(),
    ensures
        count(a) + count(b) == count(union(a, b)) + count(intersection(a, b)),
    decreases a.len(),
{
    if a.len() > 0 {
        lemma_count_overlap(a.drop_last(), b.drop_last());
        assert(union(a, b).drop_last() =~= union(a.drop_last(), b.drop_last()));
        assert(intersection(a, b).drop_last() =~= intersection(a.drop_last(), b.drop_last()));
    }
}

/// `ones` lists exactly the set positions, each once and in ascending order.
pub proof fn lemma_ones(s: Seq<bool>)
    ensures
        ones(s).len() == count(s),
        forall|j: int| 0 <= j < ones(s).len() ==> 0 <= #[trigger] ones(s)[j] < s.len(),
        forall|j: int| 0 <= j < ones(s).len() ==> s[#[trigger] ones(s)[j]],
        forall|j: int, k: int| 0 <= j < k < ones(s).len() ==> ones(s)[j] < ones(s)[k],
        forall|i: int| 0 <= i < s.len() && s[i] ==> ones(s).contains(i),
    decreases s.len(),
{
    if s.len() > 0 {
        let t = s.drop_last();
        lemma_ones(t);
        assert forall|i: int| 0 <= i < s.len() && s[i] implies ones(s).contains(i) by {
            if i < t.len() {
                assert(t[i]);
                let j = choose|j: int| 0 <= j < ones(t).len() && ones(t)[j] == i;
                assert(ones(s)[j] == i);
            } else {
                assert(ones(s)[ones(s).len() - 1] == i);
            }
        }
    }
}

} // verus!
