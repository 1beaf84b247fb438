//! 160-bit node identifiers and their XOR-metric primitives.
//!
//! A `SubotaiHash` is a fixed-width unsigned integer of `HASH_SIZE` bits,
//! stored least-significant bit first. The routing table and the storage
//! derive bucket indices and entry lifetimes from the *height* of an XOR
//! distance: one plus the position of its most significant set bit, or zero
//! for the zero hash.

use vstd::prelude::*;

verus! {

/// Width of a node identifier in bits, and the number of buckets in a table.
pub const HASH_SIZE: usize = 160;

/// A 160-bit identifier in the DHT's key space.
#[derive(Debug)]
pub struct SubotaiHash {
    bits: Vec<bool>,
}

impl Clone for SubotaiHash {
    fn clone(&self) -> (r: Self)
        ensures
            r@ == self@,
    {
        SubotaiHash { bits: self.bits.clone() }
    }
}

impl View for SubotaiHash {
    type V = Seq<bool>;

    closed spec fn view(&self) -> Seq<bool> {
        self.bits@
    }
}

/// One plus the position of the most significant set bit; zero when no bit
/// is set.
pub open spec fn height_of(s: Seq<bool>) -> nat
    decreases s.len(),
{
    if s.len() == 0 {
        0
    } else if s.last() {
        s.len()
    } else {
        height_of(s.drop_last())
    }
}

/// Bitwise exclusive or of two bit sequences of equal length.
pub open spec fn xor_of(a: Seq<bool>, b: Seq<bool>) -> Seq<bool> {
    Seq::new(a.len(), |i: int| a[i] != b[i])
}

/// Numeric "less than" on bit sequences of equal length: the sequences
/// differ, and at the highest differing position the left one is clear.
pub open spec fn seq_lt(a: Seq<bool>, b: Seq<bool>) -> bool
    decreases a.len(),
{
    if a.len() == 0 || b.len() == 0 {
        false
    } else if a.last() != b.last() {
        b.last()
    } else {
        seq_lt(a.drop_last(), b.drop_last())
    }
}

/// Numeric "less than or equal" on bit sequences of equal length.
pub open spec fn seq_le(a: Seq<bool>, b: Seq<bool>) -> bool {
    !seq_lt(b, a)
}

impl SubotaiHash {
    /// A hash is well formed when it holds exactly `HASH_SIZE` bits.
    pub open spec fn wf(&self) -> bool {
        self@.len() == HASH_SIZE
    }

    /// The all-zero identifier.
    pub fn blank() -> (r: Self)
        ensures
            r.wf(),
            forall|k: int| 0 <= k < HASH_SIZE ==> !r@[k],
    {
        let mut bits: Vec<bool> = Vec::new();
        let mut i: usize = 0;
        while i < HASH_SIZE
            invariant
                i <= HASH_SIZE,
                bits@.len() == i,
                forall|k: int| 0 <= k < i ==> !bits@[k],
            decreases HASH_SIZE - i,
        {
            bits.push(false);
            i += 1;
        }
        SubotaiHash { bits }
    }

    /// Reads the bit at a position.
    pub fn bit(&self, position: usize) -> (r: bool)
        requires
            self.wf(),
            position < HASH_SIZE,
        ensures
            r == self@[position as int],
    {
        self.bits[position]
    }

    /// Sets the bit at a position.
    pub fn set_bit(&mut self, position: usize)
        requires
            old(self).wf(),
            position < HASH_SIZE,
        ensures
            final(self).wf(),
            final(self)@ == old(self)@.update(position as int, true),
    {
        self.bits.set(position, true);
    }

    /// Bitwise exclusive or: the XOR distance between two identifiers.
    pub fn xor(&self, other: &Self) -> (r: Self)
        requires
            self.wf(),
            other.wf(),
        ensures
            r.wf(),
            r@ == xor_of(self@, other@),
    {
        let mut bits: Vec<bool> = Vec::new();
        let mut i: usize = 0;
        while i < HASH_SIZE
            invariant
                i <= HASH_SIZE,
                self.wf(),
                other.wf(),
                bits@.len() == i,
                forall|k: int| 0 <= k < i ==> bits@[k] == (self@[k] != other@[k]),
            decreases HASH_SIZE - i,
        {
            bits.push(self.bits[i] != other.bits[i]);
            i += 1;
        }
        let r = SubotaiHash { bits };
        proof {
            assert(r@ =~= xor_of(self@, other@));
        }
        r
    }

    /// One plus the position of the most significant set bit, or zero for
    /// the zero hash.
    pub fn height(&self) -> (r: usize)
        requires
            self.wf(),
        ensures
            r == height_of(self@),
            r <= HASH_SIZE,
    {
        proof {
            lemma_height_properties(self@);
        }
        let mut i: usize = HASH_SIZE;
        while i > 0
            invariant
                i <= HASH_SIZE,
                self.wf(),
                forall|k: int| i <= k < HASH_SIZE ==> !self@[k],
            decreases i,
        {
            i -= 1;
            if self.bits[i] {
                proof {
                    lemma_height_unique(self@, i as int);
                }
                return i + 1;
            }
        }
        assert(height_of(self@) == 0) by {
            if height_of(self@) > 0 {
                assert(self@[height_of(self@) - 1]);
            }
        }
        0
    }

    /// Ascending positions of the set bits.
    pub fn ones(&self) -> (r: Vec<usize>)
        requires
            self.wf(),
        ensures
            forall|j: int| 0 <= j < r@.len() ==> r@[j] < HASH_SIZE && self@[r@[j] as int],
            forall|j1: int, j2: int| 0 <= j1 < j2 < r@.len() ==> r@[j1] < r@[j2],
            forall|p: int| 0 <= p < HASH_SIZE && self@[p] ==> exists|j: int|
                0 <= j < r@.len() && r@[j] == p,
    {
        let mut r: Vec<usize> = Vec::new();
        let mut i: usize = 0;
        while i < HASH_SIZE
            invariant
                i <= HASH_SIZE,
                self.wf(),
                forall|j: int| 0 <= j < r@.len() ==> r@[j] < i && self@[r@[j] as int],
                forall|j1: int, j2: int| 0 <= j1 < j2 < r@.len() ==> r@[j1] < r@[j2],
                forall|p: int| 0 <= p < i && self@[p] ==> exists|j: int|
                    0 <= j < r@.len() && r@[j] == p,
            decreases HASH_SIZE - i,
        {
            let ghost r0 = r@;
            if self.bits[i] {
                r.push(i);
            }
            proof {
                assert forall|p: int| 0 <= p <= i && self@[p] implies exists|j: int|
                    0 <= j < r@.len() && r@[j] == p by {
                    if p == i {
                        assert(r@[r0.len() as int] == i);
                    } else {
                        let j = choose|j: int| 0 <= j < r0.len() && r0[j] == p;
                        assert(r@[j] == p);
                    }
                }
            }
            i += 1;
        }
        r
    }

    /// Ascending positions of the cleared bits.
    pub fn zeroes(&self) -> (r: Vec<usize>)
        requires
            self.wf(),
        ensures
            forall|j: int| 0 <= j < r@.len() ==> r@[j] < HASH_SIZE && !self@[r@[j] as int],
            forall|j1: int, j2: int| 0 <= j1 < j2 < r@.len() ==> r@[j1] < r@[j2],
            forall|p: int| 0 <= p < HASH_SIZE && !self@[p] ==> exists|j: int|
                0 <= j < r@.len() && r@[j] == p,
    {
        let mut r: Vec<usize> = Vec::new();
        let mut i: usize = 0;
        while i < HASH_SIZE
            invariant
                i <= HASH_SIZE,
                self.wf(),
                forall|j: int| 0 <= j < r@.len() ==> r@[j] < i && !self@[r@[j] as int],
                forall|j1: int, j2: int| 0 <= j1 < j2 < r@.len() ==> r@[j1] < r@[j2],
                forall|p: int| 0 <= p < i && !self@[p] ==> exists|j: int|
                    0 <= j < r@.len() && r@[j] == p,
            decreases HASH_SIZE - i,
        {
            let ghost r0 = r@;
            if !self.bits[i] {
                r.push(i);
            }
            proof {
                assert forall|p: int| 0 <= p <= i && !self@[p] implies exists|j: int|
                    0 <= j < r@.len() && r@[j] == p by {
                    if p == i {
                        assert(r@[r0.len() as int] == i);
                    } else {
                        let j = choose|j: int| 0 <= j < r0.len() && r0[j] == p;
                        assert(r@[j] == p);
                    }
                }
            }
            i += 1;
        }
        r
    }

    /// Numeric comparison of two identifiers.
    pub fn less(&self, other: &Self) -> (r: bool)
        requires
            self.wf(),
            other.wf(),
        ensures
            r == seq_lt(self@, other@),
    {
        let mut i: usize = HASH_SIZE;
        while i > 0
            invariant
                i <= HASH_SIZE,
                self.wf(),
                other.wf(),
                forall|k: int| i <= k < HASH_SIZE ==> self@[k] == other@[k],
            decreases i,
        {
            i -= 1;
            if self.bits[i] != other.bits[i] {
                proof {
                    lemma_lt_determined(self@, other@, i as int);
                }
                return other.bits[i];
            }
        }
        proof {
            lemma_lt_of_equal(self@, other@);
        }
        false
    }

    /// A uniformly random identifier.
    pub fn random() -> (r: Self)
        ensures
            r.wf(),
    {
        let mut bits: Vec<bool> = Vec::new();
        let mut i: usize = 0;
        while i < HASH_SIZE
            invariant
                i <= HASH_SIZE,
                bits@.len() == i,
            decreases HASH_SIZE - i,
        {
            bits.push(random_bool());
            i += 1;
        }
        SubotaiHash { bits }
    }

    /// A random identifier whose XOR distance to `self` has height exactly
    /// `height`: bits above `height - 1` agree with `self`, the bit at
    /// `height - 1` is flipped, and the bits below are random.
    pub fn random_at_distance(&self, height: usize) -> (r: Self)
        requires
            self.wf(),
            1 <= height <= HASH_SIZE,
        ensures
            r.wf(),
            height_of(xor_of(self@, r@)) == height,
    {
        let flipped: usize = height - 1;
        let mut bits: Vec<bool> = Vec::new();
        let mut i: usize = 0;
        while i < HASH_SIZE
            invariant
                i <= HASH_SIZE,
                self.wf(),
                flipped < HASH_SIZE,
                bits@.len() == i,
                forall|k: int| 0 <= k < i && k > flipped ==> bits@[k] == self@[k],
                flipped < i ==> bits@[flipped as int] != self@[flipped as int],
            decreases HASH_SIZE - i,
        {
            if i > flipped {
                bits.push(self.bits[i]);
            } else if i == flipped {
                bits.push(!self.bits[i]);
            } else {
                bits.push(random_bool());
            }
            i += 1;
        }
        let r = SubotaiHash { bits };
        proof {
            let d = xor_of(self@, r@);
            assert(d[flipped as int]);
            assert(forall|k: int| flipped < k < HASH_SIZE ==> !d[k]);
            lemma_height_unique(d, flipped as int);
        }
        r
    }
}

impl PartialEq for SubotaiHash {
    fn eq(&self, other: &Self) -> (r: bool) {
        if self.bits.len() != other.bits.len() {
            return false;
        }
        let n: usize = self.bits.len();
        let mut i: usize = 0;
        while i < n
            invariant
                i <= n,
                n == self.bits@.len(),
                n == other.bits@.len(),
                forall|k: int| 0 <= k < i ==> self.bits@[k] == other.bits@[k],
            decreases n - i,
        {
            if self.bits[i] != other.bits[i] {
                return false;
            }
            i += 1;
        }
        proof {
            assert(self.bits@ =~= other.bits@);
        }
        true
    }
}

impl Eq for SubotaiHash {}

impl vstd::std_specs::cmp::PartialEqSpecImpl for SubotaiHash {
    open spec fn obeys_eq_spec() -> bool {
        true
    }

    open spec fn eq_spec(&self, other: &Self) -> bool {
        self@ =~= other@
    }
}

/// The height of a bit sequence points at its most significant set bit:
/// every bit at or above the height is clear, and for a positive height the
/// bit just below it is set.
pub proof fn lemma_height_properties(s: Seq<bool>)
    ensures
        height_of(s) <= s.len(),
        height_of(s) > 0 ==> s[height_of(s) - 1],
        forall|k: int| height_of(s) <= k < s.len() ==> !s[k],
    decreases s.len(),
{
    if s.len() > 0 && !s.last() {
        lemma_height_properties(s.drop_last());
        assert(forall|k: int| 0 <= k < s.len() - 1 ==> s[k] == s.drop_last()[k]);
    }
}

/// A sequence with one set bit and nothing above it has height one more
/// than that bit's position.
pub proof fn lemma_height_unique(s: Seq<bool>, m: int)
    requires
        0 <= m < s.len(),
        s[m],
        forall|k: int| m < k < s.len() ==> !s[k],
    ensures
        height_of(s) == m + 1,
{
    lemma_height_properties(s);
    let h = height_of(s);
    if h > m + 1 {
        assert(!s[h - 1]);
    }
    if h <= m {
        assert(!s[m]);
    }
}

/// When two equal-length sequences agree strictly above a position where
/// they differ, that position decides the comparison.
pub proof fn lemma_lt_determined(a: Seq<bool>, b: Seq<bool>, m: int)
    requires
        a.len() == b.len(),
        0 <= m < a.len(),
        a[m] != b[m],
        forall|k: int| m < k < a.len() ==> a[k] == b[k],
    ensures
        seq_lt(a, b) == b[m],
    decreases a.len(),
{
    if m == a.len() - 1 {
    } else {
        assert(forall|k: int| 0 <= k < a.len() - 1 && m < k ==> a.drop_last()[k]
            == b.drop_last()[k]);
        lemma_lt_determined(a.drop_last(), b.drop_last(), m);
    }
}

/// Pointwise equal sequences compare as neither less nor greater.
pub proof fn lemma_lt_of_equal(a: Seq<bool>, b: Seq<bool>)
    requires
        a.len() == b.len(),
        forall|k: int| 0 <= k < a.len() ==> a[k] == b[k],
    ensures
        !seq_lt(a, b),
        !seq_lt(b, a),
    decreases a.len(),
{
    if a.len() > 0 {
        assert(forall|k: int| 0 <= k < a.len() - 1 ==> a.drop_last()[k] == b.drop_last()[k]);
        lemma_lt_of_equal(a.drop_last(), b.drop_last());
    }
}

/// `seq_lt` is transitive on equal-length sequences.
pub proof fn lemma_lt_trans(a: Seq<bool>, b: Seq<bool>, c: Seq<bool>)
    requires
        a.len() == b.len(),
        b.len() == c.len(),
        seq_lt(a, b),
        seq_lt(b, c),
    ensures
        seq_lt(a, c),
    decreases a.len(),
{
    if a.len() > 0 {
        if a.last() == b.last() && b.last() == c.last() {
            lemma_lt_trans(a.drop_last(), b.drop_last(), c.drop_last());
        }
    }
}

/// On equal-length sequences, exactly one of "less", "greater" and
/// "pointwise equal" holds.
pub proof fn lemma_lt_connex(a: Seq<bool>, b: Seq<bool>)
    requires
        a.len() == b.len(),
    ensures
        seq_lt(a, b) || seq_lt(b, a) || a =~= b,
        !(seq_lt(a, b) && seq_lt(b, a)),
    decreases a.len(),
{
    if a.len() > 0 {
        lemma_lt_connex(a.drop_last(), b.drop_last());
        if a.last() == b.last() {
            if a.drop_last() =~= b.drop_last() {
                assert forall|k: int| 0 <= k < a.len() implies a[k] == b[k] by {
                    if k < a.len() - 1 {
                        assert(a.drop_last()[k] == a[k]);
                        assert(b.drop_last()[k] == b[k]);
                    }
                }
                assert(a =~= b);
            }
        }
    }
}

/// Relies on rand::random::<bool>: a fair coin flip; nothing is promised of
/// the value.
#[verifier::external_body]
fn random_bool() -> bool {
    rand::random::<bool>()
}

} // verus!
