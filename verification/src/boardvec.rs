use vstd::prelude::*;

verus! {

/// Fixed-capacity bit vector (128 positions) used to store board occupancy
/// and pattern masks, packed into two 64-bit words.
#[derive(Copy, Clone, Hash, Debug, PartialEq, Eq, Structural)]
pub struct BoardVec {
    low: u64,
    high: u64,
}

impl BoardVec {
    /// Whether position `i` holds a 1 bit.
    pub closed spec fn has(self, i: int) -> bool {
        if 0 <= i < 64 {
            (self.low >> (i as u64)) & 1u64 == 1u64
        } else if 64 <= i < 128 {
            (self.high >> ((i - 64) as u64)) & 1u64 == 1u64
        } else {
            false
        }
    }

    /// The vector as it will be after setting bit `i`.
    pub closed spec fn spec_insert(self, i: int) -> BoardVec {
        if i < 64 {
            BoardVec { low: self.low | (1u64 << (i as u64)), high: self.high }
        } else {
            BoardVec { low: self.low, high: self.high | (1u64 << ((i - 64) as u64)) }
        }
    }

    /// The set of positions in `[0, 128)` whose bit is 1.
    pub proof fn lemma_view_bounds(self)
        ensures
            self@.finite(),
            self@.len() <= 128,
            forall|i: int| self@.contains(i) ==> 0 <= i < 128,
    {
        let r = vstd::set_lib::set_int_range(0, 128);
        vstd::set_lib::lemma_int_range(0, 128);
        assert(self@.subset_of(r));
        vstd::set_lib::lemma_len_subset(self@, r);
    }

    /// An all-zero vector.
    pub fn new() -> (r: BoardVec)
        ensures
            r@ == Set::<int>::empty(),
    {
        let r = BoardVec { low: 0, high: 0 };
        proof {
            assert forall|i: int| !r.has(i) by {
                if 0 <= i < 64 {
                    let k = i as u64;
                    assert(k < 64 ==> (0u64 >> k) & 1u64 == 0u64) by (bit_vector);
                } else if 64 <= i < 128 {
                    let k = (i - 64) as u64;
                    assert(k < 64 ==> (0u64 >> k) & 1u64 == 0u64) by (bit_vector);
                }
            }
            assert(r@ =~= Set::<int>::empty());
        }
        r
    }

    /// The number of positions a vector can hold.
    pub fn size() -> (r: usize)
        ensures
            r == 128,
    {
        128
    }

    /// Setting a bit at the spec level inserts its index into the view.
    pub proof fn lemma_spec_insert_view(self, i: int)
        requires
            0 <= i < 128,
        ensures
            self.spec_insert(i)@ == self@.insert(i),
    {
        let post = self.spec_insert(i);
        assert forall|j: int| post.has(j) == (self.has(j) || j == i) by {
            let a = self.low;
            let b = self.high;
            if 0 <= i < 64 {
                let k = i as u64;
                if 0 <= j < 64 {
                    let j0 = j as u64;
                    assert(j0 < 64 && k < 64 ==> (((a | (1u64 << k)) >> j0) & 1u64 == 1u64)
                        == ((j0 == k) || ((a >> j0) & 1u64 == 1u64))) by (bit_vector);
                }
            } else {
                let k = (i - 64) as u64;
                if 64 <= j < 128 {
                    let j0 = (j - 64) as u64;
                    assert(j0 < 64 && k < 64 ==> (((b | (1u64 << k)) >> j0) & 1u64 == 1u64)
                        == ((j0 == k) || ((b >> j0) & 1u64 == 1u64))) by (bit_vector);
                }
            }
        }
        assert(post@ =~= self@.insert(i));
    }

    /// Sets bit `idx` to 1; all other bits keep their value.
    pub fn set(&mut self, idx: usize)
        requires
            idx < 128,
        ensures
            *final(self) == old(self).spec_insert(idx as int),
            final(self)@ == old(self)@.insert(idx as int),
    {
        proof {
            old(self).lemma_spec_insert_view(idx as int);
        }
        if idx < 64 {
            self.low = self.low | (1u64 << (idx as u64));
        } else {
            self.high = self.high | (1u64 << ((idx - 64) as u64));
        }
    }

    /// Whether bit `idx` is 1.
    pub fn get(&self, idx: usize) -> (r: bool)
        requires
            idx < 128,
        ensures
            r == self@.contains(idx as int),
    {
        if idx < 64 {
            ((self.low >> (idx as u64)) & 1) == 1
        } else {
            ((self.high >> ((idx - 64) as u64)) & 1) == 1
        }
    }

    /// Whether this vector has any 1 bits in common with `other`.
    pub fn intersects(&self, other: &BoardVec) -> (r: bool)
        ensures
            r == !self@.disjoint(other@),
    {
        let c_low = self.low & other.low;
        let c_high = self.high & other.high;
        let r = c_low != 0 || c_high != 0;
        proof {
            let a0 = self.low;
            let b0 = other.low;
            let a1 = self.high;
            let b1 = other.high;
            if c_low != 0 {
                let k = lemma_nonzero_bit(c_low);
                assert(((a0 & b0) >> k) & 1u64 == 1u64 && k < 64
                    ==> ((a0 >> k) & 1u64 == 1u64) && ((b0 >> k) & 1u64 == 1u64)) by (bit_vector);
                assert(self@.contains(k as int) && other@.contains(k as int));
            } else if c_high != 0 {
                let k = lemma_nonzero_bit(c_high);
                assert(((a1 & b1) >> k) & 1u64 == 1u64 && k < 64
                    ==> ((a1 >> k) & 1u64 == 1u64) && ((b1 >> k) & 1u64 == 1u64)) by (bit_vector);
                assert(self@.contains(k as int + 64) && other@.contains(k as int + 64));
            } else {
                assert forall|i: int| !(self@.contains(i) && other@.contains(i)) by {
                    if 0 <= i < 64 {
                        let j = i as u64;
                        assert(a0 & b0 == 0 && j < 64
                            ==> !(((a0 >> j) & 1u64 == 1u64) && ((b0 >> j) & 1u64 == 1u64)))
                            by (bit_vector);
                    } else if 64 <= i < 128 {
                        let j = (i - 64) as u64;
                        assert(a1 & b1 == 0 && j < 64
                            ==> !(((a1 >> j) & 1u64 == 1u64) && ((b1 >> j) & 1u64 == 1u64)))
                            by (bit_vector);
                    }
                }
            }
        }
        r
    }

    /// Whether all bits set to 1 in `other` are also 1 in this vector.
    pub fn contains(&self, other: &BoardVec) -> (r: bool)
        ensures
            r == other@.subset_of(self@),
    {
        let eq_low = self.low & other.low == other.low;
        let eq_high = self.high & other.high == other.high;
        let r = eq_low && eq_high;
        proof {
            let a0 = self.low;
            let b0 = other.low;
            let a1 = self.high;
            let b1 = other.high;
            if r {
                assert forall|i: int| other@.contains(i) implies self@.contains(i) by {
                    if 0 <= i < 64 {
                        let j = i as u64;
                        assert(a0 & b0 == b0 && j < 64 && (b0 >> j) & 1u64 == 1u64
                            ==> (a0 >> j) & 1u64 == 1u64) by (bit_vector);
                    } else if 64 <= i < 128 {
                        let j = (i - 64) as u64;
                        assert(a1 & b1 == b1 && j < 64 && (b1 >> j) & 1u64 == 1u64
                            ==> (a1 >> j) & 1u64 == 1u64) by (bit_vector);
                    }
                }
            } else if !eq_low {
                assert(a0 & b0 != b0 ==> b0 & !a0 != 0) by (bit_vector);
                let k = lemma_nonzero_bit(b0 & !a0);
                assert(((b0 & !a0) >> k) & 1u64 == 1u64 && k < 64
                    ==> ((b0 >> k) & 1u64 == 1u64) && ((a0 >> k) & 1u64 != 1u64)) by (bit_vector);
                assert(other@.contains(k as int) && !self@.contains(k as int));
            } else {
                assert(a1 & b1 != b1 ==> b1 & !a1 != 0) by (bit_vector);
                let k = lemma_nonzero_bit(b1 & !a1);
                assert(((b1 & !a1) >> k) & 1u64 == 1u64 && k < 64
                    ==> ((b1 >> k) & 1u64 == 1u64) && ((a1 >> k) & 1u64 != 1u64)) by (bit_vector);
                assert(other@.contains(k as int + 64) && !self@.contains(k as int + 64));
            }
        }
        r
    }
}

impl View for BoardVec {
    type V = Set<int>;

    open spec fn view(&self) -> Set<int> {
        Set::new(|i: int| self.has(i))
    }
}

/// A nonzero 64-bit word has at least one 1 bit; returns the index of one.
pub proof fn lemma_nonzero_bit(w: u64) -> (k: u64)
    requires
        w != 0,
    ensures
        k < 64,
        (w >> k) & 1u64 == 1u64,
    decreases w,
{
    if w & 1 == 1 {
        assert((w >> 0u64) & 1u64 == w & 1u64) by (bit_vector);
        0
    } else {
        assert(w != 0 && w & 1u64 != 1u64 ==> w >> 1u64 != 0 && w >> 1u64 < w) by (bit_vector);
        let k1 = lemma_nonzero_bit(w >> 1u64);
        assert(((w >> 1u64) >> 63u64) & 1u64 == 0u64) by (bit_vector);
        assert(k1 < 63);
        let m = (k1 + 1) as u64;
        assert(k1 < 63 && m == k1 + 1 ==> ((w >> m) & 1u64 == ((w >> 1u64) >> k1) & 1u64))
            by (bit_vector);
        m
    }
}

} // verus!
