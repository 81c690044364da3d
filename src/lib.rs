//! Fast, simple fixed-size bitmaps.
//!
//! A bitmap tracks, for a number of positions fixed when it is built, whether
//! each position is set. The bits are packed eight to a byte: position `p`
//! lives in cell `p / 8`, at bit `p % 8` counted from the least significant.
use vstd::prelude::*;

verus! {

/// Number of cells needed to hold `b` bits: `b / 8`, rounded up.
pub open spec fn cells_for(b: nat) -> nat {
    b / 8 + if b % 8 == 0 {
        0nat
    } else {
        1nat
    }
}

/// Whether bit `k` (0 = least significant) of the cell `c` is set.
pub open spec fn bit_of(c: u8, k: u8) -> bool {
    (c >> k) & 1u8 == 1u8
}

/// A bitmap of a fixed number of positions, packed into bytes.
pub struct FSBitmap {
    cells: Vec<u8>,
    size: usize,
}

impl FSBitmap {
    /// The number of addressable positions.
    pub closed spec fn capacity(&self) -> nat {
        self.size as nat
    }

    /// The cells that hold the bits.
    pub closed spec fn storage(&self) -> Seq<u8> {
        self.cells@
    }

    /// The storage holds exactly as many cells as the capacity needs.
    pub open spec fn wf(&self) -> bool {
        self.storage().len() == cells_for(self.capacity())
    }

    /// Every stored bit, in position order, including those of the last cell
    /// that lie at or past the capacity.
    pub open spec fn bits(&self) -> Seq<bool> {
        Seq::new(
            8 * self.storage().len(),
            |i: int| bit_of(self.storage()[i / 8], (i % 8) as u8),
        )
    }

    /// Whether `p` is an addressable position whose bit is set.
    pub open spec fn is_set(&self, p: int) -> bool {
        0 <= p < self@.len() && self@[p]
    }

    /// `self` is `before` with the bit at `p` set.
    pub open spec fn marked_from(&self, before: FSBitmap, p: int) -> bool {
        &&& self.capacity() == before.capacity()
        &&& self.bits() == before.bits().update(p, true)
    }

    /// `self` is `before` after clearing at `p`: the bit at `p` is cleared
    /// when `p` is at most the capacity and falls in a cell; otherwise
    /// nothing changed.
    pub open spec fn unmarked_from(&self, before: FSBitmap, p: int) -> bool {
        &&& self.capacity() == before.capacity()
        &&& self.bits() == if 0 <= p <= before.capacity() && p < before.bits().len() {
            before.bits().update(p, false)
        } else {
            before.bits()
        }
    }

    /// `self` is `before` with the bit at `p` toggled.
    pub open spec fn flipped_from(&self, before: FSBitmap, p: int) -> bool {
        &&& self.capacity() == before.capacity()
        &&& self.bits() == before.bits().update(p, !before.bits()[p])
    }

    /// `self` has the capacity and the cells of `other`.
    pub open spec fn copy_of(&self, other: FSBitmap) -> bool {
        &&& self.capacity() == other.capacity()
        &&& self.storage() == other.storage()
    }

    /// Creates a bitmap of `b` positions, all unset.
    pub fn new(b: usize) -> (r: FSBitmap)
        ensures
            r.wf(),
            r.capacity() == b,
            r.storage() == Seq::new(cells_for(b as nat), |_i: int| 0u8),
            r@ == Seq::new(b as nat, |_i: int| false),
    {
        let s: usize = b / 8 + if b % 8 == 0 {
            0
        } else {
            1
        };
        let mut cells: Vec<u8> = Vec::new();
        while cells.len() < s
            invariant
                cells@.len() <= s,
                forall|i: int| 0 <= i < cells@.len() ==> cells@[i] == 0u8,
            decreases s - cells@.len(),
        {
            cells.push(0u8);
        }
        let r = FSBitmap { cells, size: b };
        proof {
            assert(r.storage() =~= Seq::new(cells_for(b as nat), |_i: int| 0u8));
            lemma_zero_cell();
            assert(r@ =~= Seq::new(b as nat, |_i: int| false));
        }
        r
    }

    /// The cell that holds position `p`, and the bit offset within it.
    #[inline]
    fn index(&self, p: usize) -> (r: (usize, usize))
        ensures
            r.0 == p / 8,
            r.1 == p % 8,
    {
        (p / 8, p % 8)
    }

    /// Sets the bit at `p`.
    ///
    /// `p` must fall in an existing cell. A position at or past the capacity
    /// that still falls in the last cell sets a bit that no query reads.
    pub fn mark(&mut self, p: usize)
        requires
            old(self).wf(),
            (p as int) / 8 < old(self).storage().len(),
        ensures
            final(self).wf(),
            final(self).marked_from(*old(self), p as int),
            final(self)@ == if p < old(self).capacity() {
                old(self)@.update(p as int, true)
            } else {
                old(self)@
            },
    {
        let (cell, byte) = self.index(p);
        let v: u8 = self.cells[cell] | (1u8 << (byte as u8));
        proof {
            let k = byte as u8;
            let c = self.cells@[cell as int];
            assert forall|j: u8| j < 8 implies #[trigger] bit_of(v, j) == (j == k || bit_of(c, j)) by {
                lemma_bit_or(c, k, j);
            }
        }
        self.cells.set(cell, v);
        proof {
            assert(self.bits() =~= old(self).bits().update(p as int, true));
            assert(self@ =~= if p < old(self).capacity() {
                old(self)@.update(p as int, true)
            } else {
                old(self)@
            });
        }
    }
    /// Clears the bit at `p`, for any `p` up to and including the capacity.
    ///
    /// The bound is inclusive: `p == capacity` clears the first padding bit of
    /// the last cell when that cell has one, and changes nothing when the
    /// capacity fills its cells exactly. Past the capacity nothing happens.
    pub fn unmark(&mut self, p: usize)
        requires
            old(self).wf(),
        ensures
            final(self).wf(),
            final(self).unmarked_from(*old(self), p as int),
            final(self)@ == if p < old(self).capacity() {
                old(self)@.update(p as int, false)
            } else {
                old(self)@
            },
    {
        if p <= self.size && p / 8 < self.cells.len() {
            let (cell, byte) = self.index(p);
            let v: u8 = self.cells[cell] & !(1u8 << (byte as u8));
            proof {
                let k = byte as u8;
                let c = self.cells@[cell as int];
                assert forall|j: u8| j < 8 implies #[trigger] bit_of(v, j) == (j != k && bit_of(c, j)) by {
                    lemma_bit_clear(c, k, j);
                }
            }
            self.cells.set(cell, v);
            proof {
                assert(self.bits() =~= old(self).bits().update(p as int, false));
            }
        }
        proof {
            assert(self@ =~= if p < old(self).capacity() {
                old(self)@.update(p as int, false)
            } else {
                old(self)@
            });
        }
    }

    /// Toggles the bit at `p`.
    ///
    /// `p` must fall in an existing cell, as for [`FSBitmap::mark`].
    pub fn flip(&mut self, p: usize)
        requires
            old(self).wf(),
            (p as int) / 8 < old(self).storage().len(),
        ensures
            final(self).wf(),
            final(self).flipped_from(*old(self), p as int),
            final(self)@ == if p < old(self).capacity() {
                old(self)@.update(p as int, !old(self)@[p as int])
            } else {
                old(self)@
            },
    {
        let (cell, byte) = self.index(p);
        let v: u8 = self.cells[cell] ^ (1u8 << (byte as u8));
        proof {
            let k = byte as u8;
            let c = self.cells@[cell as int];
            assert forall|j: u8| j < 8 implies #[trigger] bit_of(v, j) == ((j == k) != bit_of(c, j)) by {
                lemma_bit_xor(c, k, j);
            }
        }
        self.cells.set(cell, v);
        proof {
            assert(self.bits() =~= old(self).bits().update(p as int, !old(self).bits()[p as int]));
            assert(self@ =~= if p < old(self).capacity() {
                old(self)@.update(p as int, !old(self)@[p as int])
            } else {
                old(self)@
            });
        }
    }

    /// Whether the bit at `p` is set. Positions at or past the capacity,
    /// however large, read as unset.
    pub fn check(&self, p: usize) -> (r: bool)
        requires
            self.wf(),
        ensures
            r == self.is_set(p as int),
            p >= self.capacity() ==> !r,
    {
        if p >= self.size {
            return false;
        }
        let (cell, byte) = self.index(p);
        let v: u8 = 1u8 << (byte as u8);
        let r = self.cells[cell] & v == v;
        proof {
            lemma_bit_test(self.cells@[cell as int], byte as u8);
        }
        r
    }

    /// Makes an independent copy: same capacity, same cells.
    pub fn clone(&mut self) -> (r: FSBitmap)
        requires
            old(self).wf(),
        ensures
            *final(self) == *old(self),
            r.wf(),
            r.copy_of(*old(self)),
            r.bits() == old(self).bits(),
            r@ == old(self)@,
    {
        let mut cells: Vec<u8> = Vec::new();
        let n: usize = self.cells.len();
        while cells.len() < n
            invariant
                n == self.cells@.len(),
                cells@.len() <= n,
                cells@ == self.cells@.subrange(0, cells@.len() as int),
            decreases n - cells@.len(),
        {
            cells.push(self.cells[cells.len()]);
            proof {
                assert(cells@ =~= self.cells@.subrange(0, cells@.len() as int));
            }
        }
        let r = FSBitmap { cells, size: self.size };
        proof {
            assert(r.storage() =~= self.storage());
            assert(r.bits() =~= self.bits());
            assert(r@ =~= self@);
        }
        r
    }
}

impl View for FSBitmap {
    type V = Seq<bool>;

    /// The bits of the addressable positions `0 .. capacity`.
    open spec fn view(&self) -> Seq<bool> {
        Seq::new(self.capacity(), |i: int| self.bits()[i])
    }
}

/// Marking an addressable position makes it read as set, and clearing it
/// afterwards makes it read as unset again.
pub proof fn lemma_mark_unmark_round_trip(a: FSBitmap, b: FSBitmap, c: FSBitmap, p: usize)
    requires
        a.wf(),
        p < a.capacity(),
        b.marked_from(a, p as int),
        c.unmarked_from(b, p as int),
    ensures
        b.is_set(p as int),
        !c.is_set(p as int),
{
}

/// Marking the same position twice leaves the bitmap as marking it once did.
pub proof fn lemma_mark_idempotent(a: FSBitmap, b: FSBitmap, c: FSBitmap, p: usize)
    requires
        a.wf(),
        (p as int) / 8 < a.storage().len(),
        b.marked_from(a, p as int),
        c.marked_from(b, p as int),
    ensures
        c.capacity() == b.capacity(),
        c.bits() == b.bits(),
        c@ == b@,
{
    assert(c.bits() =~= b.bits());
    assert(c@ =~= b@);
}

/// Clearing the same position twice leaves the bitmap as clearing it once
/// did.
pub proof fn lemma_unmark_idempotent(a: FSBitmap, b: FSBitmap, c: FSBitmap, p: usize)
    requires
        a.wf(),
        b.unmarked_from(a, p as int),
        c.unmarked_from(b, p as int),
    ensures
        c.capacity() == b.capacity(),
        c.bits() == b.bits(),
        c@ == b@,
{
    assert(c.bits() =~= b.bits());
    assert(c@ =~= b@);
}

/// Toggling the same position twice gives back every bit as it was.
pub proof fn lemma_flip_involution(a: FSBitmap, b: FSBitmap, c: FSBitmap, p: usize)
    requires
        a.wf(),
        (p as int) / 8 < a.storage().len(),
        b.flipped_from(a, p as int),
        c.flipped_from(b, p as int),
    ensures
        c.capacity() == a.capacity(),
        c.bits() == a.bits(),
        c@ == a@,
{
    assert(c.bits() =~= a.bits());
    assert(c@ =~= a@);
}

/// A copy evolves on its own: clearing a position in the copy of `a` leaves
/// it reading as `a` does everywhere but at that position, which now reads as
/// unset, while `a` itself is a separate value that the change does not touch.
pub proof fn lemma_copy_independent(a: FSBitmap, b: FSBitmap, c: FSBitmap, x: usize)
    requires
        a.wf(),
        b.copy_of(a),
        c.unmarked_from(b, x as int),
    ensures
        !c.is_set(x as int),
        forall|y: int| y != x ==> c.is_set(y) == a.is_set(y),
        c@ == if x < a.capacity() {
            a@.update(x as int, false)
        } else {
            a@
        },
{
    assert(b.bits() =~= a.bits());
    assert(c@ =~= if x < a.capacity() {
        a@.update(x as int, false)
    } else {
        a@
    });
}

/// A capacity of `b` positions takes exactly `b / 8` cells, rounded up: every
/// position below `b`, the highest included, falls in a cell, and the last
/// cell holds at least one of them.
pub proof fn lemma_storage_size(b: nat)
    ensures
        b <= 8 * cells_for(b),
        cells_for(b) > 0 ==> 8 * (cells_for(b) - 1) < b,
        b > 0 ==> (b - 1) / 8 == cells_for(b) - 1,
{
}

/// No bit of an empty cell is set.
proof fn lemma_zero_cell()
    ensures
        forall|k: u8| !#[trigger] bit_of(0u8, k),
{
    assert forall|k: u8| !#[trigger] bit_of(0u8, k) by {
        assert(!bit_of(0u8, k)) by (bit_vector);
    }
}

/// Or-ing in the mask of bit `k` sets bit `k` and keeps the others.
proof fn lemma_bit_or(c: u8, k: u8, j: u8)
    by (bit_vector)
    requires
        k < 8,
        j < 8,
    ensures
        bit_of(c | (1u8 << k), j) == (j == k || bit_of(c, j)),
{
}

/// And-ing with the complement of the mask of bit `k` clears bit `k` and
/// keeps the others.
proof fn lemma_bit_clear(c: u8, k: u8, j: u8)
    by (bit_vector)
    requires
        k < 8,
        j < 8,
    ensures
        bit_of(c & !(1u8 << k), j) == (j != k && bit_of(c, j)),
{
}

/// Xor-ing with the mask of bit `k` toggles bit `k` and keeps the others.
proof fn lemma_bit_xor(c: u8, k: u8, j: u8)
    by (bit_vector)
    requires
        k < 8,
        j < 8,
    ensures
        bit_of(c ^ (1u8 << k), j) == ((j == k) != bit_of(c, j)),
{
}

/// A cell holds the whole mask of bit `k` exactly when bit `k` is set.
proof fn lemma_bit_test(c: u8, k: u8)
    by (bit_vector)
    requires
        k < 8,
    ensures
        (c & (1u8 << k) == (1u8 << k)) == bit_of(c, k),
{
}

} // verus!
