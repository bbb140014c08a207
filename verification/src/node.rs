//! A bin node: a fixed position, an accumulated scalar value, and the indices
//! of the finer-level bins linked beneath it.

use vstd::prelude::*;
use crate::math::{abs_int, min_int};
use crate::{DEN_MAX, VAL_CAP, WEIGHT_ONE};

verus! {

/// One bin of the pyramid.
///
/// A node at level `l` stores, per axis, the numerator of its position over
/// that level's common denominator (held by the level's `Layer`). The
/// accumulated value is fixed-point with scale [`WEIGHT_ONE`] and saturates at
/// [`VAL_CAP`]. Children are indices into the next finer layer's node list; a
/// node may be the child of several coarser nodes at once.
pub struct Node {
    /// Index of this node within its layer.
    pub id: usize,
    /// Per-axis position numerators, over the owning layer's denominator.
    pub pos: Vec<i64>,
    /// Accumulated kernel mass, in units of `1 / WEIGHT_ONE`.
    pub val: i64,
    /// Indices, into the next finer layer, of the bins linked under this one.
    pub children: Vec<usize>,
}

/// One axis of the support-region test: the query coordinate `q_i / qden`
/// lies within `ext_i / nden` of `npos_i / nden`, bounds inclusive. Stated
/// over numerators after clearing both (positive) denominators.
pub open spec fn axis_inside(npos_i: int, nden: int, q_i: int, qden: int, ext_i: int) -> bool {
    abs_int(npos_i * qden - q_i * nden) <= ext_i * qden
}

/// The support-region test: the query point `q / qden` lies within
/// `ext / nden` of `npos / nden` on every axis, bounds inclusive. This is the
/// sole containment predicate of the whole structure.
pub open spec fn inside_spec(npos: Seq<i64>, nden: int, q: Seq<i64>, qden: int, ext: Seq<i64>) -> bool {
    forall|i: int|
        0 <= i < npos.len() ==> axis_inside(#[trigger] npos[i] as int, nden, q[i] as int, qden, ext[i] as int)
}

/// One axis of the kernel weight, in fixed point: `WEIGHT_ONE` when the
/// (integer) query coordinate `q_i` sits exactly on the bin position
/// `npos_i / nden`, falling linearly to zero at distance `ext_i / nden`.
pub open spec fn axis_weight(npos_i: int, nden: int, q_i: int, ext_i: int) -> int {
    (ext_i - abs_int(npos_i - q_i * nden)) * WEIGHT_ONE / ext_i
}

/// The kernel weight over axes `i..` : the minimum of the per-axis weights
/// (the contribution is bounded by the tightest-fitting axis, not a product).
pub open spec fn weight_from(npos: Seq<i64>, nden: int, q: Seq<i64>, ext: Seq<i64>, i: int) -> int
    decreases npos.len() - i,
{
    if i < 0 || i >= npos.len() {
        WEIGHT_ONE as int
    } else if i == npos.len() - 1 {
        axis_weight(npos[i] as int, nden, q[i] as int, ext[i] as int)
    } else {
        min_int(
            axis_weight(npos[i] as int, nden, q[i] as int, ext[i] as int),
            weight_from(npos, nden, q, ext, i + 1),
        )
    }
}

/// The kernel weight of integer point `q` for a bin at `npos / nden` with
/// per-axis extents `ext / nden`: the minimum over all axes of the linear
/// per-axis falloff, in units of `1 / WEIGHT_ONE`.
pub open spec fn weight_spec(npos: Seq<i64>, nden: int, q: Seq<i64>, ext: Seq<i64>) -> int {
    weight_from(npos, nden, q, ext, 0)
}

/// Accumulation with saturation at [`VAL_CAP`].
pub open spec fn sat_add_val(v: int, w: int) -> int {
    if v + w > VAL_CAP {
        VAL_CAP as int
    } else {
        v + w
    }
}

/// Multiplies an arbitrary coordinate by a small (denominator-sized) factor
/// in wide arithmetic, with an explicit bound on the product.
fn mul_wide(a: i64, b: i64) -> (r: i128)
    requires
        0 <= b <= DEN_MAX,
    ensures
        r == a as int * b as int,
        -2361183241434822606848 <= r <= 2361183241434822606848,
{
    proof {
        assert(-2361183241434822606848 <= (a as int) * (b as int) <= 2361183241434822606848)
            by (nonlinear_arith)
            requires
                -0x8000000000000000 <= a as int <= 0x7fffffffffffffff,
                0 <= b as int <= 129,
        ;
    }
    (a as i128) * (b as i128)
}

impl Node {
    /// Creates a node with zero value and no children.
    pub fn new(pos: Vec<i64>, id: usize) -> (r: Node)
        ensures
            r.id == id,
            r.pos@ == pos@,
            r.val == 0,
            r.children@ == Seq::<usize>::empty(),
    {
        Node { id, pos, val: 0, children: Vec::new() }
    }

    pub fn id(&self) -> (r: usize)
        ensures
            r == self.id,
    {
        self.id
    }

    pub fn val(&self) -> (r: i64)
        ensures
            r == self.val,
    {
        self.val
    }

    /// Appends a finer-layer index to this node's children. No deduplication
    /// happens here; callers deduplicate before calling.
    pub fn push_child(&mut self, child: usize)
        ensures
            final(self).id == old(self).id,
            final(self).pos == old(self).pos,
            final(self).val == old(self).val,
            final(self).children@ == old(self).children@.push(child),
    {
        self.children.push(child);
    }

    /// Whether the point `q / qden` lies in this node's support region: within
    /// `ext / nden` of the node position on every axis, bounds inclusive — so
    /// a point exactly on the edge of the region still counts as inside.
    pub fn inside(&self, nden: i64, q: &Vec<i64>, qden: i64, ext: &Vec<i64>) -> (r: bool)
        requires
            q@.len() == self.pos@.len(),
            ext@.len() == self.pos@.len(),
            1 <= nden <= DEN_MAX,
            1 <= qden <= DEN_MAX,
        ensures
            r == inside_spec(self.pos@, nden as int, q@, qden as int, ext@),
    {
        let n = self.pos.len();
        let mut i: usize = 0;
        while i < n
            invariant
                i <= n,
                n == self.pos@.len(),
                q@.len() == n,
                ext@.len() == n,
                1 <= nden <= DEN_MAX,
                1 <= qden <= DEN_MAX,
                forall|k: int|
                    0 <= k < i ==> axis_inside(
                        #[trigger] self.pos@[k] as int,
                        nden as int,
                        q@[k] as int,
                        qden as int,
                        ext@[k] as int,
                    ),
            decreases n - i,
        {
            let d: i128 = mul_wide(self.pos[i], qden) - mul_wide(q[i], nden);
            let a: i128 = if d < 0 {
                -d
            } else {
                d
            };
            if a > mul_wide(ext[i], qden) {
                assert(!axis_inside(self.pos@[i as int] as int, nden as int, q@[i as int] as int,
                        qden as int, ext@[i as int] as int));
                return false;
            }
            i = i + 1;
        }
        true
    }

    /// Accumulates the kernel weight of integer point `q` into this node's
    /// value, saturating at [`VAL_CAP`]. The point must lie in the node's
    /// support region (callers test containment first), so the weight is
    /// between zero and [`WEIGHT_ONE`].
    pub fn add(&mut self, nden: i64, q: &Vec<i64>, ext: &Vec<i64>)
        requires
            q@.len() == old(self).pos@.len(),
            ext@.len() == old(self).pos@.len(),
            old(self).pos@.len() >= 1,
            1 <= nden <= DEN_MAX,
            forall|i: int| 0 <= i < ext@.len() ==> 1 <= #[trigger] ext@[i],
            inside_spec(old(self).pos@, nden as int, q@, 1, ext@),
            0 <= old(self).val <= VAL_CAP,
        ensures
            final(self).id == old(self).id,
            final(self).pos == old(self).pos,
            final(self).children == old(self).children,
            final(self).val == sat_add_val(
                old(self).val as int,
                weight_spec(old(self).pos@, nden as int, q@, ext@),
            ),
            0 <= final(self).val <= VAL_CAP,
    {
        let n = self.pos.len();
        let ghost npos = self.pos@;
        let mut i: usize = n - 1;
        let mut w: i64 = self.axis_weight_at(nden, q, ext, n - 1);
        while i > 0
            invariant
                0 <= i < n,
                n == self.pos@.len(),
                self.pos@ == npos,
                q@.len() == n,
                ext@.len() == n,
                1 <= nden <= DEN_MAX,
                forall|k: int| 0 <= k < ext@.len() ==> 1 <= #[trigger] ext@[k],
                inside_spec(npos, nden as int, q@, 1, ext@),
                w == weight_from(npos, nden as int, q@, ext@, i as int),
                0 <= w <= WEIGHT_ONE,
            decreases i,
        {
            let wa: i64 = self.axis_weight_at(nden, q, ext, i - 1);
            if wa < w {
                w = wa;
            }
            i = i - 1;
        }
        let v: i64 = self.val;
        if v > VAL_CAP - w {
            self.val = VAL_CAP;
        } else {
            self.val = v + w;
        }
    }

    /// One axis of the kernel weight, computed exactly in wide arithmetic.
    fn axis_weight_at(&self, nden: i64, q: &Vec<i64>, ext: &Vec<i64>, i: usize) -> (r: i64)
        requires
            q@.len() == self.pos@.len(),
            ext@.len() == self.pos@.len(),
            i < self.pos@.len(),
            1 <= nden <= DEN_MAX,
            1 <= ext@[i as int],
            axis_inside(self.pos@[i as int] as int, nden as int, q@[i as int] as int, 1, ext@[i as int] as int),
        ensures
            r == axis_weight(self.pos@[i as int] as int, nden as int, q@[i as int] as int, ext@[i as int] as int),
            0 <= r <= WEIGHT_ONE,
    {
        let d: i128 = (self.pos[i] as i128) - mul_wide(q[i], nden);
        let a: i128 = if d < 0 {
            -d
        } else {
            d
        };
        let e: i128 = ext[i] as i128;
        proof {
            assert(0 <= (e - a) as int * (WEIGHT_ONE as int) <= 9671406556917033397649408)
                by (nonlinear_arith)
                requires
                    0 <= e - a <= 0x7fffffffffffffff,
        ;
        }
        let num: i128 = (e - a) * (WEIGHT_ONE as i128);
        let r128: i128 = num / e;
        proof {
            let ei = ext@[i as int] as int;
            let ai = abs_int(self.pos@[i as int] * 1 - q@[i as int] * nden);
            assert(a == ai);
            assert(0 <= ei - ai <= ei);
            assert(0 <= (ei - ai) * (WEIGHT_ONE as int) <= ei * (WEIGHT_ONE as int)) by (nonlinear_arith)
                requires
                    0 <= ei - ai <= ei,
            ;
            assert((ei - ai) * (WEIGHT_ONE as int) / ei <= ei * (WEIGHT_ONE as int) / ei) by (nonlinear_arith)
                requires
                    ei >= 1,
                    (ei - ai) * (WEIGHT_ONE as int) <= ei * (WEIGHT_ONE as int),
                    (ei - ai) * (WEIGHT_ONE as int) >= 0,
            ;
            assert(ei * (WEIGHT_ONE as int) / ei == WEIGHT_ONE as int) by (nonlinear_arith)
                requires
                    ei >= 1,
            ;
            assert(num / e >= 0) by (nonlinear_arith)
                requires
                    num >= 0,
                    e >= 1,
            ;
        }
        r128 as i64
    }

    /// Resets the accumulated value to zero; position and children untouched.
    pub fn clear(&mut self)
        ensures
            final(self).id == old(self).id,
            final(self).pos == old(self).pos,
            final(self).children == old(self).children,
            final(self).val == 0,
    {
        self.val = 0;
    }
}

} // verus!
