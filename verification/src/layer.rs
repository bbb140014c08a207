//! A layer: all bins at one resolution level, as a flat ordered list, plus
//! that level's common denominator and per-axis half-extent.

use vstd::prelude::*;
use crate::math::{
    lemma_pow2_7, lemma_pow2_increases, lemma_pow2_is_pow_nat, lemma_pow2_positive, pow2,
    pow_usize,
};
use crate::node::{inside_spec, sat_add_val, weight_spec, Node};
use crate::{DEN_MAX, VAL_CAP};

verus! {

/// The common denominator of all position and extent numerators at level `l`:
/// the root level halves the domain once, level `l >= 1` has grid spacing
/// `(max - min) / (2^l + 1)`.
pub open spec fn layer_den(l: nat) -> int {
    if l == 0 {
        2
    } else {
        pow2(l) as int + 1
    }
}

/// All bins at one resolution level.
///
/// The node list is in construction (grid) order and its structure never
/// changes after construction; only the nodes' accumulated values do. Every
/// coordinate stored at this level — node positions and the per-axis extent —
/// is a numerator over the shared denominator `den`.
pub struct Layer {
    /// Resolution level; the grid has `2^level` bins per axis.
    pub level: usize,
    /// Common denominator of this level's position and extent numerators.
    pub den: i64,
    /// Per-axis support half-width numerators, over `den`.
    pub extent: Vec<i64>,
    /// The level's bins, in construction order.
    pub nodes: Vec<Node>,
}

/// The largest accumulated value among the first `k` nodes, at least zero.
pub open spec fn max_val(s: Seq<Node>, k: int) -> int
    decreases k,
{
    if k <= 0 {
        0
    } else if s[k - 1].val > max_val(s, k - 1) {
        s[k - 1].val as int
    } else {
        max_val(s, k - 1)
    }
}

/// One grey-scale sample: node `k`'s value scaled so the layer maximum `m`
/// maps to 255; non-positive values (and a non-positive maximum) map to 0.
pub open spec fn gray_spec(s: Seq<Node>, m: int, k: int) -> int {
    if m <= 0 || s[k].val <= 0 {
        0
    } else {
        255 * s[k].val / m
    }
}

/// Copies a coordinate vector.
pub(crate) fn clone_coords(v: &Vec<i64>) -> (r: Vec<i64>)
    ensures
        r@ == v@,
{
    let n = v.len();
    let mut r: Vec<i64> = Vec::new();
    let mut k: usize = 0;
    while k < n
        invariant
            k <= n,
            n == v@.len(),
            r@.len() == k,
            forall|j: int| 0 <= j < k ==> #[trigger] r@[j] == v@[j],
        decreases n - k,
    {
        r.push(v[k]);
        k = k + 1;
    }
    proof {
        assert(r@ =~= v@);
    }
    r
}

/// A mutable borrow of one vector element, with the usual update relation.
pub(crate) fn vec_at_mut<T>(v: &mut Vec<T>, i: usize) -> (element: &mut T)
    requires
        i < old(v)@.len(),
    ensures
        *element == old(v)@[i as int],
        final(v)@ == old(v)@.update(i as int, *final(element)),
{
    &mut v[i]
}

/// The elementwise difference of two layers' accumulated values, paired by
/// position in layer order.
pub fn diff_layer(l1: &Layer, l2: &Layer) -> (r: Vec<i64>)
    requires
        l1.nodes@.len() == l2.nodes@.len(),
        forall|k: int| 0 <= k < l1.nodes@.len() ==> 0 <= #[trigger] l1.nodes@[k].val <= VAL_CAP,
        forall|k: int| 0 <= k < l2.nodes@.len() ==> 0 <= #[trigger] l2.nodes@[k].val <= VAL_CAP,
    ensures
        r@.len() == l1.nodes@.len(),
        forall|k: int|
            0 <= k < r@.len() ==> #[trigger] r@[k] == l1.nodes@[k].val - l2.nodes@[k].val,
{
    let n = l1.nodes.len();
    let mut r: Vec<i64> = Vec::new();
    let mut k: usize = 0;
    while k < n
        invariant
            k <= n,
            n == l1.nodes@.len(),
            n == l2.nodes@.len(),
            forall|j: int| 0 <= j < n ==> 0 <= #[trigger] l1.nodes@[j].val <= VAL_CAP,
            forall|j: int| 0 <= j < n ==> 0 <= #[trigger] l2.nodes@[j].val <= VAL_CAP,
            r@.len() == k,
            forall|j: int| 0 <= j < k ==> #[trigger] r@[j] == l1.nodes@[j].val - l2.nodes@[j].val,
        decreases n - k,
    {
        r.push(l1.nodes[k].val - l2.nodes[k].val);
        k = k + 1;
    }
    r
}

impl Layer {
    /// Creates an empty layer for resolution level `level`, recording that
    /// level's denominator and the given per-axis extent numerators.
    pub fn new(level: usize, extent: Vec<i64>) -> (r: Layer)
        requires
            level <= 7,
        ensures
            r.level == level,
            r.den == layer_den(level as nat),
            2 <= r.den <= DEN_MAX,
            r.extent@ == extent@,
            r.nodes@ == Seq::<Node>::empty(),
    {
        let den: i64 = if level == 0 {
            2
        } else {
            proof {
                lemma_pow2_is_pow_nat(level as nat);
                lemma_pow2_increases(level as nat, 7);
                lemma_pow2_7();
                lemma_pow2_positive(level as nat);
            }
            (pow_usize(2, level) as i64) + 1
        };
        Layer { level, den, extent, nodes: Vec::new() }
    }

    /// Appends a node; used only during construction, in construction order.
    pub fn push_node(&mut self, node: Node)
        ensures
            final(self).level == old(self).level,
            final(self).den == old(self).den,
            final(self).extent == old(self).extent,
            final(self).nodes@ == old(self).nodes@.push(node),
    {
        self.nodes.push(node);
    }

    /// Appends `child` to the children of this layer's node `n`; everything
    /// else is untouched.
    pub fn link_child(&mut self, n: usize, child: usize)
        requires
            n < old(self).nodes@.len(),
        ensures
            final(self).level == old(self).level,
            final(self).den == old(self).den,
            final(self).extent == old(self).extent,
            final(self).nodes@.len() == old(self).nodes@.len(),
            forall|k: int|
                0 <= k < old(self).nodes@.len() && k != n ==> #[trigger] final(self).nodes@[k]
                    == old(self).nodes@[k],
            final(self).nodes@[n as int].id == old(self).nodes@[n as int].id,
            final(self).nodes@[n as int].pos == old(self).nodes@[n as int].pos,
            final(self).nodes@[n as int].val == old(self).nodes@[n as int].val,
            final(self).nodes@[n as int].children@ == old(
                self,
            ).nodes@[n as int].children@.push(child),
    {
        let nd = vec_at_mut(&mut self.nodes, n);
        nd.push_child(child);
    }

    /// Deposits the kernel contribution of integer point `q` into this
    /// layer's node `k`, which must contain `q` in its support region;
    /// everything else is untouched.
    pub fn add_at(&mut self, k: usize, q: &Vec<i64>)
        requires
            k < old(self).nodes@.len(),
            q@.len() == old(self).nodes@[k as int].pos@.len(),
            old(self).extent@.len() == old(self).nodes@[k as int].pos@.len(),
            old(self).nodes@[k as int].pos@.len() >= 1,
            1 <= old(self).den <= DEN_MAX,
            forall|i: int| 0 <= i < old(self).extent@.len() ==> 1 <= #[trigger] old(self).extent@[i],
            inside_spec(old(self).nodes@[k as int].pos@, old(self).den as int, q@, 1, old(self).extent@),
            0 <= old(self).nodes@[k as int].val <= VAL_CAP,
        ensures
            final(self).level == old(self).level,
            final(self).den == old(self).den,
            final(self).extent == old(self).extent,
            final(self).nodes@.len() == old(self).nodes@.len(),
            forall|j: int|
                0 <= j < old(self).nodes@.len() && j != k ==> #[trigger] final(self).nodes@[j]
                    == old(self).nodes@[j],
            final(self).nodes@[k as int].id == old(self).nodes@[k as int].id,
            final(self).nodes@[k as int].pos == old(self).nodes@[k as int].pos,
            final(self).nodes@[k as int].children == old(self).nodes@[k as int].children,
            final(self).nodes@[k as int].val == sat_add_val(
                old(self).nodes@[k as int].val as int,
                weight_spec(
                    old(self).nodes@[k as int].pos@,
                    old(self).den as int,
                    q@,
                    old(self).extent@,
                ),
            ),
            0 <= final(self).nodes@[k as int].val <= VAL_CAP,
    {
        let den = self.den;
        let ext = clone_coords(&self.extent);
        let nd = vec_at_mut(&mut self.nodes, k);
        nd.add(den, q, &ext);
    }

    /// Resets the accumulated value of this layer's node `k` to zero;
    /// everything else is untouched.
    pub fn clear_at(&mut self, k: usize)
        requires
            k < old(self).nodes@.len(),
        ensures
            final(self).level == old(self).level,
            final(self).den == old(self).den,
            final(self).extent == old(self).extent,
            final(self).nodes@.len() == old(self).nodes@.len(),
            forall|j: int|
                0 <= j < old(self).nodes@.len() && j != k ==> #[trigger] final(self).nodes@[j]
                    == old(self).nodes@[j],
            final(self).nodes@[k as int].id == old(self).nodes@[k as int].id,
            final(self).nodes@[k as int].pos == old(self).nodes@[k as int].pos,
            final(self).nodes@[k as int].children == old(self).nodes@[k as int].children,
            final(self).nodes@[k as int].val == 0,
    {
        let nd = vec_at_mut(&mut self.nodes, k);
        nd.clear();
    }

    /// The ordered sequence of all accumulated values at this level — the
    /// externally visible flattened histogram.
    pub fn values(&self) -> (r: Vec<i64>)
        ensures
            r@.len() == self.nodes@.len(),
            forall|k: int| 0 <= k < r@.len() ==> #[trigger] r@[k] == self.nodes@[k].val,
    {
        let n = self.nodes.len();
        let mut r: Vec<i64> = Vec::new();
        let mut k: usize = 0;
        while k < n
            invariant
                k <= n,
                n == self.nodes@.len(),
                r@.len() == k,
                forall|j: int| 0 <= j < k ==> #[trigger] r@[j] == self.nodes@[j].val,
            decreases n - k,
        {
            r.push(self.nodes[k].val);
            k = k + 1;
        }
        r
    }

    /// The layer's values scaled to grey-scale bytes: the layer maximum maps
    /// to 255, non-positive values to 0. This is the computational half of a
    /// bitmap export; writing the bytes to an image file is the caller's
    /// business.
    pub fn gray_values(&self) -> (r: Vec<u8>)
        ensures
            r@.len() == self.nodes@.len(),
            forall|k: int|
                0 <= k < r@.len() ==> #[trigger] r@[k] as int == gray_spec(
                    self.nodes@,
                    max_val(self.nodes@, self.nodes@.len() as int),
                    k,
                ),
    {
        let n = self.nodes.len();
        let mut m: i64 = 0;
        let mut k: usize = 0;
        while k < n
            invariant
                k <= n,
                n == self.nodes@.len(),
                m == max_val(self.nodes@, k as int),
                m >= 0,
            decreases n - k,
        {
            if self.nodes[k].val > m {
                m = self.nodes[k].val;
            }
            k = k + 1;
        }
        let ghost mtot = max_val(self.nodes@, n as int);
        let mut r: Vec<u8> = Vec::new();
        let mut j: usize = 0;
        while j < n
            invariant
                j <= n,
                n == self.nodes@.len(),
                m == mtot,
                m >= 0,
                m == max_val(self.nodes@, n as int),
                r@.len() == j,
                forall|i: int| 0 <= i < j ==> #[trigger] r@[i] as int == gray_spec(self.nodes@, mtot, i),
            decreases n - j,
        {
            let v: i64 = self.nodes[j].val;
            let g: u8 = if m <= 0 || v <= 0 {
                0
            } else {
                proof {
                    lemma_max_val_ge(self.nodes@, n as int, j as int);
                    assert(255 * (v as int) / (m as int) <= 255) by (nonlinear_arith)
                        requires
                            1 <= v as int <= m as int,
                    ;
                    assert(255 * (v as int) / (m as int) >= 0) by (nonlinear_arith)
                        requires
                            1 <= v as int,
                            1 <= m as int,
                    ;
                }
                ((255i128 * (v as i128)) / (m as i128)) as u8
            };
            r.push(g);
            j = j + 1;
        }
        r
    }
}

/// Every node's value is at most the running maximum over the whole list.
proof fn lemma_max_val_ge(s: Seq<Node>, k: int, j: int)
    requires
        0 <= j < k <= s.len(),
    ensures
        s[j].val <= max_val(s, k),
        max_val(s, k) >= 0,
    decreases k,
{
    lemma_max_val_nonneg(s, (k - 1) as nat);
    if j < k - 1 {
        lemma_max_val_ge(s, k - 1, j);
    }
}

proof fn lemma_max_val_nonneg(s: Seq<Node>, k: nat)
    ensures
        max_val(s, k as int) >= 0,
    decreases k,
{
    if k > 0 {
        lemma_max_val_nonneg(s, (k - 1) as nat);
    }
}

} // verus!
