//! Global laws of the library, stated and proved once: the shape of a
//! well-formed pyramid, idempotence of reset, that the lattice walk never
//! reads accumulated values, and symmetry and self-distance of the
//! layer-by-layer distance.

use vstd::prelude::*;
use crate::math::{pow2, pow_nat};
use crate::node::Node;
use crate::pyramid::{
    layer_same_structure, lemma_frontier_agrees, lemma_same_structure_agrees, max_levels,
    norm_layers, norm_nodes, norm_sq_spec, same_structure, sat_norm_add, sq, Pyramid,
};
use crate::NORM_CAP;

verus! {

/// A well-formed pyramid has one layer more than its highest resolution
/// level — `1 + max_i log2(n_bins[i])` — with a single node in the root
/// layer and `(2^k)^dims` nodes in layer `k`.
pub proof fn lemma_layer_shape(p: &Pyramid)
    requires
        p.wf(),
    ensures
        p.layers@.len() == 1 + max_levels(p.n_bins@),
        p.layers@[0].nodes@.len() == 1,
        forall|k: int|
            1 <= k < p.layers@.len() ==> #[trigger] p.layers@[k].nodes@.len() == pow_nat(
                pow2(k as nat),
                p.limits@.len() as nat,
            ),
{
    assert(p.wf_layer(0));
    assert forall|k: int|
        1 <= k < p.layers@.len() implies #[trigger] p.layers@[k].nodes@.len() == pow_nat(
        pow2(k as nat),
        p.limits@.len() as nat,
    ) by {
        assert(p.wf_layer(k));
    }
}

/// The relation `clear` leaves between its input and output: the structure
/// untouched, every accumulated value zero.
pub open spec fn cleared(a: &Pyramid, b: &Pyramid) -> bool {
    &&& same_structure(a, b)
    &&& forall|l: int, k: int|
        0 <= l < b.layers@.len() && 0 <= k < b.layers@[l].nodes@.len()
            ==> #[trigger] b.layers@[l].nodes@[k].val == 0
}

/// Observational equality: same structure and the same value in every bin.
pub open spec fn obs_eq(a: &Pyramid, b: &Pyramid) -> bool {
    &&& same_structure(a, b)
    &&& forall|l: int, k: int|
        0 <= l < a.layers@.len() && 0 <= k < a.layers@[l].nodes@.len()
            ==> #[trigger] a.layers@[l].nodes@[k].val == b.layers@[l].nodes@[k].val
}

/// Resetting twice is the same as resetting once: if one `clear` takes `a`
/// to `b` and a second takes `b` to `c`, then `c` is indistinguishable from
/// `b` — and is itself a valid result of clearing `a` directly.
pub proof fn lemma_clear_idempotent(a: &Pyramid, b: &Pyramid, c: &Pyramid)
    requires
        cleared(a, b),
        cleared(b, c),
    ensures
        obs_eq(b, c),
        cleared(a, c),
{
    assert forall|l: int|
        0 <= l < a.layers@.len() implies #[trigger] layer_same_structure(
        a.layers@[l],
        c.layers@[l],
    ) by {
        assert(layer_same_structure(a.layers@[l], b.layers@[l]));
        assert(layer_same_structure(b.layers@[l], c.layers@[l]));
        assert forall|k: int|
            0 <= k < a.layers@[l].nodes@.len() implies #[trigger] a.layers@[l].nodes@[k].id
            == c.layers@[l].nodes@[k].id && a.layers@[l].nodes@[k].pos@
            == c.layers@[l].nodes@[k].pos@ && a.layers@[l].nodes@[k].children@
            == c.layers@[l].nodes@[k].children@ by {
            assert(a.layers@[l].nodes@[k].id == b.layers@[l].nodes@[k].id);
            assert(b.layers@[l].nodes@[k].id == c.layers@[l].nodes@[k].id);
        }
    }
    assert forall|l: int, k: int|
        0 <= l < b.layers@.len() && 0 <= k < b.layers@[l].nodes@.len()
            implies #[trigger] b.layers@[l].nodes@[k].val == c.layers@[l].nodes@[k].val by {
        assert(layer_same_structure(b.layers@[l], c.layers@[l]));
        assert(c.layers@[l].nodes@.len() == b.layers@[l].nodes@.len());
        assert(b.layers@[l].nodes@[k].val == 0);
        assert(c.layers@[l].nodes@[k].val == 0);
    }
}

/// The lattice walk reads positions, extents and child links — never
/// accumulated values. Two pyramids with the same structure therefore walk
/// to exactly the same frontier for every query point, whatever their
/// values; in particular, insertion deposits into the same bins before and
/// after a reset.
pub proof fn lemma_walk_ignores_values(a: &Pyramid, b: &Pyramid, q: Seq<i64>, qden: int, m: nat)
    requires
        same_structure(a, b),
        m < a.layers@.len(),
        a.layers@[0].nodes@.len() >= 1,
    ensures
        a.frontier(q, qden, m) == b.frontier(q, qden, m),
{
    lemma_same_structure_agrees(a, b, m as int);
    assert(layer_same_structure(a.layers@[0], b.layers@[0]));
    lemma_frontier_agrees(a, b, q, qden, m);
}

proof fn lemma_norm_nodes_sym(s1: Seq<Node>, s2: Seq<Node>, k: int, acc: int)
    requires
        s1.len() == s2.len(),
    ensures
        norm_nodes(s1, s2, k, acc) == norm_nodes(s2, s1, k, acc),
    decreases s1.len() - k,
{
    if 0 <= k < s1.len() {
        assert(sq(s1[k].val - s2[k].val) == sq(s2[k].val - s1[k].val)) by (nonlinear_arith);
        lemma_norm_nodes_sym(s1, s2, k + 1, sat_norm_add(acc, sq(s1[k].val - s2[k].val)));
    }
}

proof fn lemma_norm_layers_sym(p1: &Pyramid, p2: &Pyramid, l: int, acc: int)
    requires
        p1.layers@.len() == p2.layers@.len(),
        forall|m: int|
            0 <= m < p1.layers@.len() ==> #[trigger] p1.layers@[m].nodes@.len()
                == p2.layers@[m].nodes@.len(),
    ensures
        norm_layers(p1, p2, l, acc) == norm_layers(p2, p1, l, acc),
    decreases p1.layers@.len() - l,
{
    if 1 <= l < p1.layers@.len() {
        lemma_norm_nodes_sym(p1.layers@[l].nodes@, p2.layers@[l].nodes@, 0, acc);
        lemma_norm_layers_sym(
            p1,
            p2,
            l + 1,
            norm_nodes(p1.layers@[l].nodes@, p2.layers@[l].nodes@, 0, acc),
        );
    }
}

/// The distance is symmetric: comparing `p1` against `p2` gives the same
/// squared distance as comparing `p2` against `p1`, for any two well-formed
/// structurally equal pyramids.
pub proof fn lemma_norm_symmetric(p1: &Pyramid, p2: &Pyramid)
    requires
        p1.wf(),
        p2.wf(),
        p1.limits@ == p2.limits@,
        p1.n_bins@ == p2.n_bins@,
    ensures
        norm_sq_spec(p1, p2) == norm_sq_spec(p2, p1),
{
    assert(p1.layers@.len() == p2.layers@.len());
    assert forall|m: int|
        0 <= m < p1.layers@.len() implies #[trigger] p1.layers@[m].nodes@.len()
        == p2.layers@[m].nodes@.len() by {
        assert(p1.wf_layer(m));
        assert(p2.wf_layer(m));
    }
    lemma_norm_layers_sym(p1, p2, 1, 0);
}

proof fn lemma_norm_nodes_self(s: Seq<Node>, k: int, acc: int)
    requires
        0 <= acc <= NORM_CAP,
    ensures
        norm_nodes(s, s, k, acc) == acc,
    decreases s.len() - k,
{
    if 0 <= k < s.len() {
        assert(sq(s[k].val - s[k].val) == 0);
        assert(sat_norm_add(acc, 0) == acc);
        lemma_norm_nodes_self(s, k + 1, acc);
    }
}

proof fn lemma_norm_layers_self(p: &Pyramid, l: int, acc: int)
    requires
        0 <= acc <= NORM_CAP,
    ensures
        norm_layers(p, p, l, acc) == acc,
    decreases p.layers@.len() - l,
{
    if 1 <= l < p.layers@.len() {
        lemma_norm_nodes_self(p.layers@[l].nodes@, 0, acc);
        lemma_norm_layers_self(p, l + 1, acc);
    }
}

/// The distance from any pyramid to itself is zero — whether freshly built,
/// freshly cleared, or after any number of insertions.
pub proof fn lemma_norm_self_zero(p: &Pyramid)
    ensures
        norm_sq_spec(p, p) == 0,
{
    lemma_norm_layers_self(p, 1, 0);
}

} // verus!
