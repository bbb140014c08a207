//! The pyramid: the ordered sequence of layers from the single root bin down
//! to the finest grid, the lattice-linking algorithm, point insertion, reset,
//! and the distance between two same-shaped pyramids.

use vstd::prelude::*;
use crate::layer::{clone_coords, layer_den, vec_at_mut, Layer};
use crate::math::{
    is_pow2, is_pow2_usize, lemma_pow2_7, lemma_pow2_8, lemma_pow2_increases,
    lemma_pow2_is_pow_nat, lemma_pow2_positive, lemma_pow_nat_increases, lemma_pow_nat_positive,
    log2, log2_usize, pow2, pow_nat, pow_usize,
};
use crate::node::{inside_spec, sat_add_val, weight_spec, Node};
use crate::{DEN_MAX, DIM_MAX, LIM_MAX, NB_MAX, NORM_CAP, VAL_CAP};

verus! {

/// The largest resolution level over all axes: `max_i log2(n_bins[i])`.
pub open spec fn max_levels(s: Seq<usize>) -> nat
    decreases s.len(),
{
    if s.len() == 0 {
        0
    } else {
        let rest = max_levels(s.drop_last());
        let last = log2(s.last() as nat);
        if last > rest {
            last
        } else {
            rest
        }
    }
}

/// The per-axis extent numerator of level `l`, over `layer_den(l)`: the root
/// bin's support half-width is the whole domain width `max - min` (numerator
/// doubled over denominator two); at level `l >= 1` it is the grid spacing
/// `(max - min) / (2^l + 1)`.
pub open spec fn ext_num(limits: Seq<(i64, i64)>, l: nat, i: int) -> int {
    if l == 0 {
        2 * (limits[i].1 - limits[i].0)
    } else {
        limits[i].1 - limits[i].0
    }
}

/// Axis `i`'s digit of grid index `t` in the row-major enumeration of a
/// `dims`-dimensional grid with `n` bins per axis (axis 0 varies slowest).
pub open spec fn grid_digit(t: nat, n: nat, dims: nat, i: nat) -> nat {
    (t / pow_nat(n, (dims - 1 - i) as nat)) % n
}

/// The position numerator, over `layer_den(l)`, of node `t` of level `l` on
/// axis `i`: the root bin sits at the domain midpoint; at level `l >= 1` the
/// grid positions start one spacing in from the lower limit.
pub open spec fn node_pos_num(limits: Seq<(i64, i64)>, l: nat, t: nat, i: int) -> int {
    if l == 0 {
        limits[i].0 + limits[i].1
    } else {
        limits[i].0 * (pow2(l) as int + 1) + (grid_digit(t, pow2(l), limits.len(), i as nat) as int
            + 1) * (limits[i].1 - limits[i].0)
    }
}

/// The conditions construction demands of its inputs: one to four axes, a
/// bin count per axis, each a power of two within range, and ordered,
/// bounded limits.
pub open spec fn params_ok(limits: Seq<(i64, i64)>, n_bins: Seq<usize>) -> bool {
    &&& 1 <= limits.len() <= DIM_MAX
    &&& n_bins.len() == limits.len()
    &&& forall|i: int|
        0 <= i < n_bins.len() ==> is_pow2(#[trigger] n_bins[i] as nat) && n_bins[i] <= NB_MAX
    &&& forall|i: int|
        0 <= i < limits.len() ==> -LIM_MAX <= (#[trigger] limits[i]).0 < limits[i].1 <= LIM_MAX
}

/// Decides whether the given limits and bin counts are acceptable to
/// [`Pyramid::new`]. Violating them is a programmer error there; callers
/// that take them from outside test first.
pub fn supported_params(limits: &Vec<(i64, i64)>, n_bins: &Vec<usize>) -> (r: bool)
    ensures
        r == params_ok(limits@, n_bins@),
{
    if limits.len() < 1 || limits.len() > DIM_MAX || n_bins.len() != limits.len() {
        return false;
    }
    let mut i: usize = 0;
    while i < n_bins.len()
        invariant
            i <= n_bins@.len(),
            forall|k: int|
                0 <= k < i ==> is_pow2(#[trigger] n_bins@[k] as nat) && n_bins@[k] <= NB_MAX,
        decreases n_bins@.len() - i,
    {
        if !is_pow2_usize(n_bins[i]) || n_bins[i] > NB_MAX {
            assert(!(is_pow2(n_bins@[i as int] as nat) && n_bins@[i as int] <= NB_MAX));
            return false;
        }
        i = i + 1;
    }
    let mut k: usize = 0;
    while k < limits.len()
        invariant
            k <= limits@.len(),
            forall|j: int|
                0 <= j < k ==> -LIM_MAX <= (#[trigger] limits@[j]).0 < limits@[j].1 <= LIM_MAX,
        decreases limits@.len() - k,
    {
        if limits[k].0 < -LIM_MAX || limits[k].0 >= limits[k].1 || limits[k].1 > LIM_MAX {
            assert(!(-LIM_MAX <= limits@[k as int].0 < limits@[k as int].1 <= LIM_MAX));
            return false;
        }
        k = k + 1;
    }
    true
}

/// The full multi-resolution structure: domain limits, target per-axis bin
/// counts, and the layers from the root (level 0) to the finest level.
pub struct Pyramid {
    /// Per-axis domain limits `(min, max)`, `min < max`.
    pub limits: Vec<(i64, i64)>,
    /// Per-axis target bin count, each a power of two.
    pub n_bins: Vec<usize>,
    /// The layers, coarsest first; index equals resolution level.
    pub layers: Vec<Layer>,
}

impl Pyramid {
    pub open spec fn dims(&self) -> int {
        self.limits@.len() as int
    }

    /// The construction parameters are in range, and the derived level count
    /// stays within the supported depth.
    pub open spec fn wf_params(&self) -> bool {
        &&& params_ok(self.limits@, self.n_bins@)
        &&& max_levels(self.n_bins@) <= 7
    }

    /// The number of nodes of level `l`: one root, then `(2^l)^dims`.
    pub open spec fn layer_count_spec(&self, l: int) -> nat {
        if l == 0 {
            1
        } else {
            pow_nat(pow2(l as nat), self.limits@.len() as nat)
        }
    }

    /// Node `k` of level `l` carries its own index as id, sits at the exact
    /// grid position for that level, holds a saturated-range value, and its
    /// children are valid indices into the next finer level (none at the
    /// finest level).
    pub open spec fn wf_node(&self, l: int, k: int) -> bool {
        let nd = self.layers@[l].nodes@[k];
        &&& nd.id == k
        &&& nd.pos@.len() == self.dims()
        &&& 0 <= nd.val <= VAL_CAP
        &&& forall|i: int|
            0 <= i < self.dims() ==> #[trigger] nd.pos@[i] as int == node_pos_num(
                self.limits@,
                l as nat,
                k as nat,
                i,
            )
        &&& if l + 1 < self.layers@.len() {
            forall|c: int|
                0 <= c < nd.children@.len() ==> #[trigger] nd.children@[c]
                    < self.layers@[l + 1].nodes@.len()
        } else {
            nd.children@.len() == 0
        }
    }

    /// Level `l`'s layer records the right level, denominator and extent, and
    /// holds exactly the full grid of well-formed nodes for that level.
    pub open spec fn wf_layer(&self, l: int) -> bool {
        let lay = self.layers@[l];
        &&& lay.level == l
        &&& lay.den == layer_den(l as nat)
        &&& lay.extent@.len() == self.dims()
        &&& forall|i: int|
            0 <= i < self.dims() ==> #[trigger] lay.extent@[i] as int == ext_num(
                self.limits@,
                l as nat,
                i,
            )
        &&& lay.nodes@.len() == self.layer_count_spec(l)
        &&& forall|k: int| 0 <= k < lay.nodes@.len() ==> self.wf_node(l, k)
    }

    /// The structural invariant: parameters in range and one well-formed
    /// layer per level, from the root to the finest level.
    pub open spec fn wf(&self) -> bool {
        &&& self.wf_params()
        &&& self.layers@.len() == max_levels(self.n_bins@) + 1
        &&& forall|l: int| 0 <= l < self.layers@.len() ==> self.wf_layer(l)
    }
}

/// The set of node indices a frontier vector denotes.
pub open spec fn idx_set(s: Seq<usize>) -> Set<int> {
    Set::new(|j: int| exists|i: int| 0 <= i < s.len() && #[trigger] s[i] as int == j)
}

/// No index occurs twice.
pub open spec fn nodup(s: Seq<usize>) -> bool {
    forall|a: int, b: int| 0 <= a < b < s.len() ==> s[a] != s[b]
}

impl Pyramid {
    /// Whether the query point `q / qden` lies in the support region of node
    /// `j` of level `l`, using that level's own extent.
    pub open spec fn node_inside(&self, l: int, j: int, q: Seq<i64>, qden: int) -> bool {
        inside_spec(
            self.layers@[l].nodes@[j].pos@,
            layer_den(l as nat),
            q,
            qden,
            self.layers@[l].extent@,
        )
    }

    /// The frontier of the lattice walk for query point `q / qden` at level
    /// `m`: level 0 holds only the root; at each finer level, exactly those
    /// children of the previous frontier whose support region contains the
    /// query (a set, so reached-twice nodes count once).
    pub open spec fn frontier(&self, q: Seq<i64>, qden: int, m: nat) -> Set<int>
        decreases m,
    {
        if m == 0 {
            set![0int]
        } else {
            Set::new(
                |j: int|
                    {
                        &&& 0 <= j < self.layers@[m as int].nodes@.len()
                        &&& self.node_inside(m as int, j, q, qden)
                        &&& exists|n: int|
                            #[trigger] self.frontier(q, qden, (m - 1) as nat).contains(n)
                                && self.layers@[m as int - 1].nodes@[n].children@.contains(
                                j as usize,
                            )
                    },
            )
        }
    }

    /// The child links between level `m` and level `m + 1` are exactly what
    /// the lattice walk computes: node `j` of level `m + 1` hangs under node
    /// `n` of level `m` if and only if `n` is in the walk's frontier at level
    /// `m` for `j`'s position.
    pub open spec fn linked_at(&self, m: int) -> bool {
        forall|n: int, j: int|
            0 <= n < self.layers@[m].nodes@.len() && 0 <= j < self.layers@[m + 1].nodes@.len() ==> (
            #[trigger] self.layers@[m].nodes@[n].children@.contains(j as usize)
                <==> self.frontier(
                self.layers@[m + 1].nodes@[j].pos@,
                layer_den((m + 1) as nat),
                m as nat,
            ).contains(n))
    }

    /// The whole lattice is linked as the walk dictates, level by level.
    pub open spec fn linked(&self) -> bool {
        forall|m: int| 0 <= m < self.layers@.len() - 1 ==> #[trigger] self.linked_at(m)
    }
}

/// Everything the lattice walk reads at one level, compared between two
/// pyramids: node counts, positions and extents at level `l`, and — for
/// levels strictly below `m` — the child links.
pub open spec fn layer_walk_eq(a: &Pyramid, b: &Pyramid, l: int, m: int) -> bool {
    &&& a.layers@[l].nodes@.len() == b.layers@[l].nodes@.len()
    &&& a.layers@[l].extent@ == b.layers@[l].extent@
    &&& forall|j: int|
        0 <= j < a.layers@[l].nodes@.len() ==> #[trigger] a.layers@[l].nodes@[j].pos@
            == b.layers@[l].nodes@[j].pos@
    &&& (l < m ==> forall|j: int|
        0 <= j < a.layers@[l].nodes@.len() ==> #[trigger] a.layers@[l].nodes@[j].children@
            == b.layers@[l].nodes@[j].children@)
}

/// Everything the lattice walk reads at levels up to `m` agrees.
pub open spec fn walk_agrees_below(a: &Pyramid, b: &Pyramid, m: int) -> bool {
    forall|l: int| 0 <= l <= m ==> #[trigger] layer_walk_eq(a, b, l, m)
}

/// The walk's frontier depends only on what the walk reads: two pyramids that
/// agree on node counts, positions, extents and child links up to level `m`
/// have the same frontier there, whatever their accumulated values are.
pub proof fn lemma_frontier_agrees(a: &Pyramid, b: &Pyramid, q: Seq<i64>, qden: int, m: nat)
    requires
        walk_agrees_below(a, b, m as int),
        a.layers@[0].nodes@.len() >= 1,
        b.layers@[0].nodes@.len() >= 1,
    ensures
        a.frontier(q, qden, m) == b.frontier(q, qden, m),
    decreases m,
{
    if m == 0 {
        assert(a.frontier(q, qden, 0) =~= b.frontier(q, qden, 0));
    } else {
        assert forall|l: int| 0 <= l <= m - 1 implies #[trigger] layer_walk_eq(a, b, l, m - 1) by {
            assert(layer_walk_eq(a, b, l, m as int));
        }
        lemma_frontier_agrees(a, b, q, qden, (m - 1) as nat);
        assert forall|j: int|
            a.frontier(q, qden, m).contains(j) == b.frontier(q, qden, m).contains(j) by {
            assert(layer_walk_eq(a, b, m as int, m as int));
            assert(layer_walk_eq(a, b, m as int - 1, m as int));
            if a.frontier(q, qden, m).contains(j) {
                assert(a.layers@[m as int].nodes@[j].pos@ == b.layers@[m as int].nodes@[j].pos@);
                let n = choose|n: int|
                    #[trigger] a.frontier(q, qden, (m - 1) as nat).contains(n)
                        && a.layers@[m as int - 1].nodes@[n].children@.contains(j as usize);
                assert(b.frontier(q, qden, (m - 1) as nat).contains(n));
                assert(n < a.layers@[m as int - 1].nodes@.len()) by {
                    lemma_frontier_in_range(a, q, qden, (m - 1) as nat);
                }
                assert(b.layers@[m as int - 1].nodes@[n].children@.contains(j as usize));
                assert(b.frontier(q, qden, m).contains(j));
            }
            if b.frontier(q, qden, m).contains(j) {
                assert(b.layers@[m as int].nodes@[j].pos@ == a.layers@[m as int].nodes@[j].pos@);
                let n = choose|n: int|
                    #[trigger] b.frontier(q, qden, (m - 1) as nat).contains(n)
                        && b.layers@[m as int - 1].nodes@[n].children@.contains(j as usize);
                assert(a.frontier(q, qden, (m - 1) as nat).contains(n));
                assert(n < b.layers@[m as int - 1].nodes@.len()) by {
                    lemma_frontier_in_range(b, q, qden, (m - 1) as nat);
                }
                assert(a.layers@[m as int - 1].nodes@[n].children@.contains(j as usize));
                assert(a.frontier(q, qden, m).contains(j));
            }
        }
        assert(a.frontier(q, qden, m) =~= b.frontier(q, qden, m));
    }
}

/// Frontier members are valid node indices of their level (for a pyramid
/// whose root level has at least one node).
pub proof fn lemma_frontier_in_range(p: &Pyramid, q: Seq<i64>, qden: int, m: nat)
    requires
        m == 0 ==> p.layers@[0].nodes@.len() >= 1,
    ensures
        forall|n: int|
            #[trigger] p.frontier(q, qden, m).contains(n) ==> 0 <= n < p.layers@[m as int].nodes@.len(),
{
    if m == 0 {
        assert forall|n: int| #[trigger] p.frontier(q, qden, 0).contains(n) implies 0 <= n
            < p.layers@[0].nodes@.len() by {
            assert(n == 0);
        }
    }
}

/// The denominator of any supported level fits the small-factor bound.
proof fn lemma_layer_den_bounds(l: nat)
    requires
        l <= 7,
    ensures
        2 <= layer_den(l) <= DEN_MAX,
{
    if l > 0 {
        lemma_pow2_positive(l);
        lemma_pow2_increases(l, 7);
        lemma_pow2_7();
    }
}

/// Linear membership scan.
fn contains_usize(v: &Vec<usize>, x: usize) -> (r: bool)
    ensures
        r == v@.contains(x),
{
    let n = v.len();
    let mut k: usize = 0;
    while k < n
        invariant
            k <= n,
            n == v@.len(),
            forall|j: int| 0 <= j < k ==> v@[j] != x,
        decreases n - k,
    {
        if v[k] == x {
            assert(v@[k as int] == x);
            return true;
        }
        k = k + 1;
    }
    assert(!v@.contains(x));
    false
}

/// Appending an element extends membership by exactly that element.
proof fn lemma_contains_push(s: Seq<usize>, x: usize, y: usize)
    ensures
        s.push(x).contains(y) <==> (s.contains(y) || y == x),
{
    if s.contains(y) {
        let i = choose|i: int| 0 <= i < s.len() && s[i] == y;
        assert(s.push(x)[i] == y);
    }
    if y == x {
        assert(s.push(x)[s.len() as int] == y);
    }
    if s.push(x).contains(y) && y != x {
        let i = choose|i: int| 0 <= i < s.push(x).len() && s.push(x)[i] == y;
        assert(i < s.len());
        assert(s[i] == y);
    }
}

impl Pyramid {
    /// What `frontier_step` collects, part way through: the children at level
    /// `m + 1` that contain the query and are reachable from one of the first
    /// `a` frontier nodes of `curr`, or from the first `b` child slots of
    /// `curr[a]`.
    pub open spec fn step_seen(
        &self,
        curr: Seq<usize>,
        m: int,
        q: Seq<i64>,
        qden: int,
        j: usize,
        a: int,
        b: int,
    ) -> bool {
        &&& (j as int) < self.layers@[m + 1].nodes@.len()
        &&& self.node_inside(m + 1, j as int, q, qden)
        &&& (exists|a2: int|
            0 <= a2 < a && self.layers@[m].nodes@[#[trigger] curr[a2] as int].children@.contains(j)
            || (0 <= a < curr.len() && self.layers@[m].nodes@[curr[a] as int].children@.take(
                b,
            ).contains(j)))
    }

    /// One step of the lattice walk: from the frontier at level `m`, the
    /// deduplicated list of those children at level `m + 1` whose support
    /// region contains the query point `q / qden`.
    fn frontier_step(&self, curr: &Vec<usize>, m: usize, q: &Vec<i64>, qden: i64) -> (next: Vec<
        usize,
    >)
        requires
            self.wf(),
            m + 1 < self.layers@.len(),
            q@.len() == self.dims(),
            1 <= qden <= DEN_MAX,
            forall|a: int|
                0 <= a < curr@.len() ==> #[trigger] curr@[a] < self.layers@[m as int].nodes@.len(),
            idx_set(curr@) == self.frontier(q@, qden as int, m as nat),
        ensures
            forall|a: int|
                0 <= a < next@.len() ==> #[trigger] next@[a] < self.layers@[m + 1].nodes@.len(),
            nodup(next@),
            idx_set(next@) == self.frontier(q@, qden as int, (m + 1) as nat),
    {
        let finer_count: usize = self.layers[m + 1].nodes.len();
        let mut next: Vec<usize> = Vec::new();
        let mut a: usize = 0;
        while a < curr.len()
            invariant
                a <= curr@.len(),
                self.wf(),
                m + 1 < self.layers@.len(),
                q@.len() == self.dims(),
                1 <= qden <= DEN_MAX,
                forall|a2: int|
                    0 <= a2 < curr@.len() ==> #[trigger] curr@[a2]
                        < self.layers@[m as int].nodes@.len(),
                idx_set(curr@) == self.frontier(q@, qden as int, m as nat),
                forall|b: int|
                    0 <= b < next@.len() ==> #[trigger] next@[b]
                        < self.layers@[m + 1].nodes@.len(),
                nodup(next@),
                forall|j: usize|
                    #[trigger] next@.contains(j) <==> self.step_seen(
                        curr@,
                        m as int,
                        q@,
                        qden as int,
                        j,
                        a as int,
                        0,
                    ),
            decreases curr@.len() - a,
        {
            let n_idx = curr[a];
            proof {
                assert(self.wf_layer(m as int));
                assert(self.wf_node(m as int, n_idx as int));
            }
            let clen = self.layers[m].nodes[n_idx].children.len();
            let mut b: usize = 0;
            while b < clen
                invariant
                    b <= clen,
                    a < curr@.len(),
                    self.wf(),
                    m + 1 < self.layers@.len(),
                    q@.len() == self.dims(),
                    1 <= qden <= DEN_MAX,
                    n_idx == curr@[a as int],
                    n_idx < self.layers@[m as int].nodes@.len(),
                    clen == self.layers@[m as int].nodes@[n_idx as int].children@.len(),
                    forall|a2: int|
                        0 <= a2 < curr@.len() ==> #[trigger] curr@[a2]
                            < self.layers@[m as int].nodes@.len(),
                    idx_set(curr@) == self.frontier(q@, qden as int, m as nat),
                    forall|b2: int|
                        0 <= b2 < next@.len() ==> #[trigger] next@[b2]
                            < self.layers@[m + 1].nodes@.len(),
                    nodup(next@),
                    forall|j: usize|
                        #[trigger] next@.contains(j) <==> self.step_seen(
                            curr@,
                            m as int,
                            q@,
                            qden as int,
                            j,
                            a as int,
                            b as int,
                        ),
                decreases clen - b,
            {
                proof {
                    assert(self.wf_layer(m as int));
                    assert(self.wf_node(m as int, n_idx as int));
                }
                let j = self.layers[m].nodes[n_idx].children[b];
                assert(j < self.layers@[m + 1].nodes@.len());
                proof {
                    lemma_layer_den_bounds((m + 1) as nat);
                    assert(self.wf_layer(m + 1));
                    assert(self.wf_node(m + 1, j as int));
                }
                let ghost next0 = next@;
                let lay = &self.layers[m + 1];
                let is_in = lay.nodes[j].inside(lay.den, q, qden, &lay.extent);
                let mut pushed = false;
                if is_in {
                    if !contains_usize(&next, j) {
                        next.push(j);
                        pushed = true;
                    }
                }
                proof {
                    let ch = self.layers@[m as int].nodes@[n_idx as int].children@;
                    assert(ch[b as int] == j);
                    assert(ch.take(b + 1) =~= ch.take(b as int).push(j));
                    assert forall|j2: usize|
                        #[trigger] next@.contains(j2) <==> self.step_seen(
                            curr@,
                            m as int,
                            q@,
                            qden as int,
                            j2,
                            a as int,
                            b + 1,
                        ) by {
                        lemma_contains_push(ch.take(b as int), j, j2);
                        if pushed {
                            lemma_contains_push(next0, j, j2);
                        }
                        if j2 == j && is_in && !pushed {
                            assert(next0.contains(j));
                        }
                    }
                }
                b = b + 1;
            }
            proof {
                let ch = self.layers@[m as int].nodes@[n_idx as int].children@;
                assert(ch.take(clen as int) =~= ch);
                assert forall|j2: usize|
                    #[trigger] next@.contains(j2) <==> self.step_seen(
                        curr@,
                        m as int,
                        q@,
                        qden as int,
                        j2,
                        a + 1,
                        0,
                    ) by {
                    if self.step_seen(curr@, m as int, q@, qden as int, j2, a + 1, 0) {
                        let a2 = choose|a2: int|
                            0 <= a2 < a + 1
                                && self.layers@[m as int].nodes@[#[trigger] curr@[a2] as int].children@.contains(
                                j2,
                            );
                        if a2 < a {
                            assert(self.step_seen(curr@, m as int, q@, qden as int, j2, a as int, 0));
                        } else {
                            assert(self.step_seen(
                                curr@,
                                m as int,
                                q@,
                                qden as int,
                                j2,
                                a as int,
                                clen as int,
                            ));
                        }
                    }
                    if next@.contains(j2) {
                        assert(self.step_seen(
                            curr@,
                            m as int,
                            q@,
                            qden as int,
                            j2,
                            a as int,
                            clen as int,
                        ));
                    }
                }
            }
            a = a + 1;
        }
        proof {
            let fr = self.frontier(q@, qden as int, (m + 1) as nat);
            assert(self.layers@[m + 1].nodes@.len() == finer_count as nat);
            assert forall|j: int| idx_set(next@).contains(j) == fr.contains(j) by {
                if idx_set(next@).contains(j) {
                    let i0 = choose|i0: int|
                        0 <= i0 < next@.len() && #[trigger] next@[i0] as int == j;
                    assert(next@[i0] == j as usize);
                    assert(next@.contains(j as usize));
                    assert(self.step_seen(
                        curr@,
                        m as int,
                        q@,
                        qden as int,
                        j as usize,
                        curr@.len() as int,
                        0,
                    ));
                    let a2 = choose|a2: int|
                        0 <= a2 < curr@.len()
                            && self.layers@[m as int].nodes@[#[trigger] curr@[a2] as int].children@.contains(
                            j as usize,
                        );
                    assert(curr@[a2] as int == curr@[a2] as int);
                    assert(idx_set(curr@).contains(curr@[a2] as int));
                    assert(self.frontier(q@, qden as int, m as nat).contains(curr@[a2] as int));
                    assert(fr.contains(j));
                }
                if fr.contains(j) {
                    assert(0 <= j < finer_count as int);
                    assert((j as usize) as int == j);
                    let n2 = choose|n2: int|
                        #[trigger] self.frontier(q@, qden as int, m as nat).contains(n2)
                            && self.layers@[m as int].nodes@[n2].children@.contains(j as usize);
                    assert(idx_set(curr@).contains(n2));
                    let a2 = choose|a2: int|
                        0 <= a2 < curr@.len() && #[trigger] curr@[a2] as int == n2;
                    assert(curr@[a2] == n2 as usize);
                    assert(self.layers@[m as int].nodes@[curr@[a2] as int].children@.contains(
                        j as usize,
                    ));
                    assert(self.step_seen(
                        curr@,
                        m as int,
                        q@,
                        qden as int,
                        j as usize,
                        curr@.len() as int,
                        0,
                    ));
                    assert(next@.contains(j as usize));
                    let i1 = choose|i1: int| 0 <= i1 < next@.len() && next@[i1] == j as usize;
                    assert(next@[i1] as int == j);
                    assert(idx_set(next@).contains(j));
                }
            }
            assert(idx_set(next@) =~= fr);
        }
        next
    }
}


/// Whether one of the first `a` entries of `s` denotes node index `n`.
pub open spec fn contains_prefix(s: Seq<usize>, a: int, n: int) -> bool {
    exists|a2: int| 0 <= a2 < a && #[trigger] s[a2] as int == n
}

impl Pyramid {
    /// Links node `node` of level `layer + 1` into the lattice: walks the
    /// frontier for that node's position from the root down to `layer` and
    /// appends the node to the children of every frontier node there — every
    /// node of level `layer` whose support region chain reaches the new
    /// node's position. More than one frontier node means more than one
    /// parent; that is the lattice, not a defect.
    pub fn push_node(&mut self, node: usize, layer: usize)
        requires
            old(self).wf(),
            layer + 1 < old(self).layers@.len(),
            node < old(self).layers@[layer as int + 1].nodes@.len(),
        ensures
            final(self).wf(),
            final(self).limits == old(self).limits,
            final(self).n_bins == old(self).n_bins,
            final(self).layers@.len() == old(self).layers@.len(),
            forall|m: int|
                0 <= m < old(self).layers@.len() && m != layer ==> #[trigger] final(self).layers@[m] == old(self).layers@[m],
            final(self).layers@[layer as int].level == old(self).layers@[layer as int].level,
            final(self).layers@[layer as int].den == old(self).layers@[layer as int].den,
            final(self).layers@[layer as int].extent == old(self).layers@[layer as int].extent,
            final(self).layers@[layer as int].nodes@.len() == old(self).layers@[layer as int].nodes@.len(),
            forall|n: int|
                0 <= n < old(self).layers@[layer as int].nodes@.len() ==> #[trigger] final(self).layers@[layer as int].nodes@[n].id == old(self).layers@[layer as int].nodes@[n].id && final(self).layers@[layer as int].nodes@[n].pos == old(self).layers@[layer as int].nodes@[n].pos && final(self).layers@[layer as int].nodes@[n].val == old(self).layers@[layer as int].nodes@[n].val,
            forall|n: int|
                0 <= n < old(self).layers@[layer as int].nodes@.len()
                    ==> #[trigger] final(self).layers@[layer as int].nodes@[n].children@ == (
                if old(self).frontier(
                    old(self).layers@[layer as int + 1].nodes@[node as int].pos@,
                    layer_den((layer + 1) as nat),
                    layer as nat,
                ).contains(n) {
                    old(self).layers@[layer as int].nodes@[n].children@.push(node)
                } else {
                    old(self).layers@[layer as int].nodes@[n].children@
                }),
    {
        proof {
            assert(self.wf_layer(layer as int + 1));
            assert(self.wf_node(layer as int + 1, node as int));
            lemma_layer_den_bounds((layer + 1) as nat);
        }
        let q = clone_coords(&self.layers[layer + 1].nodes[node].pos);
        let qden = self.layers[layer + 1].den;
        let mut curr: Vec<usize> = Vec::new();
        curr.push(0);
        proof {
            assert(curr@[0] == 0usize);
            assert(self.wf_layer(0));
            assert forall|j: int|
                idx_set(curr@).contains(j) == self.frontier(q@, qden as int, 0).contains(j) by {
                if idx_set(curr@).contains(j) {
                    let i = choose|i: int| 0 <= i < curr@.len() && #[trigger] curr@[i] as int == j;
                    assert(j == 0);
                }
                if j == 0 {
                    assert(curr@[0] as int == 0);
                    assert(idx_set(curr@).contains(0));
                }
            }
            assert(idx_set(curr@) =~= self.frontier(q@, qden as int, 0));
        }
        let mut m: usize = 0;
        while m < layer
            invariant
                *self == *old(self),
                self.wf(),
                layer + 1 < self.layers@.len(),
                node < self.layers@[layer as int + 1].nodes@.len(),
                q@ == self.layers@[layer as int + 1].nodes@[node as int].pos@,
                q@.len() == self.dims(),
                qden == layer_den((layer + 1) as nat),
                1 <= qden <= DEN_MAX,
                m <= layer,
                nodup(curr@),
                forall|a: int|
                    0 <= a < curr@.len() ==> #[trigger] curr@[a]
                        < self.layers@[m as int].nodes@.len(),
                idx_set(curr@) == self.frontier(q@, qden as int, m as nat),
            decreases layer - m,
        {
            let next = self.frontier_step(&curr, m, &q, qden);
            curr = next;
            m = m + 1;
        }
        let ghost fset = self.frontier(q@, qden as int, layer as nat);
        let ghost orig = *self;
        let mut a: usize = 0;
        while a < curr.len()
            invariant
                a <= curr@.len(),
                orig.wf(),
                layer + 1 < orig.layers@.len(),
                node < orig.layers@[layer as int + 1].nodes@.len(),
                nodup(curr@),
                forall|a2: int|
                    0 <= a2 < curr@.len() ==> #[trigger] curr@[a2]
                        < orig.layers@[layer as int].nodes@.len(),
                self.limits == orig.limits,
                self.n_bins == orig.n_bins,
                self.layers@.len() == orig.layers@.len(),
                forall|mm: int|
                    0 <= mm < orig.layers@.len() && mm != layer ==> #[trigger] self.layers@[mm]
                        == orig.layers@[mm],
                self.layers@[layer as int].level == orig.layers@[layer as int].level,
                self.layers@[layer as int].den == orig.layers@[layer as int].den,
                self.layers@[layer as int].extent == orig.layers@[layer as int].extent,
                self.layers@[layer as int].nodes@.len() == orig.layers@[layer as int].nodes@.len(),
                forall|n: int|
                    0 <= n < orig.layers@[layer as int].nodes@.len()
                        ==> #[trigger] self.layers@[layer as int].nodes@[n].id
                        == orig.layers@[layer as int].nodes@[n].id
                        && self.layers@[layer as int].nodes@[n].pos
                        == orig.layers@[layer as int].nodes@[n].pos
                        && self.layers@[layer as int].nodes@[n].val
                        == orig.layers@[layer as int].nodes@[n].val,
                forall|n: int|
                    0 <= n < orig.layers@[layer as int].nodes@.len()
                        ==> #[trigger] self.layers@[layer as int].nodes@[n].children@ == (
                    if contains_prefix(curr@, a as int, n) {
                        orig.layers@[layer as int].nodes@[n].children@.push(node)
                    } else {
                        orig.layers@[layer as int].nodes@[n].children@
                    }),
            decreases curr@.len() - a,
        {
            let n_idx = curr[a];
            let ghost before = *self;
            let lay = vec_at_mut(&mut self.layers, layer);
            lay.link_child(n_idx, node);
            proof {
                assert(!contains_prefix(curr@, a as int, n_idx as int)) by {
                    if contains_prefix(curr@, a as int, n_idx as int) {
                        let a2 = choose|a2: int|
                            0 <= a2 < a && #[trigger] curr@[a2] as int == n_idx as int;
                        assert(curr@[a2] == curr@[a as int]);
                    }
                }
                assert(before.layers@[layer as int].nodes@[n_idx as int].children@
                    == orig.layers@[layer as int].nodes@[n_idx as int].children@);
                assert forall|n: int|
                    0 <= n < orig.layers@[layer as int].nodes@.len()
                        implies #[trigger] self.layers@[layer as int].nodes@[n].children@ == (
                    if contains_prefix(curr@, a + 1, n) {
                        orig.layers@[layer as int].nodes@[n].children@.push(node)
                    } else {
                        orig.layers@[layer as int].nodes@[n].children@
                    }) by {
                    if n == n_idx as int {
                        assert(curr@[a as int] as int == n);
                        assert(contains_prefix(curr@, a + 1, n));
                    } else {
                        assert(self.layers@[layer as int].nodes@[n]
                            == before.layers@[layer as int].nodes@[n]);
                        assert(contains_prefix(curr@, a + 1, n) == contains_prefix(
                            curr@,
                            a as int,
                            n,
                        )) by {
                            if contains_prefix(curr@, a + 1, n) {
                                let a2 = choose|a2: int|
                                    0 <= a2 < a + 1 && #[trigger] curr@[a2] as int == n;
                                assert(a2 < a);
                            }
                        }
                    }
                }
            }
            a = a + 1;
        }
        proof {
            assert forall|n: int|
                0 <= n < orig.layers@[layer as int].nodes@.len() implies (contains_prefix(
                curr@,
                curr@.len() as int,
                n,
            ) == fset.contains(n)) by {
                if contains_prefix(curr@, curr@.len() as int, n) {
                    let a2 = choose|a2: int|
                        0 <= a2 < curr@.len() && #[trigger] curr@[a2] as int == n;
                    assert(idx_set(curr@).contains(n));
                }
                if fset.contains(n) {
                    assert(idx_set(curr@).contains(n));
                    let i = choose|i: int| 0 <= i < curr@.len() && #[trigger] curr@[i] as int == n;
                    assert(contains_prefix(curr@, curr@.len() as int, n));
                }
            }
            assert(self.limits@ == orig.limits@);
            assert(self.n_bins@ == orig.n_bins@);
            assert forall|l2: int| 0 <= l2 < self.layers@.len() implies self.wf_layer(l2) by {
                assert(orig.wf_layer(l2));
                if l2 != layer {
                    assert(self.layers@[l2] == orig.layers@[l2]);
                }
                assert forall|kk: int|
                    0 <= kk < self.layers@[l2].nodes@.len() implies self.wf_node(l2, kk) by {
                    assert(orig.wf_node(l2, kk));
                    if l2 == layer {
                        assert(self.layers@[l2].nodes@[kk].id == orig.layers@[l2].nodes@[kk].id);
                        assert(self.layers@[l2].nodes@[kk].pos == orig.layers@[l2].nodes@[kk].pos);
                        assert(self.layers@[l2].nodes@[kk].val == orig.layers@[l2].nodes@[kk].val);
                        assert(self.layers@[l2 + 1] == orig.layers@[l2 + 1]);
                        let och = orig.layers@[l2].nodes@[kk].children@;
                        let nch = self.layers@[l2].nodes@[kk].children@;
                        if fset.contains(kk) {
                            assert(nch == och.push(node));
                        } else {
                            assert(nch == och);
                        }
                        assert forall|c: int| 0 <= c < nch.len() implies #[trigger] nch[c]
                            < self.layers@[l2 + 1].nodes@.len() by {
                            if c < och.len() {
                                assert(nch[c] == och[c]);
                            } else {
                                assert(nch[c] == node);
                            }
                        }
                    } else {
                        assert(self.layers@[l2].nodes@[kk] == orig.layers@[l2].nodes@[kk]);
                    }
                }
            }
        }
    }
}

/// Two layers agree on everything except, possibly, accumulated values:
/// level, denominator, extent, node count, and each node's id, position and
/// children.
pub open spec fn layer_same_structure(x: Layer, y: Layer) -> bool {
    &&& x.level == y.level
    &&& x.den == y.den
    &&& x.extent@ == y.extent@
    &&& x.nodes@.len() == y.nodes@.len()
    &&& forall|k: int|
        0 <= k < x.nodes@.len() ==> #[trigger] x.nodes@[k].id == y.nodes@[k].id
            && x.nodes@[k].pos@ == y.nodes@[k].pos@ && x.nodes@[k].children@ == y.nodes@[k].children@
}

/// Two pyramids agree on everything except, possibly, accumulated values:
/// limits, bin counts, and the full lattice structure. Point insertion and
/// reset leave this relation between their input and output, which is what
/// "the lattice is untouched" means.
pub open spec fn same_structure(a: &Pyramid, b: &Pyramid) -> bool {
    &&& a.limits@ == b.limits@
    &&& a.n_bins@ == b.n_bins@
    &&& a.layers@.len() == b.layers@.len()
    &&& forall|l: int|
        0 <= l < a.layers@.len() ==> #[trigger] layer_same_structure(a.layers@[l], b.layers@[l])
}

/// Pyramids that agree on structure agree on everything the lattice walk
/// reads, at every level.
pub proof fn lemma_same_structure_agrees(a: &Pyramid, b: &Pyramid, m: int)
    requires
        same_structure(a, b),
        0 <= m < a.layers@.len(),
    ensures
        walk_agrees_below(a, b, m),
{
    assert forall|l: int| 0 <= l <= m implies #[trigger] layer_walk_eq(a, b, l, m) by {
        assert(layer_same_structure(a.layers@[l], b.layers@[l]));
        assert forall|j: int|
            0 <= j < a.layers@[l].nodes@.len() implies #[trigger] a.layers@[l].nodes@[j].pos@
            == b.layers@[l].nodes@[j].pos@ by {
            assert(a.layers@[l].nodes@[j].id == b.layers@[l].nodes@[j].id);
        }
        assert forall|j: int|
            0 <= j < a.layers@[l].nodes@.len() implies #[trigger] a.layers@[l].nodes@[j].children@
            == b.layers@[l].nodes@[j].children@ by {
            assert(a.layers@[l].nodes@[j].id == b.layers@[l].nodes@[j].id);
        }
    }
}

/// Squaring, for the distance accumulator.
pub open spec fn sq(x: int) -> int {
    x * x
}

/// Distance accumulation with saturation at [`NORM_CAP`].
pub open spec fn sat_norm_add(a: int, b: int) -> int {
    if a + b > NORM_CAP {
        NORM_CAP as int
    } else {
        a + b
    }
}

/// Folds the squared value differences of two node lists, from node `k` on,
/// into `acc`, saturating at [`NORM_CAP`].
pub open spec fn norm_nodes(s1: Seq<Node>, s2: Seq<Node>, k: int, acc: int) -> int
    decreases s1.len() - k,
{
    if k < 0 || k >= s1.len() {
        acc
    } else {
        norm_nodes(s1, s2, k + 1, sat_norm_add(acc, sq(s1[k].val - s2[k].val)))
    }
}

/// Folds the squared value differences of all layers from level `l` on into
/// `acc`, pairing nodes by layer and index.
pub open spec fn norm_layers(p1: &Pyramid, p2: &Pyramid, l: int, acc: int) -> int
    decreases p1.layers@.len() - l,
{
    if l < 1 || l >= p1.layers@.len() {
        acc
    } else {
        norm_layers(p1, p2, l + 1, norm_nodes(p1.layers@[l].nodes@, p2.layers@[l].nodes@, 0, acc))
    }
}

/// The squared distance between two same-shaped pyramids: the sum, over every
/// layer except the root and every node, of the squared difference of the
/// paired accumulated values, saturating at [`NORM_CAP`].
pub open spec fn norm_sq_spec(p1: &Pyramid, p2: &Pyramid) -> int {
    norm_layers(p1, p2, 1, 0)
}

/// Whether two pyramids are structurally equal: same limits and same bin
/// counts. Accumulated values play no part, on purpose: this is the
/// precondition of [`norm`].
pub fn same_shape(p1: &Pyramid, p2: &Pyramid) -> (r: bool)
    ensures
        r == (p1.limits@ == p2.limits@ && p1.n_bins@ == p2.n_bins@),
{
    if p1.limits.len() != p2.limits.len() || p1.n_bins.len() != p2.n_bins.len() {
        return false;
    }
    let n = p1.limits.len();
    let mut i: usize = 0;
    while i < n
        invariant
            i <= n,
            n == p1.limits@.len(),
            n == p2.limits@.len(),
            forall|k: int| 0 <= k < i ==> #[trigger] p1.limits@[k] == p2.limits@[k],
        decreases n - i,
    {
        if p1.limits[i].0 != p2.limits[i].0 || p1.limits[i].1 != p2.limits[i].1 {
            assert(p1.limits@[i as int] != p2.limits@[i as int]);
            return false;
        }
        i = i + 1;
    }
    let nb = p1.n_bins.len();
    let mut k: usize = 0;
    while k < nb
        invariant
            k <= nb,
            nb == p1.n_bins@.len(),
            nb == p2.n_bins@.len(),
            n == p1.limits@.len(),
            n == p2.limits@.len(),
            forall|j: int| 0 <= j < n ==> #[trigger] p1.limits@[j] == p2.limits@[j],
            forall|j: int| 0 <= j < k ==> #[trigger] p1.n_bins@[j] == p2.n_bins@[j],
        decreases nb - k,
    {
        if p1.n_bins[k] != p2.n_bins[k] {
            assert(p1.n_bins@[k as int] != p2.n_bins@[k as int]);
            return false;
        }
        k = k + 1;
    }
    proof {
        assert(p1.limits@ =~= p2.limits@);
        assert(p1.n_bins@ =~= p2.n_bins@);
    }
    true
}

/// The distance between two structurally equal pyramids: for every layer
/// except the root, the elementwise difference of paired node values, each
/// squared, summed over all layers and nodes (saturating at [`NORM_CAP`]).
/// The result is the *square* of the L2 distance between the two density
/// fields, in fixed-point value units; callers who want the Euclidean length
/// take the square root downstream.
pub fn norm(p1: &Pyramid, p2: &Pyramid) -> (r: i128)
    requires
        p1.wf(),
        p2.wf(),
        p1.limits@ == p2.limits@,
        p1.n_bins@ == p2.n_bins@,
    ensures
        r == norm_sq_spec(p1, p2),
{
    let nl = p1.layers.len();
    proof {
        assert(p2.layers@.len() == nl);
    }
    let mut acc: i128 = 0;
    let mut l: usize = 1;
    while l < nl
        invariant
            1 <= l <= nl || nl == 0,
            p1.wf(),
            p2.wf(),
            p1.limits@ == p2.limits@,
            p1.n_bins@ == p2.n_bins@,
            nl == p1.layers@.len(),
            nl == p2.layers@.len(),
            0 <= acc <= NORM_CAP,
            norm_sq_spec(p1, p2) == norm_layers(p1, p2, l as int, acc as int),
        decreases nl - l,
    {
        proof {
            assert(p1.wf_layer(l as int));
            assert(p2.wf_layer(l as int));
        }
        let cnt = p1.layers[l].nodes.len();
        proof {
            assert(p2.layers@[l as int].nodes@.len() == cnt);
        }
        let ghost acc0 = acc as int;
        let s1 = &p1.layers[l].nodes;
        let s2 = &p2.layers[l].nodes;
        let mut k: usize = 0;
        while k < cnt
            invariant
                k <= cnt,
                p1.wf(),
                p2.wf(),
                l < p1.layers@.len(),
                l < p2.layers@.len(),
                cnt == s1@.len(),
                cnt == s2@.len(),
                s1@ == p1.layers@[l as int].nodes@,
                s2@ == p2.layers@[l as int].nodes@,
                0 <= acc <= NORM_CAP,
                norm_nodes(s1@, s2@, 0, acc0) == norm_nodes(s1@, s2@, k as int, acc as int),
            decreases cnt - k,
        {
            proof {
                assert(p1.wf_layer(l as int));
                assert(p2.wf_layer(l as int));
                assert(p1.wf_node(l as int, k as int));
                assert(p2.wf_node(l as int, k as int));
            }
            let d: i128 = (s1[k].val as i128) - (s2[k].val as i128);
            proof {
                assert(-1099511627776 <= d <= 1099511627776);
                assert(0 <= d * d <= 1208925819614629174706176) by (nonlinear_arith)
                    requires
                        -1099511627776 <= d <= 1099511627776,
                ;
            }
            let s: i128 = d * d;
            if acc > NORM_CAP - s {
                acc = NORM_CAP;
            } else {
                acc = acc + s;
            }
            k = k + 1;
        }
        l = l + 1;
    }
    acc
}

impl Pyramid {
    /// Inserts a point: walks the lattice from the root downward and, at
    /// every layer below the root, deposits the kernel-weighted contribution
    /// of the point into every bin of that layer's frontier — every bin
    /// whose support region contains the point and that is reachable through
    /// the child links, each such bin exactly once however many parents led
    /// to it. Bins outside the frontier, and the root, keep their values; the
    /// lattice structure is untouched.
    pub fn add_point(&mut self, pos: &Vec<i64>)
        requires
            old(self).wf(),
            pos@.len() == old(self).dims(),
        ensures
            final(self).wf(),
            same_structure(old(self), final(self)),
            forall|l: int, k: int|
                0 <= l < old(self).layers@.len() && 0 <= k < old(self).layers@[l].nodes@.len()
                    ==> (#[trigger] final(self).layers@[l].nodes@[k]).val as int == (
                if 1 <= l && old(self).frontier(pos@, 1, l as nat).contains(k) {
                    sat_add_val(
                        old(self).layers@[l].nodes@[k].val as int,
                        weight_spec(
                            old(self).layers@[l].nodes@[k].pos@,
                            layer_den(l as nat),
                            pos@,
                            old(self).layers@[l].extent@,
                        ),
                    )
                } else {
                    old(self).layers@[l].nodes@[k].val as int
                }),
    {
        let nl = self.layers.len();
        let mut curr: Vec<usize> = Vec::new();
        curr.push(0);
        proof {
            assert(curr@[0] == 0usize);
            assert(self.wf_layer(0));
            assert forall|j: int|
                idx_set(curr@).contains(j) == old(self).frontier(pos@, 1, 0).contains(j) by {
                if idx_set(curr@).contains(j) {
                    let i = choose|i: int| 0 <= i < curr@.len() && #[trigger] curr@[i] as int == j;
                    assert(j == 0);
                }
                if j == 0 {
                    assert(curr@[0] as int == 0);
                    assert(idx_set(curr@).contains(0));
                }
            }
            assert(idx_set(curr@) =~= old(self).frontier(pos@, 1, 0));
        }
        let mut m: usize = 0;
        while m + 1 < nl
            invariant
                m + 1 <= nl,
                nl >= 1,
                nl == self.layers@.len(),
                nl == old(self).layers@.len(),
                old(self).wf(),
                self.wf(),
                same_structure(old(self), self),
                pos@.len() == old(self).dims(),
                nodup(curr@),
                forall|a: int|
                    0 <= a < curr@.len() ==> #[trigger] curr@[a]
                        < self.layers@[m as int].nodes@.len(),
                idx_set(curr@) == old(self).frontier(pos@, 1, m as nat),
                forall|l: int, k: int|
                    0 <= l < nl && 0 <= k < old(self).layers@[l].nodes@.len()
                        ==> (#[trigger] self.layers@[l].nodes@[k]).val as int == (
                    if 1 <= l <= m && old(self).frontier(pos@, 1, l as nat).contains(k) {
                        sat_add_val(
                            old(self).layers@[l].nodes@[k].val as int,
                            weight_spec(
                                old(self).layers@[l].nodes@[k].pos@,
                                layer_den(l as nat),
                                pos@,
                                old(self).layers@[l].extent@,
                            ),
                        )
                    } else {
                        old(self).layers@[l].nodes@[k].val as int
                    }),
            decreases nl - m,
        {
            proof {
                lemma_same_structure_agrees(old(self), &*self, m as int);
                assert(old(self).wf_layer(0));
                assert(self.wf_layer(0));
                lemma_frontier_agrees(old(self), &*self, pos@, 1, m as nat);
            }
            let next = self.frontier_step(&curr, m, pos, 1);
            proof {
                lemma_same_structure_agrees(old(self), &*self, m + 1);
                assert(old(self).wf_layer(0));
                assert(self.wf_layer(0));
                lemma_frontier_agrees(old(self), &*self, pos@, 1, (m + 1) as nat);
                assert(idx_set(next@) == old(self).frontier(pos@, 1, (m + 1) as nat));
            }
            let ghost start = *self;
            proof {
                assert forall|k: int|
                    0 <= k < start.layers@[m + 1].nodes@.len() implies 0 <= (#[trigger] start.layers@[m
                        + 1].nodes@[k]).val <= VAL_CAP by {
                    assert(start.wf_layer(m + 1));
                    assert(start.wf_node(m + 1, k));
                }
            }
            let mut b: usize = 0;
            while b < next.len()
                invariant
                    b <= next@.len(),
                    m + 1 < nl,
                    nl == self.layers@.len(),
                    nl == old(self).layers@.len(),
                    nl == start.layers@.len(),
                    old(self).wf(),
                    start.wf(),
                    same_structure(old(self), &start),
                    pos@.len() == old(self).dims(),
                    nodup(next@),
                    forall|a: int|
                        0 <= a < next@.len() ==> #[trigger] next@[a]
                            < start.layers@[m + 1].nodes@.len(),
                    idx_set(next@) == old(self).frontier(pos@, 1, (m + 1) as nat),
                    self.limits == start.limits,
                    self.n_bins == start.n_bins,
                    forall|l: int|
                        0 <= l < nl && l != m + 1 ==> #[trigger] self.layers@[l]
                            == start.layers@[l],
                    self.layers@[m + 1].level == start.layers@[m + 1].level,
                    self.layers@[m + 1].den == start.layers@[m + 1].den,
                    self.layers@[m + 1].extent == start.layers@[m + 1].extent,
                    self.layers@[m + 1].nodes@.len() == start.layers@[m + 1].nodes@.len(),
                    forall|k: int|
                        0 <= k < start.layers@[m + 1].nodes@.len()
                            ==> (#[trigger] self.layers@[m + 1].nodes@[k]).id
                            == start.layers@[m + 1].nodes@[k].id && self.layers@[m
                            + 1].nodes@[k].pos == start.layers@[m + 1].nodes@[k].pos
                            && self.layers@[m + 1].nodes@[k].children == start.layers@[m
                            + 1].nodes@[k].children,
                    forall|k: int|
                        0 <= k < start.layers@[m + 1].nodes@.len() ==> 0 <= (#[trigger] self.layers@[m
                            + 1].nodes@[k]).val <= VAL_CAP,
                    forall|k: int|
                        0 <= k < start.layers@[m + 1].nodes@.len()
                            ==> (#[trigger] self.layers@[m + 1].nodes@[k]).val as int == (
                        if contains_prefix(next@, b as int, k) {
                            sat_add_val(
                                start.layers@[m + 1].nodes@[k].val as int,
                                weight_spec(
                                    start.layers@[m + 1].nodes@[k].pos@,
                                    layer_den((m + 1) as nat),
                                    pos@,
                                    start.layers@[m + 1].extent@,
                                ),
                            )
                        } else {
                            start.layers@[m + 1].nodes@[k].val as int
                        }),
                decreases next@.len() - b,
            {
                let idx = next[b];
                proof {
                    lemma_layer_den_bounds((m + 1) as nat);
                    assert(start.wf_layer(m + 1));
                    assert(start.wf_node(m + 1, idx as int));
                    assert(start.wf_params());
                    assert(next@[b as int] as int == idx as int);
                    assert(idx_set(next@).contains(idx as int));
                    assert(old(self).frontier(pos@, 1, (m + 1) as nat).contains(idx as int));
                    assert(old(self).node_inside(m + 1, idx as int, pos@, 1));
                    assert(old(self).wf_layer(m + 1));
                    assert(old(self).wf_node(m + 1, idx as int));
                    assert(old(self).layers@[m + 1].nodes@[idx as int].id
                        == start.layers@[m + 1].nodes@[idx as int].id);
                    assert(layer_same_structure(
                        old(self).layers@[m + 1],
                        start.layers@[m + 1],
                    ));
                    assert(old(self).layers@[m + 1].nodes@[idx as int].pos@
                        == start.layers@[m + 1].nodes@[idx as int].pos@);
                    assert(old(self).layers@[m + 1].extent@ == start.layers@[m + 1].extent@);
                    assert(!contains_prefix(next@, b as int, idx as int)) by {
                        if contains_prefix(next@, b as int, idx as int) {
                            let a2 = choose|a2: int|
                                0 <= a2 < b && #[trigger] next@[a2] as int == idx as int;
                            assert(next@[a2] == next@[b as int]);
                        }
                    }
                    assert(self.layers@[m + 1].nodes@[idx as int].val as int
                        == start.layers@[m + 1].nodes@[idx as int].val as int);
                }
                let ghost mid = *self;
                let lay = vec_at_mut(&mut self.layers, m + 1);
                lay.add_at(idx, pos);
                proof {
                    assert forall|k: int|
                        0 <= k < start.layers@[m + 1].nodes@.len()
                            implies (#[trigger] self.layers@[m + 1].nodes@[k]).val as int == (
                        if contains_prefix(next@, b + 1, k) {
                            sat_add_val(
                                start.layers@[m + 1].nodes@[k].val as int,
                                weight_spec(
                                    start.layers@[m + 1].nodes@[k].pos@,
                                    layer_den((m + 1) as nat),
                                    pos@,
                                    start.layers@[m + 1].extent@,
                                ),
                            )
                        } else {
                            start.layers@[m + 1].nodes@[k].val as int
                        }) by {
                        if k == idx as int {
                            assert(next@[b as int] as int == k);
                            assert(contains_prefix(next@, b + 1, k));
                            assert(mid.layers@[m + 1].nodes@[k].pos@
                                == start.layers@[m + 1].nodes@[k].pos@);
                            assert(mid.layers@[m + 1].den == layer_den((m + 1) as nat));
                        } else {
                            assert(self.layers@[m + 1].nodes@[k] == mid.layers@[m + 1].nodes@[k]);
                            assert(contains_prefix(next@, b + 1, k) == contains_prefix(
                                next@,
                                b as int,
                                k,
                            )) by {
                                if contains_prefix(next@, b + 1, k) {
                                    let a2 = choose|a2: int|
                                        0 <= a2 < b + 1 && #[trigger] next@[a2] as int == k;
                                    assert(a2 < b);
                                }
                            }
                        }
                    }
                    assert forall|k: int|
                        0 <= k < start.layers@[m + 1].nodes@.len() implies 0 <= (#[trigger] self.layers@[m
                            + 1].nodes@[k]).val <= VAL_CAP by {
                        if k != idx as int {
                            assert(self.layers@[m + 1].nodes@[k] == mid.layers@[m + 1].nodes@[k]);
                        }
                    }
                }
                b = b + 1;
            }
            proof {
                assert forall|l: int, k: int|
                    0 <= l < nl && 0 <= k < old(self).layers@[l].nodes@.len()
                        implies (#[trigger] self.layers@[l].nodes@[k]).val as int == (
                    if 1 <= l <= m + 1 && old(self).frontier(pos@, 1, l as nat).contains(k) {
                        sat_add_val(
                            old(self).layers@[l].nodes@[k].val as int,
                            weight_spec(
                                old(self).layers@[l].nodes@[k].pos@,
                                layer_den(l as nat),
                                pos@,
                                old(self).layers@[l].extent@,
                            ),
                        )
                    } else {
                        old(self).layers@[l].nodes@[k].val as int
                    }) by {
                    assert(layer_same_structure(old(self).layers@[l], start.layers@[l]));
                    if l == m + 1 {
                        assert(old(self).layers@[l].nodes@[k].id == start.layers@[l].nodes@[k].id);
                        assert(old(self).layers@[l].nodes@[k].pos@
                            == start.layers@[l].nodes@[k].pos@);
                        assert(old(self).layers@[l].extent@ == start.layers@[l].extent@);
                        assert(start.layers@[l].nodes@[k].val as int
                            == old(self).layers@[l].nodes@[k].val as int);
                        assert(contains_prefix(next@, next@.len() as int, k) == old(
                            self,
                        ).frontier(pos@, 1, l as nat).contains(k)) by {
                            if contains_prefix(next@, next@.len() as int, k) {
                                let a2 = choose|a2: int|
                                    0 <= a2 < next@.len() && #[trigger] next@[a2] as int == k;
                                assert(idx_set(next@).contains(k));
                            }
                            if old(self).frontier(pos@, 1, l as nat).contains(k) {
                                assert(idx_set(next@).contains(k));
                                let i = choose|i: int|
                                    0 <= i < next@.len() && #[trigger] next@[i] as int == k;
                                assert(contains_prefix(next@, next@.len() as int, k));
                            }
                        }
                    } else {
                        assert(self.layers@[l] == start.layers@[l]);
                        assert(start.layers@[l].nodes@[k].val as int == (
                        if 1 <= l <= m && old(self).frontier(pos@, 1, l as nat).contains(k) {
                            sat_add_val(
                                old(self).layers@[l].nodes@[k].val as int,
                                weight_spec(
                                    old(self).layers@[l].nodes@[k].pos@,
                                    layer_den(l as nat),
                                    pos@,
                                    old(self).layers@[l].extent@,
                                ),
                            )
                        } else {
                            old(self).layers@[l].nodes@[k].val as int
                        }));
                    }
                }
                assert forall|l: int|
                    0 <= l < nl implies #[trigger] layer_same_structure(
                    old(self).layers@[l],
                    self.layers@[l],
                ) by {
                    assert(layer_same_structure(old(self).layers@[l], start.layers@[l]));
                    if l == m + 1 {
                        assert forall|k: int|
                            0 <= k < old(self).layers@[l].nodes@.len()
                                implies #[trigger] old(self).layers@[l].nodes@[k].id
                            == self.layers@[l].nodes@[k].id && old(self).layers@[l].nodes@[k].pos@
                            == self.layers@[l].nodes@[k].pos@ && old(
                            self,
                        ).layers@[l].nodes@[k].children@ == self.layers@[l].nodes@[k].children@ by {
                            assert(old(self).layers@[l].nodes@[k].id
                                == start.layers@[l].nodes@[k].id);
                            assert(self.layers@[l].nodes@[k].id == start.layers@[l].nodes@[k].id);
                            assert(self.layers@[l].nodes@[k].pos == start.layers@[l].nodes@[k].pos);
                            assert(self.layers@[l].nodes@[k].children
                                == start.layers@[l].nodes@[k].children);
                        }
                    } else {
                        assert(self.layers@[l] == start.layers@[l]);
                    }
                }
                assert(self.limits@ == old(self).limits@);
                assert(self.n_bins@ == old(self).n_bins@);
                assert forall|l2: int| 0 <= l2 < self.layers@.len() implies self.wf_layer(l2) by {
                    assert(old(self).wf_layer(l2));
                    assert(layer_same_structure(old(self).layers@[l2], self.layers@[l2]));
                    if l2 + 1 < self.layers@.len() {
                        assert(layer_same_structure(
                            old(self).layers@[l2 + 1],
                            self.layers@[l2 + 1],
                        ));
                    }
                    assert forall|kk: int|
                        0 <= kk < self.layers@[l2].nodes@.len() implies self.wf_node(l2, kk) by {
                        assert(old(self).wf_node(l2, kk));
                        assert(self.layers@[l2].nodes@[kk].id == old(
                            self,
                        ).layers@[l2].nodes@[kk].id);
                        assert(self.layers@[l2].nodes@[kk].pos@ == old(
                            self,
                        ).layers@[l2].nodes@[kk].pos@);
                        assert(self.layers@[l2].nodes@[kk].children@ == old(
                            self,
                        ).layers@[l2].nodes@[kk].children@);
                        if l2 == m + 1 {
                            assert(0 <= (self.layers@[m + 1].nodes@[kk]).val <= VAL_CAP);
                            assert(0 <= self.layers@[l2].nodes@[kk].val <= VAL_CAP);
                        } else {
                            assert(self.layers@[l2] == start.layers@[l2]);
                            assert(start.wf_layer(l2));
                            assert(start.wf_node(l2, kk));
                        }
                    }
                }
            }
            curr = next;
            m = m + 1;
        }
    }

    /// Visits every node in every layer and resets its value to zero; the
    /// lattice structure — limits, bin counts, positions, extents and child
    /// links — is untouched, so doing this twice is the same as doing it
    /// once, and insertion behaves identically before and after.
    pub fn clear(&mut self)
        ensures
            same_structure(old(self), final(self)),
            forall|l: int, k: int|
                0 <= l < final(self).layers@.len() && 0 <= k < final(self).layers@[l].nodes@.len()
                    ==> #[trigger] final(self).layers@[l].nodes@[k].val == 0,
            old(self).wf() ==> final(self).wf(),
    {
        let nl = self.layers.len();
        let mut l: usize = 0;
        while l < nl
            invariant
                l <= nl,
                nl == self.layers@.len(),
                nl == old(self).layers@.len(),
                self.limits == old(self).limits,
                self.n_bins == old(self).n_bins,
                forall|m: int|
                    l <= m < nl ==> #[trigger] self.layers@[m] == old(self).layers@[m],
                forall|m: int|
                    0 <= m < l ==> #[trigger] layer_same_structure(
                        old(self).layers@[m],
                        self.layers@[m],
                    ),
                forall|m: int, k: int|
                    0 <= m < l && 0 <= k < self.layers@[m].nodes@.len()
                        ==> #[trigger] self.layers@[m].nodes@[k].val == 0,
            decreases nl - l,
        {
            let cnt = self.layers[l].nodes.len();
            let ghost at_start = *self;
            let mut k: usize = 0;
            while k < cnt
                invariant
                    k <= cnt,
                    l < nl,
                    nl == self.layers@.len(),
                    cnt == self.layers@[l as int].nodes@.len(),
                    self.limits == at_start.limits,
                    self.n_bins == at_start.n_bins,
                    nl == at_start.layers@.len(),
                    forall|m: int|
                        0 <= m < nl && m != l ==> #[trigger] self.layers@[m]
                            == at_start.layers@[m],
                    self.layers@[l as int].level == at_start.layers@[l as int].level,
                    self.layers@[l as int].den == at_start.layers@[l as int].den,
                    self.layers@[l as int].extent == at_start.layers@[l as int].extent,
                    self.layers@[l as int].nodes@.len() == at_start.layers@[l as int].nodes@.len(),
                    forall|j: int|
                        k <= j < cnt ==> #[trigger] self.layers@[l as int].nodes@[j]
                            == at_start.layers@[l as int].nodes@[j],
                    forall|j: int|
                        0 <= j < k ==> #[trigger] self.layers@[l as int].nodes@[j].id
                            == at_start.layers@[l as int].nodes@[j].id
                            && self.layers@[l as int].nodes@[j].pos
                            == at_start.layers@[l as int].nodes@[j].pos
                            && self.layers@[l as int].nodes@[j].children
                            == at_start.layers@[l as int].nodes@[j].children
                            && self.layers@[l as int].nodes@[j].val == 0,
                decreases cnt - k,
            {
                let lay = vec_at_mut(&mut self.layers, l);
                lay.clear_at(k);
                k = k + 1;
            }
            proof {
                assert(layer_same_structure(at_start.layers@[l as int], self.layers@[l as int]));
                assert forall|m: int, k2: int|
                    0 <= m < l + 1 && 0 <= k2 < self.layers@[m].nodes@.len()
                        implies #[trigger] self.layers@[m].nodes@[k2].val == 0 by {
                    if m < l {
                        assert(self.layers@[m] == at_start.layers@[m]);
                        assert(at_start.layers@[m].nodes@[k2].val == 0);
                    } else {
                        assert(self.layers@[m].nodes@[k2].id
                            == at_start.layers@[m].nodes@[k2].id);
                        assert(self.layers@[m].nodes@[k2].val == 0);
                    }
                }
            }
            l = l + 1;
        }
        proof {
            assert forall|m: int|
                0 <= m < old(self).layers@.len() implies #[trigger] layer_same_structure(
                old(self).layers@[m],
                self.layers@[m],
            ) by {}
            if old(self).wf() {
                assert(self.limits@ == old(self).limits@);
                assert(self.n_bins@ == old(self).n_bins@);
                assert forall|m: int| 0 <= m < self.layers@.len() implies self.wf_layer(m) by {
                    assert(old(self).wf_layer(m));
                    assert(layer_same_structure(old(self).layers@[m], self.layers@[m]));
                    if m + 1 < self.layers@.len() {
                        assert(layer_same_structure(old(self).layers@[m + 1], self.layers@[m + 1]));
                        assert(self.layers@[m + 1].nodes@.len() == old(
                            self,
                        ).layers@[m + 1].nodes@.len());
                    }
                    assert forall|kk: int|
                        0 <= kk < self.layers@[m].nodes@.len() implies self.wf_node(m, kk) by {
                        assert(old(self).wf_node(m, kk));
                        assert(self.layers@[m].nodes@[kk].id == old(self).layers@[m].nodes@[kk].id);
                        assert(self.layers@[m].nodes@[kk].pos@
                            == old(self).layers@[m].nodes@[kk].pos@);
                        assert(self.layers@[m].nodes@[kk].children@
                            == old(self).layers@[m].nodes@[kk].children@);
                        assert(self.layers@[m].nodes@[kk].val == 0);
                    }
                }
            }
        }
    }
}

/// Copies a limits vector.
fn clone_limits(v: &Vec<(i64, i64)>) -> (r: Vec<(i64, i64)>)
    ensures
        r@ == v@,
{
    let n = v.len();
    let mut r: Vec<(i64, i64)> = Vec::new();
    let mut k: usize = 0;
    while k < n
        invariant
            k <= n,
            n == v@.len(),
            r@.len() == k,
            forall|j: int| 0 <= j < k ==> #[trigger] r@[j] == v@[j],
        decreases n - k,
    {
        r.push(v[k]);
        k = k + 1;
    }
    proof {
        assert(r@ =~= v@);
    }
    r
}

/// Copies a bin-count vector.
fn clone_usizes(v: &Vec<usize>) -> (r: Vec<usize>)
    ensures
        r@ == v@,
{
    let n = v.len();
    let mut r: Vec<usize> = Vec::new();
    let mut k: usize = 0;
    while k < n
        invariant
            k <= n,
            n == v@.len(),
            r@.len() == k,
            forall|j: int| 0 <= j < k ==> #[trigger] r@[j] == v@[j],
        decreases n - k,
    {
        r.push(v[k]);
        k = k + 1;
    }
    proof {
        assert(r@ =~= v@);
    }
    r
}

/// Computes the highest resolution level any axis asks for.
fn levels_for(n_bins: &Vec<usize>) -> (r: usize)
    requires
        forall|i: int| 0 <= i < n_bins@.len() ==> 1 <= #[trigger] n_bins@[i] <= NB_MAX,
    ensures
        r as nat == max_levels(n_bins@),
        r <= 7,
{
    let n = n_bins.len();
    let mut r: usize = 0;
    let mut k: usize = 0;
    while k < n
        invariant
            k <= n,
            n == n_bins@.len(),
            forall|i: int| 0 <= i < n ==> 1 <= #[trigger] n_bins@[i] <= NB_MAX,
            r as nat == max_levels(n_bins@.take(k as int)),
            r <= 7,
        decreases n - k,
    {
        let lg = log2_usize(n_bins[k]);
        proof {
            if lg > 7 {
                lemma_pow2_increases(8, lg as nat);
                lemma_pow2_8();
            }
            assert(n_bins@.take(k + 1).drop_last() =~= n_bins@.take(k as int));
            assert(n_bins@.take(k + 1).last() == n_bins@[k as int]);
        }
        if lg > r {
            r = lg;
        }
        k = k + 1;
    }
    proof {
        assert(n_bins@.take(n as int) =~= n_bins@);
    }
    r
}

/// Computes level `level`'s per-axis extent numerators over `layer_den(level)`.
fn extent_of_layer(limits: &Vec<(i64, i64)>, level: usize) -> (r: Vec<i64>)
    requires
        forall|i: int|
            0 <= i < limits@.len() ==> -LIM_MAX <= (#[trigger] limits@[i]).0 < limits@[i].1
                <= LIM_MAX,
    ensures
        r@.len() == limits@.len(),
        forall|i: int|
            0 <= i < r@.len() ==> #[trigger] r@[i] as int == ext_num(limits@, level as nat, i),
        forall|i: int| 0 <= i < r@.len() ==> 1 <= #[trigger] r@[i] <= 4 * LIM_MAX,
{
    let n = limits.len();
    let mut r: Vec<i64> = Vec::new();
    let mut k: usize = 0;
    while k < n
        invariant
            k <= n,
            n == limits@.len(),
            forall|i: int|
                0 <= i < n ==> -LIM_MAX <= (#[trigger] limits@[i]).0 < limits@[i].1 <= LIM_MAX,
            r@.len() == k,
            forall|i: int|
                0 <= i < k ==> #[trigger] r@[i] as int == ext_num(limits@, level as nat, i),
            forall|i: int| 0 <= i < k ==> 1 <= #[trigger] r@[i] <= 4 * LIM_MAX,
        decreases n - k,
    {
        let e: i64 = limits[k].1 - limits[k].0;
        if level == 0 {
            r.push(2 * e);
        } else {
            r.push(e);
        }
        k = k + 1;
    }
    r
}

/// Computes the full row-major grid of position numerators for level `level`.
fn bin_positions(limits: &Vec<(i64, i64)>, level: usize) -> (r: Vec<Vec<i64>>)
    requires
        1 <= limits@.len() <= DIM_MAX,
        1 <= level <= 7,
        forall|i: int|
            0 <= i < limits@.len() ==> -LIM_MAX <= (#[trigger] limits@[i]).0 < limits@[i].1
                <= LIM_MAX,
    ensures
        r@.len() == pow_nat(pow2(level as nat), limits@.len() as nat),
        forall|t: int| 0 <= t < r@.len() ==> #[trigger] r@[t]@.len() == limits@.len(),
        forall|t: int, i: int|
            0 <= t < r@.len() && 0 <= i < limits@.len() ==> #[trigger] r@[t]@[i] as int
                == node_pos_num(limits@, level as nat, t as nat, i),
{
    let dims = limits.len();
    proof {
        lemma_pow2_is_pow_nat(level as nat);
        lemma_pow2_increases(level as nat, 7);
        lemma_pow2_7();
        lemma_pow2_positive(level as nat);
        lemma_pow_nat_increases(pow2(level as nat), dims as nat, 128, 4);
        assert(pow_nat(128, 4) == 268435456) by {
            reveal_with_fuel(pow_nat, 5);
        }
    }
    let n: usize = pow_usize(2, level);
    let total: usize = pow_usize(n, dims);
    let den: i64 = (n as i64) + 1;
    let mut out: Vec<Vec<i64>> = Vec::new();
    let mut t: usize = 0;
    while t < total
        invariant
            t <= total,
            1 <= dims <= DIM_MAX,
            dims == limits@.len(),
            1 <= level <= 7,
            n as nat == pow2(level as nat),
            1 <= n <= 128,
            den == n as i64 + 1,
            total as nat == pow_nat(n as nat, dims as nat),
            forall|i: int|
                0 <= i < dims ==> -LIM_MAX <= (#[trigger] limits@[i]).0 < limits@[i].1 <= LIM_MAX,
            out@.len() == t,
            forall|u: int| 0 <= u < t ==> #[trigger] out@[u]@.len() == dims,
            forall|u: int, i: int|
                0 <= u < t && 0 <= i < dims ==> #[trigger] out@[u]@[i] as int == node_pos_num(
                    limits@,
                    level as nat,
                    u as nat,
                    i,
                ),
        decreases total - t,
    {
        let mut p: Vec<i64> = Vec::new();
        let mut i: usize = 0;
        while i < dims
            invariant
                i <= dims,
                t < total,
                1 <= dims <= DIM_MAX,
                dims == limits@.len(),
                1 <= level <= 7,
                n as nat == pow2(level as nat),
                1 <= n <= 128,
                den == n as i64 + 1,
                total as nat == pow_nat(n as nat, dims as nat),
                forall|j: int|
                    0 <= j < dims ==> -LIM_MAX <= (#[trigger] limits@[j]).0 < limits@[j].1
                        <= LIM_MAX,
                p@.len() == i,
                forall|j: int|
                    0 <= j < i ==> #[trigger] p@[j] as int == node_pos_num(
                        limits@,
                        level as nat,
                        t as nat,
                        j,
                    ),
            decreases dims - i,
        {
            proof {
                assert(pow_nat(128, 4) == 268435456) by {
                    reveal_with_fuel(pow_nat, 5);
                }
                lemma_pow_nat_increases(n as nat, (dims - 1 - i) as nat, 128, 4);
            }
            let stride: usize = pow_usize(n, dims - 1 - i);
            proof {
                lemma_pow_nat_positive(n as nat, (dims - 1 - i) as nat);
            }
            let digit: usize = (t / stride) % n;
            let e: i64 = limits[i].1 - limits[i].0;
            proof {
                assert(-141836999983104 <= (limits@[i as int].0 as int) * (den as int)
                    <= 141836999983104) by (nonlinear_arith)
                    requires
                        -1099511627776 <= limits@[i as int].0 <= 1099511627776,
                        1 <= den as int <= 129,
                ;
                assert(0 <= ((digit as int) + 1) * (e as int) <= 281474976710656)
                    by (nonlinear_arith)
                    requires
                        0 <= digit as int <= 127,
                        1 <= e as int <= 2199023255552,
                ;
            }
            let num128: i128 = (limits[i].0 as i128) * (den as i128) + ((digit as i128) + 1) * (
            e as i128);
            let num: i64 = num128 as i64;
            p.push(num);
            proof {
                assert(digit as nat == grid_digit(t as nat, n as nat, dims as nat, i as nat));
            }
            i = i + 1;
        }
        out.push(p);
        t = t + 1;
    }
    out
}

impl Pyramid {
    /// Appends a layer to the pyramid's layer sequence.
    pub fn push_layer(&mut self, layer: Layer)
        ensures
            final(self).limits == old(self).limits,
            final(self).n_bins == old(self).n_bins,
            final(self).layers@ == old(self).layers@.push(layer),
    {
        self.layers.push(layer);
    }

    /// The layer at a resolution level; the level must exist.
    pub fn layer(&self, layer: usize) -> (r: &Layer)
        requires
            layer < self.layers@.len(),
        ensures
            *r == self.layers@[layer as int],
    {
        &self.layers[layer]
    }

    /// The number of layers, the finest resolution level plus one.
    pub fn num_layers(&self) -> (r: usize)
        ensures
            r == self.layers@.len(),
    {
        self.layers.len()
    }

    /// Builds the pyramid for the given per-axis domain limits and per-axis
    /// bin counts: the root layer covering the whole domain, then for each
    /// level up to `max_i log2(n_bins[i])` the full grid of zero-valued bins
    /// at exact grid positions, each linked under every node of the previous
    /// level whose support region contains it.
    pub fn new(limits: &Vec<(i64, i64)>, n_bins: &Vec<usize>) -> (r: Pyramid)
        requires
            params_ok(limits@, n_bins@),
        ensures
            r.wf(),
            r.linked(),
            r.limits@ == limits@,
            r.n_bins@ == n_bins@,
            forall|l: int, k: int|
                0 <= l < r.layers@.len() && 0 <= k < r.layers@[l].nodes@.len()
                    ==> #[trigger] r.layers@[l].nodes@[k].val == 0,
    {
        proof {
            assert forall|i: int| 0 <= i < n_bins@.len() implies 1 <= #[trigger] n_bins@[i] by {
                assert(is_pow2(n_bins@[i] as nat));
            }
        }
        let nl = levels_for(n_bins);
        let mut pyr = Pyramid {
            limits: clone_limits(limits),
            n_bins: clone_usizes(n_bins),
            layers: Vec::new(),
        };
        let dims = limits.len();
        let mut root_pos: Vec<i64> = Vec::new();
        let mut k: usize = 0;
        while k < dims
            invariant
                k <= dims,
                dims == limits@.len(),
                forall|i: int|
                    0 <= i < dims ==> -LIM_MAX <= (#[trigger] limits@[i]).0 < limits@[i].1
                        <= LIM_MAX,
                root_pos@.len() == k,
                forall|i: int|
                    0 <= i < k ==> #[trigger] root_pos@[i] as int == limits@[i].0 + limits@[i].1,
            decreases dims - k,
        {
            root_pos.push(limits[k].0 + limits[k].1);
            k = k + 1;
        }
        let mut root_layer = Layer::new(0, extent_of_layer(limits, 0));
        root_layer.push_node(Node::new(root_pos, 0));
        pyr.push_layer(root_layer);
        proof {
            assert forall|m: int| 0 <= m < 1 implies pyr.wf_layer(m) by {
                assert(pyr.layers@[0].nodes@.len() == 1);
                assert(pyr.wf_node(0, 0));
            }
        }
        let mut l: usize = 1;
        while l <= nl
            invariant
                1 <= l <= nl + 1,
                nl <= 7,
                nl as nat == max_levels(n_bins@),
                1 <= dims <= DIM_MAX,
                dims == limits@.len(),
                n_bins@.len() == limits@.len(),
                forall|i: int|
                    0 <= i < n_bins@.len() ==> is_pow2(#[trigger] n_bins@[i] as nat) && n_bins@[i]
                        <= NB_MAX,
                forall|i: int|
                    0 <= i < limits@.len() ==> -LIM_MAX <= (#[trigger] limits@[i]).0
                        < limits@[i].1 <= LIM_MAX,
                pyr.limits@ == limits@,
                pyr.n_bins@ == n_bins@,
                pyr.layers@.len() == l,
                forall|m: int| 0 <= m < l ==> pyr.wf_layer(m),
                forall|m: int, j: int|
                    0 <= m < l && 0 <= j < pyr.layers@[m].nodes@.len()
                        ==> #[trigger] pyr.layers@[m].nodes@[j].val == 0,
                forall|m: int, j: int|
                    0 <= m < l && 0 <= j < pyr.layers@[m].nodes@.len()
                        ==> #[trigger] pyr.layers@[m].nodes@[j].children@.len() == 0,
            decreases nl + 1 - l,
        {
            let mut layer = Layer::new(l, extent_of_layer(limits, l));
            let pos = bin_positions(limits, l);
            let total = pos.len();
            let mut t: usize = 0;
            while t < total
                invariant
                    t <= total,
                    1 <= dims <= DIM_MAX,
                    dims == limits@.len(),
                    1 <= l <= 7,
                    forall|i: int|
                        0 <= i < limits@.len() ==> -LIM_MAX <= (#[trigger] limits@[i]).0
                            < limits@[i].1 <= LIM_MAX,
                    total == pos@.len(),
                    total as nat == pow_nat(pow2(l as nat), dims as nat),
                    forall|u: int| 0 <= u < total ==> #[trigger] pos@[u]@.len() == dims,
                    forall|u: int, i: int|
                        0 <= u < total && 0 <= i < dims ==> #[trigger] pos@[u]@[i] as int
                            == node_pos_num(limits@, l as nat, u as nat, i),
                    layer.level == l,
                    layer.den == layer_den(l as nat),
                    layer.extent@.len() == dims,
                    forall|i: int|
                        0 <= i < dims ==> #[trigger] layer.extent@[i] as int == ext_num(
                            limits@,
                            l as nat,
                            i,
                        ),
                    layer.nodes@.len() == t,
                    forall|u: int|
                        0 <= u < t ==> {
                            let nd = #[trigger] layer.nodes@[u];
                            nd.id == u && nd.val == 0 && nd.children@.len() == 0 && nd.pos@.len()
                                == dims
                        },
                    forall|u: int, i: int|
                        0 <= u < t && 0 <= i < dims ==> #[trigger] layer.nodes@[u].pos@[i] as int
                            == node_pos_num(limits@, l as nat, u as nat, i),
                decreases total - t,
            {
                layer.push_node(Node::new(clone_coords(&pos[t]), t));
                t = t + 1;
            }
            let ghost prev = pyr;
            let ghost glayer = layer;
            pyr.push_layer(layer);
            proof {
                assert(pyr.layers@ == prev.layers@.push(glayer));
                assert forall|m: int, j: int|
                    0 <= m < l + 1 && 0 <= j < pyr.layers@[m].nodes@.len() implies #[trigger] pyr.layers@[m].nodes@[j].val
                    == 0 by {
                    if m < l {
                        assert(pyr.layers@[m] == prev.layers@[m]);
                        assert(prev.layers@[m].nodes@[j].val == 0);
                    } else {
                        assert(pyr.layers@[m] == glayer);
                    }
                }
                assert forall|m: int, j: int|
                    0 <= m < l + 1 && 0 <= j < pyr.layers@[m].nodes@.len() implies #[trigger] pyr.layers@[m].nodes@[j].children@.len()
                    == 0 by {
                    if m < l {
                        assert(pyr.layers@[m] == prev.layers@[m]);
                        assert(prev.layers@[m].nodes@[j].children@.len() == 0);
                    } else {
                        assert(pyr.layers@[m] == glayer);
                    }
                }
                assert forall|m: int| 0 <= m < l + 1 implies pyr.wf_layer(m) by {
                    if m < l {
                        assert(prev.wf_layer(m));
                        assert(pyr.layers@[m] == prev.layers@[m]);
                        assert forall|kk: int|
                            0 <= kk < pyr.layers@[m].nodes@.len() implies pyr.wf_node(m, kk) by {
                            assert(prev.wf_node(m, kk));
                            assert(pyr.layers@[m].nodes@[kk].children@.len() == 0);
                        }
                    } else {
                        assert(pyr.layers@[m] == glayer);
                        assert(pyr.layer_count_spec(m) == pow_nat(pow2(l as nat), dims as nat));
                        assert forall|kk: int|
                            0 <= kk < pyr.layers@[m].nodes@.len() implies pyr.wf_node(m, kk) by {
                            assert(glayer.nodes@[kk].id == kk && glayer.nodes@[kk].val == 0
                                && glayer.nodes@[kk].children@.len() == 0);
                            assert forall|i: int| 0 <= i < pyr.dims() implies #[trigger] glayer.nodes@[kk].pos@[i] as int
                                == node_pos_num(pyr.limits@, m as nat, kk as nat, i) by {
                                assert(glayer.nodes@[kk].pos@[i] as int == node_pos_num(
                                    limits@, l as nat, kk as nat, i));
                            }
                        }
                    }
                }
            }
            l = l + 1;
        }
        let mut l2: usize = 1;
        while l2 <= nl
            invariant
                1 <= l2 <= nl + 1,
                nl <= 7,
                pyr.wf(),
                pyr.limits@ == limits@,
                pyr.n_bins@ == n_bins@,
                pyr.layers@.len() == nl + 1,
                forall|m: int, j: int|
                    0 <= m < pyr.layers@.len() && 0 <= j < pyr.layers@[m].nodes@.len()
                        ==> #[trigger] pyr.layers@[m].nodes@[j].val == 0,
                forall|m: int| 0 <= m < l2 - 1 ==> #[trigger] pyr.linked_at(m),
                forall|m: int, j: int|
                    l2 - 1 <= m < pyr.layers@.len() && 0 <= j < pyr.layers@[m].nodes@.len()
                        ==> #[trigger] pyr.layers@[m].nodes@[j].children@.len() == 0,
            decreases nl + 1 - l2,
        {
            let cnt = pyr.layers[l2].nodes.len();
            let mut j: usize = 0;
            while j < cnt
                invariant
                    j <= cnt,
                    1 <= l2 <= nl,
                    nl <= 7,
                    cnt == pyr.layers@[l2 as int].nodes@.len(),
                    pyr.wf(),
                    pyr.limits@ == limits@,
                    pyr.n_bins@ == n_bins@,
                    pyr.layers@.len() == nl + 1,
                    forall|m: int, jj: int|
                        0 <= m < pyr.layers@.len() && 0 <= jj < pyr.layers@[m].nodes@.len()
                            ==> #[trigger] pyr.layers@[m].nodes@[jj].val == 0,
                    forall|m: int| 0 <= m < l2 - 1 ==> #[trigger] pyr.linked_at(m),
                    forall|m: int, jj: int|
                        l2 <= m < pyr.layers@.len() && 0 <= jj < pyr.layers@[m].nodes@.len()
                            ==> #[trigger] pyr.layers@[m].nodes@[jj].children@.len() == 0,
                    forall|n: int, j2: int|
                        0 <= n < pyr.layers@[l2 - 1].nodes@.len() && 0 <= j2
                            < pyr.layers@[l2 as int].nodes@.len()
                            ==> (#[trigger] pyr.layers@[l2 - 1].nodes@[n].children@.contains(
                            j2 as usize,
                        ) <==> (j2 < j && pyr.frontier(
                            pyr.layers@[l2 as int].nodes@[j2].pos@,
                            layer_den(l2 as nat),
                            (l2 - 1) as nat,
                        ).contains(n))),
                decreases cnt - j,
            {
                let ghost before = pyr;
                pyr.push_node(j, l2 - 1);
                proof {
                    assert(before.wf_layer(0));
                    assert(pyr.wf_layer(0));
                    assert(before.layers@[0].nodes@.len() == 1);
                    assert(pyr.layers@[0].nodes@.len() == 1);
                    assert forall|l3: int|
                        0 <= l3 <= l2 - 1 implies #[trigger] layer_walk_eq(
                        &before,
                        &pyr,
                        l3,
                        l2 - 1,
                    ) by {
                        if l3 < l2 - 1 {
                            assert(pyr.layers@[l3] == before.layers@[l3]);
                        } else {
                            assert(pyr.layers@[l3].extent == before.layers@[l3].extent);
                            assert(pyr.layers@[l3].nodes@.len() == before.layers@[l3].nodes@.len());
                            assert forall|jj: int|
                                0 <= jj < before.layers@[l3].nodes@.len()
                                    implies #[trigger] before.layers@[l3].nodes@[jj].pos@
                                == pyr.layers@[l3].nodes@[jj].pos@ by {
                                assert(pyr.layers@[l3].nodes@[jj].id
                                    == before.layers@[l3].nodes@[jj].id);
                                assert(pyr.layers@[l3].nodes@[jj].pos
                                    == before.layers@[l3].nodes@[jj].pos);
                            }
                        }
                    }
                    let ghost fq = before.layers@[l2 as int].nodes@[j as int].pos@;
                    assert(pyr.layers@[l2 as int] == before.layers@[l2 as int]);
                    assert forall|m: int, jj: int|
                        0 <= m < pyr.layers@.len() && 0 <= jj < pyr.layers@[m].nodes@.len()
                            implies #[trigger] pyr.layers@[m].nodes@[jj].val == 0 by {
                        if m == l2 - 1 {
                            assert(pyr.layers@[m].nodes@[jj].id == before.layers@[m].nodes@[jj].id);
                            assert(pyr.layers@[m].nodes@[jj].val
                                == before.layers@[m].nodes@[jj].val);
                        } else {
                            assert(pyr.layers@[m] == before.layers@[m]);
                        }
                    }
                    assert forall|m: int| 0 <= m < l2 - 1 implies #[trigger] pyr.linked_at(m) by {
                        assert(before.linked_at(m));
                        assert forall|l3: int|
                            0 <= l3 <= m implies #[trigger] layer_walk_eq(&before, &pyr, l3, m) by {
                            assert(pyr.layers@[l3] == before.layers@[l3]);
                        }
                        assert forall|n: int, j2: int|
                            0 <= n < pyr.layers@[m].nodes@.len() && 0 <= j2
                                < pyr.layers@[m + 1].nodes@.len()
                                implies (#[trigger] pyr.layers@[m].nodes@[n].children@.contains(
                                j2 as usize,
                            ) <==> pyr.frontier(
                                pyr.layers@[m + 1].nodes@[j2].pos@,
                                layer_den((m + 1) as nat),
                                m as nat,
                            ).contains(n)) by {
                            if m + 1 == l2 - 1 {
                                assert(pyr.layers@[m + 1].nodes@[j2].id
                                    == before.layers@[m + 1].nodes@[j2].id);
                                assert(pyr.layers@[m + 1].nodes@[j2].pos
                                    == before.layers@[m + 1].nodes@[j2].pos);
                            } else {
                                assert(pyr.layers@[m + 1] == before.layers@[m + 1]);
                            }
                            let q3 = pyr.layers@[m + 1].nodes@[j2].pos@;
                            assert(q3 == before.layers@[m + 1].nodes@[j2].pos@);
                            lemma_frontier_agrees(&before, &pyr, q3, layer_den((m + 1) as nat),
                                m as nat);
                            assert(pyr.layers@[m] == before.layers@[m]);
                        }
                    }
                    assert forall|n: int, j2: int|
                        0 <= n < pyr.layers@[l2 - 1].nodes@.len() && 0 <= j2
                            < pyr.layers@[l2 as int].nodes@.len()
                            implies (#[trigger] pyr.layers@[l2 - 1].nodes@[n].children@.contains(
                            j2 as usize,
                        ) <==> (j2 < j + 1 && pyr.frontier(
                            pyr.layers@[l2 as int].nodes@[j2].pos@,
                            layer_den(l2 as nat),
                            (l2 - 1) as nat,
                        ).contains(n))) by {
                        let q2 = pyr.layers@[l2 as int].nodes@[j2].pos@;
                        lemma_frontier_agrees(
                            &before,
                            &pyr,
                            q2,
                            layer_den(l2 as nat),
                            (l2 - 1) as nat,
                        );
                        let och = before.layers@[l2 - 1].nodes@[n].children@;
                        let nch = pyr.layers@[l2 - 1].nodes@[n].children@;
                        if before.frontier(fq, layer_den(l2 as nat), (l2 - 1) as nat).contains(
                            n,
                        ) {
                            assert(nch == och.push(j));
                            lemma_contains_push(och, j, j2 as usize);
                        } else {
                            assert(nch == och);
                        }
                        if j2 == j as int {
                            assert(q2 == fq);
                        }
                        if nch.contains(j2 as usize) && j2 != j as int {
                            assert(och.contains(j2 as usize));
                        }
                    }
                }
                j = j + 1;
            }
            proof {
                assert(pyr.linked_at(l2 - 1)) by {
                    assert forall|n: int, j2: int|
                        0 <= n < pyr.layers@[l2 - 1].nodes@.len() && 0 <= j2
                            < pyr.layers@[l2 as int].nodes@.len()
                            implies (#[trigger] pyr.layers@[l2 - 1].nodes@[n].children@.contains(
                            j2 as usize,
                        ) <==> pyr.frontier(
                            pyr.layers@[l2 as int].nodes@[j2].pos@,
                            layer_den(l2 as nat),
                            (l2 - 1) as nat,
                        ).contains(n)) by {
                        assert(j2 < cnt as int);
                    }
                }
            }
            l2 = l2 + 1;
        }
        pyr
    }
}

} // verus!
