//! The force-directed layout engine, after the algorithm proposed by
//! Fruchterman and Reingold: pairwise inverse-square repulsion, linear
//! spring attraction along edges, and direction-normalized integration
//! under a linear cooling schedule.

use vstd::arithmetic::div_mod::{lemma_div_is_ordered, lemma_div_pos_is_pos};
use vstd::prelude::*;

use crate::p2d::P2d;
use crate::vector::{
    clamped, div_trunc, int_sqrt, lemma_div_trunc_le_cap, lemma_div_trunc_odd, lemma_ratio_bound,
    lemma_sqrt_floor, sqrt_floor,
};

verus! {

/// Positions handed to the engine stay within this magnitude, so that every
/// coordinate difference and squared distance fits the machine integers.
pub const COORD_LIMIT: i64 = 0x2000_0000_0000_0000;

/// The squared Euclidean distance between two grid points.
pub open spec fn dist2(p: P2d, q: P2d) -> int {
    (p.0 - q.0) * (p.0 - q.0) + (p.1 - q.1) * (p.1 - q.1)
}

/// The repulsive force exerted on `p` by `q`: the direction `p - q` scaled
/// by `k_r / dist2`, with coincident points yielding the zero vector so that
/// no division by zero can arise.
pub open spec fn repulse(p: P2d, q: P2d, k_r: int) -> (int, int) {
    let d2 = dist2(p, q);
    if d2 == 0 {
        (0, 0)
    } else {
        (div_trunc((p.0 - q.0) * k_r, d2), div_trunc((p.1 - q.1) * k_r, d2))
    }
}

/// The attractive spring force between `p` and `q`: the direction `p - q`
/// scaled by `length / k_s`, growing linearly with distance.
pub open spec fn attract(p: P2d, q: P2d, k_s: int) -> (int, int) {
    let len = sqrt_floor(dist2(p, q) as nat) as int;
    (div_trunc((p.0 - q.0) * len, k_s), div_trunc((p.1 - q.1) * len, k_s))
}

/// A squared distance is never negative, and each squared coordinate
/// difference is at most the whole.
pub proof fn lemma_dist2_parts(p: P2d, q: P2d)
    ensures
        dist2(p, q) >= 0,
        (p.0 - q.0) * (p.0 - q.0) <= dist2(p, q),
        (p.1 - q.1) * (p.1 - q.1) <= dist2(p, q),
        dist2(p, q) == 0 ==> p.0 == q.0 && p.1 == q.1,
{
    let dx = p.0 - q.0;
    let dy = p.1 - q.1;
    assert(dx * dx >= 0 && dy * dy >= 0 && (dx * dx == 0 ==> dx == 0) && (dy * dy == 0 ==> dy
        == 0)) by (nonlinear_arith);
}

/// A coordinate difference is bounded by the squared distance (when the
/// latter is positive) and by its own square root.
pub proof fn lemma_diff_bounds(p: P2d, q: P2d)
    requires
        dist2(p, q) > 0,
    ensures
        -dist2(p, q) <= p.0 - q.0 <= dist2(p, q),
        -dist2(p, q) <= p.1 - q.1 <= dist2(p, q),
        -(sqrt_floor(dist2(p, q) as nat) as int) <= p.0 - q.0 <= sqrt_floor(
            dist2(p, q) as nat,
        ) as int,
        -(sqrt_floor(dist2(p, q) as nat) as int) <= p.1 - q.1 <= sqrt_floor(
            dist2(p, q) as nat,
        ) as int,
{
    let dx = p.0 - q.0;
    let dy = p.1 - q.1;
    let d2 = dist2(p, q);
    lemma_dist2_parts(p, q);
    let r = sqrt_floor(d2 as nat) as int;
    lemma_sqrt_floor(d2 as nat);
    assert(-d2 <= dx <= d2 && -r <= dx <= r) by (nonlinear_arith)
        requires
            dx * dx <= d2,
            d2 < (r + 1) * (r + 1),
            r >= 0,
    ;
    assert(-d2 <= dy <= d2 && -r <= dy <= r) by (nonlinear_arith)
        requires
            dy * dy <= d2,
            d2 < (r + 1) * (r + 1),
            r >= 0,
    ;
}

/// Repulsion obeys Newton's third law exactly: swapping the two points
/// negates both components.
pub proof fn lemma_repulse_antisym(p: P2d, q: P2d, k_r: int)
    ensures
        repulse(q, p, k_r).0 == -repulse(p, q, k_r).0,
        repulse(q, p, k_r).1 == -repulse(p, q, k_r).1,
{
    let dx = p.0 - q.0;
    let dy = p.1 - q.1;
    assert((q.0 - p.0) * (q.0 - p.0) == dx * dx && (q.1 - p.1) * (q.1 - p.1) == dy * dy && (q.0
        - p.0) * k_r == -(dx * k_r) && (q.1 - p.1) * k_r == -(dy * k_r)) by (nonlinear_arith)
        requires
            dx == p.0 - q.0,
            dy == p.1 - q.1,
    ;
    if dist2(p, q) != 0 {
        lemma_dist2_parts(p, q);
        lemma_div_trunc_odd(dx * k_r, dist2(p, q));
        lemma_div_trunc_odd(dy * k_r, dist2(p, q));
    }
}

/// Attraction obeys the same exact antisymmetry.
pub proof fn lemma_attract_antisym(p: P2d, q: P2d, k_s: int)
    requires
        k_s >= 1,
    ensures
        attract(q, p, k_s).0 == -attract(p, q, k_s).0,
        attract(q, p, k_s).1 == -attract(p, q, k_s).1,
{
    let dx = p.0 - q.0;
    let dy = p.1 - q.1;
    let len = sqrt_floor(dist2(p, q) as nat) as int;
    assert((q.0 - p.0) * (q.0 - p.0) == dx * dx && (q.1 - p.1) * (q.1 - p.1) == dy * dy && (q.0
        - p.0) * len == -(dx * len) && (q.1 - p.1) * len == -(dy * len)) by (nonlinear_arith)
        requires
            dx == p.0 - q.0,
            dy == p.1 - q.1,
    ;
    assert(dist2(q, p) == dist2(p, q));
    lemma_div_trunc_odd(dx * len, k_s);
    lemma_div_trunc_odd(dy * len, k_s);
}

/// No single repulsive force component exceeds the repulsion constant.
pub proof fn lemma_repulse_bound(p: P2d, q: P2d, k_r: int)
    requires
        k_r >= 0,
    ensures
        -k_r <= repulse(p, q, k_r).0 <= k_r,
        -k_r <= repulse(p, q, k_r).1 <= k_r,
{
    let d2 = dist2(p, q);
    if d2 != 0 {
        lemma_dist2_parts(p, q);
        lemma_diff_bounds(p, q);
        lemma_ratio_bound(p.0 - q.0, k_r, d2);
        lemma_ratio_bound(p.1 - q.1, k_r, d2);
    }
}

/// No single attractive force component exceeds `dist2 / k_s`, and in
/// particular any cap on the squared distance caps the force.
pub proof fn lemma_attract_bound(p: P2d, q: P2d, k_s: int, cap: int)
    requires
        k_s >= 1,
        dist2(p, q) <= cap,
    ensures
        -(cap / k_s) <= attract(p, q, k_s).0 <= cap / k_s,
        -(cap / k_s) <= attract(p, q, k_s).1 <= cap / k_s,
{
    let dx = p.0 - q.0;
    let dy = p.1 - q.1;
    let d2 = dist2(p, q);
    lemma_dist2_parts(p, q);
    let len = sqrt_floor(d2 as nat) as int;
    lemma_sqrt_floor(d2 as nat);
    if d2 == 0 {
        assert(len == 0);
        assert(dx * len == 0 && dy * len == 0) by (nonlinear_arith)
            requires
                len == 0,
        ;
        assert(div_trunc(0, k_s) == 0) by {
            assert(0int / k_s == 0) by (nonlinear_arith)
                requires
                    k_s >= 1,
            ;
        }
        lemma_div_pos_is_pos(cap, k_s);
    } else {
        lemma_diff_bounds(p, q);
        assert(-cap <= dx * len <= cap && -cap <= dy * len <= cap) by (nonlinear_arith)
            requires
                -len <= dx <= len,
                -len <= dy <= len,
                len * len <= d2,
                d2 <= cap,
                len >= 0,
        ;
        lemma_div_trunc_le_cap(dx * len, k_s, cap);
        lemma_div_trunc_le_cap(dy * len, k_s, cap);
    }
}

/// Computes the repulsive force between two positions.  Coincident points
/// repel with the zero vector rather than dividing by zero.
pub fn repulsive_force(p1: &P2d, p2: &P2d, k_r: i64) -> (r: P2d)
    requires
        k_r >= 0,
        -COORD_LIMIT <= p1.0 <= COORD_LIMIT,
        -COORD_LIMIT <= p1.1 <= COORD_LIMIT,
        -COORD_LIMIT <= p2.0 <= COORD_LIMIT,
        -COORD_LIMIT <= p2.1 <= COORD_LIMIT,
    ensures
        r.0 == repulse(*p1, *p2, k_r as int).0,
        r.1 == repulse(*p1, *p2, k_r as int).1,
        -k_r <= r.0 <= k_r,
        -k_r <= r.1 <= k_r,
{
    proof {
        lemma_repulse_bound(*p1, *p2, k_r as int);
    }
    let force = p1.sub(p2);
    let length_squared = force.length_squared();
    if length_squared > 0 {
        proof {
            lemma_dist2_parts(*p1, *p2);
            lemma_diff_bounds(*p1, *p2);
            lemma_ratio_bound(p1.0 - p2.0, k_r as int, dist2(*p1, *p2));
            lemma_ratio_bound(p1.1 - p2.1, k_r as int, dist2(*p1, *p2));
        }
        force.scale(k_r, length_squared)
    } else {
        proof {
            lemma_dist2_parts(*p1, *p2);
        }
        force
    }
}

/// Computes the attractive spring force between two positions.
pub fn attractive_force(p1: &P2d, p2: &P2d, k_s: i64) -> (r: P2d)
    requires
        k_s >= 1,
        -COORD_LIMIT <= p1.0 <= COORD_LIMIT,
        -COORD_LIMIT <= p1.1 <= COORD_LIMIT,
        -COORD_LIMIT <= p2.0 <= COORD_LIMIT,
        -COORD_LIMIT <= p2.1 <= COORD_LIMIT,
        dist2(*p1, *p2) / (k_s as int) <= i64::MAX as int,
    ensures
        r.0 == attract(*p1, *p2, k_s as int).0,
        r.1 == attract(*p1, *p2, k_s as int).1,
        -(dist2(*p1, *p2) / (k_s as int)) <= r.0 <= dist2(*p1, *p2) / (k_s as int),
        -(dist2(*p1, *p2) / (k_s as int)) <= r.1 <= dist2(*p1, *p2) / (k_s as int),
{
    proof {
        lemma_attract_bound(*p1, *p2, k_s as int, dist2(*p1, *p2));
        lemma_dist2_parts(*p1, *p2);
    }
    proof {
        assert(dist2(*p1, *p2) < 0x4000_0000_0000_0000_0000_0000_0000_0000int)
            by (nonlinear_arith)
            requires
                -0x4000_0000_0000_0000int <= p1.0 - p2.0 <= 0x4000_0000_0000_0000int,
                -0x4000_0000_0000_0000int <= p1.1 - p2.1 <= 0x4000_0000_0000_0000int,
                dist2(*p1, *p2) == (p1.0 - p2.0) * (p1.0 - p2.0) + (p1.1 - p2.1) * (p1.1 - p2.1),
        ;
    }
    let force = p1.sub(p2);
    let length = int_sqrt(force.length_squared());
    proof {
        assert(length < 0x8000_0000_0000_0000u64) by (nonlinear_arith)
            requires
                length * length <= dist2(*p1, *p2),
                dist2(*p1, *p2) < 0x4000_0000_0000_0000_0000_0000_0000_0000int,
                length >= 0,
        ;
    }
    force.scale(length as i64, k_s as u128)
}

/// Both coordinates of one point have magnitude at most `b`.
pub open spec fn in_coord_range(p: P2d, b: int) -> bool {
    -b <= p.0 <= b && -b <= p.1 <= b
}

/// Every coordinate of every position has magnitude at most `b`.
pub open spec fn in_range(ps: Seq<P2d>, b: int) -> bool {
    forall|i: int| 0 <= i < ps.len() ==> #[trigger] in_coord_range(ps[i], b)
}

/// Every adjacency entry names a node index below `n`.
pub open spec fn valid_neighbors(nb: Seq<Vec<usize>>, n: int) -> bool {
    forall|a: int, t: int|
        0 <= a < nb.len() && 0 <= t < nb[a]@.len() ==> #[trigger] nb[a]@[t] < n
}

/// The accumulated repulsive force on node `i` from all nodes `j < m`
/// other than `i` itself.
pub open spec fn rep_sum(ps: Seq<P2d>, i: int, k_r: int, m: int) -> (int, int)
    decreases m,
{
    if m <= 0 {
        (0, 0)
    } else if m - 1 == i {
        rep_sum(ps, i, k_r, m - 1)
    } else {
        let prev = rep_sum(ps, i, k_r, m - 1);
        let t = repulse(ps[i], ps[m - 1], k_r);
        (prev.0 + t.0, prev.1 + t.1)
    }
}

/// A partial repulsion sum over `m` nodes stays within `m` times the
/// single-force bound.
pub proof fn lemma_rep_sum_bound(ps: Seq<P2d>, i: int, k_r: int, m: int)
    requires
        k_r >= 0,
        m >= 0,
    ensures
        -(m * k_r) <= rep_sum(ps, i, k_r, m).0 <= m * k_r,
        -(m * k_r) <= rep_sum(ps, i, k_r, m).1 <= m * k_r,
    decreases m,
{
    if m == 0 {
        assert(0 * k_r == 0) by (nonlinear_arith);
    } else {
        lemma_rep_sum_bound(ps, i, k_r, m - 1);
        lemma_repulse_bound(ps[i], ps[m - 1], k_r);
        assert((m - 1) * k_r + k_r == m * k_r && (m - 1) * k_r <= m * k_r) by (nonlinear_arith)
            requires
                k_r >= 0,
        ;
    }
}

/// The contribution of the directed edge `a -> b` to the force accumulator
/// of node `k`: attraction pulls the two endpoints toward each other with
/// exactly opposite forces, whichever direction the edge was listed in.
pub open spec fn att_term(ps: Seq<P2d>, k_s: int, k: int, a: int, b: int) -> (int, int) {
    let fa = if a == k {
        attract(ps[a], ps[b], k_s)
    } else {
        (0, 0)
    };
    let fb = if b == k {
        attract(ps[b], ps[a], k_s)
    } else {
        (0, 0)
    };
    (0 - fa.0 - fb.0, 0 - fa.1 - fb.1)
}

/// The accumulated attraction on node `k` from the first `t` edges listed
/// in adjacency row `a`.
pub open spec fn att_row(
    ps: Seq<P2d>,
    nb: Seq<Vec<usize>>,
    k_s: int,
    k: int,
    a: int,
    t: int,
) -> (int, int)
    decreases t,
{
    if t <= 0 {
        (0, 0)
    } else {
        let prev = att_row(ps, nb, k_s, k, a, t - 1);
        let term = att_term(ps, k_s, k, a, nb[a]@[t - 1] as int);
        (prev.0 + term.0, prev.1 + term.1)
    }
}

/// The accumulated attraction on node `k` from every edge of the first
/// `rows` adjacency rows.
pub open spec fn att_rows(
    ps: Seq<P2d>,
    nb: Seq<Vec<usize>>,
    k_s: int,
    k: int,
    rows: int,
) -> (int, int)
    decreases rows,
{
    if rows <= 0 {
        (0, 0)
    } else {
        let prev = att_rows(ps, nb, k_s, k, rows - 1);
        let row = att_row(ps, nb, k_s, k, rows - 1, nb[rows - 1]@.len() as int);
        (prev.0 + row.0, prev.1 + row.1)
    }
}

/// How many directed edges the first `rows` adjacency rows list in all.
pub open spec fn edge_total(nb: Seq<Vec<usize>>, rows: int) -> int
    decreases rows,
{
    if rows <= 0 {
        0
    } else {
        edge_total(nb, rows - 1) + nb[rows - 1]@.len()
    }
}

/// The per-edge cap on an attractive force component when all coordinates
/// have magnitude at most `bb`.
pub open spec fn att_cap(k_s: int, bb: int) -> int {
    (8 * bb * bb) / k_s
}

/// The accumulators have room for a whole attraction pass: every coordinate
/// is bounded by `bb`, and each accumulator component is far enough from the
/// integer limits to absorb every listed edge's capped force.
pub open spec fn edge_headroom(
    fs: Seq<P2d>,
    ps: Seq<P2d>,
    nb: Seq<Vec<usize>>,
    k_s: int,
    bb: int,
) -> bool {
    &&& 1 <= bb <= COORD_LIMIT as int
    &&& in_range(ps, bb)
    &&& 0 <= edge_total(nb, nb.len() as int) * att_cap(k_s, bb) <= i64::MAX as int
    &&& forall|k: int|
        #![trigger fs[k]]
        0 <= k < fs.len() ==> -(i64::MAX - edge_total(nb, nb.len() as int) * att_cap(k_s, bb))
            <= fs[k].0 <= i64::MAX - edge_total(nb, nb.len() as int) * att_cap(k_s, bb) && -(
        i64::MAX - edge_total(nb, nb.len() as int) * att_cap(k_s, bb)) <= fs[k].1 <= i64::MAX
            - edge_total(nb, nb.len() as int) * att_cap(k_s, bb)
}

pub proof fn lemma_edge_total_mono(nb: Seq<Vec<usize>>, r1: int, r2: int)
    requires
        0 <= r1 <= r2,
    ensures
        0 <= edge_total(nb, r1) <= edge_total(nb, r2),
    decreases r2,
{
    if r2 > 0 && r1 < r2 {
        lemma_edge_total_mono(nb, r1, r2 - 1);
    } else if r2 > 0 {
        lemma_edge_total_mono(nb, 0, r1 - 1);
    }
}

/// A point attracts itself with the zero force.
pub proof fn lemma_attract_self(p: P2d, k_s: int)
    requires
        k_s >= 1,
    ensures
        attract(p, p, k_s) == (0int, 0int),
{
    lemma_attract_bound(p, p, k_s, 0);
    assert(0int / k_s == 0) by (nonlinear_arith)
        requires
            k_s >= 1,
    ;
}

/// One edge term is capped by `att_cap` once every coordinate is bounded.
pub proof fn lemma_att_term_bound(ps: Seq<P2d>, k_s: int, k: int, a: int, b: int, bb: int)
    requires
        k_s >= 1,
        bb >= 1,
        0 <= a < ps.len(),
        0 <= b < ps.len(),
        in_range(ps, bb),
    ensures
        -att_cap(k_s, bb) <= att_term(ps, k_s, k, a, b).0 <= att_cap(k_s, bb),
        -att_cap(k_s, bb) <= att_term(ps, k_s, k, a, b).1 <= att_cap(k_s, bb),
{
    let cap8 = 8 * bb * bb;
    assert(in_coord_range(ps[a], bb) && in_coord_range(ps[b], bb));
    assert(dist2(ps[a], ps[b]) <= cap8 && dist2(ps[b], ps[a]) <= cap8 && cap8 >= 0)
        by (nonlinear_arith)
        requires
            cap8 == 8 * bb * bb,
            bb >= 1,
            -bb <= ps[a].0 <= bb,
            -bb <= ps[a].1 <= bb,
            -bb <= ps[b].0 <= bb,
            -bb <= ps[b].1 <= bb,
            dist2(ps[a], ps[b]) == (ps[a].0 - ps[b].0) * (ps[a].0 - ps[b].0) + (ps[a].1
                - ps[b].1) * (ps[a].1 - ps[b].1),
            dist2(ps[b], ps[a]) == (ps[b].0 - ps[a].0) * (ps[b].0 - ps[a].0) + (ps[b].1
                - ps[a].1) * (ps[b].1 - ps[a].1),
    ;
    lemma_attract_bound(ps[a], ps[b], k_s, cap8);
    lemma_attract_bound(ps[b], ps[a], k_s, cap8);
    lemma_div_pos_is_pos(cap8, k_s);
    if a == k && b == k {
        lemma_attract_self(ps[k], k_s);
    }
}

/// A partial attraction sum is capped by the number of edges it covers
/// times the per-edge cap.
pub proof fn lemma_att_row_bound(
    ps: Seq<P2d>,
    nb: Seq<Vec<usize>>,
    k_s: int,
    k: int,
    a: int,
    t: int,
    bb: int,
)
    requires
        k_s >= 1,
        bb >= 1,
        in_range(ps, bb),
        nb.len() == ps.len(),
        valid_neighbors(nb, ps.len() as int),
        0 <= a < nb.len(),
        0 <= t <= nb[a]@.len(),
    ensures
        -(t * att_cap(k_s, bb)) <= att_row(ps, nb, k_s, k, a, t).0 <= t * att_cap(k_s, bb),
        -(t * att_cap(k_s, bb)) <= att_row(ps, nb, k_s, k, a, t).1 <= t * att_cap(k_s, bb),
    decreases t,
{
    let cap = att_cap(k_s, bb);
    if t == 0 {
        assert(0 * cap == 0) by (nonlinear_arith);
    } else {
        lemma_att_row_bound(ps, nb, k_s, k, a, t - 1, bb);
        assert(nb[a]@[t - 1] < ps.len());
        lemma_att_term_bound(ps, k_s, k, a, nb[a]@[t - 1] as int, bb);
        assert((t - 1) * cap + cap == t * cap && (t - 1) * cap <= t * cap) by (nonlinear_arith)
            requires
                cap >= 0,
        ;
    }
}

pub proof fn lemma_att_rows_bound(
    ps: Seq<P2d>,
    nb: Seq<Vec<usize>>,
    k_s: int,
    k: int,
    rows: int,
    bb: int,
)
    requires
        k_s >= 1,
        bb >= 1,
        in_range(ps, bb),
        nb.len() == ps.len(),
        valid_neighbors(nb, ps.len() as int),
        0 <= rows <= nb.len(),
    ensures
        -(edge_total(nb, rows) * att_cap(k_s, bb)) <= att_rows(ps, nb, k_s, k, rows).0
            <= edge_total(nb, rows) * att_cap(k_s, bb),
        -(edge_total(nb, rows) * att_cap(k_s, bb)) <= att_rows(ps, nb, k_s, k, rows).1
            <= edge_total(nb, rows) * att_cap(k_s, bb),
    decreases rows,
{
    let cap = att_cap(k_s, bb);
    if rows == 0 {
        assert(0 * cap == 0) by (nonlinear_arith);
    } else {
        lemma_att_rows_bound(ps, nb, k_s, k, rows - 1, bb);
        let rl = nb[rows - 1]@.len() as int;
        lemma_att_row_bound(ps, nb, k_s, k, rows - 1, rl, bb);
        assert((edge_total(nb, rows - 1) + rl) * cap == edge_total(nb, rows - 1) * cap + rl
            * cap) by (nonlinear_arith);
    }
}

/// The attraction already accumulated on any node after `a` full rows and
/// `t` entries of row `a` is capped by the number of edges processed.
pub proof fn lemma_att_partial_bound(
    ps: Seq<P2d>,
    nb: Seq<Vec<usize>>,
    k_s: int,
    k: int,
    a: int,
    t: int,
    bb: int,
)
    requires
        k_s >= 1,
        bb >= 1,
        in_range(ps, bb),
        nb.len() == ps.len(),
        valid_neighbors(nb, ps.len() as int),
        0 <= a < nb.len(),
        0 <= t <= nb[a]@.len(),
    ensures
        -((edge_total(nb, a) + t) * att_cap(k_s, bb)) <= att_rows(ps, nb, k_s, k, a).0 + att_row(
            ps,
            nb,
            k_s,
            k,
            a,
            t,
        ).0 <= (edge_total(nb, a) + t) * att_cap(k_s, bb),
        -((edge_total(nb, a) + t) * att_cap(k_s, bb)) <= att_rows(ps, nb, k_s, k, a).1 + att_row(
            ps,
            nb,
            k_s,
            k,
            a,
            t,
        ).1 <= (edge_total(nb, a) + t) * att_cap(k_s, bb),
{
    lemma_att_rows_bound(ps, nb, k_s, k, a, bb);
    lemma_att_row_bound(ps, nb, k_s, k, a, t, bb);
    assert((edge_total(nb, a) + t) * att_cap(k_s, bb) == edge_total(nb, a) * att_cap(k_s, bb) + t
        * att_cap(k_s, bb)) by (nonlinear_arith);
}

/// The squared length of a force accumulator.
pub open spec fn flen2(f: P2d) -> int {
    f.0 * f.0 + f.1 * f.1
}

/// The integration displacement: a node with a non-zero net force moves by
/// the step length in the force's direction (exactly, on the grid:
/// `step * f / |f|` rounded toward zero); a node with no net force stays.
/// Magnitude is controlled by the cooling step alone, never by the raw
/// force, which is what keeps near-coincident repulsion from exploding.
pub open spec fn displace(f: P2d, step: int) -> (int, int) {
    if flen2(f) == 0 {
        (0, 0)
    } else {
        let len = sqrt_floor(flen2(f) as nat) as int;
        (div_trunc(f.0 * step, len), div_trunc(f.1 * step, len))
    }
}

/// Where one unlocked node ends an iteration: its displaced position,
/// clamped into the bounding box.
pub open spec fn new_pos(p: P2d, f: P2d, step: int, min_pos: P2d, max_pos: P2d) -> (int, int) {
    let d = displace(f, step);
    (
        clamped(p.0 + d.0, min_pos.0 as int, max_pos.0 as int),
        clamped(p.1 + d.1, min_pos.1 as int, max_pos.1 as int),
    )
}

/// How many of the unlocked nodes below `m` carry a non-zero net force and
/// therefore move this iteration.
pub open spec fn moved_count(fs: Seq<P2d>, lock: int, m: int) -> int
    decreases m - lock,
{
    if m <= lock {
        0
    } else {
        moved_count(fs, lock, m - 1) + if flen2(fs[m - 1]) != 0 {
            1int
        } else {
            0int
        }
    }
}

/// No displacement component exceeds the step, and no force component
/// exceeds the force's own length.
pub proof fn lemma_displace_bound(f: P2d, step: int)
    requires
        step >= 0,
    ensures
        -step <= displace(f, step).0 <= step,
        -step <= displace(f, step).1 <= step,
        flen2(f) != 0 ==> sqrt_floor(flen2(f) as nat) >= 1,
{
    assert(f.0 * f.0 >= 0 && f.1 * f.1 >= 0 && (f.0 * f.0 == 0 ==> f.0 == 0) && (f.1 * f.1 == 0
        ==> f.1 == 0)) by (nonlinear_arith);
    if flen2(f) != 0 {
        let l2 = flen2(f);
        let len = sqrt_floor(l2 as nat) as int;
        lemma_sqrt_floor(l2 as nat);
        if len == 0 {
            assert((len + 1) * (len + 1) == 1) by (nonlinear_arith)
                requires
                    len == 0,
            ;
            assert(l2 < 1);
        }
        assert(-len <= f.0 <= len && -len <= f.1 <= len) by (nonlinear_arith)
            requires
                f.0 * f.0 <= l2,
                f.1 * f.1 <= l2,
                l2 < (len + 1) * (len + 1),
                len >= 0,
        ;
        lemma_ratio_bound(f.0 as int, step, len);
        lemma_ratio_bound(f.1 as int, step, len);
    }
}

/// A moved-node count never exceeds the number of unlocked nodes counted.
pub proof fn lemma_moved_count_range(fs: Seq<P2d>, lock: int, m: int)
    ensures
        0 <= moved_count(fs, lock, m) <= (if m <= lock { 0int } else { m - lock }),
    decreases m - lock,
{
    if m > lock {
        lemma_moved_count_range(fs, lock, m - 1);
    }
}

/// The engine's failure mode: the shapes of the caller-supplied sequences
/// do not line up, reported once at entry.
#[derive(Clone, Copy, Debug, PartialEq, Eq, Structural)]
pub enum ShapeError {
    /// The adjacency sequence is not exactly as long as the position sequence.
    LengthMismatch,
    /// An adjacency entry names a node index that does not exist.
    NeighborOutOfRange,
}

/// One layout computation: caller-supplied positions and adjacency, a force
/// accumulator per node, and the count of leading positions that are locked
/// in place as anchors.
pub struct Layout {
    pub forces: Vec<P2d>,
    pub node_positions: Vec<P2d>,
    pub node_neighbors: Vec<Vec<usize>>,
    pub lock_first_n_positions: usize,
}

impl Layout {
    /// The structural invariant: one force accumulator and one adjacency row
    /// per node, and every adjacency entry in range.
    pub open spec fn wf(self) -> bool {
        &&& self.forces@.len() == self.node_positions@.len()
        &&& self.node_neighbors@.len() == self.node_positions@.len()
        &&& valid_neighbors(self.node_neighbors@, self.node_positions@.len() as int)
    }

    /// Validates the caller's shapes once at entry and takes ownership of
    /// the position and adjacency sequences; force accumulators start at
    /// zero and no position is locked.
    pub fn new(node_positions: Vec<P2d>, node_neighbors: Vec<Vec<usize>>) -> (r: Result<
        Layout,
        ShapeError,
    >)
        ensures
            r is Ok <==> node_neighbors@.len() == node_positions@.len() && valid_neighbors(
                node_neighbors@,
                node_positions@.len() as int,
            ),
            node_neighbors@.len() != node_positions@.len() ==> r == Result::<
                Layout,
                ShapeError,
            >::Err(ShapeError::LengthMismatch),
            node_neighbors@.len() == node_positions@.len() && !valid_neighbors(
                node_neighbors@,
                node_positions@.len() as int,
            ) ==> r == Result::<Layout, ShapeError>::Err(ShapeError::NeighborOutOfRange),
            r matches Ok(lay) ==> lay.node_positions == node_positions && lay.node_neighbors
                == node_neighbors && lay.lock_first_n_positions == 0 && lay.forces@.len()
                == node_positions@.len() && (forall|k: int|
                0 <= k < lay.forces@.len() ==> lay.forces@[k] == (P2d(0, 0))) && lay.wf(),
    {
        let n = node_positions.len();
        if node_neighbors.len() != n {
            return Err(ShapeError::LengthMismatch);
        }
        let mut a: usize = 0;
        while a < n
            invariant
                a <= n,
                node_neighbors@.len() == n,
                n == node_positions@.len(),
                forall|x: int, t: int|
                    0 <= x < a && 0 <= t < node_neighbors@[x]@.len() ==> #[trigger] node_neighbors@[x]@[t]
                        < n,
            decreases n - a,
        {
            let row_len = node_neighbors[a].len();
            let mut t: usize = 0;
            while t < row_len
                invariant
                    a < n,
                    t <= row_len,
                    node_neighbors@.len() == n,
                    n == node_positions@.len(),
                    row_len == node_neighbors@[a as int]@.len(),
                    forall|u: int|
                        0 <= u < t ==> #[trigger] node_neighbors@[a as int]@[u] < n,
                decreases row_len - t,
            {
                if node_neighbors[a][t] >= n {
                    return Err(ShapeError::NeighborOutOfRange);
                }
                t = t + 1;
            }
            a = a + 1;
        }
        let mut forces: Vec<P2d> = Vec::new();
        let mut k: usize = 0;
        while k < n
            invariant
                k <= n,
                forces@.len() == k,
                forall|j: int| 0 <= j < k ==> forces@[j] == (P2d(0, 0)),
            decreases n - k,
        {
            forces.push(P2d::new());
            k = k + 1;
        }
        Ok(
            Layout {
                forces,
                node_positions,
                node_neighbors,
                lock_first_n_positions: 0,
            },
        )
    }

    /// Marks the first `n` positions as caller-fixed anchors, excluded from
    /// every integration step.
    pub fn lock_first_n_positions(&mut self, n: usize)
        ensures
            final(self).lock_first_n_positions == n,
            final(self).forces == old(self).forces,
            final(self).node_positions == old(self).node_positions,
            final(self).node_neighbors == old(self).node_neighbors,
    {
        self.lock_first_n_positions = n;
    }

    /// Resets every force accumulator to the zero vector; run at the start
    /// of each iteration.
    pub fn reset_forces(&mut self)
        ensures
            final(self).forces@.len() == old(self).forces@.len(),
            forall|k: int|
                0 <= k < final(self).forces@.len() ==> final(self).forces@[k] == (P2d(0, 0)),
            final(self).node_positions == old(self).node_positions,
            final(self).node_neighbors == old(self).node_neighbors,
            final(self).lock_first_n_positions == old(self).lock_first_n_positions,
    {
        let n = self.forces.len();
        let mut k: usize = 0;
        while k < n
            invariant
                k <= n,
                self.forces@.len() == n,
                forall|j: int| 0 <= j < k ==> self.forces@[j] == (P2d(0, 0)),
                self.node_positions == old(self).node_positions,
                self.node_neighbors == old(self).node_neighbors,
                self.lock_first_n_positions == old(self).lock_first_n_positions,
            decreases n - k,
        {
            let mut f = self.forces[k];
            f.reset();
            self.forces.set(k, f);
            k = k + 1;
        }
    }

    /// Adds the repulsive force of every unordered pair of distinct nodes
    /// into the pair's two accumulators, with opposite signs; each pair is
    /// visited exactly once, so accumulator `k` ends up with exactly the sum
    /// of the repulsions exerted on node `k` by every other node.
    pub fn update_force_each_node_pair(&mut self, k_r: i64)
        requires
            old(self).wf(),
            k_r >= 0,
            in_range(old(self).node_positions@, COORD_LIMIT as int),
            old(self).node_positions@.len() * k_r <= i64::MAX as int,
            forall|k: int|
                #![trigger old(self).forces@[k]]
                0 <= k < old(self).forces@.len() ==> -(i64::MAX - old(self).node_positions@.len()
                    * k_r) <= old(self).forces@[k].0 <= i64::MAX - old(
                    self,
                ).node_positions@.len() * k_r && -(i64::MAX - old(self).node_positions@.len()
                    * k_r) <= old(self).forces@[k].1 <= i64::MAX - old(self).node_positions@.len()
                    * k_r,
        ensures
            final(self).node_positions == old(self).node_positions,
            final(self).node_neighbors == old(self).node_neighbors,
            final(self).lock_first_n_positions == old(self).lock_first_n_positions,
            final(self).forces@.len() == old(self).forces@.len(),
            forall|k: int|
                #![trigger final(self).forces@[k]]
                0 <= k < final(self).forces@.len() ==> final(self).forces@[k].0 == old(
                    self,
                ).forces@[k].0 + rep_sum(
                    old(self).node_positions@,
                    k,
                    k_r as int,
                    old(self).node_positions@.len() as int,
                ).0 && final(self).forces@[k].1 == old(self).forces@[k].1 + rep_sum(
                    old(self).node_positions@,
                    k,
                    k_r as int,
                    old(self).node_positions@.len() as int,
                ).1,
    {
        let n = self.node_positions.len();
        let ghost ps = self.node_positions@;
        let ghost f0 = self.forces@;
        let mut i1: usize = 0;
        while i1 < n
            invariant
                i1 <= n,
                k_r >= 0,
                n == ps.len(),
                self.node_positions@ == ps,
                self.node_neighbors == old(self).node_neighbors,
                self.lock_first_n_positions == old(self).lock_first_n_positions,
                self.node_positions == old(self).node_positions,
                self.forces@.len() == n,
                f0 == old(self).forces@,
                f0.len() == n,
                in_range(ps, COORD_LIMIT as int),
                n * k_r <= i64::MAX as int,
                forall|k: int|
                    #![trigger f0[k]]
                    0 <= k < n ==> -(i64::MAX - n * k_r) <= f0[k].0 <= i64::MAX - n
                        * k_r && -(i64::MAX - n * k_r) <= f0[k].1 <= i64::MAX - n * k_r,
                forall|k: int|
                    #![trigger self.forces@[k]]
                    0 <= k < n ==> self.forces@[k].0 == f0[k].0 + (if k < i1 {
                        rep_sum(ps, k, k_r as int, n as int)
                    } else {
                        rep_sum(ps, k, k_r as int, i1 as int)
                    }).0 && self.forces@[k].1 == f0[k].1 + (if k < i1 {
                        rep_sum(ps, k, k_r as int, n as int)
                    } else {
                        rep_sum(ps, k, k_r as int, i1 as int)
                    }).1,
            decreases n - i1,
        {
            let mut i2: usize = i1 + 1;
            while i2 < n
                invariant
                    i1 < n,
                    i1 + 1 <= i2 <= n,
                    k_r >= 0,
                    n == ps.len(),
                    self.node_positions@ == ps,
                    self.node_neighbors == old(self).node_neighbors,
                    self.lock_first_n_positions == old(self).lock_first_n_positions,
                    self.node_positions == old(self).node_positions,
                    self.forces@.len() == n,
                    f0 == old(self).forces@,
                    f0.len() == n,
                    in_range(ps, COORD_LIMIT as int),
                    n * k_r <= i64::MAX as int,
                    forall|k: int|
                        #![trigger f0[k]]
                        0 <= k < n ==> -(i64::MAX - n * k_r) <= f0[k].0 <= i64::MAX - n
                            * k_r && -(i64::MAX - n * k_r) <= f0[k].1 <= i64::MAX - n * k_r,
                    forall|k: int|
                        #![trigger self.forces@[k]]
                        0 <= k < n ==> self.forces@[k].0 == f0[k].0 + (if k < i1 {
                            rep_sum(ps, k, k_r as int, n as int)
                        } else if k == i1 {
                            rep_sum(ps, k, k_r as int, i2 as int)
                        } else if k < i2 {
                            rep_sum(ps, k, k_r as int, i1 + 1)
                        } else {
                            rep_sum(ps, k, k_r as int, i1 as int)
                        }).0 && self.forces@[k].1 == f0[k].1 + (if k < i1 {
                            rep_sum(ps, k, k_r as int, n as int)
                        } else if k == i1 {
                            rep_sum(ps, k, k_r as int, i2 as int)
                        } else if k < i2 {
                            rep_sum(ps, k, k_r as int, i1 + 1)
                        } else {
                            rep_sum(ps, k, k_r as int, i1 as int)
                        }).1,
                decreases n - i2,
            {
                let p1 = self.node_positions[i1];
                let p2 = self.node_positions[i2];
                proof {
                    assert(in_coord_range(ps[i1 as int], COORD_LIMIT as int));
                    assert(in_coord_range(ps[i2 as int], COORD_LIMIT as int));
                }
                let force = repulsive_force(&p1, &p2, k_r);
                proof {
                    lemma_rep_sum_bound(ps, i1 as int, k_r as int, i2 as int);
                    lemma_rep_sum_bound(ps, i2 as int, k_r as int, i1 as int);
                    lemma_repulse_antisym(p1, p2, k_r as int);
                    assert((i2 + 1) * (k_r as int) <= n * (k_r as int) && (i1 + 1) * (k_r as int) <= n * (k_r as int) && i2 as int
                        * (k_r as int) + k_r == (i2 + 1) * (k_r as int) && i1 as int * (k_r as int) + k_r == (i1 + 1) * (k_r as int))
                        by (nonlinear_arith)
                        requires
                            k_r >= 0,
                            i2 + 1 <= n,
                            i1 + 1 <= n,
                    ;
                    assert(div_trunc(force.0 * 1, 1) == force.0 && div_trunc(force.1 * 1, 1)
                        == force.1 && div_trunc(force.0 * -1, 1) == -force.0 && div_trunc(
                        force.1 * -1,
                        1,
                    ) == -force.1);
                }
                let mut fi = self.forces[i1];
                fi.add_scaled(1, 1, &force);
                self.forces.set(i1, fi);
                let mut fj = self.forces[i2];
                fj.add_scaled(-1, 1, &force);
                self.forces.set(i2, fj);
                i2 = i2 + 1;
            }
            i1 = i1 + 1;
        }
    }

    /// Adds the attractive force of every listed edge into the force
    /// accumulators of its two endpoints, with opposite signs, so that a
    /// directed listing still produces a physically symmetric pull; each
    /// adjacency entry is visited exactly once.
    pub fn update_force_each_edge(&mut self, k_s: i64)
        requires
            old(self).wf(),
            k_s >= 1,
            exists|bb: int|
                #[trigger] edge_headroom(
                    old(self).forces@,
                    old(self).node_positions@,
                    old(self).node_neighbors@,
                    k_s as int,
                    bb,
                ),
        ensures
            final(self).node_positions == old(self).node_positions,
            final(self).node_neighbors == old(self).node_neighbors,
            final(self).lock_first_n_positions == old(self).lock_first_n_positions,
            final(self).forces@.len() == old(self).forces@.len(),
            forall|k: int|
                #![trigger final(self).forces@[k]]
                0 <= k < final(self).forces@.len() ==> final(self).forces@[k].0 == old(
                    self,
                ).forces@[k].0 + att_rows(
                    old(self).node_positions@,
                    old(self).node_neighbors@,
                    k_s as int,
                    k,
                    old(self).node_neighbors@.len() as int,
                ).0 && final(self).forces@[k].1 == old(self).forces@[k].1 + att_rows(
                    old(self).node_positions@,
                    old(self).node_neighbors@,
                    k_s as int,
                    k,
                    old(self).node_neighbors@.len() as int,
                ).1,
    {
        let n = self.node_positions.len();
        let ghost ps = self.node_positions@;
        let ghost nb = self.node_neighbors@;
        let ghost f0 = self.forces@;
        let ghost bb = choose|bb: int|
            edge_headroom(f0, ps, nb, k_s as int, bb);
        let ghost cap = att_cap(k_s as int, bb);
        let ghost etotal = edge_total(nb, nb.len() as int);
        let mut a: usize = 0;
        while a < n
            invariant
                a <= n,
                k_s >= 1,
                n == ps.len(),
                self.node_positions@ == ps,
                self.node_positions == old(self).node_positions,
                self.node_neighbors@ == nb,
                self.node_neighbors == old(self).node_neighbors,
                self.lock_first_n_positions == old(self).lock_first_n_positions,
                self.forces@.len() == n,
                f0 == old(self).forces@,
                f0.len() == n,
                nb.len() == n,
                valid_neighbors(nb, n as int),
                edge_headroom(f0, ps, nb, k_s as int, bb),
                cap == att_cap(k_s as int, bb),
                etotal == edge_total(nb, n as int),
                forall|k: int|
                    #![trigger self.forces@[k]]
                    0 <= k < n ==> self.forces@[k].0 == f0[k].0 + att_rows(
                        ps,
                        nb,
                        k_s as int,
                        k,
                        a as int,
                    ).0 && self.forces@[k].1 == f0[k].1 + att_rows(ps, nb, k_s as int, k, a as int).1,
            decreases n - a,
        {
            let row_len = self.node_neighbors[a].len();
            let mut t: usize = 0;
            while t < row_len
                invariant
                    a < n,
                    t <= row_len,
                    k_s >= 1,
                    n == ps.len(),
                    self.node_positions@ == ps,
                    self.node_positions == old(self).node_positions,
                    self.node_neighbors@ == nb,
                    self.node_neighbors == old(self).node_neighbors,
                    self.lock_first_n_positions == old(self).lock_first_n_positions,
                    self.forces@.len() == n,
                    f0 == old(self).forces@,
                    f0.len() == n,
                    nb.len() == n,
                    row_len == nb[a as int]@.len(),
                    valid_neighbors(nb, n as int),
                    edge_headroom(f0, ps, nb, k_s as int, bb),
                    cap == att_cap(k_s as int, bb),
                    etotal == edge_total(nb, n as int),
                    forall|k: int|
                        #![trigger self.forces@[k]]
                        0 <= k < n ==> self.forces@[k].0 == f0[k].0 + att_rows(
                            ps,
                            nb,
                            k_s as int,
                            k,
                            a as int,
                        ).0 + att_row(ps, nb, k_s as int, k, a as int, t as int).0
                            && self.forces@[k].1 == f0[k].1 + att_rows(
                            ps,
                            nb,
                            k_s as int,
                            k,
                            a as int,
                        ).1 + att_row(ps, nb, k_s as int, k, a as int, t as int).1,
                decreases row_len - t,
            {
                let i2 = self.node_neighbors[a][t];
                proof {
                    assert(nb[a as int]@[t as int] < n);
                }
                let p1 = self.node_positions[a];
                let p2 = self.node_positions[i2];
                proof {
                    assert(in_coord_range(ps[a as int], bb) && in_coord_range(
                        ps[i2 as int],
                        bb,
                    ));
                    assert(dist2(p1, p2) <= 8 * bb * bb) by (nonlinear_arith)
                        requires
                            bb >= 1,
                            -bb <= p1.0 <= bb,
                            -bb <= p1.1 <= bb,
                            -bb <= p2.0 <= bb,
                            -bb <= p2.1 <= bb,
                            dist2(p1, p2) == (p1.0 - p2.0) * (p1.0 - p2.0) + (p1.1 - p2.1) * (p1.1
                                - p2.1),
                    ;
                    lemma_div_is_ordered(dist2(p1, p2), 8 * bb * bb, k_s as int);
                    lemma_edge_total_mono(nb, a as int + 1, n as int);
                    lemma_edge_total_mono(nb, 0, a as int);
                    assert(edge_total(nb, a as int + 1) == edge_total(nb, a as int)
                        + row_len);
                    lemma_div_pos_is_pos(8 * bb * bb, k_s as int);
                    assert(etotal * cap >= 1 * cap && cap >= 0) by (nonlinear_arith)
                        requires
                            etotal >= 1,
                            cap >= 0,
                    ;
                    assert(edge_headroom(f0, ps, nb, k_s as int, bb));
                    assert(in_coord_range(ps[a as int], COORD_LIMIT as int) && in_coord_range(
                        ps[i2 as int],
                        COORD_LIMIT as int,
                    ));
                }
                let force = attractive_force(&p1, &p2, k_s);
                proof {
                    lemma_att_partial_bound(ps, nb, k_s as int, a as int, a as int, t as int, bb);
                    lemma_att_partial_bound(ps, nb, k_s as int, i2 as int, a as int, t as int, bb);
                    lemma_attract_antisym(p1, p2, k_s as int);
                    if a == i2 {
                        lemma_attract_self(p1, k_s as int);
                    }
                    assert((edge_total(nb, a as int) + t) * cap + cap == (edge_total(nb, a as int)
                        + t + 1) * cap && (edge_total(nb, a as int) + t) * cap >= 0 && (edge_total(
                        nb,
                        a as int,
                    ) + t + 1) * cap <= etotal * cap) by (nonlinear_arith)
                        requires
                            cap >= 0,
                            0 <= edge_total(nb, a as int),
                            t >= 0,
                            edge_total(nb, a as int) + t + 1 <= etotal,
                    ;
                    assert(div_trunc(force.0 * 1, 1) == force.0 && div_trunc(force.1 * 1, 1)
                        == force.1 && div_trunc(force.0 * -1, 1) == -force.0 && div_trunc(
                        force.1 * -1,
                        1,
                    ) == -force.1);
                }
                let ghost fs_before = self.forces@;
                let mut fa = self.forces[a];
                fa.add_scaled(-1, 1, &force);
                self.forces.set(a, fa);
                let mut fb = self.forces[i2];
                fb.add_scaled(1, 1, &force);
                self.forces.set(i2, fb);
                proof {
                    assert(nb[a as int]@[t as int] == i2);
                    assert forall|k: int| 0 <= k < n implies #[trigger] self.forces@[k].0 == f0[k].0
                        + att_rows(ps, nb, k_s as int, k, a as int).0 + att_row(
                        ps,
                        nb,
                        k_s as int,
                        k,
                        a as int,
                        t as int + 1,
                    ).0 && self.forces@[k].1 == f0[k].1 + att_rows(ps, nb, k_s as int, k, a as int).1
                        + att_row(ps, nb, k_s as int, k, a as int, t as int + 1).1 by {
                        assert(att_row(ps, nb, k_s as int, k, a as int, t as int + 1).0 == att_row(
                            ps,
                            nb,
                            k_s as int,
                            k,
                            a as int,
                            t as int,
                        ).0 + att_term(ps, k_s as int, k, a as int, i2 as int).0);
                        if k != a && k != i2 {
                            assert(self.forces@[k] == fs_before[k]);
                        }
                    }
                }
                t = t + 1;
            }
            proof {
                assert(att_rows(ps, nb, k_s as int, 0, a as int + 1).0 == att_rows(
                    ps,
                    nb,
                    k_s as int,
                    0,
                    a as int,
                ).0 + att_row(ps, nb, k_s as int, 0, a as int, nb[a as int]@.len() as int).0);
                assert forall|k: int| 0 <= k < n implies #[trigger] self.forces@[k].0 == f0[k].0
                    + att_rows(ps, nb, k_s as int, k, a as int + 1).0 && self.forces@[k].1
                    == f0[k].1 + att_rows(ps, nb, k_s as int, k, a as int + 1).1 by {
                    assert(att_rows(ps, nb, k_s as int, k, a as int + 1).0 == att_rows(
                        ps,
                        nb,
                        k_s as int,
                        k,
                        a as int,
                    ).0 + att_row(ps, nb, k_s as int, k, a as int, nb[a as int]@.len() as int).0);
                }
            }
            a = a + 1;
        }
    }

    /// Moves every unlocked node by the cooling step along its net force
    /// direction, clamps the result into the bounding box, and reports the
    /// total movement: the step, once for every node that carried a
    /// non-zero net force (the step-counting convention for convergence).
    /// Locked nodes are left untouched and contribute no movement.
    pub fn update_positions(&mut self, step: i64, min_pos: &P2d, max_pos: &P2d) -> (moved: u128)
        requires
            old(self).forces@.len() == old(self).node_positions@.len(),
            step >= 0,
            min_pos.0 <= max_pos.0,
            min_pos.1 <= max_pos.1,
            forall|i: int|
                #![trigger old(self).node_positions@[i]]
                old(self).lock_first_n_positions <= i < old(self).node_positions@.len() ==> (
                i64::MIN + step <= old(self).node_positions@[i].0 <= i64::MAX - step && i64::MIN
                    + step <= old(self).node_positions@[i].1 <= i64::MAX - step),
        ensures
            final(self).forces == old(self).forces,
            final(self).node_neighbors == old(self).node_neighbors,
            final(self).lock_first_n_positions == old(self).lock_first_n_positions,
            final(self).node_positions@.len() == old(self).node_positions@.len(),
            forall|i: int|
                #![trigger final(self).node_positions@[i]]
                0 <= i < old(self).lock_first_n_positions && i < old(self).node_positions@.len()
                    ==> final(self).node_positions@[i] == old(self).node_positions@[i],
            forall|i: int|
                #![trigger final(self).node_positions@[i]]
                old(self).lock_first_n_positions <= i < old(self).node_positions@.len() ==> final(self).node_positions@[i].0 == new_pos(
                    old(self).node_positions@[i],
                    old(self).forces@[i],
                    step as int,
                    *min_pos,
                    *max_pos,
                ).0 && final(self).node_positions@[i].1 == new_pos(
                    old(self).node_positions@[i],
                    old(self).forces@[i],
                    step as int,
                    *min_pos,
                    *max_pos,
                ).1,
            moved == step * moved_count(
                old(self).forces@,
                old(self).lock_first_n_positions as int,
                old(self).node_positions@.len() as int,
            ),
    {
        let n = self.node_positions.len();
        let lock = self.lock_first_n_positions;
        let ghost ps = self.node_positions@;
        let ghost fs = self.forces@;
        let mut moved: u128 = 0;
        let mut i: usize = lock;
        proof {
            assert(moved_count(fs, lock as int, lock as int) == 0);
        }
        while i < n
            invariant
                lock <= i,
                i <= n || i == lock,
                step >= 0,
                n == ps.len(),
                min_pos.0 <= max_pos.0,
                min_pos.1 <= max_pos.1,
                self.forces@ == fs,
                self.forces == old(self).forces,
                self.node_neighbors == old(self).node_neighbors,
                self.lock_first_n_positions == lock,
                lock == old(self).lock_first_n_positions,
                ps == old(self).node_positions@,
                fs == old(self).forces@,
                fs.len() == n,
                self.node_positions@.len() == n,
                forall|j: int|
                    #![trigger ps[j]]
                    lock <= j < n ==> (i64::MIN + step <= ps[j].0 <= i64::MAX - step && i64::MIN
                        + step <= ps[j].1 <= i64::MAX - step),
                forall|j: int|
                    #![trigger self.node_positions@[j]]
                    0 <= j < n && (j < lock || j >= i) ==> self.node_positions@[j] == ps[j],
                forall|j: int|
                    #![trigger self.node_positions@[j]]
                    lock <= j < i && j < n ==> self.node_positions@[j].0 == new_pos(
                        ps[j],
                        fs[j],
                        step as int,
                        *min_pos,
                        *max_pos,
                    ).0 && self.node_positions@[j].1 == new_pos(
                        ps[j],
                        fs[j],
                        step as int,
                        *min_pos,
                        *max_pos,
                    ).1,
                moved == step * moved_count(fs, lock as int, i as int),
                moved <= step * (i - lock),
            decreases n - i,
        {
            let position = self.node_positions[i];
            let force = self.forces[i];
            let mut np = position;
            let length_squared = force.length_squared();
            proof {
                lemma_displace_bound(force, step as int);
                lemma_moved_count_range(fs, lock as int, i as int);
                assert(step * moved_count(fs, lock as int, i as int) + step == step * (moved_count(
                    fs,
                    lock as int,
                    i as int,
                ) + 1) && step * (i - lock) + step == step * (i + 1 - lock) && step * moved_count(
                    fs,
                    lock as int,
                    i as int,
                ) <= step * (i - lock)) by (nonlinear_arith)
                    requires
                        step >= 0,
                        0 <= moved_count(fs, lock as int, i as int) <= i - lock,
                ;
                assert(step * (i + 1 - lock) <= 0x8000_0000_0000_0000u128
                    * 0x1_0000_0000_0000_0000u128) by (nonlinear_arith)
                    requires
                        0 <= step <= 0x8000_0000_0000_0000u128,
                        0 <= i + 1 - lock <= 0x1_0000_0000_0000_0000u128,
                ;
            }
            if length_squared > 0 {
                let length = int_sqrt(length_squared);
                np.add_scaled(step, length as u128, &force);
                moved = moved + step as u128;
            }
            let clipped = np.clip_within(min_pos, max_pos);
            self.node_positions.set(i, clipped);
            i = i + 1;
        }
        moved
    }
}

/// The operations the iteration driver needs of a layout state: resetting
/// the force accumulators, the two accumulation passes, and the position
/// integration pass, each with the exact contract that `Layout` proves.
/// A state's mathematical value is its four components: the positions, the
/// force accumulators, the adjacency rows and the locked-node count.
pub trait ForceDirected {
    /// The position sequence.
    spec fn positions(&self) -> Seq<P2d>;

    /// The force accumulator sequence.
    spec fn forces(&self) -> Seq<P2d>;

    /// The adjacency rows.
    spec fn neighbors(&self) -> Seq<Vec<usize>>;

    /// How many leading positions are locked.
    spec fn locked(&self) -> int;

    /// Resets every force accumulator to the zero vector.
    fn reset_forces(&mut self)
        ensures
            final(self).forces().len() == old(self).forces().len(),
            forall|k: int|
                0 <= k < final(self).forces().len() ==> final(self).forces()[k] == (P2d(0, 0)),
            final(self).positions() == old(self).positions(),
            final(self).neighbors() == old(self).neighbors(),
            final(self).locked() == old(self).locked(),
    ;

    /// Adds the repulsive force of every unordered pair of distinct nodes
    /// into the pair's two accumulators, with opposite signs.
    fn update_force_each_node_pair(&mut self, k_r: i64)
        requires
            old(self).forces().len() == old(self).positions().len(),
            old(self).neighbors().len() == old(self).positions().len(),
            valid_neighbors(old(self).neighbors(), old(self).positions().len() as int),
            k_r >= 0,
            in_range(old(self).positions(), COORD_LIMIT as int),
            old(self).positions().len() * k_r <= i64::MAX as int,
            forall|k: int|
                #![trigger old(self).forces()[k]]
                0 <= k < old(self).forces().len() ==> -(i64::MAX - old(self).positions().len()
                    * k_r) <= old(self).forces()[k].0 <= i64::MAX - old(self).positions().len()
                    * k_r && -(i64::MAX - old(self).positions().len() * k_r) <= old(
                    self,
                ).forces()[k].1 <= i64::MAX - old(self).positions().len() * k_r,
        ensures
            final(self).positions() == old(self).positions(),
            final(self).neighbors() == old(self).neighbors(),
            final(self).locked() == old(self).locked(),
            final(self).forces().len() == old(self).forces().len(),
            forall|k: int|
                #![trigger final(self).forces()[k]]
                0 <= k < final(self).forces().len() ==> final(self).forces()[k].0 == old(
                    self,
                ).forces()[k].0 + rep_sum(
                    old(self).positions(),
                    k,
                    k_r as int,
                    old(self).positions().len() as int,
                ).0 && final(self).forces()[k].1 == old(self).forces()[k].1 + rep_sum(
                    old(self).positions(),
                    k,
                    k_r as int,
                    old(self).positions().len() as int,
                ).1,
    ;

    /// Adds the attractive force of every listed edge into its endpoints'
    /// accumulators, with opposite signs.
    fn update_force_each_edge(&mut self, k_s: i64)
        requires
            old(self).forces().len() == old(self).positions().len(),
            old(self).neighbors().len() == old(self).positions().len(),
            valid_neighbors(old(self).neighbors(), old(self).positions().len() as int),
            k_s >= 1,
            exists|bb: int|
                #[trigger] edge_headroom(
                    old(self).forces(),
                    old(self).positions(),
                    old(self).neighbors(),
                    k_s as int,
                    bb,
                ),
        ensures
            final(self).positions() == old(self).positions(),
            final(self).neighbors() == old(self).neighbors(),
            final(self).locked() == old(self).locked(),
            final(self).forces().len() == old(self).forces().len(),
            forall|k: int|
                #![trigger final(self).forces()[k]]
                0 <= k < final(self).forces().len() ==> final(self).forces()[k].0 == old(
                    self,
                ).forces()[k].0 + att_rows(
                    old(self).positions(),
                    old(self).neighbors(),
                    k_s as int,
                    k,
                    old(self).neighbors().len() as int,
                ).0 && final(self).forces()[k].1 == old(self).forces()[k].1 + att_rows(
                    old(self).positions(),
                    old(self).neighbors(),
                    k_s as int,
                    k,
                    old(self).neighbors().len() as int,
                ).1,
    ;

    /// Moves every unlocked node by the step along its net force direction,
    /// clamped into the box; reports the total movement.
    fn update_positions(&mut self, step: i64, min_pos: &P2d, max_pos: &P2d) -> (moved: u128)
        requires
            old(self).forces().len() == old(self).positions().len(),
            old(self).locked() >= 0,
            step >= 0,
            min_pos.0 <= max_pos.0,
            min_pos.1 <= max_pos.1,
            forall|i: int|
                #![trigger old(self).positions()[i]]
                old(self).locked() <= i < old(self).positions().len() ==> (i64::MIN + step <= old(
                    self,
                ).positions()[i].0 <= i64::MAX - step && i64::MIN + step <= old(
                    self,
                ).positions()[i].1 <= i64::MAX - step),
        ensures
            final(self).forces() == old(self).forces(),
            final(self).neighbors() == old(self).neighbors(),
            final(self).locked() == old(self).locked(),
            final(self).positions().len() == old(self).positions().len(),
            forall|i: int|
                #![trigger final(self).positions()[i]]
                0 <= i < old(self).locked() && i < old(self).positions().len() ==> final(self).positions()[i] == old(self).positions()[i],
            forall|i: int|
                #![trigger final(self).positions()[i]]
                old(self).locked() <= i < old(self).positions().len() ==> final(self).positions()[i].0 == new_pos(
                    old(self).positions()[i],
                    old(self).forces()[i],
                    step as int,
                    *min_pos,
                    *max_pos,
                ).0 && final(self).positions()[i].1 == new_pos(
                    old(self).positions()[i],
                    old(self).forces()[i],
                    step as int,
                    *min_pos,
                    *max_pos,
                ).1,
            moved == step * moved_count(
                old(self).forces(),
                old(self).locked(),
                old(self).positions().len() as int,
            ),
    ;
}

impl ForceDirected for Layout {
    open spec fn positions(&self) -> Seq<P2d> {
        self.node_positions@
    }

    open spec fn forces(&self) -> Seq<P2d> {
        self.forces@
    }

    open spec fn neighbors(&self) -> Seq<Vec<usize>> {
        self.node_neighbors@
    }

    open spec fn locked(&self) -> int {
        self.lock_first_n_positions as int
    }

    fn reset_forces(&mut self) {
        Layout::reset_forces(self);
    }

    fn update_force_each_node_pair(&mut self, k_r: i64) {
        Layout::update_force_each_node_pair(self, k_r);
    }

    fn update_force_each_edge(&mut self, k_s: i64) {
        Layout::update_force_each_edge(self, k_s);
    }

    fn update_positions(&mut self, step: i64, min_pos: &P2d, max_pos: &P2d) -> (moved: u128) {
        Layout::update_positions(self, step, min_pos, max_pos)
    }
}

/// The net force one iteration accumulates on node `k`: every pairwise
/// repulsion plus every listed edge's attraction.
pub open spec fn net_force(
    ps: Seq<P2d>,
    nb: Seq<Vec<usize>>,
    k_r: int,
    k_s: int,
    k: int,
) -> (int, int) {
    let r = rep_sum(ps, k, k_r, ps.len() as int);
    let a = att_rows(ps, nb, k_s, k, nb.len() as int);
    (r.0 + a.0, r.1 + a.1)
}

/// How many unlocked nodes below `m` carry a non-zero net force, and so
/// move by one step this iteration.
pub open spec fn active_count(
    ps: Seq<P2d>,
    nb: Seq<Vec<usize>>,
    k_r: int,
    k_s: int,
    lock: int,
    m: int,
) -> int
    decreases m - lock,
{
    if m <= lock {
        0
    } else {
        active_count(ps, nb, k_r, k_s, lock, m - 1) + if net_force(ps, nb, k_r, k_s, m - 1).0
            != 0 || net_force(ps, nb, k_r, k_s, m - 1).1 != 0 {
            1int
        } else {
            0int
        }
    }
}

/// Where the displaced, clamped position of node `k` lands, written over
/// the net-force components.
pub open spec fn new_pos2(
    p: P2d,
    f: (int, int),
    step: int,
    min_pos: P2d,
    max_pos: P2d,
) -> (int, int) {
    let l2 = f.0 * f.0 + f.1 * f.1;
    let d = if l2 == 0 {
        (0int, 0int)
    } else {
        let len = sqrt_floor(l2 as nat) as int;
        (div_trunc(f.0 * step, len), div_trunc(f.1 * step, len))
    };
    (
        clamped(p.0 + d.0, min_pos.0 as int, max_pos.0 as int),
        clamped(p.1 + d.1, min_pos.1 as int, max_pos.1 as int),
    )
}

/// One whole iteration, as a function on the position sequence: locked
/// nodes stay, every other node moves by the step along its net force and
/// is clamped into the bounding box.
pub open spec fn iter_positions(
    ps: Seq<P2d>,
    nb: Seq<Vec<usize>>,
    lock: int,
    step: int,
    k_r: int,
    k_s: int,
    min_pos: P2d,
    max_pos: P2d,
) -> Seq<P2d> {
    Seq::new(
        ps.len(),
        |i: int|
            if i < lock {
                ps[i]
            } else {
                let np = new_pos2(ps[i], net_force(ps, nb, k_r, k_s, i), step, min_pos, max_pos);
                P2d(np.0 as i64, np.1 as i64)
            },
    )
}

/// Everything one iteration needs of its inputs: well-formed shapes,
/// admissible constants, coordinates bounded by `bb` with room to move one
/// step, and accumulators that cannot overflow over a full pass.
pub open spec fn engine_pre(
    lay: Layout,
    step: int,
    k_r: int,
    k_s: int,
    min_pos: P2d,
    max_pos: P2d,
    bb: int,
) -> bool {
    &&& lay.wf()
    &&& k_r >= 0
    &&& k_s >= 1
    &&& 0 <= step
    &&& min_pos.0 <= max_pos.0 && min_pos.1 <= max_pos.1
    &&& 1 <= bb <= COORD_LIMIT as int
    &&& bb + step <= i64::MAX as int
    &&& in_range(lay.node_positions@, bb)
    &&& lay.node_positions@.len() * k_r + edge_total(
        lay.node_neighbors@,
        lay.node_neighbors@.len() as int,
    ) * att_cap(k_s, bb) <= i64::MAX as int
}

/// Runs one iteration: resets the accumulators, runs the repulsion pass
/// over all pairs and the attraction pass over all edges, then integrates
/// the unlocked positions; returns the total movement.
fn iterate(fd: &mut Layout, step: i64, k_r: i64, k_s: i64, min_pos: &P2d, max_pos: &P2d) -> (dist: u128)
    requires
        exists|bb: int| #[trigger] engine_pre(*old(fd), step as int, k_r as int, k_s as int, *min_pos, *max_pos, bb),
    ensures
        final(fd).node_neighbors == old(fd).node_neighbors,
        final(fd).lock_first_n_positions == old(fd).lock_first_n_positions,
        final(fd).forces@.len() == old(fd).forces@.len(),
        final(fd).node_positions@ == iter_positions(
            old(fd).node_positions@,
            old(fd).node_neighbors@,
            old(fd).lock_first_n_positions as int,
            step as int,
            k_r as int,
            k_s as int,
            *min_pos,
            *max_pos,
        ),
        dist == step * active_count(
            old(fd).node_positions@,
            old(fd).node_neighbors@,
            k_r as int,
            k_s as int,
            old(fd).lock_first_n_positions as int,
            old(fd).node_positions@.len() as int,
        ),
{
    let ghost ps = fd.node_positions@;
    let ghost nb = fd.node_neighbors@;
    let ghost lock = fd.lock_first_n_positions as int;
    let ghost n = ps.len() as int;
    let ghost bb = choose|bb: int|
        engine_pre(*fd, step as int, k_r as int, k_s as int, *min_pos, *max_pos, bb);
    proof {
        lemma_edge_total_mono(nb, 0, nb.len() as int);
        lemma_div_pos_is_pos(8 * bb * bb, k_s as int);
        assert(edge_total(nb, nb.len() as int) * att_cap(k_s as int, bb) >= 0 && n * (k_r as int)
            >= 0) by (nonlinear_arith)
            requires
                edge_total(nb, nb.len() as int) >= 0,
                att_cap(k_s as int, bb) >= 0,
                n >= 0,
                k_r >= 0,
        ;
    }
    proof {
        assert forall|i: int| 0 <= i < ps.len() implies #[trigger] in_coord_range(
            ps[i],
            COORD_LIMIT as int,
        ) by {
            assert(in_coord_range(ps[i], bb));
        }
    }
    // Reset all forces to zero.
    fd.reset_forces();
    // Calculate repulsive force between all pairs.
    fd.update_force_each_node_pair(k_r);
    proof {
        assert forall|k: int| 0 <= k < n implies #[trigger] fd.forces@[k].0 == rep_sum(
            ps,
            k,
            k_r as int,
            n,
        ).0 && fd.forces@[k].1 == rep_sum(ps, k, k_r as int, n).1 by {
        }
        assert forall|k: int| 0 <= k < n implies -(i64::MAX - edge_total(nb, nb.len() as int)
            * att_cap(k_s as int, bb)) <= #[trigger] fd.forces@[k].0 <= i64::MAX - edge_total(
            nb,
            nb.len() as int,
        ) * att_cap(k_s as int, bb) && -(i64::MAX - edge_total(nb, nb.len() as int) * att_cap(
            k_s as int,
            bb,
        )) <= fd.forces@[k].1 <= i64::MAX - edge_total(nb, nb.len() as int) * att_cap(
            k_s as int,
            bb,
        ) by {
            lemma_rep_sum_bound(ps, k, k_r as int, n);
        }
        assert(edge_headroom(fd.forces@, ps, nb, k_s as int, bb));
    }
    // Calculate spring force between adjacent pairs (edges).
    fd.update_force_each_edge(k_s);
    let ghost fs_mid = fd.forces@;
    proof {
        assert forall|k: int| 0 <= k < n implies #[trigger] fs_mid[k].0 == net_force(
            ps,
            nb,
            k_r as int,
            k_s as int,
            k,
        ).0 && fs_mid[k].1 == net_force(ps, nb, k_r as int, k_s as int, k).1 by {
        }
        assert forall|j: int| lock <= j < n implies (i64::MIN + step <= #[trigger] ps[j].0
            <= i64::MAX - step && i64::MIN + step <= ps[j].1 <= i64::MAX - step) by {
            assert(in_coord_range(ps[j], bb));
        }
    }
    // Update positions and add up the moved distance.
    let dist = fd.update_positions(step, min_pos, max_pos);
    proof {
        lemma_moved_is_active(fs_mid, ps, nb, k_r as int, k_s as int, lock, n);
        let want = iter_positions(ps, nb, lock, step as int, k_r as int, k_s as int, *min_pos, *max_pos);
        assert forall|i: int| 0 <= i < n implies #[trigger] fd.node_positions@[i] == want[i] by {
            if i >= lock {
                let f = fs_mid[i];
                let nf = net_force(ps, nb, k_r as int, k_s as int, i);
                assert(flen2(f) == nf.0 * nf.0 + nf.1 * nf.1);
                assert(fd.node_positions@[i].0 == new_pos(ps[i], f, step as int, *min_pos, *max_pos).0);
                assert(new_pos(ps[i], f, step as int, *min_pos, *max_pos)
                    == new_pos2(ps[i], nf, step as int, *min_pos, *max_pos));
            }
        }
        assert(fd.node_positions@ =~= want);
    }
    dist
}

/// The linearly cooling step size: from `t0` at the first iteration down
/// toward zero at the iteration budget, in equal integer decrements.
pub open spec fn cool_step(t0: int, max_iter: int, it: int) -> int {
    t0 - it * (t0 / max_iter)
}

/// The whole run of the driver, as a function of its inputs: the final
/// positions, the number of iterations performed, and whether the run
/// stopped because the movement fell below the threshold (converged) or
/// because the iteration budget ran out (exhausted; a best-effort result,
/// not an error).  `it` counts the iterations already performed.
pub open spec fn run(
    ps: Seq<P2d>,
    nb: Seq<Vec<usize>>,
    lock: int,
    t0: int,
    max_iter: int,
    eps: int,
    k_r: int,
    k_s: int,
    min_pos: P2d,
    max_pos: P2d,
    it: int,
) -> (Seq<P2d>, int, bool)
    decreases max_iter - it,
{
    if it >= max_iter {
        (ps, it, false)
    } else {
        let step = cool_step(t0, max_iter, it);
        let ps2 = iter_positions(ps, nb, lock, step, k_r, k_s, min_pos, max_pos);
        let mv = step * active_count(ps, nb, k_r, k_s, lock, ps.len() as int);
        if mv < eps {
            (ps2, it + 1, true)
        } else {
            run(ps2, nb, lock, t0, max_iter, eps, k_r, k_s, min_pos, max_pos, it + 1)
        }
    }
}

/// Everything the driver needs of its inputs, with `bb` bounding every
/// coordinate that can ever arise: the initial ones and the bounding box
/// that every later position is clamped into.
pub open spec fn layout_pre(
    lay: Layout,
    t0: int,
    max_iter: int,
    k_r: int,
    k_s: int,
    min_pos: P2d,
    max_pos: P2d,
    bb: int,
) -> bool {
    &&& lay.wf()
    &&& k_r >= 0
    &&& k_s >= 1
    &&& 0 <= t0
    &&& 1 <= max_iter <= i64::MAX as int
    &&& min_pos.0 <= max_pos.0 && min_pos.1 <= max_pos.1
    &&& 1 <= bb <= COORD_LIMIT as int
    &&& bb + t0 <= i64::MAX as int
    &&& in_range(lay.node_positions@, bb)
    &&& in_coord_range(min_pos, bb)
    &&& in_coord_range(max_pos, bb)
    &&& lay.node_positions@.len() * k_r + edge_total(
        lay.node_neighbors@,
        lay.node_neighbors@.len() as int,
    ) * att_cap(k_s, bb) <= i64::MAX as int
}

/// A cooling step is never negative and never exceeds `t0`.
pub proof fn lemma_cool_step_range(t0: int, max_iter: int, it: int)
    requires
        0 <= t0,
        1 <= max_iter,
        0 <= it < max_iter,
    ensures
        0 <= cool_step(t0, max_iter, it) <= t0,
        0 <= it * (t0 / max_iter) <= t0,
{
    let dt = t0 / max_iter;
    lemma_div_pos_is_pos(t0, max_iter);
    vstd::arithmetic::div_mod::lemma_fundamental_div_mod(t0, max_iter);
    vstd::arithmetic::div_mod::lemma_mod_bound(t0, max_iter);
    assert(0 <= it * dt <= (max_iter - 1) * dt && (max_iter - 1) * dt + dt == max_iter * dt)
        by (nonlinear_arith)
        requires
            0 <= dt,
            0 <= it <= max_iter - 1,
    ;
}

/// One iteration keeps every coordinate within `bb`: locked nodes do not
/// move, and unlocked nodes are clamped into the box, whose corners lie
/// within `bb`.
pub proof fn lemma_iter_in_range(
    ps: Seq<P2d>,
    nb: Seq<Vec<usize>>,
    lock: int,
    step: int,
    k_r: int,
    k_s: int,
    min_pos: P2d,
    max_pos: P2d,
    bb: int,
)
    requires
        in_range(ps, bb),
        in_coord_range(min_pos, bb),
        in_coord_range(max_pos, bb),
        min_pos.0 <= max_pos.0,
        min_pos.1 <= max_pos.1,
    ensures
        in_range(iter_positions(ps, nb, lock, step, k_r, k_s, min_pos, max_pos), bb),
{
    let ps2 = iter_positions(ps, nb, lock, step, k_r, k_s, min_pos, max_pos);
    assert forall|i: int| 0 <= i < ps2.len() implies #[trigger] in_coord_range(ps2[i], bb) by {
        assert(in_coord_range(ps[i], bb));
    }
}

/// Orchestrates the cooling schedule: repeats the accumulate-and-integrate
/// iteration with a linearly shrinking step until the total movement falls
/// below `converge_eps` or `max_iter` iterations have run, and leaves the
/// final placement in the layout's positions.
pub fn layout(
    fd: &mut Layout,
    t0: i64,
    max_iter: usize,
    converge_eps: u128,
    k_r: i64,
    k_s: i64,
    min_pos: &P2d,
    max_pos: &P2d,
)
    requires
        exists|bb: int|
            #[trigger] layout_pre(
                *old(fd),
                t0 as int,
                max_iter as int,
                k_r as int,
                k_s as int,
                *min_pos,
                *max_pos,
                bb,
            ),
    ensures
        final(fd).node_neighbors == old(fd).node_neighbors,
        final(fd).lock_first_n_positions == old(fd).lock_first_n_positions,
        final(fd).node_positions@ == run(
            old(fd).node_positions@,
            old(fd).node_neighbors@,
            old(fd).lock_first_n_positions as int,
            t0 as int,
            max_iter as int,
            converge_eps as int,
            k_r as int,
            k_s as int,
            *min_pos,
            *max_pos,
            0,
        ).0,
{
    let ghost ps0 = fd.node_positions@;
    let ghost nb = fd.node_neighbors@;
    let ghost lock = fd.lock_first_n_positions as int;
    let ghost eps = converge_eps as int;
    let ghost bb = choose|bb: int|
        layout_pre(*fd, t0 as int, max_iter as int, k_r as int, k_s as int, *min_pos, *max_pos, bb);
    let dt: i64 = ((t0 as u64) / (max_iter as u64)) as i64;
    proof {
        lemma_div_pos_is_pos(t0 as int, max_iter as int);
        vstd::arithmetic::div_mod::lemma_fundamental_div_mod(t0 as int, max_iter as int);
        vstd::arithmetic::div_mod::lemma_mod_bound(t0 as int, max_iter as int);
    }
    let mut iter: usize = 0;
    let mut done: bool = false;
    while iter < max_iter && !done
        invariant
            0 <= iter <= max_iter,
            1 <= max_iter <= i64::MAX as int,
            0 <= t0,
            k_r >= 0,
            k_s >= 1,
            dt == t0 as int / max_iter as int,
            min_pos.0 <= max_pos.0,
            min_pos.1 <= max_pos.1,
            1 <= bb <= COORD_LIMIT as int,
            bb + t0 <= i64::MAX as int,
            in_coord_range(*min_pos, bb),
            in_coord_range(*max_pos, bb),
            fd.node_neighbors@ == nb,
            fd.node_neighbors == old(fd).node_neighbors,
            fd.lock_first_n_positions == old(fd).lock_first_n_positions,
            lock == fd.lock_first_n_positions as int,
            eps == converge_eps as int,
            ps0 == old(fd).node_positions@,
            fd.wf(),
            fd.node_positions@.len() == ps0.len(),
            in_range(fd.node_positions@, bb),
            fd.node_positions@.len() * k_r + edge_total(nb, nb.len() as int) * att_cap(
                k_s as int,
                bb,
            ) <= i64::MAX as int,
            run(ps0, nb, lock, t0 as int, max_iter as int, eps, k_r as int, k_s as int, *min_pos, *max_pos, 0) == (if done {
                (fd.node_positions@, iter as int, true)
            } else {
                run(fd.node_positions@, nb, lock, t0 as int, max_iter as int, eps, k_r as int, k_s as int, *min_pos, *max_pos, iter as int)
            }),
        decreases max_iter - iter + (if done { 0int } else { 1int }),
    {
        let ghost cur = fd.node_positions@;
        proof {
            lemma_cool_step_range(t0 as int, max_iter as int, iter as int);
        }
        let step: i64 = t0 - (iter as i64) * dt;
        proof {
            assert(step as int == cool_step(t0 as int, max_iter as int, iter as int));
            assert(engine_pre(*fd, step as int, k_r as int, k_s as int, *min_pos, *max_pos, bb));
        }
        let dist_moved = iterate(fd, step, k_r, k_s, min_pos, max_pos);
        proof {
            lemma_iter_in_range(cur, nb, lock, step as int, k_r as int, k_s as int, *min_pos, *max_pos, bb);
        }
        iter = iter + 1;
        if dist_moved < converge_eps {
            done = true;
        }
    }
}

/// The grid resolution of the unit layout: real coordinates in `[0, 1]`
/// map to grid coordinates in `[0, UNIT]`.
pub const UNIT: i64 = 1_048_576;

/// The default iteration budget of the unit layout.
pub const DEFAULT_MAX_ITER: usize = 300;

/// The default convergence threshold of the unit layout: a total movement
/// of one hundredth of the unit box, in grid units (`UNIT / 100`).
pub const DEFAULT_EPS: u128 = 10_485;

/// The default initial temperature of the unit layout: a tenth of the unit
/// box, in grid units (`UNIT / 10`).
pub const DEFAULT_TEMP: i64 = 104_857;

/// The most adjacency entries the unit layout accepts; keeps the worst-case
/// accumulated attraction within the machine integers.
pub const EDGE_LIMIT: i64 = 524_288;

/// The default ideal edge length of the unit layout when the caller gives
/// none: the square root of `1 / n` in grid units, chosen so that `n`
/// equally spaced nodes roughly fill the unit box.
pub open spec fn default_ideal_len(n: int) -> int {
    sqrt_floor((UNIT * UNIT / n) as nat) as int
}

/// The ideal length the unit layout runs with.
pub open spec fn chosen_ideal_len(l: Option<i64>, n: int) -> int {
    match l {
        Some(v) => v as int,
        None => default_ideal_len(n),
    }
}

/// Lays out positions scaled into the unit box `[0, UNIT]^2` with the
/// default schedule: `max_iter` of 300, convergence threshold of a
/// hundredth of the box, initial temperature of a tenth of the box, and
/// spring constants derived from the ideal edge length `l` (`k_r = l*l`,
/// `k_s = l`), which defaults to `sqrt(1/n)` in grid units.  The first
/// `lock_first_n_positions` nodes are kept as fixed anchors.  Shapes are
/// validated on entry; on an error the positions are left untouched.
pub fn layout_typical_2d(
    l: Option<i64>,
    node_positions: &mut Vec<P2d>,
    node_neighbors: Vec<Vec<usize>>,
    lock_first_n_positions: usize,
) -> (r: Result<(), ShapeError>)
    requires
        in_range(old(node_positions)@, UNIT as int),
        edge_total(node_neighbors@, node_neighbors@.len() as int) <= EDGE_LIMIT as int,
        old(node_positions)@.len() <= UNIT as int * UNIT as int,
        l matches Some(v) ==> 1 <= v <= UNIT && old(node_positions)@.len() * ((v as int) * (
        v as int)) + edge_total(node_neighbors@, node_neighbors@.len() as int) * att_cap(
            v as int,
            UNIT as int,
        ) <= i64::MAX as int,
    ensures
        r is Ok <==> node_neighbors@.len() == old(node_positions)@.len() && valid_neighbors(
            node_neighbors@,
            old(node_positions)@.len() as int,
        ),
        node_neighbors@.len() != old(node_positions)@.len() ==> r == Result::<
            (),
            ShapeError,
        >::Err(ShapeError::LengthMismatch),
        node_neighbors@.len() == old(node_positions)@.len() && !valid_neighbors(
            node_neighbors@,
            old(node_positions)@.len() as int,
        ) ==> r == Result::<(), ShapeError>::Err(ShapeError::NeighborOutOfRange),
        r is Err ==> final(node_positions)@ == old(node_positions)@,
        r is Ok && old(node_positions)@.len() == 0 ==> final(node_positions)@ == old(
            node_positions,
        )@,
        r is Ok && old(node_positions)@.len() > 0 ==> final(node_positions)@ == run(
            old(node_positions)@,
            node_neighbors@,
            lock_first_n_positions as int,
            DEFAULT_TEMP as int,
            DEFAULT_MAX_ITER as int,
            DEFAULT_EPS as int,
            chosen_ideal_len(l, old(node_positions)@.len() as int) * chosen_ideal_len(
                l,
                old(node_positions)@.len() as int,
            ),
            chosen_ideal_len(l, old(node_positions)@.len() as int),
            P2d(0, 0),
            P2d(UNIT, UNIT),
            0,
        ).0,
{
    let n = node_positions.len();
    let mut ps_copy: Vec<P2d> = Vec::new();
    let mut i: usize = 0;
    while i < n
        invariant
            i <= n,
            n == node_positions@.len(),
            node_positions@ == old(node_positions)@,
            ps_copy@.len() == i,
            forall|j: int| 0 <= j < i ==> ps_copy@[j] == node_positions@[j],
        decreases n - i,
    {
        ps_copy.push(node_positions[i]);
        i = i + 1;
    }
    proof {
        assert(ps_copy@ =~= old(node_positions)@);
    }
    let mut lay = match Layout::new(ps_copy, node_neighbors) {
        Ok(lay) => lay,
        Err(e) => {
            return Err(e);
        },
    };
    if n == 0 {
        return Ok(());
    }
    // `l`: ideal length of spring
    let l_val: i64 = match l {
        Some(v) => v,
        None => {
            let target: u64 = ((UNIT as u64) * (UNIT as u64)) / (n as u64);
            let s = int_sqrt(target as u128);
            proof {
                vstd::arithmetic::div_mod::lemma_div_non_zero(
                    UNIT as int * UNIT as int,
                    n as int,
                );
                assert(s <= 0x100000u64 && s >= 1) by (nonlinear_arith)
                    requires
                        s * s <= target,
                        target < (s + 1) * (s + 1),
                        target <= 0x10000000000u64,
                        target >= 1,
                        s >= 0,
                ;
            }
            s as i64
        },
    };
    proof {
        assert(l_val * l_val <= 0x100_0000_0000i64) by (nonlinear_arith)
            requires
                1 <= l_val <= 0x10_0000i64,
        ;
    }
    let ghost li = l_val as int;
    let ghost nb = lay.node_neighbors@;
    let ghost etot = edge_total(nb, nb.len() as int);
    proof {
        lemma_edge_total_mono(nb, 0, nb.len() as int);
        if l is None {
            vstd::arithmetic::div_mod::lemma_fundamental_div_mod(
                UNIT as int * UNIT as int,
                n as int,
            );
            vstd::arithmetic::div_mod::lemma_mod_bound(UNIT as int * UNIT as int, n as int);
            assert(n * (li * li) <= UNIT as int * UNIT as int) by (nonlinear_arith)
                requires
                    li * li <= (UNIT as int * UNIT as int) / (n as int),
                    n as int * ((UNIT as int * UNIT as int) / (n as int)) <= UNIT as int
                        * UNIT as int,
                    n >= 1,
                    li >= 0,
            ;
            vstd::arithmetic::div_mod::lemma_div_is_ordered_by_denominator(
                8 * (UNIT as int) * (UNIT as int),
                1,
                li,
            );
            assert(att_cap(li, UNIT as int) <= 8 * (UNIT as int) * (UNIT as int));
            assert(etot * att_cap(li, UNIT as int) <= EDGE_LIMIT as int * (8 * (UNIT as int) * (
            UNIT as int))) by (nonlinear_arith)
                requires
                    0 <= etot <= EDGE_LIMIT as int,
                    0 <= att_cap(li, UNIT as int) <= 8 * (UNIT as int) * (UNIT as int),
            ;
        }
    }
    let k_r = l_val * l_val;
    let k_s = l_val;
    lay.lock_first_n_positions(lock_first_n_positions);
    let min_pos = P2d(0, 0);
    let max_pos = P2d(UNIT, UNIT);
    proof {
        assert(layout_pre(
            lay,
            DEFAULT_TEMP as int,
            DEFAULT_MAX_ITER as int,
            li * li,
            li,
            P2d(0, 0),
            P2d(UNIT, UNIT),
            UNIT as int,
        ));
    }
    layout(
        &mut lay,
        DEFAULT_TEMP,
        DEFAULT_MAX_ITER,
        DEFAULT_EPS,
        k_r,
        k_s,
        &min_pos,
        &max_pos,
    );
    *node_positions = lay.node_positions;
    Ok(())
}

/// The repulsion accumulated on node `m` from the first `rows` nodes, read
/// down a column of the pair grid.
pub open spec fn rep_col(ps: Seq<P2d>, k_r: int, m: int, rows: int) -> (int, int)
    decreases rows,
{
    if rows <= 0 {
        (0, 0)
    } else {
        let prev = rep_col(ps, k_r, m, rows - 1);
        let t = repulse(ps[rows - 1], ps[m], k_r);
        (prev.0 + t.0, prev.1 + t.1)
    }
}

/// The total repulsion over the first `rows` accumulators, each summed over
/// the first `cols` nodes.
pub open spec fn rep_grid(ps: Seq<P2d>, k_r: int, rows: int, cols: int) -> (int, int)
    decreases rows,
{
    if rows <= 0 {
        (0, 0)
    } else {
        let prev = rep_grid(ps, k_r, rows - 1, cols);
        let row = rep_sum(ps, rows - 1, k_r, cols);
        (prev.0 + row.0, prev.1 + row.1)
    }
}

/// Widening every row sum by one more column adds exactly that column.
proof fn lemma_rep_grid_extend(ps: Seq<P2d>, k_r: int, rows: int, m: int)
    requires
        0 <= rows <= m,
    ensures
        rep_grid(ps, k_r, rows, m + 1).0 == rep_grid(ps, k_r, rows, m).0 + rep_col(
            ps,
            k_r,
            m,
            rows,
        ).0,
        rep_grid(ps, k_r, rows, m + 1).1 == rep_grid(ps, k_r, rows, m).1 + rep_col(
            ps,
            k_r,
            m,
            rows,
        ).1,
    decreases rows,
{
    if rows > 0 {
        lemma_rep_grid_extend(ps, k_r, rows - 1, m);
    }
}

/// A column of the pair grid is the exact negative of the matching row:
/// Newton's third law, summed.
proof fn lemma_rep_col_antisym(ps: Seq<P2d>, k_r: int, m: int, rows: int)
    requires
        0 <= rows <= m,
    ensures
        rep_col(ps, k_r, m, rows).0 == -rep_sum(ps, m, k_r, rows).0,
        rep_col(ps, k_r, m, rows).1 == -rep_sum(ps, m, k_r, rows).1,
    decreases rows,
{
    if rows > 0 {
        lemma_rep_col_antisym(ps, k_r, m, rows - 1);
        lemma_repulse_antisym(ps[rows - 1], ps[m], k_r);
    }
}

proof fn lemma_rep_grid_zero(ps: Seq<P2d>, k_r: int, m: int)
    requires
        0 <= m,
    ensures
        rep_grid(ps, k_r, m, m).0 == 0,
        rep_grid(ps, k_r, m, m).1 == 0,
    decreases m,
{
    if m > 0 {
        lemma_rep_grid_zero(ps, k_r, m - 1);
        lemma_rep_grid_extend(ps, k_r, m - 1, m - 1);
        lemma_rep_col_antisym(ps, k_r, m - 1, m - 1);
    }
}

/// Momentum conservation: for any positions and any repulsion constant,
/// the vector sum over all nodes of the accumulated pairwise repulsion
/// (which is what one repulsion-only accumulation pass leaves in the force
/// accumulators, starting from zero, with no node locked) is the zero
/// vector: every pair contributes one force and its exact negation.
pub proof fn law_momentum_conservation(ps: Seq<P2d>, k_r: int)
    ensures
        rep_grid(ps, k_r, ps.len() as int, ps.len() as int).0 == 0,
        rep_grid(ps, k_r, ps.len() as int, ps.len() as int).1 == 0,
{
    lemma_rep_grid_zero(ps, k_r, ps.len() as int);
}

/// Degenerate repulsion: two nodes at identical positions repel with the
/// exact zero vector, never a division by zero.
pub proof fn law_degenerate_repulsion(p: P2d, q: P2d, k_r: int)
    requires
        p == q,
    ensures
        repulse(p, q, k_r).0 == 0,
        repulse(p, q, k_r).1 == 0,
{
    lemma_dist2_parts(p, q);
    assert((p.0 - q.0) * (p.0 - q.0) == 0 && (p.1 - q.1) * (p.1 - q.1) == 0) by (nonlinear_arith)
        requires
            p.0 == q.0,
            p.1 == q.1,
    ;
}

/// One point lies within the box `[min_pos, max_pos]`, componentwise.
pub open spec fn in_box_coord(p: P2d, min_pos: P2d, max_pos: P2d) -> bool {
    min_pos.0 <= p.0 <= max_pos.0 && min_pos.1 <= p.1 <= max_pos.1
}

/// Every position of `ps` lies within the box `[min_pos, max_pos]`.
pub open spec fn in_box(ps: Seq<P2d>, min_pos: P2d, max_pos: P2d) -> bool {
    forall|i: int| 0 <= i < ps.len() ==> #[trigger] in_box_coord(ps[i], min_pos, max_pos)
}

proof fn lemma_iter_in_box(
    ps: Seq<P2d>,
    nb: Seq<Vec<usize>>,
    lock: int,
    step: int,
    k_r: int,
    k_s: int,
    min_pos: P2d,
    max_pos: P2d,
)
    requires
        min_pos.0 <= max_pos.0,
        min_pos.1 <= max_pos.1,
        in_box(ps, min_pos, max_pos),
    ensures
        in_box(iter_positions(ps, nb, lock, step, k_r, k_s, min_pos, max_pos), min_pos, max_pos),
{
    let ps2 = iter_positions(ps, nb, lock, step, k_r, k_s, min_pos, max_pos);
    assert forall|i: int| 0 <= i < ps2.len() implies #[trigger] in_box_coord(
        ps2[i],
        min_pos,
        max_pos,
    ) by {
        assert(in_box_coord(ps[i], min_pos, max_pos));
    }
}

/// The first half of the shape invariant, with no hypotheses at all: a
/// run never adds or removes a node, whatever the parameters.
pub proof fn law_run_preserves_len(
    ps: Seq<P2d>,
    nb: Seq<Vec<usize>>,
    lock: int,
    t0: int,
    max_iter: int,
    eps: int,
    k_r: int,
    k_s: int,
    min_pos: P2d,
    max_pos: P2d,
    it: int,
)
    ensures
        run(ps, nb, lock, t0, max_iter, eps, k_r, k_s, min_pos, max_pos, it).0.len() == ps.len(),
    decreases max_iter - it,
{
    if it < max_iter {
        let step = cool_step(t0, max_iter, it);
        let ps2 = iter_positions(ps, nb, lock, step, k_r, k_s, min_pos, max_pos);
        let mv = step * active_count(ps, nb, k_r, k_s, lock, ps.len() as int);
        if !(mv < eps) {
            law_run_preserves_len(
                ps2, nb, lock, t0, max_iter, eps, k_r, k_s, min_pos, max_pos, it + 1,
            );
        }
    }
}

/// Shape invariant: a run never adds or removes a node, and when every
/// node starts inside the bounding box, every coordinate stays inside it
/// after any number of iterations (locked nodes never move; unlocked ones
/// are clamped back into the box every iteration).
pub proof fn law_shape_invariant(
    ps: Seq<P2d>,
    nb: Seq<Vec<usize>>,
    lock: int,
    t0: int,
    max_iter: int,
    eps: int,
    k_r: int,
    k_s: int,
    min_pos: P2d,
    max_pos: P2d,
    it: int,
)
    requires
        min_pos.0 <= max_pos.0,
        min_pos.1 <= max_pos.1,
        in_box(ps, min_pos, max_pos),
    ensures
        run(ps, nb, lock, t0, max_iter, eps, k_r, k_s, min_pos, max_pos, it).0.len() == ps.len(),
        in_box(run(ps, nb, lock, t0, max_iter, eps, k_r, k_s, min_pos, max_pos, it).0, min_pos, max_pos),
    decreases max_iter - it,
{
    if it < max_iter {
        let step = cool_step(t0, max_iter, it);
        let ps2 = iter_positions(ps, nb, lock, step, k_r, k_s, min_pos, max_pos);
        lemma_iter_in_box(ps, nb, lock, step, k_r, k_s, min_pos, max_pos);
        let mv = step * active_count(ps, nb, k_r, k_s, lock, ps.len() as int);
        if !(mv < eps) {
            law_shape_invariant(
                ps2, nb, lock, t0, max_iter, eps, k_r, k_s, min_pos, max_pos, it + 1,
            );
        }
    }
}

/// No-op stability: a single node with no edges accumulates no force at
/// all, so the very first iteration moves nothing, and for any positive
/// threshold the run stops right there, converged after one iteration.
pub proof fn law_single_node_converges(
    ps: Seq<P2d>,
    nb: Seq<Vec<usize>>,
    lock: int,
    t0: int,
    max_iter: int,
    eps: int,
    k_r: int,
    k_s: int,
    min_pos: P2d,
    max_pos: P2d,
)
    requires
        ps.len() == 1,
        nb.len() == 1,
        nb[0]@.len() == 0,
        0 <= lock,
        0 <= t0,
        1 <= max_iter,
        eps > 0,
    ensures
        active_count(ps, nb, k_r, k_s, lock, ps.len() as int) == 0,
        run(ps, nb, lock, t0, max_iter, eps, k_r, k_s, min_pos, max_pos, 0).1 == 1,
        run(ps, nb, lock, t0, max_iter, eps, k_r, k_s, min_pos, max_pos, 0).2 == true,
{
    let step = cool_step(t0, max_iter, 0);
    assert(rep_sum(ps, 0, k_r, 1).0 == rep_sum(ps, 0, k_r, 0).0);
    assert(att_row(ps, nb, k_s, 0, 0, 0).0 == 0 && att_row(ps, nb, k_s, 0, 0, 0).1 == 0);
    assert(nb[0]@.len() as int == 0);
    assert(att_rows(ps, nb, k_s, 0, 1).0 == att_rows(ps, nb, k_s, 0, 0).0 + att_row(
        ps,
        nb,
        k_s,
        0,
        0,
        nb[0]@.len() as int,
    ).0);
    assert(att_rows(ps, nb, k_s, 0, 1).1 == att_rows(ps, nb, k_s, 0, 0).1 + att_row(
        ps,
        nb,
        k_s,
        0,
        0,
        nb[0]@.len() as int,
    ).1);
    assert(net_force(ps, nb, k_r, k_s, 0).0 == 0 && net_force(ps, nb, k_r, k_s, 0).1 == 0);
    assert(active_count(ps, nb, k_r, k_s, lock, 0) == 0);
    assert(active_count(ps, nb, k_r, k_s, lock, 1) == 0);
    assert(step * 0 == 0) by (nonlinear_arith);
}

/// Anchoring: when every node is locked, any number of iterations leaves
/// the position sequence exactly as it was handed in.
pub proof fn law_anchoring(
    ps: Seq<P2d>,
    nb: Seq<Vec<usize>>,
    lock: int,
    t0: int,
    max_iter: int,
    eps: int,
    k_r: int,
    k_s: int,
    min_pos: P2d,
    max_pos: P2d,
    it: int,
)
    requires
        lock >= ps.len(),
    ensures
        run(ps, nb, lock, t0, max_iter, eps, k_r, k_s, min_pos, max_pos, it).0 == ps,
    decreases max_iter - it,
{
    if it < max_iter {
        let step = cool_step(t0, max_iter, it);
        let ps2 = iter_positions(ps, nb, lock, step, k_r, k_s, min_pos, max_pos);
        assert(ps2 =~= ps);
        let mv = step * active_count(ps, nb, k_r, k_s, lock, ps.len() as int);
        if !(mv < eps) {
            law_anchoring(ps, nb, lock, t0, max_iter, eps, k_r, k_s, min_pos, max_pos, it + 1);
        }
    }
}

/// Determinism: the whole run is a mathematical function of the initial
/// positions, the adjacency and the parameters — `layout` promises its
/// final positions equal `run(...)`, so two runs over equal inputs end
/// bit-identical, with no hidden randomness anywhere in the engine.
pub proof fn law_determinism(
    ps1: Seq<P2d>,
    nb1: Seq<Vec<usize>>,
    ps2: Seq<P2d>,
    nb2: Seq<Vec<usize>>,
    lock: int,
    t0: int,
    max_iter: int,
    eps: int,
    k_r: int,
    k_s: int,
    min_pos: P2d,
    max_pos: P2d,
)
    requires
        ps1 == ps2,
        nb1 == nb2,
    ensures
        run(ps1, nb1, lock, t0, max_iter, eps, k_r, k_s, min_pos, max_pos, 0) == run(
            ps2,
            nb2,
            lock,
            t0,
            max_iter,
            eps,
            k_r,
            k_s,
            min_pos,
            max_pos,
            0,
        ),
{
}

/// A stored accumulator sequence that equals the net forces moves exactly
/// the nodes whose net force is non-zero.
pub proof fn lemma_moved_is_active(
    fs: Seq<P2d>,
    ps: Seq<P2d>,
    nb: Seq<Vec<usize>>,
    k_r: int,
    k_s: int,
    lock: int,
    m: int,
)
    requires
        0 <= lock,
        forall|k: int|
            #![trigger fs[k]]
            0 <= k < m ==> fs[k].0 == net_force(ps, nb, k_r, k_s, k).0 && fs[k].1 == net_force(
                ps,
                nb,
                k_r,
                k_s,
                k,
            ).1,
    ensures
        moved_count(fs, lock, m) == active_count(ps, nb, k_r, k_s, lock, m),
    decreases m - lock,
{
    if m > lock {
        lemma_moved_is_active(fs, ps, nb, k_r, k_s, lock, m - 1);
        if 0 <= m - 1 < m {
            let f = fs[m - 1];
            let nf = net_force(ps, nb, k_r, k_s, m - 1);
            assert(f.0 == nf.0 && f.1 == nf.1);
            assert(f.0 * f.0 >= 0 && f.1 * f.1 >= 0 && (f.0 * f.0 == 0 ==> f.0 == 0) && (f.1 * f.1
                == 0 ==> f.1 == 0)) by (nonlinear_arith);
            assert((flen2(f) != 0) == (nf.0 != 0 || nf.1 != 0));
        }
    }
}

} // verus!

