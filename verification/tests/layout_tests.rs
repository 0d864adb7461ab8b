use graph_layout::fruchterman_reingold::{
    attractive_force, layout, layout_typical_2d, repulsive_force, Layout, ShapeError, DEFAULT_EPS,
    DEFAULT_MAX_ITER, DEFAULT_TEMP, UNIT,
};
use graph_layout::fruchterman_reingold::ForceDirected;
use graph_layout::vector::{int_sqrt, mul_div};
use graph_layout::{P2d, Vector};

fn unit_box() -> (P2d, P2d) {
    (P2d(0, 0), P2d(UNIT, UNIT))
}

fn grid_distance(a: P2d, b: P2d) -> f64 {
    let dx = (a.0 - b.0) as f64;
    let dy = (a.1 - b.1) as f64;
    (dx * dx + dy * dy).sqrt()
}

#[test]
fn int_sqrt_exact_values() {
    assert_eq!(int_sqrt(0), 0);
    assert_eq!(int_sqrt(1), 1);
    assert_eq!(int_sqrt(8), 2);
    assert_eq!(int_sqrt(9), 3);
    assert_eq!(int_sqrt(1_048_576 * 1_048_576), 1_048_576);
    assert_eq!(int_sqrt(u64::MAX as u128), 0xffff_ffff);
}

#[test]
fn mul_div_truncates_toward_zero() {
    assert_eq!(mul_div(7, 3, 2), 10);
    assert_eq!(mul_div(-7, 3, 2), -10);
    assert_eq!(mul_div(7, -3, 2), -10);
    assert_eq!(mul_div(-7, -3, 2), 10);
    assert_eq!(mul_div(0, 5, 9), 0);
}

#[test]
fn p2d_arithmetic() {
    let a = P2d(30, 40);
    let b = P2d(10, -2);
    assert_eq!(a.length_squared(), 2500);
    assert_eq!(a.sub(&b), P2d(20, 42));
    assert_eq!(a.scale(3, 2), P2d(45, 60));
    let mut c = P2d(1, 1);
    c.add_scaled(5, 2, &a);
    assert_eq!(c, P2d(76, 101));
    c.reset();
    assert_eq!(c, P2d(0, 0));
    assert_eq!(P2d::new(), P2d(0, 0));
}

#[test]
fn clip_within_clamps_componentwise() {
    let min = P2d(0, 0);
    let max = P2d(10, 10);
    assert_eq!(P2d(-5, 3).clip_within(&min, &max), P2d(0, 3));
    assert_eq!(P2d(11, -1).clip_within(&min, &max), P2d(10, 0));
    assert_eq!(P2d(4, 7).clip_within(&min, &max), P2d(4, 7));
}

#[test]
fn repulsive_force_exact_value() {
    // direction (10, 0), squared distance 100, strength 50 / 100.
    let f = repulsive_force(&P2d(10, 0), &P2d(0, 0), 50);
    assert_eq!(f, P2d(5, 0));
}

#[test]
fn degenerate_repulsion_is_zero() {
    // Two nodes at identical positions: zero vector, no division by zero.
    let p = P2d(123_456, 789_012);
    let f = repulsive_force(&p, &p.clone(), 1_000_000);
    assert_eq!(f, P2d(0, 0));
}

#[test]
fn attractive_force_exact_value() {
    // direction (30, 40), length 50, strength 50 / 10.
    let f = attractive_force(&P2d(30, 40), &P2d(0, 0), 10);
    assert_eq!(f, P2d(150, 200));
}

#[test]
fn layout_new_rejects_length_mismatch() {
    let positions = vec![P2d(0, 0), P2d(1, 1)];
    let neighbors = vec![vec![1usize]];
    assert_eq!(
        Layout::new(positions, neighbors).err(),
        Some(ShapeError::LengthMismatch)
    );
}

#[test]
fn layout_new_rejects_bad_neighbor_index() {
    let positions = vec![P2d(0, 0), P2d(1, 1)];
    let neighbors = vec![vec![1usize], vec![5usize]];
    assert_eq!(
        Layout::new(positions, neighbors).err(),
        Some(ShapeError::NeighborOutOfRange)
    );
}

#[test]
fn layout_new_zeroes_forces() {
    let positions = vec![P2d(3, 4), P2d(5, 6)];
    let neighbors = vec![vec![1usize], vec![]];
    let lay = Layout::new(positions, neighbors).unwrap();
    assert_eq!(lay.forces, vec![P2d(0, 0), P2d(0, 0)]);
    assert_eq!(lay.lock_first_n_positions, 0);
    assert_eq!(lay.node_positions, vec![P2d(3, 4), P2d(5, 6)]);
}

#[test]
fn momentum_conservation_after_repulsion_pass() {
    // With no node locked, one repulsion-only accumulation pass sums to the
    // zero vector over all accumulators.
    let positions = vec![
        P2d(1, 2),
        P2d(300_000, 70_000),
        P2d(300_000, 70_000),
        P2d(999_999, 2),
        P2d(17, 948_213),
    ];
    let neighbors = vec![vec![], vec![], vec![], vec![], vec![]];
    let mut lay = Layout::new(positions, neighbors).unwrap();
    lay.reset_forces();
    lay.update_force_each_node_pair(347_921);
    let sum = lay
        .forces
        .iter()
        .fold((0i128, 0i128), |acc, f| (acc.0 + f.0 as i128, acc.1 + f.1 as i128));
    assert_eq!(sum, (0, 0));
}

#[test]
fn attraction_pass_is_symmetric_for_directed_edge() {
    // A single directed edge pulls both endpoints toward each other with
    // exactly opposite forces.
    let positions = vec![P2d(0, 0), P2d(1000, 0)];
    let neighbors = vec![vec![1usize], vec![]];
    let mut lay = Layout::new(positions, neighbors).unwrap();
    lay.reset_forces();
    lay.update_force_each_edge(100);
    // attraction on node 0: toward node 1, magnitude 1000 * 1000 / 100.
    assert_eq!(lay.forces[0], P2d(10_000, 0));
    assert_eq!(lay.forces[1], P2d(-10_000, 0));
}

#[test]
fn single_node_is_stable() {
    // One node, no edges: no force ever accumulates, the first iteration
    // moves nothing and the run converges immediately.
    let mut positions = vec![P2d(524_288, 524_288)];
    let neighbors = vec![vec![]];
    let before = positions.clone();
    layout_typical_2d(None, &mut positions, neighbors, 0).unwrap();
    assert_eq!(positions, before);
}

#[test]
fn shape_and_bounds_preserved() {
    // The node count never changes and every coordinate ends inside the box.
    let mut positions = vec![
        P2d(100, 100),
        P2d(900_000, 100),
        P2d(100, 900_000),
        P2d(900_000, 900_000),
        P2d(524_288, 524_288),
    ];
    let neighbors = vec![vec![1usize], vec![2], vec![3], vec![4], vec![0]];
    layout_typical_2d(None, &mut positions, neighbors, 0).unwrap();
    assert_eq!(positions.len(), 5);
    for p in &positions {
        assert!(0 <= p.0 && p.0 <= UNIT);
        assert!(0 <= p.1 && p.1 <= UNIT);
    }
}

#[test]
fn anchoring_locks_all_positions() {
    // With every node locked the positions are bit-identical afterwards.
    let mut positions = vec![P2d(11, 22), P2d(333_333, 444_444), P2d(7, 999_999)];
    let neighbors = vec![vec![1usize], vec![2], vec![0]];
    let before = positions.clone();
    layout_typical_2d(None, &mut positions, neighbors, 3).unwrap();
    assert_eq!(positions, before);
}

#[test]
fn determinism_two_runs_bit_identical() {
    let start = vec![P2d(123, 456), P2d(700_000, 80_000), P2d(300_000, 900_000)];
    let neighbors = vec![vec![1usize], vec![2], vec![]];
    let mut first = start.clone();
    let mut second = start.clone();
    layout_typical_2d(None, &mut first, neighbors.clone(), 0).unwrap();
    layout_typical_2d(None, &mut second, neighbors, 0).unwrap();
    assert_eq!(first, second);
}

#[test]
fn triangle_relaxes_toward_equilateral() {
    // 3 nodes in a directed 3-cycle, default ideal length sqrt(1/3) of the
    // box: at termination the three pairwise distances are each within 20%
    // of the ideal length.
    let mut positions = vec![P2d(200_000, 150_000), P2d(800_000, 250_000), P2d(450_000, 800_000)];
    let neighbors = vec![vec![1usize], vec![2], vec![0]];
    layout_typical_2d(None, &mut positions, neighbors, 0).unwrap();
    let l = ((UNIT as f64) * (UNIT as f64) / 3.0).sqrt();
    for (i, j) in [(0usize, 1usize), (1, 2), (2, 0)] {
        let d = grid_distance(positions[i], positions[j]);
        assert!(
            d >= 0.8 * l && d <= 1.2 * l,
            "side {}-{} is {} but the ideal length is {}",
            i,
            j,
            d,
            l
        );
    }
}

#[test]
fn adjacent_pair_separates_by_exactly_one_step() {
    // Two nodes a hair apart, no edges: the first iteration moves each by
    // exactly the step size, not by the (huge) raw repulsion.
    let x = 524_288;
    let y = 524_288;
    let gap = 105;
    let positions = vec![P2d(x, y), P2d(x + gap, y)];
    let neighbors = vec![vec![], vec![]];
    let mut lay = Layout::new(positions, neighbors).unwrap();
    let l = int_sqrt((UNIT as u128) * (UNIT as u128) / 2) as i64;
    let (min_pos, max_pos) = unit_box();
    layout(&mut lay, DEFAULT_TEMP, 1, 0, l * l, l, &min_pos, &max_pos);
    let step = DEFAULT_TEMP;
    assert_eq!(lay.node_positions[0], P2d(x - step, y));
    assert_eq!(lay.node_positions[1], P2d(x + gap + step, y));
}

#[test]
fn locked_boundary_node_stays_fixed() {
    // 4 nodes in a cycle, node 0 locked at the origin: it never moves, the
    // other three relax around it inside the box.
    let mut positions = vec![P2d(0, 0), P2d(400_000, 100_000), P2d(600_000, 500_000), P2d(100_000, 700_000)];
    let neighbors = vec![vec![1usize], vec![2], vec![3], vec![0]];
    layout_typical_2d(None, &mut positions, neighbors, 1).unwrap();
    assert_eq!(positions[0], P2d(0, 0));
    for p in &positions {
        assert!(0 <= p.0 && p.0 <= UNIT);
        assert!(0 <= p.1 && p.1 <= UNIT);
    }
}

#[test]
fn typical_layout_rejects_bad_shapes_untouched() {
    let mut positions = vec![P2d(1, 2), P2d(3, 4)];
    let before = positions.clone();
    let r = layout_typical_2d(None, &mut positions, vec![vec![0usize]], 0);
    assert_eq!(r.err(), Some(ShapeError::LengthMismatch));
    assert_eq!(positions, before);
    let r = layout_typical_2d(None, &mut positions, vec![vec![0usize], vec![9]], 0);
    assert_eq!(r.err(), Some(ShapeError::NeighborOutOfRange));
    assert_eq!(positions, before);
}

#[test]
fn explicit_ideal_length_is_accepted() {
    let mut positions = vec![P2d(100_000, 200_000), P2d(800_000, 700_000)];
    let neighbors = vec![vec![1usize], vec![]];
    layout_typical_2d(Some(200_000), &mut positions, neighbors, 0).unwrap();
    for p in &positions {
        assert!(0 <= p.0 && p.0 <= UNIT);
        assert!(0 <= p.1 && p.1 <= UNIT);
    }
}

#[test]
fn empty_graph_is_ok() {
    let mut positions: Vec<P2d> = vec![];
    let neighbors: Vec<Vec<usize>> = vec![];
    layout_typical_2d(None, &mut positions, neighbors, 0).unwrap();
    assert!(positions.is_empty());
}

#[test]
fn vector_trait_matches_inherent_operations() {
    let zero: P2d = <P2d as Vector>::new();
    assert_eq!(zero, P2d(0, 0));
    let a = P2d(30, 40);
    let b = P2d(10, -2);
    assert_eq!(Vector::length_squared(&a), 2500);
    assert_eq!(Vector::sub(&a, &b), P2d(20, 42));
    assert_eq!(Vector::scale(&a, 3, 2), P2d(45, 60));
    let mut c = P2d(1, 1);
    Vector::add_scaled(&mut c, 5, 2, &a);
    assert_eq!(c, P2d(76, 101));
    Vector::reset(&mut c);
    assert_eq!(c, P2d(0, 0));
    assert_eq!(
        Vector::clip_within(&P2d(-5, 12), &P2d(0, 0), &P2d(10, 10)),
        P2d(0, 10)
    );
}

#[test]
fn force_directed_trait_drives_a_repulsion_pass() {
    let positions = vec![P2d(0, 0), P2d(10, 0)];
    let neighbors = vec![vec![], vec![]];
    let mut lay = Layout::new(positions, neighbors).unwrap();
    ForceDirected::reset_forces(&mut lay);
    ForceDirected::update_force_each_node_pair(&mut lay, 50);
    assert_eq!(lay.forces[0], P2d(-5, 0));
    assert_eq!(lay.forces[1], P2d(5, 0));
}

#[test]
fn defaults_match_the_documented_schedule() {
    assert_eq!(DEFAULT_MAX_ITER, 300);
    assert_eq!(UNIT, 1 << 20);
    assert_eq!(DEFAULT_TEMP, UNIT / 10);
    assert_eq!(DEFAULT_EPS, (UNIT / 100) as u128);
}
