use plantgen::branch::Branch;
use plantgen::branch::Radius;
use plantgen::context::GrowthError;
use plantgen::context::Plant;
use plantgen::context::VertexSource;
use plantgen::context::BARK;
use plantgen::context::LEAF;
use plantgen::genome::ConfigError;
use plantgen::genome::RealFields;
use plantgen::genome::Shape;

fn scenario_a_shape() -> Shape {
    Shape {
        seed: Some(1),
        max_splits: 0,
        branches_min: 1,
        branches_max: 1,
        radial_segments: 6,
        segments_per_branch: 1,
        leaf_start: 999,
        leaf_chance: 0,
        branch_decay: 0,
        branch_sway: 0,
    }
}

fn reals(starting_radius: f32, branch_length: f32, radius_sustain: f32, leaf_density: f32) -> RealFields {
    RealFields {
        starting_radius: starting_radius.to_bits(),
        branch_length: branch_length.to_bits(),
        radius_sustain: radius_sustain.to_bits(),
        leaf_density: leaf_density.to_bits(),
    }
}

fn scenario_a_reals() -> RealFields {
    reals(1.0, 2.0, 0.8, 0.0)
}

fn bushy_shape(seed: u64) -> Shape {
    Shape {
        seed: Some(seed),
        max_splits: 3,
        branches_min: 2,
        branches_max: 4,
        radial_segments: 8,
        segments_per_branch: 3,
        leaf_start: 1,
        leaf_chance: 4 * 4294967296,
        branch_decay: 1,
        branch_sway: 600_000_000,
    }
}

fn check_consistent(p: &Plant) {
    assert_eq!(p.vertices.len(), p.material.len());
    assert_eq!(p.indices.len() % 3, 0);
    for &i in &p.indices {
        assert!((i as usize) < p.vertices.len());
    }
    for (v, source) in p.vertices.iter().enumerate() {
        match *source {
            VertexSource::Ring { ring, slot } => {
                assert!(slot < p.rings[ring].len);
                assert_eq!(p.material[v], BARK);
            }
            VertexSource::Leaf { leaf, corner } => {
                assert!(leaf < p.leaves.len());
                assert!(corner < 4);
                assert_eq!(p.material[v], LEAF);
            }
        }
    }
    for ring in &p.rings {
        assert!(ring.branch < p.branches.len());
    }
}

#[test]
fn scenario_a_single_branch() {
    let p = scenario_a_shape().generate_mesh(&scenario_a_reals()).unwrap();
    assert_eq!(p.branches.len(), 1);
    assert_eq!(p.leaves.len(), 0);
    assert_eq!(p.vertices.len(), 12);
    assert_eq!(p.indices.len(), 36);
    assert!(p.material.iter().all(|&m| m == BARK));
    check_consistent(&p);
}

#[test]
fn scenario_b_leaves_appear() {
    let mut shape = scenario_a_shape();
    shape.leaf_start = 0;
    shape.leaf_chance = u64::MAX;
    let p = shape.generate_mesh(&reals(1.0, 2.0, 0.8, 1.0e9)).unwrap();
    assert!(p.leaves.len() >= 1);
    assert!(p.material.iter().any(|&m| m == LEAF));
    // Every slot of the one grown ring carries a leaf.
    assert_eq!(p.leaves.len(), 6);
    assert_eq!(p.vertices.len(), 12 + 6 * 4);
    assert_eq!(p.indices.len(), 36 + 6 * 6);
    check_consistent(&p);
}

#[test]
fn scenario_c_grandchildren_halved() {
    let mut shape = scenario_a_shape();
    shape.max_splits = 2;
    shape.branches_min = 2;
    shape.branches_max = 2;
    let p = shape.generate_mesh(&scenario_a_reals()).unwrap();
    assert_eq!(p.branches.len(), 1 + 2 + 4);
    for b in &p.branches {
        match b.split {
            0 | 1 => assert_eq!(b.radial_segments, 6),
            _ => {
                assert_eq!(b.radial_segments, 3);
                assert_eq!(b.start_loop.len(), 6);
            }
        }
    }
    // Trunk: base ring and one ring, a quad strip. Depth 1: two rings, two
    // strips. Depth 2: four half rings, each joined with fans.
    assert_eq!(p.vertices.len(), 12 + 2 * 6 + 4 * 3);
    assert_eq!(p.indices.len(), 36 + 2 * 36 + 4 * 27);
    check_consistent(&p);
}

#[test]
fn seeded_growth_is_deterministic() {
    let shape = bushy_shape(7);
    let r = reals(0.5, 1.5, 0.7, 4.0);
    let a = shape.generate_mesh(&r).unwrap();
    let b = shape.generate_mesh(&r).unwrap();
    assert_eq!(a.vertices, b.vertices);
    assert_eq!(a.material, b.material);
    assert_eq!(a.indices, b.indices);
    assert_eq!(a.rings, b.rings);
    assert_eq!(a.leaves, b.leaves);
    assert_eq!(a.branches.len(), b.branches.len());
    for (x, y) in a.branches.iter().zip(b.branches.iter()) {
        assert_eq!(x.split, y.split);
        assert_eq!(x.yaw, y.yaw);
        assert_eq!(x.bend_word, y.bend_word);
        assert_eq!(x.twist_word, y.twist_word);
        assert_eq!(x.parent, y.parent);
        assert_eq!(x.start_loop, y.start_loop);
    }
}

#[test]
fn unseeded_growth_is_consistent() {
    let mut shape = bushy_shape(0);
    shape.seed = None;
    let p = shape.generate_mesh(&reals(0.5, 1.5, 0.7, 4.0)).unwrap();
    check_consistent(&p);
}

#[test]
fn buffers_consistent_over_seeds() {
    for seed in 0..20u64 {
        let p = bushy_shape(seed).generate_mesh(&reals(0.5, 1.5, 0.7, 4.0)).unwrap();
        check_consistent(&p);
    }
}

#[test]
fn children_counts_stay_in_range() {
    let mut seen = std::collections::BTreeSet::new();
    for seed in 0..20u64 {
        let mut shape = bushy_shape(seed);
        shape.branch_decay = 0;
        shape.max_splits = 1;
        let p = shape.generate_mesh(&reals(0.5, 1.5, 0.7, 4.0)).unwrap();
        let children = p.branches.len() - 1;
        assert!(children >= 2 && children <= 4, "{} children", children);
        seen.insert(children);
    }
    assert!(seen.len() > 1);
}

#[test]
fn decay_reduces_children_to_one() {
    let mut shape = scenario_a_shape();
    shape.max_splits = 3;
    shape.branches_min = 3;
    shape.branches_max = 3;
    shape.branch_decay = 2;
    let p = shape.generate_mesh(&scenario_a_reals()).unwrap();
    // Depth 0 has no decay: three children. Depth 1 takes two off: one child
    // each. Depth 2 takes four off, still one child each.
    let at = |d: usize| p.branches.iter().filter(|b| b.split == d).count();
    assert_eq!(at(0), 1);
    assert_eq!(at(1), 3);
    assert_eq!(at(2), 3);
    assert_eq!(at(3), 3);
}

#[test]
fn radius_tapers_by_depth() {
    let mut shape = scenario_a_shape();
    shape.max_splits = 3;
    shape.branches_min = 2;
    shape.branches_max = 2;
    let p = shape.generate_mesh(&scenario_a_reals()).unwrap();
    for b in &p.branches {
        if b.split < 3 {
            assert_eq!(b.start_radius, Radius::Sustained(b.split));
        }
        if b.split == 2 {
            assert_eq!(b.end_radius, Radius::Zero);
        }
        if b.split < 2 {
            assert_eq!(b.end_radius, Radius::Sustained(b.split + 1));
        }
    }
}

#[test]
fn leaves_only_from_leaf_start() {
    let mut shape = bushy_shape(3);
    shape.leaf_start = 2;
    let p = shape.generate_mesh(&reals(0.5, 1.5, 0.7, 4.0)).unwrap();
    assert!(!p.leaves.is_empty());
    for leaf in &p.leaves {
        let b = p.rings[leaf.ring].branch;
        assert!(p.branches[b].split >= 2);
    }
}

#[test]
fn parents_come_first() {
    let p = bushy_shape(11).generate_mesh(&reals(0.5, 1.5, 0.7, 4.0)).unwrap();
    assert!(p.branches[0].parent.is_none());
    for (i, b) in p.branches.iter().enumerate().skip(1) {
        let q = b.parent.unwrap();
        assert!(q < i);
        assert_eq!(p.branches[q].split + 1, b.split);
    }
}

#[test]
fn branch_root_defaults() {
    let shape = scenario_a_shape();
    let b = Branch::generate(&shape);
    assert_eq!(b.split, 0);
    assert_eq!(b.start_radius, Radius::Sustained(0));
    assert_eq!(b.end_radius, Radius::Sustained(1));
    assert_eq!(b.radial_segments, 6);
    assert_eq!(b.segments, 1);
    assert!(b.start_loop.is_empty());
    assert!(b.parent.is_none());
}

#[test]
fn config_errors() {
    let r = scenario_a_reals();
    let mut s = scenario_a_shape();
    s.radial_segments = 2;
    assert_eq!(
        s.generate_mesh(&r).err(),
        Some(GrowthError::Config(ConfigError::TooFewRadialSegments))
    );
    let mut s = scenario_a_shape();
    s.branches_min = 3;
    s.branches_max = 2;
    assert_eq!(
        s.generate_mesh(&r).err(),
        Some(GrowthError::Config(ConfigError::InvertedBranchRange))
    );
    let mut s = scenario_a_shape();
    s.segments_per_branch = 0;
    assert_eq!(
        s.generate_mesh(&r).err(),
        Some(GrowthError::Config(ConfigError::NoSegments))
    );
    let s = scenario_a_shape();
    assert_eq!(
        s.generate_mesh(&reals(0.0, 2.0, 0.8, 0.0)).err(),
        Some(GrowthError::Config(ConfigError::NonPositiveRadius))
    );
    assert_eq!(
        s.generate_mesh(&reals(1.0, -2.0, 0.8, 0.0)).err(),
        Some(GrowthError::Config(ConfigError::NonPositiveLength))
    );
    assert_eq!(
        s.generate_mesh(&reals(1.0, f32::NAN, 0.8, 0.0)).err(),
        Some(GrowthError::Config(ConfigError::NonPositiveLength))
    );
    assert_eq!(
        s.generate_mesh(&reals(1.0, 2.0, 1.5, 0.0)).err(),
        Some(GrowthError::Config(ConfigError::SustainOutOfRange))
    );
    assert_eq!(
        s.generate_mesh(&reals(1.0, 2.0, 0.0, 0.0)).err(),
        Some(GrowthError::Config(ConfigError::SustainOutOfRange))
    );
    assert_eq!(
        s.generate_mesh(&reals(1.0, 2.0, 0.8, -0.5)).err(),
        Some(GrowthError::Config(ConfigError::NegativeLeafDensity))
    );
    assert!(s.generate_mesh(&reals(1.0, 2.0, 1.0, -0.0)).is_ok());
    assert!(s.generate_mesh(&reals(f32::MIN_POSITIVE, f32::INFINITY, 1.0, 0.0)).is_ok());
}

#[test]
fn rings_follow_branch_order() {
    let shape = bushy_shape(5);
    let p = shape.generate_mesh(&reals(0.5, 1.5, 0.7, 4.0)).unwrap();
    let segs = shape.segments_per_branch;
    assert_eq!(p.rings.len(), 1 + segs * p.branches.len());
    assert_eq!(p.rings[0].segment, 0);
    assert_eq!(p.rings[0].len, 8);
    for (r, b) in p.branches.iter().enumerate() {
        for g in 0..segs {
            let ring = p.rings[1 + segs * r + g];
            assert_eq!(ring.branch, r);
            assert_eq!(ring.segment, g + 1);
            assert_eq!(ring.len, b.radial_segments);
        }
    }
}

#[test]
fn trunk_tapers_with_one_split() {
    let mut shape = scenario_a_shape();
    shape.max_splits = 1;
    shape.branches_min = 2;
    shape.branches_max = 2;
    let p = shape.generate_mesh(&scenario_a_reals()).unwrap();
    assert_eq!(p.branches[0].end_radius, Radius::Zero);
    assert_eq!(Branch::generate(&shape).end_radius, Radius::Zero);
    for b in &p.branches[1..] {
        assert_eq!(b.start_radius, Radius::Zero);
    }
}

#[test]
fn no_leaves_without_chance() {
    let mut shape = bushy_shape(9);
    shape.leaf_start = 0;
    shape.leaf_chance = 0;
    let p = shape.generate_mesh(&reals(0.5, 1.5, 0.7, 0.0)).unwrap();
    assert!(p.leaves.is_empty());
    assert!(p.material.iter().all(|&m| m == BARK));
    assert!(p.leaf_counts.iter().all(|&m| m == 0));
}

#[test]
fn leaf_counts_match_leaves() {
    let p = bushy_shape(13).generate_mesh(&reals(0.5, 1.5, 0.7, 4.0)).unwrap();
    assert_eq!(p.leaf_counts.len(), p.branches.len());
    assert_eq!(p.leaf_counts.iter().sum::<usize>(), p.leaves.len());
    let mut first = 0;
    for (r, &m) in p.leaf_counts.iter().enumerate() {
        for leaf in &p.leaves[first..first + m] {
            assert_eq!(p.rings[leaf.ring].branch, r);
        }
        first += m;
    }
}
