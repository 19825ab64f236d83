use plantgen::branch::alignment;
use plantgen::branch::child_yaw;
use plantgen::branch::leaf_spawns;
use plantgen::branch::rotated;
use plantgen::branch::split_count;
use plantgen::branch::Branch;
use plantgen::context::Leaf;
use plantgen::context::Plant;
use plantgen::context::PlantContext;
use plantgen::context::Ring;
use plantgen::context::VertexSource;
use plantgen::context::LEAF;
use plantgen::genome::validate;
use plantgen::genome::ConfigError;
use plantgen::genome::RealFields;
use plantgen::genome::Shape;
use rand::rngs::SmallRng;
use rand::SeedableRng;

fn context() -> PlantContext {
    PlantContext { plant: Plant::new(), rng: SmallRng::seed_from_u64(0) }
}

fn shape() -> Shape {
    Shape {
        seed: Some(1),
        max_splits: 2,
        branches_min: 1,
        branches_max: 2,
        radial_segments: 4,
        segments_per_branch: 1,
        leaf_start: 0,
        leaf_chance: 0,
        branch_decay: 0,
        branch_sway: 0,
    }
}

#[test]
fn alignment_rounds_heading_to_slots() {
    assert_eq!(alignment(0, 6), 0);
    assert_eq!(alignment(1 << 30, 8), 2);
    assert_eq!(alignment(0xC000_0000, 6), 5);
    assert_eq!(alignment(0xFFFF_FFFF, 6), 0);
}

#[test]
fn child_yaw_first_split_sectors() {
    assert_eq!(child_yaw(0, 0, 1, 4, 0, 0), 1_073_741_824);
    assert_eq!(child_yaw(0, 0, 1, 4, 0, 1 << 31), 1_503_238_553);
    assert_eq!(child_yaw(0xC000_0000, 0, 2, 4, 0, 0), 0x4000_0000);
}

#[test]
fn child_yaw_later_split_cone() {
    assert_eq!(child_yaw(0, 1, 0, 2, 1 << 30, 0), 2_791_728_743);
    assert_eq!(child_yaw(5, 3, 0, 1, 0, 12345), 5);
}

#[test]
fn split_count_subtracts_decay() {
    assert_eq!(split_count(5, 2), 3);
    assert_eq!(split_count(2, 5), 1);
    assert_eq!(split_count(3, 3), 1);
    assert_eq!(split_count(0, 0), 1);
}

#[test]
fn leaf_spawns_below_share() {
    assert!(leaf_spawns(600, 2, 3, 99));
    assert!(!leaf_spawns(600, 2, 3, 100));
    assert!(!leaf_spawns(0, 1, 3, 0));
    assert!(leaf_spawns(u64::MAX, 1, 3, u32::MAX));
}

#[test]
fn rotated_moves_k_to_front() {
    assert_eq!(rotated(&vec![10, 11, 12, 13], 1), vec![11, 12, 13, 10]);
    assert_eq!(rotated(&vec![10, 11, 12, 13], 0), vec![10, 11, 12, 13]);
    assert_eq!(rotated(&vec![10, 11, 12, 13], 4), vec![10, 11, 12, 13]);
}

#[test]
fn add_ring_appends_bark() {
    let mut ctx = context();
    let a = ctx.add_ring(0, 0, 3).unwrap();
    let b = ctx.add_ring(0, 1, 2).unwrap();
    assert_eq!(a, vec![0, 1, 2]);
    assert_eq!(b, vec![3, 4]);
    assert_eq!(ctx.plant.rings, vec![
        Ring { branch: 0, segment: 0, len: 3 },
        Ring { branch: 0, segment: 1, len: 2 },
    ]);
    assert_eq!(ctx.plant.vertices[4], VertexSource::Ring { ring: 1, slot: 1 });
    assert_eq!(ctx.plant.material, vec![0; 5]);
    assert!(ctx.plant.indices.is_empty());
}

#[test]
fn bridge_equal_loops_quad_strip() {
    let mut ctx = context();
    let b = ctx.add_ring(0, 0, 3).unwrap();
    let a = ctx.add_ring(0, 1, 3).unwrap();
    Branch::generate(&shape()).bridge_loops(&mut ctx, &a, &b);
    assert_eq!(ctx.plant.indices, vec![
        0, 3, 4, 4, 1, 0,
        1, 4, 5, 5, 2, 1,
        2, 5, 3, 3, 0, 2,
    ]);
}

#[test]
fn bridge_doubled_loop_fans() {
    let mut ctx = context();
    let b = ctx.add_ring(0, 0, 4).unwrap();
    let a = ctx.add_ring(1, 1, 2).unwrap();
    Branch::generate(&shape()).bridge_loops(&mut ctx, &a, &b);
    assert_eq!(ctx.plant.indices, vec![
        0, 4, 1, 4, 1, 5, 5, 1, 2,
        2, 5, 3, 5, 3, 4, 4, 3, 0,
    ]);
}

#[test]
fn leaf_adds_quad() {
    let mut ctx = context();
    ctx.add_ring(0, 0, 3).unwrap();
    let leaf = Leaf { ring: 0, slot: 2, jitter_x: 1, jitter_y: 2, jitter_z: 3, tilt_x: 4, tilt_z: 5 };
    let corners = leaf.generate_mesh(&mut ctx).unwrap();
    assert_eq!(corners, vec![3, 4, 5, 6]);
    assert_eq!(ctx.plant.leaves, vec![leaf]);
    assert_eq!(ctx.plant.indices, vec![3, 4, 5, 4, 6, 5]);
    assert_eq!(&ctx.plant.material[3..], &[LEAF; 4]);
    assert_eq!(ctx.plant.vertices[6], VertexSource::Leaf { leaf: 0, corner: 3 });
}

#[test]
fn generate_mesh_of_branch_emits_rings() {
    let mut ctx = context();
    let s = Shape { segments_per_branch: 3, ..shape() };
    let base = ctx.add_ring(0, 0, 4).unwrap();
    let mut trunk = Branch::generate(&s);
    trunk.start_loop = base;
    let end = trunk.generate_mesh(&mut ctx, &s, 0).unwrap();
    assert_eq!(ctx.plant.rings.len(), 4);
    assert_eq!(ctx.plant.rings[3], Ring { branch: 0, segment: 3, len: 4 });
    assert_eq!(end, vec![12, 13, 14, 15]);
    assert_eq!(ctx.plant.indices.len(), 3 * 24);
    let children = trunk.split(&mut ctx, &s, 0, &end);
    assert!(children.len() >= 1 && children.len() <= 2);
    for c in &children {
        assert_eq!(c.split, 1);
        assert_eq!(c.parent, Some(0));
        assert_eq!(c.start_loop, end);
    }
}

#[test]
fn validate_accepts_and_refuses() {
    let good = RealFields {
        starting_radius: 1.0f32.to_bits(),
        branch_length: 1.0f32.to_bits(),
        radius_sustain: 0.5f32.to_bits(),
        leaf_density: 0.0f32.to_bits(),
    };
    assert_eq!(validate(&shape(), &good), Ok(()));
    let s = Shape { radial_segments: 3, ..shape() };
    assert_eq!(validate(&s, &good), Ok(()));
    let s = Shape { radial_segments: 0, branches_min: 5, ..shape() };
    assert_eq!(validate(&s, &good), Err(ConfigError::TooFewRadialSegments));
}
