//! Growing a whole plant, level by level.
use vstd::prelude::*;
use crate::branch::Branch;
use crate::branch::in_plant;
use crate::branch::start_loop_len;
use crate::branch::lemma_below_grows;
use crate::branch::lemma_end_radius_closed;
use crate::branch::Radius;
use crate::branch::alignment_spec;
use crate::branch::branch_stitches;
use crate::branch::leaf_run;
use crate::branch::leaf_sources;
use crate::branch::leaves_drawn;
use crate::branch::ring_sources;
use crate::branch::lemma_ring_sources_len;
use crate::branch::lemma_leaf_sources_len;
use crate::branch::lemma_leaf_run_len;
use crate::branch::lemma_branch_stitches_len;
use crate::branch::lemma_stitch_len;
use crate::branch::stitch;
use crate::branch::segment_loop;
use crate::branch::radial_at;
use crate::context::BARK;
use vstd::arithmetic::div_mod::lemma_mod_pos_bound;
use crate::context::LEAF;
use crate::context::Leaf;
use crate::context::VertexSource;
use crate::genome::TURN;
use crate::branch::split_cap;
use crate::context::MAX_VERTICES;
use crate::context::GrowthError;
use crate::context::Plant;
use crate::context::PlantContext;
use crate::context::Ring;
use crate::genome::RealFields;
use crate::genome::Shape;
use crate::genome::config_problem;
use crate::genome::lemma_valid_shape;
use crate::genome::shape_valid;
use crate::genome::validate;
use crate::random::entropy_rng;
use crate::random::seeded_rng;

verus! {

/// Recorded branch `r` sits in the tree that `shape` grows, starts from a
/// loop of the length its depth gives, and comes after its parent, one
/// level above it; only the trunk has no parent.
pub open spec fn record_ok(p: Plant, shape: Shape, r: int) -> bool {
    let b = p.branches@[r];
    &&& b.follows(shape)
    &&& b.start_loop@.len() == start_loop_len(shape.radial_segments, b.split as nat)
    &&& (b.parent matches Some(q) ==> q < r && p.branches@[q as int].split + 1 == b.split)
    &&& (b.parent is None <==> b.split == 0)
}

/// A branch waiting to grow at depth `level` of plant `p`.
pub open spec fn work_item(b: Branch, shape: Shape, level: nat, p: Plant) -> bool {
    &&& b.follows(shape)
    &&& b.split == level
    &&& b.start_loop@.len() == start_loop_len(shape.radial_segments, level)
    &&& in_plant(b.start_loop@, p)
    &&& (b.parent matches Some(q) ==> q < p.branches@.len() && p.branches@[q as int].split + 1
        == level)
    &&& (b.parent is None <==> level == 0)
}

/// Leaf `l` grows on a ring of a recorded branch deep enough for leaves.
pub open spec fn leaf_eligible(p: Plant, shape: Shape, l: int) -> bool {
    let b = p.rings@[p.leaves@[l].ring as int].branch;
    &&& b < p.branches@.len()
    &&& p.branches@[b as int].split >= shape.leaf_start
}

/// Leaves grown by the first `r` recorded branches.
pub open spec fn leaves_through(p: Plant, r: nat) -> nat
    decreases r,
{
    if r == 0 {
        0
    } else {
        leaves_through(p, (r - 1) as nat) + p.leaf_counts@[r - 1] as nat
    }
}

/// The vertex records of the trunk's base ring and of what the first `r`
/// recorded branches grew: each branch's rings, then its leaves.
pub open spec fn vertices_through(p: Plant, shape: Shape, r: nat) -> Seq<VertexSource>
    decreases r,
{
    if r == 0 {
        ring_sources(0, shape.radial_segments as nat, 1)
    } else {
        let b = p.branches@[r - 1];
        let segs = shape.segments_per_branch as nat;
        vertices_through(p, shape, (r - 1) as nat) + ring_sources(
            (1 + segs * (r - 1)) as nat,
            b.radial_segments as nat,
            segs,
        ) + leaf_sources(leaves_through(p, (r - 1) as nat), p.leaf_counts@[r - 1] as nat)
    }
}

/// The triangles of the first `r` recorded branches: each branch's rings
/// joined in turn, then its leaves.
pub open spec fn indices_through(p: Plant, shape: Shape, r: nat) -> Seq<u32>
    decreases r,
{
    if r == 0 {
        seq![]
    } else {
        let b = p.branches@[r - 1];
        let n = b.radial_segments as nat;
        let segs = shape.segments_per_branch as nat;
        let base = vertices_through(p, shape, (r - 1) as nat).len();
        indices_through(p, shape, (r - 1) as nat) + branch_stitches(
            b.start_loop@,
            base,
            n,
            alignment_spec(b.yaw, n),
            segs,
        ) + leaf_run(base + segs * n, p.leaf_counts@[r - 1] as nat)
    }
}

/// The leaves of recorded branch `r`.
pub open spec fn leaves_of(p: Plant, r: int) -> Seq<Leaf> {
    p.leaves@.subrange(leaves_through(p, r as nat) as int, leaves_through(p, (r + 1) as nat) as int)
}

/// Branch `r`'s leaves are the slots of its rings whose drawn words pass;
/// none without chance or below the leaf start, one on every slot where
/// the chance is a certainty.
pub open spec fn branch_leaves_ok(p: Plant, shape: Shape, r: int) -> bool {
    let b = p.branches@[r];
    let n = b.radial_segments as nat;
    let segs = shape.segments_per_branch as nat;
    let eligible = b.split >= shape.leaf_start;
    &&& leaves_drawn(
        leaves_of(p, r),
        (1 + segs * r) as nat,
        if eligible {
            segs
        } else {
            0
        },
        n,
        shape.leaf_chance,
        segs,
    )
    &&& (shape.leaf_chance == 0 || !eligible ==> p.leaf_counts@[r] == 0)
    &&& (eligible && shape.leaf_chance >= TURN * segs * n ==> p.leaf_counts@[r] == segs * n)
}

/// The buffers hold exactly what the recorded branches grew.
pub open spec fn buffers_grown(p: Plant, shape: Shape) -> bool {
    &&& p.leaf_counts@.len() == p.branches@.len()
    &&& p.vertices@ == vertices_through(p, shape, p.branches@.len())
    &&& p.indices@ == indices_through(p, shape, p.branches@.len())
    &&& p.leaves@.len() == leaves_through(p, p.branches@.len())
    &&& forall|r: int| 0 <= r < p.branches@.len() ==> #[trigger] branch_leaves_ok(p, shape, r)
}

proof fn lemma_leaves_through_grows(p: Plant, a: nat, b: nat)
    requires
        a <= b,
        b <= p.leaf_counts@.len(),
    ensures
        leaves_through(p, a) <= leaves_through(p, b),
    decreases b,
{
    if a < b {
        lemma_leaves_through_grows(p, a, (b - 1) as nat);
    }
}

/// What the first `r` branches grew depends on their records alone.
proof fn lemma_through_prefix(p: Plant, q: Plant, shape: Shape, r: nat)
    requires
        r <= p.branches@.len(),
        r <= q.branches@.len(),
        r <= p.leaf_counts@.len(),
        r <= q.leaf_counts@.len(),
        forall|i: int| 0 <= i < r ==> #[trigger] p.branches@[i] == q.branches@[i],
        forall|i: int| 0 <= i < r ==> #[trigger] p.leaf_counts@[i] == q.leaf_counts@[i],
    ensures
        leaves_through(p, r) == leaves_through(q, r),
        vertices_through(p, shape, r) == vertices_through(q, shape, r),
        indices_through(p, shape, r) == indices_through(q, shape, r),
    decreases r,
{
    if r > 0 {
        lemma_through_prefix(p, q, shape, (r - 1) as nat);
        assert(p.branches@[r - 1] == q.branches@[r - 1]);
        assert(p.leaf_counts@[r - 1] == q.leaf_counts@[r - 1]);
    }
}

/// The buffers hold exactly what the recorded branches grew, every
/// recorded branch is well placed and has its rings, every ring
/// belongs to a recorded branch, every leaf to a branch deep enough for leaves, and the buffers
/// are consistent; the trunk is the only branch at depth 0 and every branch
/// shallower than `max_splits` has a child.
pub open spec fn grown(p: Plant, shape: Shape) -> bool {
    &&& shape_valid(shape)
    &&& p.wf()
    &&& rings_laid_out(p, shape)
    &&& buffers_grown(p, shape)
    &&& p.branches@.len() >= 1
    &&& forall|r: int| 0 <= r < p.branches@.len() ==> #[trigger] record_ok(p, shape, r)
    &&& forall|g: int| 0 <= g < p.rings@.len() ==> (#[trigger] p.rings@[g]).branch < p.branches@.len()
    &&& forall|l: int| 0 <= l < p.leaves@.len() ==> #[trigger] leaf_eligible(p, shape, l)
    &&& forall|r: int|
        0 <= r < p.branches@.len() && (#[trigger] p.branches@[r]).split < shape.max_splits
            ==> has_child_in(p.branches@, r)
    &&& forall|r: int| 0 <= r < p.branches@.len() && (#[trigger] p.branches@[r]).split == 0 ==> r == 0
}

/// Most vertices one branch can add: its rings, and a leaf on every slot.
pub open spec fn branch_vertex_cap(s: Shape) -> nat {
    (5 * s.segments_per_branch * s.radial_segments) as nat
}

/// Most branches at depth `d`.
pub open spec fn level_cap(s: Shape, d: nat) -> nat
    decreases d,
{
    if d == 0 {
        1
    } else {
        level_cap(s, (d - 1) as nat) * split_cap(s)
    }
}

/// Most branches at depths below `d`.
pub open spec fn tree_cap(s: Shape, d: nat) -> nat
    decreases d,
{
    if d == 0 {
        0
    } else {
        tree_cap(s, (d - 1) as nat) + level_cap(s, (d - 1) as nat)
    }
}

/// Most vertices a plant of this genome can have: the trunk's base ring,
/// and every branch of a full tree at its most.
pub open spec fn vertex_cap(s: Shape) -> nat {
    (s.radial_segments + tree_cap(s, (s.max_splits + 1) as nat) * branch_vertex_cap(s)) as nat
}

proof fn lemma_tree_cap_grows(s: Shape, a: nat, b: nat)
    requires
        a <= b,
    ensures
        tree_cap(s, a) <= tree_cap(s, b),
    decreases b,
{
    if a < b {
        lemma_tree_cap_grows(s, a, (b - 1) as nat);
    }
}

/// Some branch of `v` is a child of branch `r`.
pub open spec fn has_child_in(v: Seq<Branch>, r: int) -> bool {
    exists|c: int| 0 <= c < v.len() && ((#[trigger] v[c]).parent matches Some(q) && q == r)
}

/// Ring `g` (counted from 0) of recorded branch `r`, where every branch has
/// `segments` rings.
pub open spec fn branch_ring(p: Plant, segments: nat, r: int, g: int) -> Ring {
    p.rings@[1 + segments * r + g]
}

/// The rings are the trunk's base ring, then the rings of each recorded
/// branch in turn, one per segment, as long as its radial segment count.
pub open spec fn rings_laid_out(p: Plant, shape: Shape) -> bool {
    let segs = shape.segments_per_branch as nat;
    &&& p.rings@.len() == 1 + segs * p.branches@.len()
    &&& p.rings@[0] == Ring { branch: 0, segment: 0, len: shape.radial_segments }
    &&& forall|r: int, g: int|
        0 <= r < p.branches@.len() && 0 <= g < segs ==> #[trigger] branch_ring(p, segs, r, g) == Ring {
            branch: r as usize,
            segment: (g + 1) as usize,
            len: p.branches@[r].radial_segments,
        }
}

proof fn lemma_ring_slot(segs: nat, r: nat, g: nat, n: nat)
    requires
        r < n,
        g < segs,
    ensures
        1 + segs * r + g < 1 + segs * n,
{
    assert(segs * r + g < segs * n) by (nonlinear_arith)
        requires
            r < n,
            g < segs,
    ;
}

/// After branch `index` is recorded and grows, the buffers hold what the
/// first `index + 1` branches grew.
proof fn lemma_branch_recorded(
    earlier: Plant,
    later: Plant,
    grew: Plant,
    counted: Plant,
    shape: Shape,
    index: nat,
    branch: Branch,
    m: nat,
)
    requires
        buffers_grown(earlier, shape),
        m == grew.leaves@.len() - later.leaves@.len(),
        m <= usize::MAX,
        rings_laid_out(earlier, shape),
        index == earlier.branches@.len(),
        later.branches@ == earlier.branches@.push(later.branches@[index as int]),
        later.leaf_counts@ == earlier.leaf_counts@,
        later.vertices@ == earlier.vertices@,
        later.indices@ == earlier.indices@,
        later.leaves@ == earlier.leaves@,
        later.rings@ == earlier.rings@,
        later.branches@[index as int].radial_segments == branch.radial_segments,
        later.branches@[index as int].start_loop@ == branch.start_loop@,
        later.branches@[index as int].yaw == branch.yaw,
        later.branches@[index as int].split == branch.split,
        branch.segments == shape.segments_per_branch,
        grew.branches@ == later.branches@,
        grew.leaves@.len() >= later.leaves@.len(),
        forall|l: int| 0 <= l < later.leaves@.len() ==> #[trigger] grew.leaves@[l] == later.leaves@[l],
        counted.branches@ == grew.branches@,
        counted.leaves@ == grew.leaves@,
        counted.vertices@ == grew.vertices@,
        counted.indices@ == grew.indices@,
        counted.leaf_counts@ == later.leaf_counts@.push(m as usize),
        ({
            let n = branch.radial_segments as nat;
            let segs = branch.segments as nat;
            let base = later.vertex_count();
            let k = alignment_spec(branch.yaw, n);
            let m = (grew.leaves@.len() - later.leaves@.len()) as nat;
            &&& grew.vertices@ == later.vertices@ + ring_sources(later.rings@.len(), n, segs)
                + leaf_sources(later.leaves@.len(), m)
            &&& grew.indices@ == later.indices@ + branch_stitches(branch.start_loop@, base, n, k, segs)
                + leaf_run(base + segs * n, m)
            &&& leaves_drawn(
                grew.leaves@.subrange(later.leaves@.len() as int, grew.leaves@.len() as int),
                later.rings@.len(),
                if branch.split >= shape.leaf_start {
                    segs
                } else {
                    0
                },
                n,
                shape.leaf_chance,
                segs,
            )
            &&& (branch.split >= shape.leaf_start && shape.leaf_chance >= TURN * segs * n ==> m
                == segs * n)
            &&& (shape.leaf_chance == 0 ==> grew.leaves@ == later.leaves@)
            &&& (branch.split < shape.leaf_start ==> grew.leaves@ == later.leaves@)
        }),
    ensures
        buffers_grown(counted, shape),
{
    let i = index as int;
    assert(later.branches@.len() == index + 1);
    assert forall|r: int| 0 <= r < index implies #[trigger] earlier.branches@[r]
        == counted.branches@[r] by {
        assert(later.branches@[r] == earlier.branches@[r]);
    }
    lemma_through_prefix(earlier, counted, shape, index);
    assert(counted.leaf_counts@[i] == m);
    assert(counted.branches@[i] == later.branches@[i]);
    assert(leaves_through(counted, index + 1) == leaves_through(earlier, index) + m);
    assert(counted.vertices@ =~= vertices_through(counted, shape, index + 1));
    assert(counted.indices@ =~= indices_through(counted, shape, index + 1));
    assert forall|r: int| 0 <= r < counted.branches@.len() implies #[trigger] branch_leaves_ok(
        counted,
        shape,
        r,
    ) by {
        if r < index {
            assert(branch_leaves_ok(earlier, shape, r));
            assert(counted.branches@[r] == earlier.branches@[r]);
            assert(counted.leaf_counts@[r] == earlier.leaf_counts@[r]);
            lemma_through_prefix(earlier, counted, shape, r as nat);
            lemma_through_prefix(earlier, counted, shape, (r + 1) as nat);
            lemma_leaves_through_grows(earlier, (r + 1) as nat, index);
            assert(leaves_of(counted, r) =~= leaves_of(earlier, r));
        } else {
            assert(r == i);
            assert(leaves_of(counted, r) =~= grew.leaves@.subrange(
                later.leaves@.len() as int,
                grew.leaves@.len() as int,
            ));
        }
    }
}

/// What holds between levels: the buffers are consistent, every record is
/// well placed at a depth no deeper than `level`, and every ring belongs to
/// a recorded branch or to the trunk.
pub open spec fn between_levels(p: Plant, shape: Shape, level: nat) -> bool {
    &&& p.wf()
    &&& rings_laid_out(p, shape)
    &&& buffers_grown(p, shape)
    &&& forall|r: int| 0 <= r < p.branches@.len() ==> #[trigger] record_ok(p, shape, r)
    &&& forall|r: int| 0 <= r < p.branches@.len() ==> (#[trigger] p.branches@[r]).split <= level
    &&& forall|g: int|
        0 <= g < p.rings@.len() ==> (#[trigger] p.rings@[g]).branch < p.branches@.len()
            || p.rings@[g].branch == 0
    &&& forall|l: int| 0 <= l < p.leaves@.len() ==> #[trigger] leaf_eligible(p, shape, l)
}

/// Grows every branch of one level, in order; where `splitting`, returns
/// their children, in order, as the next level.
pub fn grow_level(
    ctx: &mut PlantContext,
    shape: &Shape,
    current: &Vec<Branch>,
    level: usize,
    splitting: bool,
) -> (r: Result<Vec<Branch>, GrowthError>)
    requires
        shape_valid(*shape),
        level <= shape.max_splits,
        splitting ==> level < shape.max_splits,
        between_levels(old(ctx).plant, *shape, level as nat),
        forall|b: int|
            0 <= b < current@.len() ==> work_item(
                #[trigger] current@[b],
                *shape,
                level as nat,
                old(ctx).plant,
            ),
    ensures
        r.is_err() ==> r == Err::<Vec<Branch>, GrowthError>(GrowthError::TooManyVertices),
        old(ctx).plant.vertex_count() + current@.len() * branch_vertex_cap(*shape) <= MAX_VERTICES
            ==> r.is_ok(),
        r.is_ok() ==> {
            let p = final(ctx).plant;
            &&& p.vertex_count() <= old(ctx).plant.vertex_count() + current@.len() * branch_vertex_cap(
                *shape,
            )
            &&& splitting ==> r.unwrap()@.len() <= current@.len() * split_cap(*shape)
            &&& between_levels(p, *shape, (level + 1) as nat)
            &&& p.branches@.len() == old(ctx).plant.branches@.len() + current@.len()
            &&& forall|b: int|
                0 <= b < r.unwrap()@.len() ==> work_item(
                    #[trigger] r.unwrap()@[b],
                    *shape,
                    (level + 1) as nat,
                    p,
                )
            &&& !splitting ==> r.unwrap()@.len() == 0
            &&& splitting ==> r.unwrap()@.len() >= current@.len()
            &&& forall|q: int|
                0 <= q < old(ctx).plant.branches@.len() ==> #[trigger] p.branches@[q]
                    == old(ctx).plant.branches@[q]
            &&& forall|b: int|
                0 <= b < current@.len() ==> #[trigger] p.branches@[old(ctx).plant.branches@.len() + b].parent
                    == current@[b].parent
            &&& forall|b: int|
                0 <= b < current@.len() ==> #[trigger] p.branches@[old(ctx).plant.branches@.len() + b].split
                    == current@[b].split
            &&& splitting ==> forall|q: int|
                old(ctx).plant.branches@.len() <= q < p.branches@.len() ==> #[trigger] has_child_in(
                    r.unwrap()@,
                    q,
                )
        },
{
    let ghost start = ctx.plant.branches@;
    let mut next: Vec<Branch> = Vec::new();
    let mut b: usize = 0;
    while b < current.len()
        invariant
            shape_valid(*shape),
            level <= shape.max_splits,
            splitting ==> level < shape.max_splits,
            b <= current@.len(),
            between_levels(ctx.plant, *shape, level as nat),
            ctx.plant.branches@.len() == old(ctx).plant.branches@.len() + b,
            forall|c: int|
                b <= c < current@.len() ==> work_item(
                    #[trigger] current@[c],
                    *shape,
                    level as nat,
                    ctx.plant,
                ),
            forall|c: int|
                0 <= c < next@.len() ==> work_item(
                    #[trigger] next@[c],
                    *shape,
                    (level + 1) as nat,
                    ctx.plant,
                ),
            !splitting ==> next@.len() == 0,
            splitting ==> next@.len() >= b,
            start == old(ctx).plant.branches@,
            ctx.plant.vertex_count() <= old(ctx).plant.vertex_count() + b * branch_vertex_cap(*shape),
            splitting ==> next@.len() <= b * split_cap(*shape),
            forall|q: int| 0 <= q < start.len() ==> #[trigger] ctx.plant.branches@[q] == start[q],
            forall|c: int|
                0 <= c < b ==> #[trigger] ctx.plant.branches@[start.len() + c].parent
                    == current@[c].parent,
            forall|c: int|
                0 <= c < b ==> #[trigger] ctx.plant.branches@[start.len() + c].split == current@[c].split,
            splitting ==> forall|q: int|
                start.len() <= q < ctx.plant.branches@.len() ==> #[trigger] has_child_in(next@, q),
        decreases current@.len() - b,
    {
        let branch = &current[b];
        let index = ctx.plant.branches.len();
        let ghost earlier = ctx.plant;
        ctx.plant.branches.push(branch.duplicate());
        proof {
            let later = ctx.plant;
            assert(later.branches@[index as int].split == branch.split);
            assert forall|r: int| 0 <= r < later.branches@.len() implies #[trigger] record_ok(
                later,
                *shape,
                r,
            ) by {
                if r < index {
                    assert(record_ok(earlier, *shape, r));
                    assert(later.branches@[r] == earlier.branches@[r]);
                }
            }
            assert forall|r: int| 0 <= r < later.branches@.len() implies (
            #[trigger] later.branches@[r]).split <= level by {
                if r < index {
                    assert(later.branches@[r] == earlier.branches@[r]);
                }
            }
            assert forall|v: int| 0 <= v < later.vertices@.len() implies #[trigger] later.source_ok(v) by {
                assert(earlier.source_ok(v));
            }
            assert forall|l: int| 0 <= l < later.leaves@.len() implies #[trigger] later.leaf_ok(l) by {
                assert(earlier.leaf_ok(l));
            }
            assert(work_item(current@[b as int], *shape, level as nat, earlier));
            assert forall|l: int| 0 <= l < later.leaves@.len() implies #[trigger] leaf_eligible(
                later,
                *shape,
                l,
            ) by {
                assert(leaf_eligible(earlier, *shape, l));
                assert(earlier.leaf_ok(l));
                let g = earlier.leaves@[l].ring as int;
                assert(later.branches@[earlier.rings@[g].branch as int] == earlier.branches@[earlier.rings@[g].branch as int]);
            }
        }
        let ghost later = ctx.plant;
        let ghost cap = branch_vertex_cap(*shape);
        proof {
            let ss = shape.segments_per_branch as int;
            let rb = branch.radial_segments as int;
            let rs = shape.radial_segments as int;
            assert(rb <= rs);
            assert(5 * ss * rb <= 5 * ss * rs) by (nonlinear_arith)
                requires
                    rb <= rs,
                    ss >= 0,
            ;
            let o = old(ctx).plant.vertex_count() as int;
            let bi = b as int;
            let n = current@.len() as int;
            assert(o + (bi + 1) * cap <= o + n * cap) by (nonlinear_arith)
                requires
                    bi + 1 <= n,
                    cap >= 0,
            ;
            assert((bi + 1) * cap == bi * cap + cap) by (nonlinear_arith);
        }
        let leaves_before = ctx.plant.leaves.len();
        let end_loop = match branch.generate_mesh(ctx, shape, index) {
            Ok(v) => v,
            Err(e) => {
                return Err(e);
            },
        };
        let ghost grew = ctx.plant;
        let m = ctx.plant.leaves.len() - leaves_before;
        ctx.plant.leaf_counts.push(m);
        let ghost emitted = ctx.plant;
        proof {
            lemma_branch_recorded(earlier, later, grew, emitted, *shape, index as nat, *branch, m as nat);
            assert forall|v: int| 0 <= v < emitted.vertices@.len() implies #[trigger] emitted.source_ok(v) by {
                assert(grew.source_ok(v));
            }
            assert forall|l: int| 0 <= l < emitted.leaves@.len() implies #[trigger] emitted.leaf_ok(l) by {
                assert(grew.leaf_ok(l));
            }
            assert forall|t: int| 0 <= t < emitted.indices@.len() implies (#[trigger] emitted.indices@[t])
                < emitted.vertex_count() by {
                assert(grew.indices@[t] < grew.vertex_count());
            }

            assert forall|r: int| 0 <= r < emitted.branches@.len() implies #[trigger] record_ok(
                emitted,
                *shape,
                r,
            ) by {
                assert(record_ok(later, *shape, r));
            }
            assert forall|r: int| 0 <= r < emitted.branches@.len() implies (
            #[trigger] emitted.branches@[r]).split <= level by {
                assert(later.branches@[r].split <= level);
            }
            assert forall|g: int| 0 <= g < emitted.rings@.len() implies (#[trigger] emitted.rings@[g]).branch
                < emitted.branches@.len() || emitted.rings@[g].branch == 0 by {
                if g < later.rings@.len() {
                    assert(emitted.rings@[g] == later.rings@[g]);
                }
            }
            assert forall|l: int| 0 <= l < emitted.leaves@.len() implies #[trigger] leaf_eligible(
                emitted,
                *shape,
                l,
            ) by {
                assert(emitted.leaf_ok(l));
                if l < later.leaves@.len() {
                    assert(leaf_eligible(later, *shape, l));
                    assert(later.leaf_ok(l));
                    assert(emitted.leaves@[l] == later.leaves@[l]);
                    let g = later.leaves@[l].ring as int;
                    assert(emitted.rings@[g] == later.rings@[g]);
                } else {
                    let g = emitted.leaves@[l].ring as int;
                    assert(emitted.rings@[g].branch == index);
                }
            }
            let segs = shape.segments_per_branch as nat;
            assert(segs * (index + 1) == segs * index + segs) by (nonlinear_arith);
            assert(emitted.branches@[index as int].radial_segments == branch.radial_segments);
            assert forall|r: int, g: int|
                0 <= r < emitted.branches@.len() && 0 <= g < segs implies #[trigger] branch_ring(
                emitted,
                segs,
                r,
                g,
            ) == (Ring {
                branch: r as usize,
                segment: (g + 1) as usize,
                len: emitted.branches@[r].radial_segments,
            }) by {
                if r < index {
                    lemma_ring_slot(segs, r as nat, g as nat, index as nat);
                    assert(branch_ring(earlier, segs, r, g) == Ring {
                        branch: r as usize,
                        segment: (g + 1) as usize,
                        len: earlier.branches@[r].radial_segments,
                    });
                    assert(emitted.rings@[1 + segs * r + g] == later.rings@[1 + segs * r + g]);
                    assert(emitted.branches@[r] == earlier.branches@[r]);
                } else {
                    assert(r == index);
                    assert(emitted.rings@[1 + segs * r + g] == Seq::new(
                        segs,
                        |t: int| Ring { branch: index, segment: (t + 1) as usize, len: branch.radial_segments },
                    )[g]);
                }
            }
            assert forall|c: int| b < c < current@.len() implies work_item(
                #[trigger] current@[c],
                *shape,
                level as nat,
                emitted,
            ) by {
                assert(work_item(current@[c], *shape, level as nat, earlier));
                lemma_below_grows(current@[c].start_loop@, earlier.vertex_count(), emitted.vertex_count());
            }
            assert forall|c: int| 0 <= c < next@.len() implies work_item(
                #[trigger] next@[c],
                *shape,
                (level + 1) as nat,
                emitted,
            ) by {
                assert(work_item(next@[c], *shape, (level + 1) as nat, earlier));
                lemma_below_grows(next@[c].start_loop@, earlier.vertex_count(), emitted.vertex_count());
            }
        }
        if splitting {
            let mut children = branch.split(ctx, shape, index, &end_loop);
            assert((b + 1) * split_cap(*shape) == b * split_cap(*shape) + split_cap(*shape))
                by (nonlinear_arith);
            let ghost before = next@;
            let ghost born = children@;
            next.append(&mut children);
            proof {
                assert forall|c: int| 0 <= c < next@.len() implies work_item(
                    #[trigger] next@[c],
                    *shape,
                    (level + 1) as nat,
                    ctx.plant,
                ) by {
                    if c < before.len() {
                        assert(next@[c] == before[c]);
                    } else {
                        let k = c - before.len();
                        assert(next@[c] == born[k]);
                    }
                }
                assert forall|q: int|
                    start.len() <= q < ctx.plant.branches@.len() implies #[trigger] has_child_in(
                    next@,
                    q,
                ) by {
                    if q < index {
                        assert(has_child_in(before, q));
                        let c = choose|c: int|
                            0 <= c < before.len() && ((#[trigger] before[c]).parent matches Some(x) && x
                                == q);
                        assert(next@[c] == before[c]);
                    } else {
                        assert(next@[before.len() as int] == born[0]);
                    }
                }
            }
        }
        b = b + 1;
    }
    proof {
        let p = ctx.plant;
        assert forall|r: int| 0 <= r < p.branches@.len() implies (#[trigger] p.branches@[r]).split
            <= level + 1 by {
            assert(p.branches@[r].split <= level);
        }
    }
    Ok(next)
}

/// Builds the plant's starting state: the trunk's base ring, and the trunk
/// as the only branch of level 0.
fn plant_trunk(ctx: &mut PlantContext, shape: &Shape) -> (r: Result<Branch, GrowthError>)
    requires
        shape_valid(*shape),
        old(ctx).plant.wf(),
        old(ctx).plant.branches@.len() == 0,
        old(ctx).plant.rings@.len() == 0,
        old(ctx).plant.leaves@.len() == 0,
        old(ctx).plant.leaf_counts@.len() == 0,
        old(ctx).plant.vertices@.len() == 0,
        old(ctx).plant.indices@.len() == 0,
    ensures
        r.is_err() ==> r == Err::<Branch, GrowthError>(GrowthError::TooManyVertices),
        old(ctx).plant.vertex_count() + shape.radial_segments <= MAX_VERTICES ==> r.is_ok(),
        r.is_ok() ==> {
            &&& final(ctx).plant.vertex_count() == old(ctx).plant.vertex_count() + shape.radial_segments
            &&& between_levels(final(ctx).plant, *shape, 0)
            &&& work_item(r.unwrap(), *shape, 0, final(ctx).plant)
            &&& final(ctx).plant.branches@.len() == 0
        },
{
    let base = match ctx.add_ring(0, 0, shape.radial_segments) {
        Ok(v) => v,
        Err(e) => {
            return Err(e);
        },
    };
    let mut trunk = Branch::generate(shape);
    trunk.start_loop = base;
    let ghost n = shape.radial_segments as nat;
    assert(ring_sources(0, n, 0) == Seq::<VertexSource>::empty());
    assert(ring_sources(0, n, 1) == ring_sources(0, n, 0) + Seq::new(
        n,
        |j: int| VertexSource::Ring { ring: 0usize, slot: j as usize },
    ));
    assert(ctx.plant.vertices@ =~= ring_sources(0, n, 1));
    assert(ctx.plant.indices@ =~= indices_through(ctx.plant, *shape, 0));
    Ok(trunk)
}

/// After a level grows, every branch shallower than the next level has a
/// recorded child or a child waiting in `next`, and the trunk is still the
/// only branch at depth 0.
proof fn lemma_children_recorded(
    earlier: Plant,
    later: Plant,
    current: Seq<Branch>,
    next: Seq<Branch>,
    level: nat,
    shape: Shape,
    splitting: bool,
)
    requires
        level == 0 ==> current.len() == 1 && earlier.branches@.len() == 0,
        forall|r: int|
            0 <= r < earlier.branches@.len() && (#[trigger] earlier.branches@[r]).split < level
                ==> has_child_in(earlier.branches@, r) || has_child_in(current, r),
        forall|r: int| 0 <= r < earlier.branches@.len() && (#[trigger] earlier.branches@[r]).split == 0 ==> r == 0,
        forall|b: int| 0 <= b < current.len() ==> (#[trigger] current[b]).split == level,
        later.branches@.len() == earlier.branches@.len() + current.len(),
        forall|q: int| 0 <= q < earlier.branches@.len() ==> #[trigger] later.branches@[q] == earlier.branches@[q],
        forall|b: int|
            0 <= b < current.len() ==> #[trigger] later.branches@[earlier.branches@.len() + b].parent
                == current[b].parent,
        forall|r: int| 0 <= r < earlier.branches@.len() ==> (#[trigger] earlier.branches@[r]).split < level,
        forall|b: int|
            0 <= b < current.len() ==> #[trigger] later.branches@[earlier.branches@.len() + b].split
                == current[b].split,
        splitting ==> forall|q: int|
            earlier.branches@.len() <= q < later.branches@.len() ==> #[trigger] has_child_in(next, q),
    ensures
        forall|r: int|
            0 <= r < later.branches@.len() && (#[trigger] later.branches@[r]).split < level ==> has_child_in(
                later.branches@,
                r,
            ),
        splitting ==> forall|r: int|
            0 <= r < later.branches@.len() && (#[trigger] later.branches@[r]).split < level + 1
                ==> has_child_in(later.branches@, r) || has_child_in(next, r),
        forall|r: int| 0 <= r < later.branches@.len() && (#[trigger] later.branches@[r]).split == 0 ==> r == 0,
        forall|r: int| 0 <= r < later.branches@.len() ==> (#[trigger] later.branches@[r]).split <= level,
{
    let n0 = earlier.branches@.len() as int;
    assert forall|r: int|
        0 <= r < later.branches@.len() && (#[trigger] later.branches@[r]).split < level implies has_child_in(
        later.branches@,
        r,
    ) by {
        if r >= n0 {
            assert(later.branches@[n0 + (r - n0)].split == current[r - n0].split);
        }
        assert(r < n0);
        assert(later.branches@[r] == earlier.branches@[r]);
        if has_child_in(earlier.branches@, r) {
            let c = choose|c: int|
                0 <= c < earlier.branches@.len() && ((#[trigger] earlier.branches@[c]).parent matches Some(q) && q
                    == r);
            assert(later.branches@[c] == earlier.branches@[c]);
        } else {
            let c = choose|c: int|
                0 <= c < current.len() && ((#[trigger] current[c]).parent matches Some(q) && q == r);
            assert(later.branches@[n0 + c].parent == current[c].parent);
        }
    }
    assert forall|r: int| 0 <= r < later.branches@.len() && (#[trigger] later.branches@[r]).split == 0 implies r
        == 0 by {
        if r < n0 {
            assert(later.branches@[r] == earlier.branches@[r]);
        } else {
            assert(later.branches@[n0 + (r - n0)].split == current[r - n0].split);
        }
    }
    assert forall|r: int| 0 <= r < later.branches@.len() implies (#[trigger] later.branches@[r]).split <= level by {
        if r < n0 {
            assert(later.branches@[r] == earlier.branches@[r]);
        } else {
            assert(later.branches@[n0 + (r - n0)].split == current[r - n0].split);
        }
    }
    if splitting {
        assert forall|r: int|
            0 <= r < later.branches@.len() && (#[trigger] later.branches@[r]).split < level + 1 implies has_child_in(
            later.branches@,
            r,
        ) || has_child_in(next, r) by {
            if r < n0 {
                assert(later.branches@[r] == earlier.branches@[r]);
            } else {
                assert(later.branches@[n0 + (r - n0)].split == current[r - n0].split);
            }
        }
    }
}

/// The bounds of growth carry from one level to the next: vertices stay
/// within the caps of the levels grown, and the next level within its cap;
/// where the whole plant fits, so does the next level's growth.
proof fn lemma_caps_step(s: Shape, level: nat, before: nat, after: nat, grew: nat, next: nat)
    requires
        level < s.max_splits,
        before <= s.radial_segments + tree_cap(s, level) * branch_vertex_cap(s),
        grew <= level_cap(s, level),
        after <= before + grew * branch_vertex_cap(s),
        next <= grew * split_cap(s),
    ensures
        after <= s.radial_segments + tree_cap(s, level + 1) * branch_vertex_cap(s),
        next <= level_cap(s, level + 1),
        vertex_cap(s) <= MAX_VERTICES ==> after + next * branch_vertex_cap(s) <= MAX_VERTICES,
{
    let c = branch_vertex_cap(s);
    let t = tree_cap(s, level);
    let l = level_cap(s, level);
    assert(grew * c <= l * c) by (nonlinear_arith)
        requires
            grew <= l,
    ;
    assert((t + l) * c == t * c + l * c) by (nonlinear_arith);
    assert(next <= l * split_cap(s)) by (nonlinear_arith)
        requires
            next <= grew * split_cap(s),
            grew <= l,
    ;
    let t1 = tree_cap(s, level + 1);
    let l1 = level_cap(s, level + 1);
    assert(next * c <= l1 * c) by (nonlinear_arith)
        requires
            next <= l1,
    ;
    assert((t1 + l1) * c == t1 * c + l1 * c) by (nonlinear_arith);
    lemma_tree_cap_grows(s, level + 2, (s.max_splits + 1) as nat);
    assert(tree_cap(s, level + 2) * c <= tree_cap(s, (s.max_splits + 1) as nat) * c) by (nonlinear_arith)
        requires
            tree_cap(s, level + 2) <= tree_cap(s, (s.max_splits + 1) as nat),
    ;
}

/// Before any level grows, where the whole plant fits so does the trunk.
proof fn lemma_caps_start(s: Shape, level: nat, count: nat, grew: nat)
    requires
        count <= s.radial_segments + tree_cap(s, level) * branch_vertex_cap(s),
        grew <= level_cap(s, level),
        level <= s.max_splits,
    ensures
        vertex_cap(s) <= MAX_VERTICES ==> count + grew * branch_vertex_cap(s) <= MAX_VERTICES,
{
    let c = branch_vertex_cap(s);
    let t = tree_cap(s, level);
    let l = level_cap(s, level);
    assert(grew * c <= l * c) by (nonlinear_arith)
        requires
            grew <= l,
    ;
    assert((t + l) * c == t * c + l * c) by (nonlinear_arith);
    lemma_tree_cap_grows(s, level + 1, (s.max_splits + 1) as nat);
    assert(tree_cap(s, level + 1) * c <= tree_cap(s, (s.max_splits + 1) as nat) * c) by (nonlinear_arith)
        requires
            tree_cap(s, level + 1) <= tree_cap(s, (s.max_splits + 1) as nat),
    ;
}

impl Shape {
    /// Grows the plant this genome describes. The genome is checked first;
    /// the random source is seeded from `seed` where there is one. Levels
    /// 0 to `max_splits` grow in turn, each branch of a level emitting its
    /// rings before any branch of the next; every level but the last splits.
    pub fn generate_mesh(&self, reals: &RealFields) -> (r: Result<Plant, GrowthError>)
        ensures
            config_problem(*self, *reals) matches Some(e) ==> r == Err::<Plant, GrowthError>(
                GrowthError::Config(e),
            ),
            config_problem(*self, *reals) is None ==> !(r matches Err(GrowthError::Config(_))),
            r == Err::<Plant, GrowthError>(GrowthError::NoEntropy) ==> self.seed is None,
            config_problem(*self, *reals) is None && self.seed is Some && vertex_cap(*self)
                <= MAX_VERTICES ==> r is Ok,
            r matches Ok(p) ==> grown(p, *self),
    {
        match validate(self, reals) {
            Ok(()) => {},
            Err(e) => {
                return Err(GrowthError::Config(e));
            },
        }
        proof {
            lemma_valid_shape(*self, *reals);
        }
        let rng = match self.seed {
            Some(seed) => seeded_rng(seed),
            None => match entropy_rng() {
                Some(rng) => rng,
                None => {
                    return Err(GrowthError::NoEntropy);
                },
            },
        };
        let mut ctx = PlantContext { plant: Plant::new(), rng };
        let trunk = match plant_trunk(&mut ctx, self) {
            Ok(b) => b,
            Err(e) => {
                return Err(e);
            },
        };
        let mut current: Vec<Branch> = Vec::new();
        current.push(trunk);
        let mut level: usize = 0;
        proof {
            assert(tree_cap(*self, 0) == 0);
            lemma_caps_start(*self, 0, ctx.plant.vertex_count(), 1);
        }
        while level < self.max_splits
            invariant
                config_problem(*self, *reals) is None,
                shape_valid(*self),
                level <= self.max_splits,
                between_levels(ctx.plant, *self, level as nat),
                level > 0 ==> ctx.plant.branches@.len() >= 1,
                ctx.plant.vertex_count() <= self.radial_segments + tree_cap(*self, level as nat)
                    * branch_vertex_cap(*self),
                current@.len() <= level_cap(*self, level as nat),
                self.seed is Some && vertex_cap(*self) <= MAX_VERTICES ==> ctx.plant.vertex_count()
                    + current@.len() * branch_vertex_cap(*self) <= MAX_VERTICES,
                level == 0 ==> current@.len() == 1 && ctx.plant.branches@.len() == 0,
                forall|r: int|
                    0 <= r < ctx.plant.branches@.len() && (#[trigger] ctx.plant.branches@[r]).split
                        < level ==> has_child_in(ctx.plant.branches@, r) || has_child_in(current@, r),
                forall|r: int|
                    0 <= r < ctx.plant.branches@.len() && (#[trigger] ctx.plant.branches@[r]).split
                        == 0 ==> r == 0,
                forall|r: int|
                    0 <= r < ctx.plant.branches@.len() ==> (#[trigger] ctx.plant.branches@[r]).split
                        < level,
                forall|b: int|
                    0 <= b < current@.len() ==> work_item(
                        #[trigger] current@[b],
                        *self,
                        level as nat,
                        ctx.plant,
                    ),
            decreases self.max_splits - level,
        {
            let ghost earlier = ctx.plant;
            let next = match grow_level(&mut ctx, self, &current, level, true) {
                Ok(next) => next,
                Err(e) => {
                    return Err(e);
                },
            };
            proof {
                lemma_children_recorded(earlier, ctx.plant, current@, next@, level as nat, *self, true);
                lemma_caps_step(*self, level as nat, earlier.vertex_count(), ctx.plant.vertex_count(), current@.len(), next@.len());
            }
            current = next;
            level = level + 1;
        }
        let ghost earlier = ctx.plant;
        let last = match grow_level(&mut ctx, self, &current, level, false) {
            Ok(next) => next,
            Err(e) => {
                return Err(e);
            },
        };
        proof {
            lemma_children_recorded(earlier, ctx.plant, current@, last@, level as nat, *self, false);
        }
        proof {
            let p = ctx.plant;
            assert forall|g: int| 0 <= g < p.rings@.len() implies (#[trigger] p.rings@[g]).branch
                < p.branches@.len() by {
                assert(p.rings@[g].branch < p.branches@.len() || p.rings@[g].branch == 0);
            }
        }
        Ok(ctx.plant)
    }
}

/// Every per-vertex buffer of a grown plant has one entry per vertex, and
/// the index list holds whole triangles.
pub proof fn lemma_buffers_consistent(p: Plant, shape: Shape)
    requires
        grown(p, shape),
    ensures
        p.material@.len() == p.vertices@.len(),
        p.indices@.len() % 3 == 0,
{
}

/// Every triangle index of a grown plant names one of its vertices.
pub proof fn lemma_indices_in_bounds(p: Plant, shape: Shape)
    requires
        grown(p, shape),
    ensures
        forall|i: int| 0 <= i < p.indices@.len() ==> (#[trigger] p.indices@[i]) < p.vertices@.len(),
{
}

/// Radii taper with depth: a branch at depth `d` below `max_splits` starts
/// at the starting radius sustained `d` times, and every branch at depth
/// `max_splits - 1` ends in a tip.
pub proof fn lemma_radius_tapering(p: Plant, shape: Shape)
    requires
        grown(p, shape),
    ensures
        forall|r: int|
            0 <= r < p.branches@.len() && (#[trigger] p.branches@[r]).split < shape.max_splits
                ==> p.branches@[r].start_radius == Radius::Sustained(p.branches@[r].split),
        forall|r: int|
            0 <= r < p.branches@.len() && (#[trigger] p.branches@[r]).split + 1 == shape.max_splits
                ==> p.branches@[r].end_radius == Radius::Zero,
{
    assert forall|r: int|
        0 <= r < p.branches@.len() && (#[trigger] p.branches@[r]).split
            < shape.max_splits implies p.branches@[r].start_radius == Radius::Sustained(
        p.branches@[r].split,
    ) by {
        assert(record_ok(p, shape, r));
        let d = p.branches@[r].split;
        if d > 0 {
            lemma_end_radius_closed(shape.max_splits as nat, (d - 1) as nat);
        }
    }
    assert forall|r: int|
        0 <= r < p.branches@.len() && (#[trigger] p.branches@[r]).split + 1 == shape.max_splits implies p.branches@[r].end_radius
            == Radius::Zero by {
        assert(record_ok(p, shape, r));
        lemma_end_radius_closed(shape.max_splits as nat, p.branches@[r].split as nat);
    }
}

/// With an even radial segment count, branches from depth 2 on have half
/// the trunk's radial segments, and those at depth 2 start from a loop twice
/// as long as their rings, which is joined with fans; shallower branches
/// keep the full count.
pub proof fn lemma_halved_grandchildren(p: Plant, shape: Shape)
    requires
        grown(p, shape),
        shape.radial_segments % 2 == 0,
    ensures
        forall|r: int|
            0 <= r < p.branches@.len() && (#[trigger] p.branches@[r]).split >= 2 ==> 2
                * p.branches@[r].radial_segments == shape.radial_segments,
        forall|r: int|
            0 <= r < p.branches@.len() && (#[trigger] p.branches@[r]).split < 2
                ==> p.branches@[r].radial_segments == shape.radial_segments,
        forall|r: int|
            0 <= r < p.branches@.len() && (#[trigger] p.branches@[r]).split == 2
                ==> p.branches@[r].start_loop@.len() == 2 * p.branches@[r].radial_segments,
{
    assert forall|r: int| 0 <= r < p.branches@.len() implies {
        let b = #[trigger] p.branches@[r];
        &&& b.split >= 2 ==> 2 * b.radial_segments == shape.radial_segments
        &&& b.split < 2 ==> b.radial_segments == shape.radial_segments
        &&& b.split == 2 ==> b.start_loop@.len() == 2 * b.radial_segments
    } by {
        assert(record_ok(p, shape, r));
    }
}

/// No leaf grows on a plant whose leaves would start deeper than it splits.
pub proof fn lemma_no_leaves_below_start(p: Plant, shape: Shape)
    requires
        grown(p, shape),
        shape.leaf_start > shape.max_splits,
    ensures
        p.leaves@.len() == 0,
{
    if p.leaves@.len() > 0 {
        assert(leaf_eligible(p, shape, 0));
        let b = p.rings@[p.leaves@[0].ring as int].branch as int;
        assert(record_ok(p, shape, b));
    }
}

/// Growth reaches every depth from the trunk to `max_splits`.
pub proof fn lemma_depths_reached(p: Plant, shape: Shape, d: nat)
    requires
        grown(p, shape),
        d <= shape.max_splits,
    ensures
        exists|r: int| 0 <= r < p.branches@.len() && (#[trigger] p.branches@[r]).split == d,
    decreases d,
{
    if d == 0 {
        assert(record_ok(p, shape, 0));
        assert(p.branches@[0].split == 0);
    } else {
        lemma_depths_reached(p, shape, (d - 1) as nat);
        let r = choose|r: int| 0 <= r < p.branches@.len() && (#[trigger] p.branches@[r]).split == d - 1;
        assert(has_child_in(p.branches@, r));
        let c = choose|c: int|
            0 <= c < p.branches@.len() && ((#[trigger] p.branches@[c]).parent matches Some(q) && q == r);
        assert(record_ok(p, shape, c));
        assert(p.branches@[c].split == d);
    }
}

/// A genome with no splits grows the trunk alone: its base ring, one ring
/// per segment joined by quads, and its leaves. Without leaves every vertex
/// is bark; where every slot is certain to grow a leaf, each does.
pub proof fn lemma_trunk_alone(p: Plant, shape: Shape)
    requires
        grown(p, shape),
        shape.max_splits == 0,
    ensures
        p.branches@.len() == 1,
        p.rings@.len() == 1 + shape.segments_per_branch,
        p.vertices@.len() == shape.radial_segments + shape.segments_per_branch * shape.radial_segments
            + 4 * p.leaves@.len(),
        p.indices@.len() == 6 * shape.radial_segments * shape.segments_per_branch + 6
            * p.leaves@.len(),
        shape.leaf_start > 0 || shape.leaf_chance == 0 ==> p.leaves@.len() == 0 && forall|v: int|
            0 <= v < p.material@.len() ==> #[trigger] p.material@[v] == BARK,
        shape.leaf_start == 0 && shape.leaf_chance >= TURN * shape.segments_per_branch
            * shape.radial_segments ==> p.leaves@.len() == shape.segments_per_branch
            * shape.radial_segments && exists|v: int|
            0 <= v < p.material@.len() && #[trigger] p.material@[v] == LEAF,
{
    assert(record_ok(p, shape, 1) || p.branches@.len() <= 1);
    if p.branches@.len() > 1 {
        assert(record_ok(p, shape, 1));
        assert(p.branches@[1].split == 0);
    }
    assert(record_ok(p, shape, 0));
    assert(branch_leaves_ok(p, shape, 0));
    let b = p.branches@[0];
    let n = shape.radial_segments as nat;
    let segs = shape.segments_per_branch as nat;
    let m = p.leaf_counts@[0] as nat;
    assert(b.split == 0);
    assert(b.radial_segments == n);
    assert(leaves_through(p, 1) == m);
    lemma_ring_sources_len(0, n, 1);
    lemma_ring_sources_len(1, n, segs);
    lemma_leaf_sources_len(0, m);
    lemma_leaf_run_len(n + segs * n, m);
    let k = alignment_spec(b.yaw, n);
    lemma_mod_pos_bound(b.yaw as int * n as int + TURN as int / 2 / (TURN as int), n as int);
    assert(0 <= k < n);
    lemma_branch_stitches_len(b.start_loop@, n, n, k, segs);
    assert(vertices_through(p, shape, 0).len() == n);
    assert(segs * 0 == 0) by (nonlinear_arith);
    assert(leaves_through(p, 0) == 0);
    assert(vertices_through(p, shape, 1) == vertices_through(p, shape, 0) + ring_sources(1, n, segs)
        + leaf_sources(0, m));
    assert(p.vertices@ == vertices_through(p, shape, 0) + ring_sources(1, n, segs) + leaf_sources(0, m));
    assert(p.indices@ == indices_through(p, shape, 0) + branch_stitches(b.start_loop@, n, n, k, segs)
        + leaf_run(n + segs * n, m));
    assert(segs * n == n * segs) by (nonlinear_arith);
    assert(6 * n * segs == 6 * (n * segs)) by (nonlinear_arith);
    if shape.leaf_start > 0 || shape.leaf_chance == 0 {
        assert forall|v: int| 0 <= v < p.material@.len() implies #[trigger] p.material@[v] == BARK by {
            assert(p.source_ok(v));
        }
    }
    if shape.leaf_start == 0 && shape.leaf_chance >= TURN * segs * n {
        assert(TURN * shape.segments_per_branch * shape.radial_segments == TURN * segs * n);
        assert(m == segs * n);
        assert(segs * n >= 1) by (nonlinear_arith)
            requires
                segs >= 1,
                n >= 3,
        ;
        let v = p.vertices@.len() - 1;
        assert(p.source_ok(v));
        assert(p.vertices@[v] == leaf_sources(0, m)[4 * m - 1]);
        assert(p.material@[v] == LEAF);
    }
}


/// With an even radial segment count, a branch at depth 2 joins its first
/// ring to its start loop, twice as long, with fans: nine indices per slot
/// of the ring.
pub proof fn lemma_fan_join(p: Plant, shape: Shape, r: int)
    requires
        grown(p, shape),
        shape.radial_segments % 2 == 0,
        0 <= r < p.branches@.len(),
        p.branches@[r].split == 2,
    ensures
        ({
            let b = p.branches@[r];
            let n = b.radial_segments as nat;
            let base = vertices_through(p, shape, r as nat).len();
            let k = alignment_spec(b.yaw, n);
            let join = stitch(segment_loop(base, n, k, 0), b.start_loop@, n);
            &&& branch_stitches(b.start_loop@, base, n, k, 1) == join
            &&& b.start_loop@.len() == 2 * n
            &&& join.len() == 9 * n
        }),
{
    assert(record_ok(p, shape, r));
    let b = p.branches@[r];
    let n = b.radial_segments as nat;
    let base = vertices_through(p, shape, r as nat).len();
    let k = alignment_spec(b.yaw, n);
    let first = segment_loop(base, n, k, 0);
    lemma_mod_pos_bound(b.yaw as int * n as int + TURN as int / 2 / (TURN as int), n as int);
    assert(0 <= k < n);
    assert(base + 0 * n == base) by (nonlinear_arith);
    assert(first.len() == n);
    lemma_stitch_len(first, b.start_loop@, n);
    assert(branch_stitches(b.start_loop@, base, n, k, 0) == Seq::<u32>::empty());
    assert(branch_stitches(b.start_loop@, base, n, k, 1) == branch_stitches(b.start_loop@, base, n, k, 0)
        + stitch(segment_loop(base, n, k, 0), b.start_loop@, n));
    assert(branch_stitches(b.start_loop@, base, n, k, 1) =~= stitch(first, b.start_loop@, n));
}

} // verus!
