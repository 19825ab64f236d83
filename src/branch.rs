//! Branches: the recursive unit of growth.
use vstd::prelude::*;
use crate::genome::Shape;
use crate::genome::TURN;
use crate::context::PlantContext;
use crate::context::Plant;
use crate::context::Leaf;
use crate::context::GrowthError;
use crate::context::Ring;
use crate::context::index_run;
use crate::context::MAX_VERTICES;
use crate::context::VertexSource;
use crate::context::leaf_triangles;
use crate::genome::shape_valid;
use crate::random::draw_in;
use crate::random::draw_word;
use vstd::arithmetic::div_mod::lemma_div_is_ordered_by_denominator;
use vstd::arithmetic::div_mod::lemma_div_is_ordered;
use vstd::arithmetic::div_mod::lemma_div_multiples_vanish;
use vstd::arithmetic::div_mod::lemma_div_of0;

verus! {

/// A radius, held by how it was derived: `Sustained(k)` is the starting
/// radius scaled by the radius sustain `k` times; `Zero` is a tip.
#[derive(Clone, Copy, Debug, PartialEq, Eq, Structural)]
pub enum Radius {
    Sustained(usize),
    Zero,
}

impl Radius {
    /// The radius scaled by the sustain once more.
    pub open spec fn sustained_spec(self) -> Radius {
        match self {
            Radius::Sustained(k) => Radius::Sustained((k + 1) as usize),
            Radius::Zero => Radius::Zero,
        }
    }

    #[verifier::when_used_as_spec(sustained_spec)]
    pub fn sustained(self) -> (r: Radius)
        requires
            self matches Radius::Sustained(k) ==> k < usize::MAX,
        ensures
            r == self.sustained_spec(),
    {
        match self {
            Radius::Sustained(k) => Radius::Sustained(k + 1),
            Radius::Zero => Radius::Zero,
        }
    }
}

/// One branch, as a work item of growth and as a record of the plant.
///
/// `yaw` is the heading of the branch around the up axis as a binary angle
/// (`yaw / TURN` of a full turn). `bend_word` and `twist_word` are the random
/// words that bend and twist it, each a fraction `w / TURN` of its range.
pub struct Branch {
    /// Split depth: 0 for the trunk.
    pub split: usize,
    /// How many children are taken off each split count sampled here.
    pub branch_decay: usize,
    pub start_radius: Radius,
    pub end_radius: Radius,
    pub yaw: u32,
    pub bend_word: u32,
    pub twist_word: u32,
    pub segments: usize,
    pub radial_segments: usize,
    /// The ring indices this branch starts from, shared with its siblings.
    pub start_loop: Vec<u32>,
    /// Index of the parent among the plant's branches.
    pub parent: Option<usize>,
}

/// Rotates a sequence left by `k`: element `k` comes first.
pub open spec fn rotate_seq(s: Seq<u32>, k: int) -> Seq<u32> {
    s.subrange(k, s.len() as int) + s.subrange(0, k)
}

/// `loop_` rotated left by `k` places.
pub fn rotated(loop_: &Vec<u32>, k: usize) -> (r: Vec<u32>)
    requires
        k <= loop_@.len(),
    ensures
        r@ == rotate_seq(loop_@, k as int),
{
    let n = loop_.len();
    let mut r: Vec<u32> = Vec::new();
    let mut i: usize = k;
    while i < n
        invariant
            k <= i <= n,
            n == loop_@.len(),
            r@ == loop_@.subrange(k as int, i as int),
        decreases n - i,
    {
        r.push(loop_[i]);
        i = i + 1;
        assert(r@ =~= loop_@.subrange(k as int, i as int));
    }
    let mut j: usize = 0;
    while j < k
        invariant
            j <= k <= n,
            n == loop_@.len(),
            r@ == loop_@.subrange(k as int, n as int) + loop_@.subrange(0, j as int),
        decreases k - j,
    {
        r.push(loop_[j]);
        j = j + 1;
        assert(r@ =~= loop_@.subrange(k as int, n as int) + loop_@.subrange(0, j as int));
    }
    r
}

/// The rotation that aligns a ring of `n` slots with a heading of `yaw`:
/// the heading in slots, rounded to the nearest, modulo `n`.
pub open spec fn alignment_spec(yaw: u32, n: nat) -> int {
    ((yaw as int * n as int + TURN as int / 2) / (TURN as int)) % (n as int)
}

/// The rotation that aligns a new ring of `n` slots with a branch heading
/// `yaw`, so that consecutive rings join with little twist.
pub fn alignment(yaw: u32, n: usize) -> (r: usize)
    requires
        n > 0,
    ensures
        r == alignment_spec(yaw, n as nat),
        r < n,
{
    let y: u128 = yaw as u128;
    let m: u128 = n as u128;
    assert(y * m <= 0xffff_ffff * 0xffff_ffff_ffff_ffff) by (nonlinear_arith)
        requires
            y <= 0xffff_ffff,
            m <= 0xffff_ffff_ffff_ffff,
    ;
    let wide: u128 = y * m + (TURN as u128) / 2;
    let turns: u128 = wide / (TURN as u128);
    (turns % (n as u128)) as usize
}

/// The two triangles of quad `i` between two loops of equal length.
pub open spec fn quad(a: Seq<u32>, b: Seq<u32>, i: int) -> Seq<u32> {
    let j = (i + 1) % (a.len() as int);
    seq![b[i], a[i], a[j], a[j], b[j], b[i]]
}

/// The three triangles that join slot `i` of `a` to slots `2i`, `2i + 1`
/// and `2i + 2` of `b`, a loop twice as long.
pub open spec fn fan(a: Seq<u32>, b: Seq<u32>, i: int) -> Seq<u32> {
    let i1 = (i + 1) % (a.len() as int);
    let b0 = 2 * i;
    let b1 = (b0 + 1) % (b.len() as int);
    let b2 = (b0 + 2) % (b.len() as int);
    seq![b[b0], a[i], b[b1], a[i], b[b1], a[i1], a[i1], b[b1], b[b2]]
}

/// The triangles that join the first `i` slots of loop `a` to loop `b`:
/// quads where the loops are equally long, fans where `b` is twice `a`.
pub open spec fn stitch(a: Seq<u32>, b: Seq<u32>, i: nat) -> Seq<u32>
    decreases i,
{
    if i == 0 {
        seq![]
    } else if a.len() == b.len() {
        stitch(a, b, (i - 1) as nat) + quad(a, b, i - 1)
    } else {
        stitch(a, b, (i - 1) as nat) + fan(a, b, i - 1)
    }
}

/// Two loops can be joined: equally long, or the second twice the first.
pub open spec fn joinable(a: Seq<u32>, b: Seq<u32>) -> bool {
    &&& a.len() > 0
    &&& (a.len() == b.len() || 2 * a.len() == b.len())
}

/// Every entry of `s` is below `n`.
pub open spec fn below(s: Seq<u32>, n: nat) -> bool {
    forall|i: int| 0 <= i < s.len() ==> (#[trigger] s[i]) < n
}

/// Every entry of `s` names a vertex of `p`.
pub open spec fn in_plant(s: Seq<u32>, p: Plant) -> bool {
    below(s, p.vertex_count())
}

pub(crate) proof fn lemma_below_grows(s: Seq<u32>, n: nat, m: nat)
    requires
        below(s, n),
        n <= m,
    ensures
        below(s, m),
{
}

proof fn lemma_below_rotated(s: Seq<u32>, k: int, n: nat)
    requires
        below(s, n),
        0 <= k <= s.len(),
    ensures
        below(rotate_seq(s, k), n),
{
    let r = rotate_seq(s, k);
    assert forall|i: int| 0 <= i < r.len() implies (#[trigger] r[i]) < n by {
        if i < s.len() - k {
            assert(r[i] == s[i + k]);
        } else {
            assert(r[i] == s[i - (s.len() - k)]);
        }
    }
}

proof fn lemma_run_below(base: nat, len: nat)
    requires
        base + len <= MAX_VERTICES,
    ensures
        below(index_run(base, len), base + len),
{
}

/// The vertex records of `g` rings of `n` slots each, the first of them
/// ring `ring0`.
pub open spec fn ring_sources(ring0: nat, n: nat, g: nat) -> Seq<VertexSource>
    decreases g,
{
    if g == 0 {
        seq![]
    } else {
        ring_sources(ring0, n, (g - 1) as nat) + Seq::new(
            n,
            |j: int| VertexSource::Ring { ring: (ring0 + g - 1) as usize, slot: j as usize },
        )
    }
}

/// The vertex records of `m` leaves, the first of them leaf `leaf0`.
pub open spec fn leaf_sources(leaf0: nat, m: nat) -> Seq<VertexSource>
    decreases m,
{
    if m == 0 {
        seq![]
    } else {
        let l = (leaf0 + m - 1) as usize;
        leaf_sources(leaf0, (m - 1) as nat) + seq![
            VertexSource::Leaf { leaf: l, corner: 0 },
            VertexSource::Leaf { leaf: l, corner: 1 },
            VertexSource::Leaf { leaf: l, corner: 2 },
            VertexSource::Leaf { leaf: l, corner: 3 },
        ]
    }
}

/// The aligned loop of segment `g` (counted from 0) of a branch whose rings
/// of `n` slots start at vertex `base`: that ring's indices rotated by `k`.
pub open spec fn segment_loop(base: nat, n: nat, k: int, g: nat) -> Seq<u32> {
    rotate_seq(index_run(base + g * n, n), k)
}

/// The triangles that join the first `g` segment loops of a branch, each to
/// the loop before it, the first to `start_loop`.
pub open spec fn branch_stitches(start_loop: Seq<u32>, base: nat, n: nat, k: int, g: nat) -> Seq<u32>
    decreases g,
{
    if g == 0 {
        seq![]
    } else {
        let prev = if g == 1 {
            start_loop
        } else {
            segment_loop(base, n, k, (g - 2) as nat)
        };
        branch_stitches(start_loop, base, n, k, (g - 1) as nat) + stitch(
            segment_loop(base, n, k, (g - 1) as nat),
            prev,
            n,
        )
    }
}

/// The triangles of `m` leaves whose corners are consecutive from vertex
/// `base`.
pub open spec fn leaf_run(base: nat, m: nat) -> Seq<u32>
    decreases m,
{
    if m == 0 {
        seq![]
    } else {
        leaf_run(base, (m - 1) as nat) + leaf_triangles((base + 4 * (m - 1)) as nat)
    }
}

/// The places `(ring, slot)` of a run of leaves.
pub open spec fn leaf_places(leaves: Seq<Leaf>) -> Seq<(usize, usize)> {
    Seq::new(leaves.len(), |i: int| (leaves[i].ring, leaves[i].slot))
}

/// The slots of ring `ring` that grow leaves, given the words drawn for its
/// slots in order.
pub open spec fn spawned_in_ring(words: Seq<u32>, ring: nat, chance: u64, segments: nat, radial: nat) -> Seq<
    (usize, usize),
>
    decreases words.len(),
{
    if words.len() == 0 {
        seq![]
    } else {
        let j = words.len() - 1;
        let before = spawned_in_ring(words.drop_last(), ring, chance, segments, radial);
        if leaf_spawns_spec(chance, segments, radial, words[j]) {
            before.push((ring as usize, j as usize))
        } else {
            before
        }
    }
}

/// The ring slots that grow leaves, given the words drawn for the rings
/// from `ring0` on, each in slot order.
pub open spec fn spawned(words: Seq<Seq<u32>>, ring0: nat, chance: u64, segments: nat, radial: nat) -> Seq<
    (usize, usize),
>
    decreases words.len(),
{
    if words.len() == 0 {
        seq![]
    } else {
        spawned(words.drop_last(), ring0, chance, segments, radial) + spawned_in_ring(
            words.last(),
            (ring0 + words.len() - 1) as nat,
            chance,
            segments,
            radial,
        )
    }
}

/// `new_leaves` are exactly the slots whose drawn words pass, for some
/// words: one per slot of each of `rings` rings of `radial` slots from
/// `ring0`.
pub open spec fn leaves_drawn(
    new_leaves: Seq<Leaf>,
    ring0: nat,
    rings: nat,
    radial: nat,
    chance: u64,
    segments: nat,
) -> bool {
    exists|words: Seq<Seq<u32>>|
        #![trigger spawned(words, ring0, chance, segments, radial)]
        words.len() == rings && (forall|g: int| 0 <= g < words.len() ==> (#[trigger] words[g]).len()
            == radial) && leaf_places(new_leaves) == spawned(words, ring0, chance, segments, radial)
}

/// A leaf chance of a full turn per slot is a certainty.
proof fn lemma_certain_leaf(chance: u64, segments: nat, radial: nat, w: u32)
    requires
        segments >= 1,
        radial >= 1,
        chance >= TURN * segments * radial,
    ensures
        leaf_spawns_spec(chance, segments, radial, w),
{
    let d = (segments * radial) as int;
    assert(d >= 1) by (nonlinear_arith)
        requires
            segments >= 1,
            radial >= 1,
            d == segments * radial,
    ;
    assert(TURN * segments * radial == d * TURN) by (nonlinear_arith)
        requires
            d == segments * radial,
    ;
    lemma_div_is_ordered(d * TURN, chance as int, d);
    lemma_div_multiples_vanish(TURN as int, d);
}

pub proof fn lemma_ring_sources_len(ring0: nat, n: nat, g: nat)
    ensures
        ring_sources(ring0, n, g).len() == g * n,
    decreases g,
{
    if g > 0 {
        lemma_ring_sources_len(ring0, n, (g - 1) as nat);
        assert(((g - 1) as nat) * n + n == g * n) by (nonlinear_arith)
            requires
                g > 0,
        ;
    } else {
        assert(g * n == 0) by (nonlinear_arith)
            requires
                g == 0,
        ;
    }
}

pub proof fn lemma_leaf_sources_len(leaf0: nat, m: nat)
    ensures
        leaf_sources(leaf0, m).len() == 4 * m,
    decreases m,
{
    if m > 0 {
        lemma_leaf_sources_len(leaf0, (m - 1) as nat);
    }
}

pub proof fn lemma_leaf_run_len(base: nat, m: nat)
    ensures
        leaf_run(base, m).len() == 6 * m,
    decreases m,
{
    if m > 0 {
        lemma_leaf_run_len(base, (m - 1) as nat);
    }
}

/// Joining equal loops takes six indices per slot, joining a loop to one
/// twice as long nine.
pub proof fn lemma_stitch_len(a: Seq<u32>, b: Seq<u32>, k: nat)
    ensures
        stitch(a, b, k).len() == if a.len() == b.len() {
            6 * k
        } else {
            9 * k
        },
    decreases k,
{
    if k > 0 {
        lemma_stitch_len(a, b, (k - 1) as nat);
    }
}

/// A branch starting from a loop as long as its rings joins each of its
/// `g` rings with six indices per slot.
pub proof fn lemma_branch_stitches_len(start_loop: Seq<u32>, base: nat, n: nat, k: int, g: nat)
    requires
        start_loop.len() == n,
        0 <= k <= n,
    ensures
        branch_stitches(start_loop, base, n, k, g).len() == 6 * n * g,
    decreases g,
{
    if g > 0 {
        lemma_branch_stitches_len(start_loop, base, n, k, (g - 1) as nat);
        let cur = segment_loop(base, n, k, (g - 1) as nat);
        let prev = if g == 1 {
            start_loop
        } else {
            segment_loop(base, n, k, (g - 2) as nat)
        };
        assert(cur.len() == n);
        assert(prev.len() == n);
        lemma_stitch_len(cur, prev, n);
        assert(6 * n * ((g - 1) as nat) + 6 * n == 6 * n * g) by (nonlinear_arith)
            requires
                g > 0,
        ;
    } else {
        assert(6 * n * g == 0) by (nonlinear_arith)
            requires
                g == 0,
        ;
    }
}

impl Branch {
    /// Joins the new loop `loop_a` to the earlier loop `loop_b` with
    /// triangles.
    pub fn bridge_loops(&self, ctx: &mut PlantContext, loop_a: &Vec<u32>, loop_b: &Vec<u32>)
        requires
            old(ctx).plant.wf(),
            joinable(loop_a@, loop_b@),
            in_plant(loop_a@, old(ctx).plant),
            in_plant(loop_b@, old(ctx).plant),
        ensures
            final(ctx).rng == old(ctx).rng,
            final(ctx).plant.wf(),
            final(ctx).plant.indices@ == old(ctx).plant.indices@ + stitch(
                loop_a@,
                loop_b@,
                loop_a@.len(),
            ),
            final(ctx).plant.vertices@ == old(ctx).plant.vertices@,
            final(ctx).plant.material@ == old(ctx).plant.material@,
            final(ctx).plant.branches@ == old(ctx).plant.branches@,
            final(ctx).plant.leaf_counts@ == old(ctx).plant.leaf_counts@,
            final(ctx).plant.rings@ == old(ctx).plant.rings@,
            final(ctx).plant.leaves@ == old(ctx).plant.leaves@,
    {
        let ghost p = ctx.plant;
        let n = loop_a.len();
        let m = loop_b.len();
        let mut a: usize = 0;
        while a < n
            invariant
                a <= n,
                n == loop_a@.len(),
                m == loop_b@.len(),
                joinable(loop_a@, loop_b@),
                in_plant(loop_a@, p),
                in_plant(loop_b@, p),
                p.wf(),
                ctx.rng == old(ctx).rng,
                ctx.plant.indices@ == p.indices@ + stitch(loop_a@, loop_b@, a as nat),
                ctx.plant.indices@.len() % 3 == 0,
                ctx.plant.indices_in_bounds(),
                ctx.plant.vertices@ == p.vertices@,
                ctx.plant.material@ == p.material@,
                ctx.plant.branches@ == p.branches@,
                ctx.plant.leaf_counts@ == p.leaf_counts@,
                ctx.plant.rings@ == p.rings@,
                ctx.plant.leaves@ == p.leaves@,
            decreases n - a,
        {
            let ghost before = ctx.plant.indices@;
            let a_next = (a + 1) % n;
            if n == m {
                let b = a;
                let b_next = (b + 1) % n;
                ctx.plant.indices.push(loop_b[b]);
                ctx.plant.indices.push(loop_a[a]);
                ctx.plant.indices.push(loop_a[a_next]);
                ctx.plant.indices.push(loop_a[a_next]);
                ctx.plant.indices.push(loop_b[b_next]);
                ctx.plant.indices.push(loop_b[b]);
                assert(ctx.plant.indices@ =~= before + quad(loop_a@, loop_b@, a as int));
            } else {
                let b = a * 2;
                let b_1 = (b + 1) % m;
                let b_2 = (b + 2) % m;
                ctx.plant.indices.push(loop_b[b]);
                ctx.plant.indices.push(loop_a[a]);
                ctx.plant.indices.push(loop_b[b_1]);
                ctx.plant.indices.push(loop_a[a]);
                ctx.plant.indices.push(loop_b[b_1]);
                ctx.plant.indices.push(loop_a[a_next]);
                ctx.plant.indices.push(loop_a[a_next]);
                ctx.plant.indices.push(loop_b[b_1]);
                ctx.plant.indices.push(loop_b[b_2]);
                assert(ctx.plant.indices@ =~= before + fan(loop_a@, loop_b@, a as int));
            }
            a = a + 1;
            assert(ctx.plant.indices@ =~= p.indices@ + stitch(loop_a@, loop_b@, a as nat));
        }
        proof {
            let q = ctx.plant;
            assert forall|v: int| 0 <= v < q.vertices@.len() implies #[trigger] q.source_ok(v) by {
                assert(p.source_ok(v));
            }
            assert forall|l: int| 0 <= l < q.leaves@.len() implies #[trigger] q.leaf_ok(l) by {
                assert(p.leaf_ok(l));
            }
        }
    }
}

/// Radial segments of a branch at split depth `d`: halved from depth 2 on
/// where the genome's count is even.
pub open spec fn radial_at(n: usize, d: nat) -> usize {
    if d >= 2 && n % 2 == 0 {
        (n / 2) as usize
    } else {
        n
    }
}

/// Length of the loop a branch at depth `d` starts from: its parent's ring.
pub open spec fn start_loop_len(n: usize, d: nat) -> nat {
    if d == 2 && n % 2 == 0 {
        n as nat
    } else {
        radial_at(n, d) as nat
    }
}

/// End radius of a branch at depth `d`: a branch at depth `max_splits - 1`
/// ends in a tip; otherwise the trunk ends sustained once, and each child
/// sustains its parent's end once more.
pub open spec fn end_radius_at(max_splits: nat, d: nat) -> Radius
    decreases d,
{
    if d + 1 == max_splits {
        Radius::Zero
    } else if d == 0 {
        Radius::Sustained(1)
    } else {
        end_radius_at(max_splits, (d - 1) as nat).sustained_spec()
    }
}

/// Start radius of a branch at depth `d`: the starting radius for the
/// trunk, the parent's end radius for the others.
pub open spec fn start_radius_at(max_splits: nat, d: nat) -> Radius {
    if d == 0 {
        Radius::Sustained(0)
    } else {
        end_radius_at(max_splits, (d - 1) as nat)
    }
}

/// Split-count reduction at depth `d`: the genome's decay once per level,
/// saturating.
pub open spec fn decay_at(decay: usize, d: nat) -> usize
    decreases d,
{
    if d == 0 {
        0
    } else {
        let below = decay_at(decay, (d - 1) as nat);
        if below + decay > usize::MAX {
            usize::MAX
        } else {
            (below + decay) as usize
        }
    }
}

/// Number of children of a split: the sampled count less the decay, and at
/// least one.
pub open spec fn split_count_spec(draw: nat, decay: nat) -> nat {
    if draw > decay {
        (draw - decay) as nat
    } else {
        1
    }
}

/// Heading of child `i` of `n` of a branch with heading `parent` at depth
/// `parent_split`, given the random word `w`. At the first split children
/// share the full turn evenly, each placed at the start of its sector plus up
/// to 0.8 of a sector. Later, they spread over `[-sway, sway)` around the
/// parent, each jittered by up to `0.8 * sway / n` either way.
pub open spec fn child_yaw_spec(parent: u32, parent_split: nat, i: nat, n: nat, sway: u32, w: u32) -> int {
    let t = TURN as int;
    if parent_split == 0 {
        let sector = t * i / (n as int);
        let span = 4 * t / (5 * n as int);
        let jitter = w * span / t;
        (parent + sector + jitter) % t
    } else {
        let offset = 2 * i * sway / (n as int);
        let angle = 4 * (sway as int) / (5 * n as int);
        let jitter = w * (2 * angle) / t;
        (parent + offset + jitter + 2 * t - sway - angle) % t
    }
}

/// Most children a split can have.
pub open spec fn split_cap(s: Shape) -> nat {
    if s.branches_max >= 1 {
        s.branches_max as nat
    } else {
        1
    }
}

/// `yaw` is the heading of child `i` of `n` for some random word.
pub open spec fn yaw_drawn(yaw: u32, parent: u32, parent_split: nat, i: nat, n: nat, sway: u32) -> bool {
    exists|w: u32| yaw == #[trigger] child_yaw_spec(parent, parent_split, i, n, sway, w)
}

/// Whether a ring vertex grows a leaf, given the random word `w`. The leaf
/// chance is a budget per branch, spread evenly over its rings and the slots
/// of each ring; a vertex grows a leaf where `w` falls below its share, so
/// with `w` uniform the probability is `min(1, chance / (segments * radial *
/// TURN))`.
pub open spec fn leaf_spawns_spec(chance: u64, segments: nat, radial: nat, w: u32) -> bool {
    (w as int) < (chance as int) / (segments * radial) as int
}

proof fn lemma_div_le(x: int, d: int)
    requires
        0 <= x,
        1 <= d,
    ensures
        x / d <= x,
{
    lemma_div_is_ordered_by_denominator(x, 1, d);
}

/// The heading of child `i` of `n`, given the random word `w`.
pub fn child_yaw(parent: u32, parent_split: usize, i: usize, n: usize, sway: u32, w: u32) -> (r: u32)
    requires
        i < n,
    ensures
        r == child_yaw_spec(parent, parent_split as nat, i as nat, n as nat, sway, w),
{
    let t: u128 = TURN as u128;
    let nn: u128 = n as u128;
    let ii: u128 = i as u128;
    let ww: u128 = w as u128;
    if parent_split == 0 {
        assert(t * ii <= t * 0xffff_ffff_ffff_ffff) by (nonlinear_arith)
            requires
                t == TURN,
                ii <= 0xffff_ffff_ffff_ffff,
        ;
        let sector: u128 = t * ii / nn;
        proof {
            lemma_div_le(t * ii, nn as int);
            lemma_div_le(4 * t, 5 * nn);
        }
        let span: u128 = 4 * t / (5 * nn);
        assert(ww * span <= 0xffff_ffff * (4 * TURN)) by (nonlinear_arith)
            requires
                ww <= 0xffff_ffff,
                span <= 4 * TURN,
        ;
        let jitter: u128 = ww * span / t;
        proof {
            lemma_div_le(ww * span, t as int);
        }
        ((parent as u128 + sector + jitter) % t) as u32
    } else {
        let sw: u128 = sway as u128;
        assert(2 * ii * sw <= 2 * 0xffff_ffff_ffff_ffff * 0xffff_ffff) by (nonlinear_arith)
            requires
                ii <= 0xffff_ffff_ffff_ffff,
                sw <= 0xffff_ffff,
        ;
        let offset: u128 = 2 * ii * sw / nn;
        proof {
            lemma_div_le(2 * ii * sw, nn as int);
            lemma_div_is_ordered_by_denominator(4 * sw, 5, 5 * nn);
        }
        let angle: u128 = 4 * sw / (5 * nn);
        assert(ww * (2 * angle) <= 0xffff_ffff * (2 * TURN)) by (nonlinear_arith)
            requires
                ww <= 0xffff_ffff,
                angle < TURN,
        ;
        let jitter: u128 = ww * (2 * angle) / t;
        proof {
            lemma_div_le(ww * (2 * angle), t as int);
        }
        ((parent as u128 + offset + jitter + 2 * t - sw - angle) % t) as u32
    }
}

/// The number of children of a split whose sampled count is `draw`.
pub fn split_count(draw: usize, decay: usize) -> (r: usize)
    ensures
        r == split_count_spec(draw as nat, decay as nat),
        r >= 1,
{
    let left = draw.saturating_sub(decay);
    if left > 1 {
        left
    } else {
        1
    }
}

/// Whether a ring slot grows a leaf, given the random word `w`.
pub fn leaf_spawns(chance: u64, segments: usize, radial: usize, w: u32) -> (r: bool)
    requires
        segments >= 1,
        radial >= 1,
    ensures
        r == leaf_spawns_spec(chance, segments as nat, radial as nat, w),
{
    let s: u128 = segments as u128;
    let m: u128 = radial as u128;
    assert(s * m <= 0xffff_ffff_ffff_ffff * 0xffff_ffff_ffff_ffff) by (nonlinear_arith)
        requires
            s <= 0xffff_ffff_ffff_ffff,
            m <= 0xffff_ffff_ffff_ffff,
    ;
    assert(s * m >= 1) by (nonlinear_arith)
        requires
            s >= 1,
            m >= 1,
    ;
    (w as u128) < (chance as u128) / (s * m)
}

impl Branch {
    /// The branch sits in the tree that `s` grows: depth within the split
    /// count, and segment count, radial segments, radii and decay as its
    /// depth gives them.
    pub open spec fn follows(&self, s: Shape) -> bool {
        &&& self.split <= s.max_splits
        &&& self.segments == s.segments_per_branch
        &&& self.radial_segments == radial_at(s.radial_segments, self.split as nat)
        &&& self.start_radius == start_radius_at(s.max_splits as nat, self.split as nat)
        &&& self.end_radius == end_radius_at(s.max_splits as nat, self.split as nat)
        &&& self.branch_decay == decay_at(s.branch_decay, self.split as nat)
    }

    /// The trunk, before its base ring is known: depth 0, no decay, heading
    /// 0, starting at the starting radius and ending sustained once, or in a
    /// tip where the plant splits once.
    pub fn generate(shape: &Shape) -> (r: Branch)
        ensures
            r.follows(*shape),
            r.split == 0,
            r.yaw == 0,
            r.start_loop@.len() == 0,
            r.parent.is_none(),
    {
        Branch {
            split: 0,
            branch_decay: 0,
            start_radius: Radius::Sustained(0),
            end_radius: if shape.max_splits == 1 {
                Radius::Zero
            } else {
                Radius::Sustained(1)
            },
            yaw: 0,
            bend_word: 0,
            twist_word: 0,
            segments: shape.segments_per_branch,
            radial_segments: shape.radial_segments,
            start_loop: Vec::new(),
            parent: None,
        }
    }

    /// Emits this branch, recorded as branch `index`: one ring per segment,
    /// each aligned with the heading and joined to the loop before it (the
    /// first to the start loop); then, on a branch deep enough for leaves,
    /// a draw for every slot of every one of those rings, and a leaf where
    /// the draw says so. Returns the last ring's aligned indices.
    pub fn generate_mesh(&self, ctx: &mut PlantContext, shape: &Shape, index: usize) -> (r: Result<
        Vec<u32>,
        GrowthError,
    >)
        requires
            old(ctx).plant.wf(),
            shape_valid(*shape),
            self.follows(*shape),
            self.start_loop@.len() == start_loop_len(shape.radial_segments, self.split as nat),
            in_plant(self.start_loop@, old(ctx).plant),
        ensures
            final(ctx).plant.wf(),
            final(ctx).plant.branches@ == old(ctx).plant.branches@,
            final(ctx).plant.leaf_counts@ == old(ctx).plant.leaf_counts@,
            final(ctx).plant.vertex_count() >= old(ctx).plant.vertex_count(),
            final(ctx).plant.leaves@.len() >= old(ctx).plant.leaves@.len(),
            forall|l: int|
                old(ctx).plant.leaves@.len() <= l < final(ctx).plant.leaves@.len() ==> (
                #[trigger] final(ctx).plant.leaves@[l]).ring >= old(ctx).plant.rings@.len(),
            self.split < shape.leaf_start ==> final(ctx).plant.leaves@ == old(ctx).plant.leaves@,
            forall|l: int|
                0 <= l < old(ctx).plant.leaves@.len() ==> #[trigger] final(ctx).plant.leaves@[l]
                    == old(ctx).plant.leaves@[l],
            r.is_err() ==> r == Err::<Vec<u32>, GrowthError>(GrowthError::TooManyVertices),
            old(ctx).plant.vertex_count() + 5 * self.segments * self.radial_segments <= MAX_VERTICES
                ==> r.is_ok(),
            r.is_ok() ==> final(ctx).plant.vertex_count() <= old(ctx).plant.vertex_count() + 5
                * self.segments * self.radial_segments,
            final(ctx).plant.rings@.len() >= old(ctx).plant.rings@.len(),
            forall|g: int|
                old(ctx).plant.rings@.len() <= g < final(ctx).plant.rings@.len() ==> (
                #[trigger] final(ctx).plant.rings@[g]).branch == index,
            r.is_ok() ==> {
                let p = old(ctx).plant;
                let q = final(ctx).plant;
                let n = self.radial_segments as nat;
                let segs = self.segments as nat;
                let base = p.vertex_count();
                let k = alignment_spec(self.yaw, n);
                let m = (q.leaves@.len() - p.leaves@.len()) as nat;
                &&& q.rings@ == p.rings@ + Seq::new(
                    segs,
                    |g: int| Ring { branch: index, segment: (g + 1) as usize, len: self.radial_segments },
                )
                &&& q.vertices@ == p.vertices@ + ring_sources(p.rings@.len(), n, segs) + leaf_sources(
                    p.leaves@.len(),
                    m,
                )
                &&& q.indices@ == p.indices@ + branch_stitches(self.start_loop@, base, n, k, segs)
                    + leaf_run(base + segs * n, m)
                &&& r.unwrap()@ == segment_loop(base, n, k, (segs - 1) as nat)
                &&& in_plant(r.unwrap()@, q)
                &&& leaves_drawn(
                    q.leaves@.subrange(p.leaves@.len() as int, q.leaves@.len() as int),
                    p.rings@.len(),
                    if self.split >= shape.leaf_start {
                        segs
                    } else {
                        0
                    },
                    n,
                    shape.leaf_chance,
                    segs,
                )
                &&& (self.split >= shape.leaf_start && shape.leaf_chance >= TURN * segs * n ==> m
                    == segs * n)
            },
            shape.leaf_chance == 0 ==> final(ctx).plant.leaves@ == old(ctx).plant.leaves@,
    {
        let ghost p = ctx.plant;
        let radial = self.radial_segments;
        let segs = self.segments;
        let base = ctx.plant.vertices.len();
        let ring0 = ctx.plant.rings.len();
        let k = alignment(self.yaw, radial);
        let mut prev: Vec<u32> = self.start_loop.clone();
        assert(prev@ =~= self.start_loop@);
        let mut g: usize = 0;
        while g < segs
            invariant
                p == old(ctx).plant,
                g <= segs,
                segs == self.segments,
                segs >= 1,
                radial == self.radial_segments,
                radial >= 1,
                k < radial,
                k == alignment_spec(self.yaw, radial as nat),
                base == p.vertex_count(),
                ring0 == p.rings@.len(),
                shape_valid(*shape),
                self.follows(*shape),
                ctx.plant.wf(),
                ctx.plant.branches@ == p.branches@,
                ctx.plant.leaf_counts@ == p.leaf_counts@,
                ctx.plant.leaves@ == p.leaves@,
                ctx.plant.rings@ == p.rings@ + Seq::new(
                    g as nat,
                    |t: int| Ring { branch: index, segment: (t + 1) as usize, len: radial },
                ),
                ctx.plant.vertices@ == p.vertices@ + ring_sources(ring0 as nat, radial as nat, g as nat),
                ctx.plant.vertex_count() == base + g * radial,
                ctx.plant.indices@ == p.indices@ + branch_stitches(
                    self.start_loop@,
                    base as nat,
                    radial as nat,
                    k as int,
                    g as nat,
                ),
                g == 0 ==> prev@ == self.start_loop@,
                g > 0 ==> prev@ == segment_loop(base as nat, radial as nat, k as int, (g - 1) as nat),
                g == 0 ==> prev@.len() == start_loop_len(shape.radial_segments, self.split as nat),
                g > 0 ==> prev@.len() == radial,
                in_plant(prev@, ctx.plant),
            decreases segs - g,
        {
            let ghost before = ctx.plant;
            let ring = match ctx.add_ring(index, g + 1, radial) {
                Ok(v) => v,
                Err(e) => {
                    proof {
                        let c = before.vertex_count() as int;
                        let bb = base as int;
                        let gg = g as int;
                        let ss = segs as int;
                        let rr = radial as int;
                        assert(bb + 5 * ss * rr > MAX_VERTICES) by (nonlinear_arith)
                            requires
                                c + rr > MAX_VERTICES,
                                c == bb + gg * rr,
                                0 <= gg < ss,
                                rr >= 1,
                        ;
                        assert forall|t: int|
                            p.rings@.len() <= t < ctx.plant.rings@.len() implies (
                            #[trigger] ctx.plant.rings@[t]).branch == index by {
                            assert(ctx.plant.rings@[t] == Seq::new(
                                g as nat,
                                |t: int| Ring { branch: index, segment: (t + 1) as usize, len: radial },
                            )[t - p.rings@.len()]);
                        }
                    }
                    return Err(e);
                },
            };
            let aligned = rotated(&ring, k);
            proof {
                let start = before.vertex_count();
                lemma_run_below(start, radial as nat);
                lemma_below_rotated(ring@, k as int, (start + radial) as nat);
                lemma_below_grows(prev@, start, ctx.plant.vertex_count());
                assert(aligned@ == segment_loop(base as nat, radial as nat, k as int, g as nat));
            }
            self.bridge_loops(ctx, &aligned, &prev);
            proof {
                assert(ctx.plant.indices@ =~= p.indices@ + branch_stitches(
                    self.start_loop@,
                    base as nat,
                    radial as nat,
                    k as int,
                    (g + 1) as nat,
                ));
                assert(ctx.plant.vertices@ =~= p.vertices@ + ring_sources(
                    ring0 as nat,
                    radial as nat,
                    (g + 1) as nat,
                ));
                assert((g + 1) * radial == g * radial + radial) by (nonlinear_arith);
            }
            prev = aligned;
            g = g + 1;
            assert(ctx.plant.rings@ =~= p.rings@ + Seq::new(
                g as nat,
                |t: int| Ring { branch: index, segment: (t + 1) as usize, len: radial },
            ));
        }
        assert(ctx.plant.vertex_count() == base + segs * radial);
        let ghost grown_rings = ctx.plant.rings@;
        let total_rings = ctx.plant.rings.len();
        let ghost leaf_base = ctx.plant.vertex_count();
        let ghost stitched = ctx.plant.indices@;
        let ghost ringed = ctx.plant.vertices@;
        let ghost mut words: Seq<Seq<u32>> = seq![];
        let ghost full = shape.leaf_chance >= TURN * segs * radial;
        if self.split >= shape.leaf_start {
            let mut g: usize = 0;
            while g < segs
                invariant
                    p == old(ctx).plant,
                    self.split >= shape.leaf_start,
                    g <= segs,
                    segs == self.segments,
                    segs >= 1,
                    radial == self.radial_segments,
                    radial >= 1,
                    ring0 == p.rings@.len(),
                    ctx.plant.wf(),
                    ctx.plant.branches@ == p.branches@,
                    ctx.plant.leaf_counts@ == p.leaf_counts@,
                    ctx.plant.rings@ == grown_rings,
                    grown_rings.len() == ring0 + segs,
                    total_rings == ring0 + segs,
                    leaf_base >= p.vertex_count(),
                    leaf_base == base + segs * radial,
                    base == p.vertex_count(),
                    ctx.plant.leaves@.len() - p.leaves@.len() <= g * radial,
                    words.len() == g,
                    forall|t: int| 0 <= t < words.len() ==> (#[trigger] words[t]).len() == radial,
                    leaf_places(ctx.plant.leaves@.subrange(p.leaves@.len() as int, ctx.plant.leaves@.len() as int))
                        == spawned(words, ring0 as nat, shape.leaf_chance, segs as nat, radial as nat),
                    shape.leaf_chance == 0 ==> ctx.plant.leaves@ == p.leaves@,
                    full == (shape.leaf_chance >= TURN * segs * radial),
                    full ==> ctx.plant.leaves@.len() - p.leaves@.len() == g * radial,
                    grown_rings == p.rings@ + Seq::new(
                        segs as nat,
                        |t: int| Ring { branch: index, segment: (t + 1) as usize, len: radial },
                    ),
                    forall|t: int|
                        ring0 <= t < grown_rings.len() ==> (#[trigger] grown_rings[t]).len == radial,
                    ctx.plant.leaves@.len() >= p.leaves@.len(),
                    forall|l: int|
                        0 <= l < p.leaves@.len() ==> #[trigger] ctx.plant.leaves@[l] == p.leaves@[l],
                    forall|l: int|
                        p.leaves@.len() <= l < ctx.plant.leaves@.len() ==> (
                        #[trigger] ctx.plant.leaves@[l]).ring >= p.rings@.len(),
                    ctx.plant.vertices@ == ringed + leaf_sources(
                        p.leaves@.len(),
                        (ctx.plant.leaves@.len() - p.leaves@.len()) as nat,
                    ),
                    ctx.plant.indices@ == stitched + leaf_run(
                        leaf_base,
                        (ctx.plant.leaves@.len() - p.leaves@.len()) as nat,
                    ),
                    ctx.plant.vertex_count() == leaf_base + 4 * (ctx.plant.leaves@.len()
                        - p.leaves@.len()),
                    in_plant(prev@, ctx.plant),
                decreases segs - g,
            {
                let mut slot: usize = 0;
                let ghost mut ring_words: Seq<u32> = seq![];
                while slot < radial
                    invariant
                        p == old(ctx).plant,
                        self.split >= shape.leaf_start,
                        g < segs,
                        slot <= radial,
                        segs == self.segments,
                        segs >= 1,
                        radial == self.radial_segments,
                        radial >= 1,
                        ring0 == p.rings@.len(),
                        ctx.plant.wf(),
                        ctx.plant.branches@ == p.branches@,
                        ctx.plant.leaf_counts@ == p.leaf_counts@,
                        ctx.plant.rings@ == grown_rings,
                        grown_rings.len() == ring0 + segs,
                        total_rings == ring0 + segs,
                        leaf_base >= p.vertex_count(),
                        leaf_base == base + segs * radial,
                        base == p.vertex_count(),
                        ctx.plant.leaves@.len() - p.leaves@.len() <= g * radial + slot,
                        words.len() == g,
                        forall|t: int| 0 <= t < words.len() ==> (#[trigger] words[t]).len() == radial,
                        ring_words.len() == slot,
                        leaf_places(ctx.plant.leaves@.subrange(p.leaves@.len() as int, ctx.plant.leaves@.len() as int))
                            == spawned(words, ring0 as nat, shape.leaf_chance, segs as nat, radial as nat)
                            + spawned_in_ring(ring_words, (ring0 + g) as nat, shape.leaf_chance, segs as nat, radial as nat),
                        shape.leaf_chance == 0 ==> ctx.plant.leaves@ == p.leaves@,
                        full == (shape.leaf_chance >= TURN * segs * radial),
                        full ==> ctx.plant.leaves@.len() - p.leaves@.len() == g * radial + slot,
                        grown_rings == p.rings@ + Seq::new(
                            segs as nat,
                            |t: int| Ring { branch: index, segment: (t + 1) as usize, len: radial },
                        ),
                        forall|t: int|
                            ring0 <= t < grown_rings.len() ==> (#[trigger] grown_rings[t]).len == radial,
                        ctx.plant.leaves@.len() >= p.leaves@.len(),
                        forall|l: int|
                            0 <= l < p.leaves@.len() ==> #[trigger] ctx.plant.leaves@[l] == p.leaves@[l],
                        forall|l: int|
                            p.leaves@.len() <= l < ctx.plant.leaves@.len() ==> (
                            #[trigger] ctx.plant.leaves@[l]).ring >= p.rings@.len(),
                        ctx.plant.vertices@ == ringed + leaf_sources(
                            p.leaves@.len(),
                            (ctx.plant.leaves@.len() - p.leaves@.len()) as nat,
                        ),
                        ctx.plant.indices@ == stitched + leaf_run(
                            leaf_base,
                            (ctx.plant.leaves@.len() - p.leaves@.len()) as nat,
                        ),
                        ctx.plant.vertex_count() == leaf_base + 4 * (ctx.plant.leaves@.len()
                            - p.leaves@.len()),
                        in_plant(prev@, ctx.plant),
                    decreases radial - slot,
                {
                    let w = draw_word(&mut ctx.rng);
                    let ghost places = leaf_places(
                        ctx.plant.leaves@.subrange(p.leaves@.len() as int, ctx.plant.leaves@.len() as int),
                    );
                    let ghost before_words = ring_words;
                    proof {
                        ring_words = ring_words.push(w);
                        assert(ring_words.drop_last() =~= before_words);
                        if full {
                            lemma_certain_leaf(shape.leaf_chance, segs as nat, radial as nat, w);
                        }
                        if shape.leaf_chance == 0 {
                            assert((segs * radial) as int != 0) by (nonlinear_arith)
                                requires
                                    segs >= 1,
                                    radial >= 1,
                            ;
                            lemma_div_of0((segs * radial) as int);
                        }
                    }
                    let spawns = leaf_spawns(shape.leaf_chance, segs, radial, w);
                    if spawns {
                        let jitter_x = draw_word(&mut ctx.rng);
                        let jitter_y = draw_word(&mut ctx.rng);
                        let jitter_z = draw_word(&mut ctx.rng);
                        let tilt_x = draw_word(&mut ctx.rng);
                        let tilt_z = draw_word(&mut ctx.rng);
                        let leaf = Leaf {
                            ring: ring0 + g,
                            slot,
                            jitter_x,
                            jitter_y,
                            jitter_z,
                            tilt_x,
                            tilt_z,
                        };
                        let ghost mid = ctx.plant;
                        assert(grown_rings[ring0 + g].len == radial);
                        match leaf.generate_mesh(ctx) {
                            Ok(_) => {},
                            Err(e) => {
                                proof {
                                    let m = (ctx.plant.leaves@.len() - p.leaves@.len()) as int;
                                    let bb = base as int;
                                    let gg = g as int;
                                    let ss = segs as int;
                                    let rr = radial as int;
                                    let sl = slot as int;
                                    assert(bb + 5 * ss * rr > MAX_VERTICES) by (nonlinear_arith)
                                        requires
                                            bb + ss * rr + 4 * m + 4 > MAX_VERTICES,
                                            m <= gg * rr + sl,
                                            0 <= sl < rr,
                                            0 <= gg < ss,
                                    ;
                                    assert forall|t: int|
                                        p.rings@.len() <= t < ctx.plant.rings@.len() implies (
                                        #[trigger] ctx.plant.rings@[t]).branch == index by {
                                        assert(grown_rings[t] == Seq::new(
                                            segs as nat,
                                            |t: int| Ring { branch: index, segment: (t + 1) as usize, len: radial },
                                        )[t - p.rings@.len()]);
                                    }
                                }
                                return Err(e);
                            },
                        }
                        proof {
                            let m = (mid.leaves@.len() - p.leaves@.len()) as nat;
                            assert(ctx.plant.leaves@.len() - p.leaves@.len() == m + 1);
                            assert(ctx.plant.vertices@ =~= ringed + leaf_sources(p.leaves@.len(), m + 1));
                            assert(ctx.plant.indices@ =~= stitched + leaf_run(leaf_base, m + 1));
                            lemma_below_grows(prev@, mid.vertex_count(), ctx.plant.vertex_count());
                            let new_leaves = ctx.plant.leaves@.subrange(
                                p.leaves@.len() as int,
                                ctx.plant.leaves@.len() as int,
                            );
                            let old_leaves = mid.leaves@.subrange(
                                p.leaves@.len() as int,
                                mid.leaves@.len() as int,
                            );
                            assert(new_leaves =~= old_leaves.push(leaf));
                            assert(leaf_places(new_leaves) =~= leaf_places(old_leaves).push(
                                ((ring0 + g) as usize, slot),
                            ));
                            assert(leaf_places(new_leaves) =~= spawned(
                                words,
                                ring0 as nat,
                                shape.leaf_chance,
                                segs as nat,
                                radial as nat,
                            ) + spawned_in_ring(
                                ring_words,
                                (ring0 + g) as nat,
                                shape.leaf_chance,
                                segs as nat,
                                radial as nat,
                            ));
                        }
                    }
                    slot = slot + 1;
                }
                assert((g + 1) * radial == g * radial + radial) by (nonlinear_arith);
                proof {
                    let before_words = words;
                    words = words.push(ring_words);
                    assert(words.drop_last() =~= before_words);
                    assert forall|t: int| 0 <= t < words.len() implies (#[trigger] words[t]).len()
                        == radial by {
                        if t < before_words.len() {
                            assert(words[t] == before_words[t]);
                        }
                    }
                }
                g = g + 1;
            }
        }
        proof {
            let q = ctx.plant;
            assert forall|t: int|
                p.rings@.len() <= t < q.rings@.len() implies (#[trigger] q.rings@[t]).branch
                == index by {
                assert(q.rings@[t] == Seq::new(
                    segs as nat,
                    |t: int| Ring { branch: index, segment: (t + 1) as usize, len: radial },
                )[t - p.rings@.len()]);
            }
            assert(5 * segs * radial == 5 * (segs * radial)) by (nonlinear_arith);
            if self.split < shape.leaf_start {
                assert(ctx.plant.vertices@ =~= ringed + leaf_sources(p.leaves@.len(), 0));
                assert(ctx.plant.indices@ =~= stitched + leaf_run(leaf_base, 0));
                assert(leaf_places(
                    ctx.plant.leaves@.subrange(p.leaves@.len() as int, ctx.plant.leaves@.len() as int),
                ) =~= spawned(words, ring0 as nat, shape.leaf_chance, segs as nat, radial as nat));
            }
            assert(words.len() == (if self.split >= shape.leaf_start {
                segs
            } else {
                0
            }));
        }
        Ok(prev)
    }
}

/// The end radius by depth in closed form: a tip from depth
/// `max_splits - 1` on, the starting radius sustained `d + 1` times before.
pub proof fn lemma_end_radius_closed(max_splits: nat, d: nat)
    requires
        d + 1 <= usize::MAX,
    ensures
        end_radius_at(max_splits, d) == (if max_splits >= 1 && d + 1 >= max_splits {
            Radius::Zero
        } else {
            Radius::Sustained((d + 1) as usize)
        }),
    decreases d,
{
    if d > 0 {
        lemma_end_radius_closed(max_splits, (d - 1) as nat);
    }
}

impl Branch {
    /// The children of this branch, recorded as branch `index`, each starting
    /// from `end_loop`: a count sampled from the genome's range less the
    /// decay (at least one), each with its heading, bend and twist drawn.
    pub fn split(&self, ctx: &mut PlantContext, shape: &Shape, index: usize, end_loop: &Vec<u32>) -> (children: Vec<Branch>)
        requires
            shape_valid(*shape),
            self.follows(*shape),
            self.split < shape.max_splits,
        ensures
            final(ctx).plant == old(ctx).plant,
            children@.len() >= 1,
            children@.len() <= split_cap(*shape),
            exists|d: nat|
                shape.branches_min <= d <= shape.branches_max && children@.len()
                    == #[trigger] split_count_spec(d, self.branch_decay as nat),
            forall|c: int|
                0 <= c < children@.len() ==> {
                    let b = #[trigger] children@[c];
                    &&& b.start_radius == self.end_radius
                    &&& b.end_radius == (if self.split + 2 == shape.max_splits {
                        Radius::Zero
                    } else {
                        self.end_radius.sustained_spec()
                    })
                    &&& b.radial_segments == (if self.split == 1 && self.radial_segments % 2 == 0 {
                        self.radial_segments / 2
                    } else {
                        self.radial_segments
                    })
                    &&& b.branch_decay == (if self.branch_decay + shape.branch_decay > usize::MAX {
                        usize::MAX
                    } else {
                        (self.branch_decay + shape.branch_decay) as usize
                    })
                    &&& b.follows(*shape)
                    &&& b.split == self.split + 1
                    &&& b.parent == Some(index)
                    &&& b.start_loop@ == end_loop@
                    &&& yaw_drawn(
                        b.yaw,
                        self.yaw,
                        self.split as nat,
                        c as nat,
                        children@.len(),
                        shape.branch_sway,
                    )
                },
    {
        let draw = draw_in(&mut ctx.rng, shape.branches_min, shape.branches_max);
        let n = split_count(draw, self.branch_decay);
        let end_radius = if shape.max_splits - self.split == 2 {
            Radius::Zero
        } else {
            proof {
                lemma_end_radius_closed(shape.max_splits as nat, self.split as nat);
            }
            self.end_radius.sustained()
        };
        let radial_segments = if self.split == 1 && self.radial_segments % 2 == 0 {
            self.radial_segments / 2
        } else {
            self.radial_segments
        };
        let branch_decay = self.branch_decay.saturating_add(shape.branch_decay);
        let ghost p = ctx.plant;
        let mut children: Vec<Branch> = Vec::new();
        let mut i: usize = 0;
        while i < n
            invariant
                p == old(ctx).plant,
                ctx.plant == p,
                i <= n,
                n >= 1,
                n == split_count_spec(draw as nat, self.branch_decay as nat),
                shape.branches_min <= draw <= shape.branches_max,
                shape_valid(*shape),
                self.follows(*shape),
                self.split < shape.max_splits,
                end_radius == end_radius_at(shape.max_splits as nat, (self.split + 1) as nat),
                radial_segments == radial_at(shape.radial_segments, (self.split + 1) as nat),
                branch_decay == decay_at(shape.branch_decay, (self.split + 1) as nat),
                children@.len() == i,
                forall|c: int| 0 <= c < i ==> (#[trigger] children@[c]).follows(*shape),
                forall|c: int| 0 <= c < i ==> (#[trigger] children@[c]).start_radius == self.end_radius,
                forall|c: int| 0 <= c < i ==> (#[trigger] children@[c]).end_radius == end_radius,
                forall|c: int| 0 <= c < i ==> (#[trigger] children@[c]).radial_segments == radial_segments,
                forall|c: int| 0 <= c < i ==> (#[trigger] children@[c]).branch_decay == branch_decay,
                end_radius == (if self.split + 2 == shape.max_splits {
                    Radius::Zero
                } else {
                    self.end_radius.sustained_spec()
                }),
                radial_segments == (if self.split == 1 && self.radial_segments % 2 == 0 {
                    self.radial_segments / 2
                } else {
                    self.radial_segments
                }),
                branch_decay == (if self.branch_decay + shape.branch_decay > usize::MAX {
                    usize::MAX
                } else {
                    (self.branch_decay + shape.branch_decay) as usize
                }),
                forall|c: int| 0 <= c < i ==> (#[trigger] children@[c]).split == self.split + 1,
                forall|c: int| 0 <= c < i ==> (#[trigger] children@[c]).parent == Some(index),
                forall|c: int| 0 <= c < i ==> (#[trigger] children@[c]).start_loop@ == end_loop@,
                forall|c: int|
                    0 <= c < i ==> yaw_drawn(
                        (#[trigger] children@[c]).yaw,
                        self.yaw,
                        self.split as nat,
                        c as nat,
                        n as nat,
                        shape.branch_sway,
                    ),
            decreases n - i,
        {
            let yaw_word = draw_word(&mut ctx.rng);
            let twist_word = draw_word(&mut ctx.rng);
            let bend_word = draw_word(&mut ctx.rng);
            let yaw = child_yaw(self.yaw, self.split, i, n, shape.branch_sway, yaw_word);
            let start_loop = end_loop.clone();
            assert(start_loop@ =~= end_loop@);
            let child = Branch {
                split: self.split + 1,
                branch_decay,
                start_radius: self.end_radius,
                end_radius,
                yaw,
                bend_word,
                twist_word,
                segments: self.segments,
                radial_segments,
                start_loop,
                parent: Some(index),
            };
            let ghost earlier = children@;
            children.push(child);
            proof {
                assert forall|c: int| 0 <= c < i + 1 implies yaw_drawn(
                    (#[trigger] children@[c]).yaw,
                    self.yaw,
                    self.split as nat,
                    c as nat,
                    n as nat,
                    shape.branch_sway,
                ) by {
                    if c < i {
                        assert(children@[c] == earlier[c]);
                    } else {
                        assert(children@[c].yaw == child_yaw_spec(
                            self.yaw,
                            self.split as nat,
                            c as nat,
                            n as nat,
                            shape.branch_sway,
                            yaw_word,
                        ));
                    }
                }
                assert(child.start_radius == start_radius_at(shape.max_splits as nat, child.split as nat));
                assert(child.follows(*shape));
                assert(children@[i as int] == child);
                assert(child.yaw == child_yaw_spec(
                    self.yaw,
                    self.split as nat,
                    i as nat,
                    n as nat,
                    shape.branch_sway,
                    yaw_word,
                ));
            }
            i = i + 1;
        }
        children
    }
}

impl Branch {
    /// A copy of this branch, with its own copy of the start loop.
    pub fn duplicate(&self) -> (r: Branch)
        ensures
            r.split == self.split,
            r.branch_decay == self.branch_decay,
            r.start_radius == self.start_radius,
            r.end_radius == self.end_radius,
            r.yaw == self.yaw,
            r.bend_word == self.bend_word,
            r.twist_word == self.twist_word,
            r.segments == self.segments,
            r.radial_segments == self.radial_segments,
            r.start_loop@ == self.start_loop@,
            r.parent == self.parent,
    {
        let start_loop = self.start_loop.clone();
        assert(start_loop@ =~= self.start_loop@);
        Branch {
            split: self.split,
            branch_decay: self.branch_decay,
            start_radius: self.start_radius,
            end_radius: self.end_radius,
            yaw: self.yaw,
            bend_word: self.bend_word,
            twist_word: self.twist_word,
            segments: self.segments,
            radial_segments: self.radial_segments,
            start_loop,
            parent: self.parent,
        }
    }
}

} // verus!
