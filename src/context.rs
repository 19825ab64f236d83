//! The mesh accumulator: the buffers that one growth run fills.
use vstd::prelude::*;
use rand::rngs::SmallRng;
use crate::branch::Branch;
use crate::genome::ConfigError;

verus! {

/// Material id of bark, the surface of branches.
pub const BARK: u32 = 0;

/// Material id of leaves.
pub const LEAF: u32 = 1;

/// The most vertices a plant may hold: every vertex must be addressable by
/// a `u32` index.
pub const MAX_VERTICES: usize = 4294967295;

/// Why growth stopped without a plant.
#[derive(Clone, Copy, Debug, PartialEq, Eq, Structural)]
pub enum GrowthError {
    /// The genome breaks a rule.
    Config(ConfigError),
    /// The plant would need more vertices than `u32` indices can address.
    TooManyVertices,
    /// No seed was given and the system offered no entropy.
    NoEntropy,
}

/// Where a vertex comes from: a slot of a ring, or a corner of a leaf.
#[derive(Clone, Copy, Debug, PartialEq, Eq, Structural)]
pub enum VertexSource {
    Ring { ring: usize, slot: usize },
    Leaf { leaf: usize, corner: usize },
}

/// One ring: a closed loop of `len` vertices, emitted by branch `branch`
/// at segment `segment` (segment 0 is the trunk's base ring). Slot `j` of
/// the ring lies at the angle `j / len` of a full turn around its center.
#[derive(Clone, Copy, Debug, PartialEq, Eq, Structural)]
pub struct Ring {
    pub branch: usize,
    pub segment: usize,
    pub len: usize,
}

/// One leaf: a quad grown at slot `slot` of ring `ring`. The `jitter_*`
/// words offset its base along each axis and the `tilt_*` words tilt its up
/// vector; each is a fraction `w / TURN` of its range.
#[derive(Clone, Copy, Debug, PartialEq, Eq, Structural)]
pub struct Leaf {
    pub ring: usize,
    pub slot: usize,
    pub jitter_x: u32,
    pub jitter_y: u32,
    pub jitter_z: u32,
    pub tilt_x: u32,
    pub tilt_z: u32,
}

/// What growth produces: the branch tree, its rings and leaves, and the
/// per-vertex and per-triangle buffers.
pub struct Plant {
    /// Every branch that emitted rings, parents before children.
    pub branches: Vec<Branch>,
    pub rings: Vec<Ring>,
    pub leaves: Vec<Leaf>,
    /// One record per vertex, in vertex order.
    pub vertices: Vec<VertexSource>,
    /// One material id per vertex.
    pub material: Vec<u32>,
    /// Triangles, three vertex indices each.
    pub indices: Vec<u32>,
    /// How many leaves each recorded branch grew, once it has grown.
    pub leaf_counts: Vec<usize>,
}

/// The state of one growth run: the plant so far and its random source.
pub struct PlantContext {
    pub plant: Plant,
    pub rng: SmallRng,
}

impl Plant {
    pub open spec fn vertex_count(&self) -> nat {
        self.vertices@.len()
    }

    /// Vertex `v` names a ring slot or leaf corner that exists, and its
    /// material matches.
    pub open spec fn source_ok(&self, v: int) -> bool {
        match self.vertices@[v] {
            VertexSource::Ring { ring, slot } => {
                &&& ring < self.rings@.len()
                &&& slot < self.rings@[ring as int].len
                &&& self.material@[v] == BARK
            },
            VertexSource::Leaf { leaf, corner } => {
                &&& leaf < self.leaves@.len()
                &&& corner < 4
                &&& self.material@[v] == LEAF
            },
        }
    }

    /// Leaf `l` grows on a ring slot that exists.
    pub open spec fn leaf_ok(&self, l: int) -> bool {
        &&& self.leaves@[l].ring < self.rings@.len()
        &&& self.leaves@[l].slot < self.rings@[self.leaves@[l].ring as int].len
    }

    /// Every index names a vertex.
    pub open spec fn indices_in_bounds(&self) -> bool {
        forall|i: int| 0 <= i < self.indices@.len() ==> (#[trigger] self.indices@[i]) < self.vertex_count()
    }

    /// The buffers agree: one record and one material id per vertex, whole
    /// triangles of vertices that exist, and records that name what exists.
    pub open spec fn wf(&self) -> bool {
        &&& self.vertices@.len() == self.material@.len()
        &&& self.vertices@.len() <= MAX_VERTICES
        &&& self.indices@.len() % 3 == 0
        &&& self.indices_in_bounds()
        &&& forall|v: int| 0 <= v < self.vertices@.len() ==> #[trigger] self.source_ok(v)
        &&& forall|l: int| 0 <= l < self.leaves@.len() ==> #[trigger] self.leaf_ok(l)
    }

    /// An empty plant.
    pub fn new() -> (r: Plant)
        ensures
            r.wf(),
            r.branches@.len() == 0,
            r.rings@.len() == 0,
            r.leaves@.len() == 0,
            r.vertices@.len() == 0,
            r.indices@.len() == 0,
            r.leaf_counts@.len() == 0,
    {
        Plant {
            branches: Vec::new(),
            rings: Vec::new(),
            leaves: Vec::new(),
            vertices: Vec::new(),
            material: Vec::new(),
            indices: Vec::new(),
            leaf_counts: Vec::new(),
        }
    }
}

/// `n` consecutive vertex indices starting at `base`.
pub open spec fn index_run(base: nat, n: nat) -> Seq<u32> {
    Seq::new(n, |j: int| (base + j) as u32)
}

impl PlantContext {
    /// Appends a ring of `len` bark vertices, emitted by `branch` at
    /// `segment`, and returns their indices in slot order.
    pub fn add_ring(&mut self, branch: usize, segment: usize, len: usize) -> (r: Result<
        Vec<u32>,
        GrowthError,
    >)
        requires
            old(self).plant.wf(),
        ensures
            final(self).rng == old(self).rng,
            r.is_ok() <==> old(self).plant.vertex_count() + len <= MAX_VERTICES,
            r.is_err() ==> r == Err::<Vec<u32>, GrowthError>(GrowthError::TooManyVertices)
                && final(self).plant == old(self).plant,
            r.is_ok() ==> {
                let p = old(self).plant;
                let q = final(self).plant;
                &&& q.wf()
                &&& q.rings@ == p.rings@.push(Ring { branch, segment, len })
                &&& q.vertices@ == p.vertices@ + Seq::new(
                    len as nat,
                    |j: int| VertexSource::Ring { ring: p.rings@.len() as usize, slot: j as usize },
                )
                &&& q.material@ == p.material@ + Seq::new(len as nat, |j: int| BARK)
                &&& q.branches@ == p.branches@
                &&& q.leaf_counts@ == p.leaf_counts@
                &&& q.leaves@ == p.leaves@
                &&& q.indices@ == p.indices@
                &&& r.unwrap()@ == index_run(p.vertex_count(), len as nat)
            },
    {
        let count = self.plant.vertices.len();
        if len > MAX_VERTICES - count {
            return Err(GrowthError::TooManyVertices);
        }
        let ghost p = self.plant;
        let ring = self.plant.rings.len();
        self.plant.rings.push(Ring { branch, segment, len });
        let mut out: Vec<u32> = Vec::new();
        let mut j: usize = 0;
        while j < len
            invariant
                self.rng == old(self).rng,
                j <= len,
                count + len <= MAX_VERTICES,
                count == p.vertices@.len(),
                ring == p.rings@.len(),
                p.wf(),
                self.plant.rings@ == p.rings@.push(Ring { branch, segment, len }),
                self.plant.vertices@ == p.vertices@ + Seq::new(
                    j as nat,
                    |t: int| VertexSource::Ring { ring, slot: t as usize },
                ),
                self.plant.material@ == p.material@ + Seq::new(j as nat, |t: int| BARK),
                self.plant.branches@ == p.branches@,
                self.plant.leaf_counts@ == p.leaf_counts@,
                self.plant.leaves@ == p.leaves@,
                self.plant.indices@ == p.indices@,
                out@ == index_run(count as nat, j as nat),
            decreases len - j,
        {
            self.plant.vertices.push(VertexSource::Ring { ring, slot: j });
            self.plant.material.push(BARK);
            out.push((count + j) as u32);
            j = j + 1;
            assert(self.plant.vertices@ =~= p.vertices@ + Seq::new(
                j as nat,
                |t: int| VertexSource::Ring { ring, slot: t as usize },
            ));
            assert(self.plant.material@ =~= p.material@ + Seq::new(j as nat, |t: int| BARK));
            assert(out@ =~= index_run(count as nat, j as nat));
        }
        proof {
            let q = self.plant;
            assert forall|v: int| 0 <= v < q.vertices@.len() implies #[trigger] q.source_ok(v) by {
                if v < count {
                    assert(p.source_ok(v));
                }
            }
            assert forall|l: int| 0 <= l < q.leaves@.len() implies #[trigger] q.leaf_ok(l) by {
                assert(p.leaf_ok(l));
            }
            assert forall|i: int| 0 <= i < q.indices@.len() implies (#[trigger] q.indices@[i])
                < q.vertex_count() by {
                assert(p.indices@[i] < p.vertex_count());
            }
        }
        Ok(out)
    }
}

/// The two triangles of a leaf whose four corners start at vertex `base`.
pub open spec fn leaf_triangles(base: nat) -> Seq<u32> {
    seq![
        base as u32,
        (base + 1) as u32,
        (base + 2) as u32,
        (base + 1) as u32,
        (base + 3) as u32,
        (base + 2) as u32,
    ]
}

impl Leaf {
    /// Appends this leaf: its record, four leaf vertices and two triangles.
    /// Returns the indices of its corners.
    pub fn generate_mesh(&self, ctx: &mut PlantContext) -> (r: Result<Vec<u32>, GrowthError>)
        requires
            old(ctx).plant.wf(),
            self.ring < old(ctx).plant.rings@.len(),
            self.slot < old(ctx).plant.rings@[self.ring as int].len,
        ensures
            final(ctx).rng == old(ctx).rng,
            r.is_ok() <==> old(ctx).plant.vertex_count() + 4 <= MAX_VERTICES,
            r.is_err() ==> r == Err::<Vec<u32>, GrowthError>(GrowthError::TooManyVertices)
                && final(ctx).plant == old(ctx).plant,
            r.is_ok() ==> {
                let p = old(ctx).plant;
                let q = final(ctx).plant;
                let l = p.leaves@.len() as usize;
                &&& q.wf()
                &&& q.leaves@ == p.leaves@.push(*self)
                &&& q.vertices@ == p.vertices@ + seq![
                    VertexSource::Leaf { leaf: l, corner: 0 },
                    VertexSource::Leaf { leaf: l, corner: 1 },
                    VertexSource::Leaf { leaf: l, corner: 2 },
                    VertexSource::Leaf { leaf: l, corner: 3 },
                ]
                &&& q.material@ == p.material@ + seq![LEAF, LEAF, LEAF, LEAF]
                &&& q.indices@ == p.indices@ + leaf_triangles(p.vertex_count())
                &&& q.branches@ == p.branches@
                &&& q.leaf_counts@ == p.leaf_counts@
                &&& q.rings@ == p.rings@
                &&& r.unwrap()@ == index_run(p.vertex_count(), 4)
            },
    {
        let count = ctx.plant.vertices.len();
        if 4 > MAX_VERTICES - count {
            return Err(GrowthError::TooManyVertices);
        }
        let ghost p = ctx.plant;
        let leaf = ctx.plant.leaves.len();
        ctx.plant.leaves.push(*self);
        let mut out: Vec<u32> = Vec::new();
        let mut c: usize = 0;
        while c < 4
            invariant
                ctx.rng == old(ctx).rng,
                c <= 4,
                count + 4 <= MAX_VERTICES,
                count == p.vertices@.len(),
                leaf == p.leaves@.len(),
                ctx.plant.leaves@ == p.leaves@.push(*self),
                ctx.plant.vertices@ == p.vertices@ + Seq::new(
                    c as nat,
                    |t: int| VertexSource::Leaf { leaf, corner: t as usize },
                ),
                ctx.plant.material@ == p.material@ + Seq::new(c as nat, |t: int| LEAF),
                ctx.plant.branches@ == p.branches@,
                ctx.plant.leaf_counts@ == p.leaf_counts@,
                ctx.plant.rings@ == p.rings@,
                ctx.plant.indices@ == p.indices@,
                out@ == index_run(count as nat, c as nat),
            decreases 4 - c,
        {
            ctx.plant.vertices.push(VertexSource::Leaf { leaf, corner: c });
            ctx.plant.material.push(LEAF);
            out.push((count + c) as u32);
            c = c + 1;
            assert(ctx.plant.vertices@ =~= p.vertices@ + Seq::new(
                c as nat,
                |t: int| VertexSource::Leaf { leaf, corner: t as usize },
            ));
            assert(ctx.plant.material@ =~= p.material@ + Seq::new(c as nat, |t: int| LEAF));
            assert(out@ =~= index_run(count as nat, c as nat));
        }
        let b = count as u32;
        ctx.plant.indices.push(b);
        ctx.plant.indices.push(b + 1);
        ctx.plant.indices.push(b + 2);
        ctx.plant.indices.push(b + 1);
        ctx.plant.indices.push(b + 3);
        ctx.plant.indices.push(b + 2);
        proof {
            let q = ctx.plant;
            assert(q.vertices@ =~= p.vertices@ + seq![
                VertexSource::Leaf { leaf, corner: 0 },
                VertexSource::Leaf { leaf, corner: 1 },
                VertexSource::Leaf { leaf, corner: 2 },
                VertexSource::Leaf { leaf, corner: 3 },
            ]);
            assert(q.material@ =~= p.material@ + seq![LEAF, LEAF, LEAF, LEAF]);
            assert(q.indices@ =~= p.indices@ + leaf_triangles(p.vertex_count()));
            assert forall|v: int| 0 <= v < q.vertices@.len() implies #[trigger] q.source_ok(v) by {
                if v < count {
                    assert(p.source_ok(v));
                }
            }
            assert forall|l: int| 0 <= l < q.leaves@.len() implies #[trigger] q.leaf_ok(l) by {
                if l < leaf {
                    assert(p.leaf_ok(l));
                }
            }
            assert forall|i: int| 0 <= i < q.indices@.len() implies (#[trigger] q.indices@[i])
                < q.vertex_count() by {
                if i < p.indices@.len() {
                    assert(p.indices@[i] < p.vertex_count());
                }
            }
        }
        Ok(out)
    }
}

} // verus!
