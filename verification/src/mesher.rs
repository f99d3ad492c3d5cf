//! The mesher: turns a chunk and the boundary occupancy of its six
//! neighbors into triangle geometry with per-face culling.
//!
//! For every non-air cell, each of the six faces whose neighboring cell
//! is unoccupied gets one quad (two triangles, consistent winding) with
//! the outward normal and a fixed 0-1 texture mapping.  A neighbor cell
//! inside the chunk is read directly; across the chunk boundary it is
//! read from the supplied boundary slice of the adjacent chunk, and a
//! missing (unloaded) neighbor counts as open, so faces at the edge of
//! loaded terrain are always drawn.
//!
//! Cells are visited x outermost, then y, then z, and faces emitted in
//! the fixed order left, right, top, bottom, front, back, so equal
//! inputs give identical geometry.
//!
//! Geometry is emitted on the integer lattice of block corners (block
//! positions, unit cubes); the renderer scales and translates it.

use vstd::prelude::*;

use crate::block_registry::BlockRegistry;
use crate::chunk::{spec_cell_index, Chunk, CHUNK_SIZE};
use crate::codec::cells_registered;
use crate::codec::Cells;

verus! {

/// One side of a cell or chunk.
#[derive(Debug, Clone, Copy, PartialEq, Eq, Structural)]
pub enum Side {
    Left,
    Right,
    Top,
    Bottom,
    Front,
    Back,
}

/// Occupancy of the six cells around one block.
#[derive(Debug, Clone, Copy, PartialEq, Eq, Structural)]
pub struct AdjacentBlocks {
    pub left: bool,
    pub right: bool,
    pub top: bool,
    pub bottom: bool,
    pub front: bool,
    pub back: bool,
}

/// One boundary plane of a neighbor chunk: the occupancy of the
/// CHUNK_SIZE x CHUNK_SIZE cells that face this chunk, indexed
/// a * CHUNK_SIZE + b.
#[derive(Debug, PartialEq)]
pub struct FaceMask {
    cells: Vec<bool>,
}

impl View for FaceMask {
    type V = Seq<bool>;

    closed spec fn view(&self) -> Seq<bool> {
        self.cells@
    }
}

impl FaceMask {
    pub open spec fn wf(self) -> bool {
        self@.len() == CHUNK_SIZE * CHUNK_SIZE
    }

    pub open spec fn spec_at(self, a: int, b: int) -> bool {
        self@[a * CHUNK_SIZE + b]
    }

    /// A fully open plane.
    pub fn new() -> (r: FaceMask)
        ensures
            r.wf(),
            forall|i: int| 0 <= i < CHUNK_SIZE * CHUNK_SIZE ==> !r@[i],
    {
        let cells: Vec<bool> = vec![false; CHUNK_SIZE * CHUNK_SIZE];
        FaceMask { cells }
    }

    pub fn set(&mut self, a: usize, b: usize, v: bool)
        requires
            old(self).wf(),
            a < CHUNK_SIZE,
            b < CHUNK_SIZE,
        ensures
            final(self).wf(),
            final(self)@ == old(self)@.update(a * CHUNK_SIZE + b, v),
    {
        self.cells.set(a * CHUNK_SIZE + b, v);
    }

    pub fn at(&self, a: usize, b: usize) -> (r: bool)
        requires
            self.wf(),
            a < CHUNK_SIZE,
            b < CHUNK_SIZE,
        ensures
            r == self.spec_at(a as int, b as int),
    {
        self.cells[a * CHUNK_SIZE + b]
    }
}

/// The boundary occupancy of the up-to-six face-adjacent neighbor
/// chunks; `None` for a neighbor that is not loaded, which the mesher
/// treats as open.
pub struct AdjacentChunkData {
    pub left: Option<FaceMask>,
    pub right: Option<FaceMask>,
    pub top: Option<FaceMask>,
    pub bottom: Option<FaceMask>,
    pub front: Option<FaceMask>,
    pub back: Option<FaceMask>,
}

impl AdjacentChunkData {
    pub open spec fn wf(self) -> bool {
        &&& (self.left matches Some(m) ==> m.wf())
        &&& (self.right matches Some(m) ==> m.wf())
        &&& (self.top matches Some(m) ==> m.wf())
        &&& (self.bottom matches Some(m) ==> m.wf())
        &&& (self.front matches Some(m) ==> m.wf())
        &&& (self.back matches Some(m) ==> m.wf())
    }

    /// No neighbor data at all: every boundary face will be drawn.
    pub fn none() -> (r: AdjacentChunkData)
        ensures
            r.wf(),
            r.left is None && r.right is None && r.top is None && r.bottom is None && r.front
                is None && r.back is None,
    {
        AdjacentChunkData {
            left: None,
            right: None,
            top: None,
            bottom: None,
            front: None,
            back: None,
        }
    }
}

/// Whether the cell at (x, y, z) holds a block.
pub open spec fn occupied(cells: Cells, x: int, y: int, z: int) -> bool {
    cells[spec_cell_index(x, y, z)] is Some
}

/// Occupancy of a boundary plane cell; a missing neighbor is open.
pub open spec fn mask_at(m: Option<FaceMask>, a: int, b: int) -> bool {
    match m {
        None => false,
        Some(fm) => fm.spec_at(a, b),
    }
}

/// Occupancy of the cell on the given side of (x, y, z): read from this
/// chunk when it lies inside, else from the neighbor's boundary plane.
pub open spec fn neighbor_occupied(
    cells: Cells,
    adj: AdjacentChunkData,
    x: int,
    y: int,
    z: int,
    side: Side,
) -> bool {
    let last = CHUNK_SIZE - 1;
    match side {
        Side::Left => if x == 0 {
            mask_at(adj.left, y, z)
        } else {
            occupied(cells, x - 1, y, z)
        },
        Side::Right => if x == last {
            mask_at(adj.right, y, z)
        } else {
            occupied(cells, x + 1, y, z)
        },
        Side::Top => if y == last {
            mask_at(adj.top, x, z)
        } else {
            occupied(cells, x, y + 1, z)
        },
        Side::Bottom => if y == 0 {
            mask_at(adj.bottom, x, z)
        } else {
            occupied(cells, x, y - 1, z)
        },
        Side::Front => if z == last {
            mask_at(adj.front, x, y)
        } else {
            occupied(cells, x, y, z + 1)
        },
        Side::Back => if z == 0 {
            mask_at(adj.back, x, y)
        } else {
            occupied(cells, x, y, z - 1)
        },
    }
}

/// A face of the cell at (x, y, z) is emitted exactly when the cell
/// holds a block and the neighboring cell on that side does not.
pub open spec fn face_visible(
    cells: Cells,
    adj: AdjacentChunkData,
    x: int,
    y: int,
    z: int,
    side: Side,
) -> bool {
    occupied(cells, x, y, z) && !neighbor_occupied(cells, adj, x, y, z, side)
}

// ---------------------------------------------------------------------
// The face list, in emission order
// ---------------------------------------------------------------------

/// Zero or one face of one cell.
pub open spec fn side_face(
    cells: Cells,
    adj: AdjacentChunkData,
    x: int,
    y: int,
    z: int,
    side: Side,
) -> Seq<(int, int, int, Side)> {
    if face_visible(cells, adj, x, y, z, side) {
        seq![(x, y, z, side)]
    } else {
        Seq::empty()
    }
}

/// The faces one cell contributes, in the fixed side order.
pub open spec fn cell_faces(cells: Cells, adj: AdjacentChunkData, x: int, y: int, z: int) -> Seq<
    (int, int, int, Side),
> {
    side_face(cells, adj, x, y, z, Side::Left) + side_face(cells, adj, x, y, z, Side::Right)
        + side_face(cells, adj, x, y, z, Side::Top) + side_face(cells, adj, x, y, z, Side::Bottom)
        + side_face(cells, adj, x, y, z, Side::Front) + side_face(cells, adj, x, y, z, Side::Back)
}

/// Faces of the cells (x, y, 0) through (x, y, z_end - 1).
pub open spec fn faces_upto_z(
    cells: Cells,
    adj: AdjacentChunkData,
    x: int,
    y: int,
    z_end: int,
) -> Seq<(int, int, int, Side)>
    decreases z_end,
{
    if z_end <= 0 {
        Seq::empty()
    } else {
        faces_upto_z(cells, adj, x, y, z_end - 1) + cell_faces(cells, adj, x, y, z_end - 1)
    }
}

/// Faces of all cells of columns (x, 0) through (x, y_end - 1).
pub open spec fn faces_upto_y(cells: Cells, adj: AdjacentChunkData, x: int, y_end: int) -> Seq<
    (int, int, int, Side),
>
    decreases y_end,
{
    if y_end <= 0 {
        Seq::empty()
    } else {
        faces_upto_y(cells, adj, x, y_end - 1) + faces_upto_z(
            cells,
            adj,
            x,
            y_end - 1,
            CHUNK_SIZE as int,
        )
    }
}

/// Faces of all cells of slabs 0 through x_end - 1.
pub open spec fn faces_upto_x(cells: Cells, adj: AdjacentChunkData, x_end: int) -> Seq<
    (int, int, int, Side),
>
    decreases x_end,
{
    if x_end <= 0 {
        Seq::empty()
    } else {
        faces_upto_x(cells, adj, x_end - 1) + faces_upto_y(
            cells,
            adj,
            x_end - 1,
            CHUNK_SIZE as int,
        )
    }
}

/// Every visible face of the chunk, in emission order.
pub open spec fn spec_visible_faces(cells: Cells, adj: AdjacentChunkData) -> Seq<
    (int, int, int, Side),
> {
    faces_upto_x(cells, adj, CHUNK_SIZE as int)
}

// ---------------------------------------------------------------------
// The geometry of each face
// ---------------------------------------------------------------------

/// A lattice point as vertex coordinates.
pub open spec fn v3(a: int, b: int, c: int) -> (i32, i32, i32) {
    (a as i32, b as i32, c as i32)
}

/// The four corners of a face's quad, in emission order.
pub open spec fn quad_positions(f: (int, int, int, Side)) -> Seq<(i32, i32, i32)> {
    let x = f.0;
    let y = f.1;
    let z = f.2;
    match f.3 {
        Side::Left => seq![v3(x, y, z), v3(x, y + 1, z), v3(x, y + 1, z + 1), v3(x, y, z + 1)],
        Side::Right => seq![
            v3(x + 1, y, z),
            v3(x + 1, y + 1, z),
            v3(x + 1, y + 1, z + 1),
            v3(x + 1, y, z + 1),
        ],
        Side::Top => seq![
            v3(x, y + 1, z),
            v3(x + 1, y + 1, z),
            v3(x + 1, y + 1, z + 1),
            v3(x, y + 1, z + 1),
        ],
        Side::Bottom => seq![v3(x, y, z), v3(x + 1, y, z), v3(x + 1, y, z + 1), v3(x, y, z + 1)],
        Side::Front => seq![
            v3(x, y, z + 1),
            v3(x + 1, y, z + 1),
            v3(x + 1, y + 1, z + 1),
            v3(x, y + 1, z + 1),
        ],
        Side::Back => seq![v3(x, y, z), v3(x + 1, y, z), v3(x + 1, y + 1, z), v3(x, y + 1, z)],
    }
}

/// The outward normal of a side.
pub open spec fn side_normal(side: Side) -> (i32, i32, i32) {
    match side {
        Side::Left => (-1i32, 0i32, 0i32),
        Side::Right => (1i32, 0i32, 0i32),
        Side::Top => (0i32, 1i32, 0i32),
        Side::Bottom => (0i32, -1i32, 0i32),
        Side::Front => (0i32, 0i32, 1i32),
        Side::Back => (0i32, 0i32, -1i32),
    }
}

/// Each quad repeats its side's normal for all four corners.
pub open spec fn quad_normals(side: Side) -> Seq<(i32, i32, i32)> {
    let n = side_normal(side);
    seq![n, n, n, n]
}

/// The fixed 0-1 texture mapping of every quad.
pub open spec fn quad_uvs() -> Seq<(i32, i32)> {
    seq![(0, 0), (0, 1), (1, 1), (1, 0)]
}

/// The two triangles of a quad, as offsets from its first vertex; the
/// winding keeps every face fronting outward.
pub open spec fn winding(side: Side) -> Seq<int> {
    match side {
        Side::Left => seq![0, 3, 2, 2, 1, 0],
        Side::Right => seq![0, 1, 2, 2, 3, 0],
        Side::Top => seq![0, 3, 2, 2, 1, 0],
        Side::Bottom => seq![0, 1, 2, 2, 3, 0],
        Side::Front => seq![0, 1, 2, 2, 3, 0],
        Side::Back => seq![0, 3, 2, 2, 1, 0],
    }
}

/// The six triangle indices of a quad whose first vertex sits at `base`.
pub open spec fn quad_indices(side: Side, base: int) -> Seq<u32> {
    winding(side).map_values(|o: int| (base + o) as u32)
}

/// The corner buffer of a face list.
#[verifier::opaque]
pub open spec fn faces_positions(faces: Seq<(int, int, int, Side)>) -> Seq<(i32, i32, i32)>
    decreases faces.len(),
{
    if faces.len() == 0 {
        Seq::empty()
    } else {
        faces_positions(faces.drop_last()) + quad_positions(faces.last())
    }
}

/// The normal buffer of a face list.
#[verifier::opaque]
pub open spec fn faces_normals(faces: Seq<(int, int, int, Side)>) -> Seq<(i32, i32, i32)>
    decreases faces.len(),
{
    if faces.len() == 0 {
        Seq::empty()
    } else {
        faces_normals(faces.drop_last()) + quad_normals(faces.last().3)
    }
}

/// The texture-coordinate buffer of a face list.
#[verifier::opaque]
pub open spec fn faces_uvs(faces: Seq<(int, int, int, Side)>) -> Seq<(i32, i32)>
    decreases faces.len(),
{
    if faces.len() == 0 {
        Seq::empty()
    } else {
        faces_uvs(faces.drop_last()) + quad_uvs()
    }
}

/// The index buffer of a face list whose first quad's corners start at
/// `base` in the corner buffer.
#[verifier::opaque]
pub open spec fn faces_indices_from(faces: Seq<(int, int, int, Side)>, base: int) -> Seq<u32>
    decreases faces.len(),
{
    if faces.len() == 0 {
        Seq::empty()
    } else {
        faces_indices_from(faces.drop_last(), base) + quad_indices(
            faces.last().3,
            base + 4 * (faces.len() - 1),
        )
    }
}

/// The finished geometry of a chunk: a vertex buffer (positions,
/// normals, texture coordinates, one entry each per vertex) and a
/// triangle-list index buffer.  When the buffers are non-empty the same
/// triangles also serve as the chunk's collision shape
/// (`wants_collider`); an empty chunk has no physical presence.
pub struct MeshData {
    pub positions: Vec<(i32, i32, i32)>,
    pub normals: Vec<(i32, i32, i32)>,
    pub texcoords: Vec<(i32, i32)>,
    pub indices: Vec<u32>,
}

impl MeshData {
    /// A collision shape is derived exactly when there is geometry.
    pub fn wants_collider(&self) -> (r: bool)
        ensures
            r == (self.positions@.len() > 0),
    {
        self.positions.len() > 0
    }
}

/// A built mesh is exactly the geometry of the visible faces.
pub open spec fn is_mesh_of(m: MeshData, cells: Cells, adj: AdjacentChunkData) -> bool {
    let faces = spec_visible_faces(cells, adj);
    &&& m.positions@ == faces_positions(faces)
    &&& m.normals@ == faces_normals(faces)
    &&& m.texcoords@ == faces_uvs(faces)
    &&& m.indices@ == faces_indices_from(faces, 0)
}

// ---------------------------------------------------------------------
// Concatenation laws of the geometry buffers
// ---------------------------------------------------------------------

pub proof fn lemma_positions_concat(a: Seq<(int, int, int, Side)>, b: Seq<(int, int, int, Side)>)
    ensures
        faces_positions(a + b) == faces_positions(a) + faces_positions(b),
    decreases b.len(),
{
    reveal(faces_positions);
    reveal(faces_normals);
    reveal(faces_uvs);
    reveal(faces_indices_from);
    if b.len() == 0 {
        assert(a + b =~= a);
        assert(faces_positions(a) + faces_positions(b) =~= faces_positions(a));
    } else {
        assert((a + b).drop_last() =~= a + b.drop_last());
        lemma_positions_concat(a, b.drop_last());
        assert((a + b).last() == b.last());
        assert(faces_positions(a) + faces_positions(b.drop_last()) + quad_positions(b.last())
            =~= faces_positions(a) + (faces_positions(b.drop_last()) + quad_positions(b.last())));
    }
}

pub proof fn lemma_normals_concat(a: Seq<(int, int, int, Side)>, b: Seq<(int, int, int, Side)>)
    ensures
        faces_normals(a + b) == faces_normals(a) + faces_normals(b),
    decreases b.len(),
{
    reveal(faces_positions);
    reveal(faces_normals);
    reveal(faces_uvs);
    reveal(faces_indices_from);
    if b.len() == 0 {
        assert(a + b =~= a);
        assert(faces_normals(a) + faces_normals(b) =~= faces_normals(a));
    } else {
        assert((a + b).drop_last() =~= a + b.drop_last());
        lemma_normals_concat(a, b.drop_last());
        assert(faces_normals(a) + faces_normals(b.drop_last()) + quad_normals(b.last().3)
            =~= faces_normals(a) + (faces_normals(b.drop_last()) + quad_normals(b.last().3)));
    }
}

pub proof fn lemma_uvs_concat(a: Seq<(int, int, int, Side)>, b: Seq<(int, int, int, Side)>)
    ensures
        faces_uvs(a + b) == faces_uvs(a) + faces_uvs(b),
    decreases b.len(),
{
    reveal(faces_positions);
    reveal(faces_normals);
    reveal(faces_uvs);
    reveal(faces_indices_from);
    if b.len() == 0 {
        assert(a + b =~= a);
        assert(faces_uvs(a) + faces_uvs(b) =~= faces_uvs(a));
    } else {
        assert((a + b).drop_last() =~= a + b.drop_last());
        lemma_uvs_concat(a, b.drop_last());
        assert(faces_uvs(a) + faces_uvs(b.drop_last()) + quad_uvs() =~= faces_uvs(a) + (faces_uvs(
            b.drop_last(),
        ) + quad_uvs()));
    }
}

pub proof fn lemma_indices_concat(
    a: Seq<(int, int, int, Side)>,
    b: Seq<(int, int, int, Side)>,
    base: int,
)
    ensures
        faces_indices_from(a + b, base) == faces_indices_from(a, base) + faces_indices_from(
            b,
            base + 4 * a.len(),
        ),
    decreases b.len(),
{
    reveal(faces_positions);
    reveal(faces_normals);
    reveal(faces_uvs);
    reveal(faces_indices_from);
    if b.len() == 0 {
        assert(a + b =~= a);
        assert(faces_indices_from(a, base) + faces_indices_from(b, base + 4 * a.len())
            =~= faces_indices_from(a, base));
    } else {
        assert((a + b).drop_last() =~= a + b.drop_last());
        lemma_indices_concat(a, b.drop_last(), base);
        assert(base + 4 * ((a + b).len() - 1) == (base + 4 * a.len()) + 4 * (b.len() - 1));
        assert(faces_indices_from(a, base) + faces_indices_from(b.drop_last(), base + 4 * a.len())
            + quad_indices(b.last().3, base + 4 * a.len() + 4 * (b.len() - 1))
            =~= faces_indices_from(a, base) + (faces_indices_from(b.drop_last(), base + 4 * a.len())
            + quad_indices(b.last().3, base + 4 * a.len() + 4 * (b.len() - 1))));
    }
}

pub proof fn lemma_positions_len(faces: Seq<(int, int, int, Side)>)
    ensures
        faces_positions(faces).len() == 4 * faces.len(),
    decreases faces.len(),
{
    reveal(faces_positions);
    reveal(faces_normals);
    reveal(faces_uvs);
    reveal(faces_indices_from);
    if faces.len() > 0 {
        lemma_positions_len(faces.drop_last());
    }
}

// ---------------------------------------------------------------------
// The mesh builder
// ---------------------------------------------------------------------

/// Handle of one vertex in a [`ChunkBuilder`].
#[derive(Debug, Clone, Copy, PartialEq, Eq, Hash, Structural)]
pub struct Index(pub u32);

/// Accumulates the vertex and index buffers of one chunk's mesh.
pub struct ChunkBuilder {
    positions: Vec<(i32, i32, i32)>,
    normals: Vec<(i32, i32, i32)>,
    texcoords: Vec<(i32, i32)>,
    indices: Vec<u32>,
}

impl ChunkBuilder {
    pub closed spec fn spec_positions(self) -> Seq<(i32, i32, i32)> {
        self.positions@
    }

    pub closed spec fn spec_normals(self) -> Seq<(i32, i32, i32)> {
        self.normals@
    }

    pub closed spec fn spec_texcoords(self) -> Seq<(i32, i32)> {
        self.texcoords@
    }

    pub closed spec fn spec_indices(self) -> Seq<u32> {
        self.indices@
    }

    /// One normal and one texture coordinate per corner.
    pub open spec fn wf(self) -> bool {
        self.spec_positions().len() == self.spec_normals().len() && self.spec_positions().len()
            == self.spec_texcoords().len()
    }

    pub fn new() -> (r: Self)
        ensures
            r.wf(),
            r.spec_positions() == Seq::<(i32, i32, i32)>::empty(),
            r.spec_normals() == Seq::<(i32, i32, i32)>::empty(),
            r.spec_texcoords() == Seq::<(i32, i32)>::empty(),
            r.spec_indices() == Seq::<u32>::empty(),
    {
        ChunkBuilder {
            positions: Vec::new(),
            normals: Vec::new(),
            texcoords: Vec::new(),
            indices: Vec::new(),
        }
    }

    /// Append one vertex and hand back its index.
    pub fn vertex(&mut self, position: (i32, i32, i32), normal: (i32, i32, i32), texcoord: (
        i32,
        i32,
    )) -> (r: Index)
        requires
            old(self).wf(),
            old(self).spec_positions().len() < u32::MAX,
        ensures
            final(self).wf(),
            final(self).spec_positions() == old(self).spec_positions().push(position),
            final(self).spec_normals() == old(self).spec_normals().push(normal),
            final(self).spec_texcoords() == old(self).spec_texcoords().push(texcoord),
            final(self).spec_indices() == old(self).spec_indices(),
            r.0 == old(self).spec_positions().len(),
    {
        let index = self.positions.len();
        self.positions.push(position);
        self.normals.push(normal);
        self.texcoords.push(texcoord);
        Index(index as u32)
    }

    /// Append six triangle indices.
    pub fn indices(&mut self, idx: [Index; 6])
        ensures
            final(self).wf() == old(self).wf(),
            final(self).spec_positions() == old(self).spec_positions(),
            final(self).spec_normals() == old(self).spec_normals(),
            final(self).spec_texcoords() == old(self).spec_texcoords(),
            final(self).spec_indices() == old(self).spec_indices() + seq![
                idx@[0].0,
                idx@[1].0,
                idx@[2].0,
                idx@[3].0,
                idx@[4].0,
                idx@[5].0,
            ],
    {
        let mut k: usize = 0;
        while k < 6
            invariant
                k <= 6,
                self.positions@ == old(self).positions@,
                self.normals@ == old(self).normals@,
                self.texcoords@ == old(self).texcoords@,
                self.indices@.len() == old(self).indices@.len() + k,
                forall|i: int| 0 <= i < old(self).indices@.len() ==> self.indices@[i] == old(
                    self,
                ).indices@[i],
                forall|i: int|
                    0 <= i < k ==> self.indices@[old(self).indices@.len() + i] == idx@[i].0,
            decreases 6 - k,
        {
            let v = idx[k];
            self.indices.push(v.0);
            k += 1;
        }
        proof {
            assert(self.indices@ =~= old(self).indices@ + seq![
                idx@[0].0,
                idx@[1].0,
                idx@[2].0,
                idx@[3].0,
                idx@[4].0,
                idx@[5].0,
            ]);
        }
    }

    /// Hand the finished buffers over.
    pub fn build(self) -> (r: MeshData)
        ensures
            r.positions@ == self.spec_positions(),
            r.normals@ == self.spec_normals(),
            r.texcoords@ == self.spec_texcoords(),
            r.indices@ == self.spec_indices(),
    {
        MeshData {
            positions: self.positions,
            normals: self.normals,
            texcoords: self.texcoords,
            indices: self.indices,
        }
    }
}

/// The faces a cell emits given the occupancy of its six neighbors: one
/// per open side, in the fixed side order.
pub open spec fn open_faces(ab: AdjacentBlocks, x: int, y: int, z: int) -> Seq<
    (int, int, int, Side),
> {
    (if !ab.left {
        seq![(x, y, z, Side::Left)]
    } else {
        Seq::empty()
    }) + (if !ab.right {
        seq![(x, y, z, Side::Right)]
    } else {
        Seq::empty()
    }) + (if !ab.top {
        seq![(x, y, z, Side::Top)]
    } else {
        Seq::empty()
    }) + (if !ab.bottom {
        seq![(x, y, z, Side::Bottom)]
    } else {
        Seq::empty()
    }) + (if !ab.front {
        seq![(x, y, z, Side::Front)]
    } else {
        Seq::empty()
    }) + (if !ab.back {
        seq![(x, y, z, Side::Back)]
    } else {
        Seq::empty()
    })
}

/// Emit one quad through the builder: four corners, a shared normal, the
/// fixed texture mapping, and six indices with the side's winding.
fn emit_quad(
    builder: &mut ChunkBuilder,
    Ghost(face): Ghost<(int, int, int, Side)>,
    p0: (i32, i32, i32),
    p1: (i32, i32, i32),
    p2: (i32, i32, i32),
    p3: (i32, i32, i32),
    n: (i32, i32, i32),
    flip: bool,
)
    requires
        old(builder).wf(),
        old(builder).spec_positions().len() + 4 <= u32::MAX,
        quad_positions(face) == seq![p0, p1, p2, p3],
        n == side_normal(face.3),
        flip <==> (face.3 == Side::Left || face.3 == Side::Top || face.3 == Side::Back),
    ensures
        final(builder).wf(),
        final(builder).spec_positions() == old(builder).spec_positions() + quad_positions(face),
        final(builder).spec_normals() == old(builder).spec_normals() + quad_normals(face.3),
        final(builder).spec_texcoords() == old(builder).spec_texcoords() + quad_uvs(),
        final(builder).spec_indices() == old(builder).spec_indices() + quad_indices(
            face.3,
            old(builder).spec_positions().len() as int,
        ),
{
    let ghost base = builder.spec_positions().len() as int;
    let a = builder.vertex(p0, n, (0, 0));
    let b = builder.vertex(p1, n, (0, 1));
    let c = builder.vertex(p2, n, (1, 1));
    let d = builder.vertex(p3, n, (1, 0));
    if flip {
        builder.indices([a, d, c, c, b, a]);
        proof {
            assert(winding(face.3) =~= seq![0int, 3int, 2int, 2int, 1int, 0int]);
            assert(quad_indices(face.3, base) =~= seq![a.0, d.0, c.0, c.0, b.0, a.0]);
        }
    } else {
        builder.indices([a, b, c, c, d, a]);
        proof {
            assert(winding(face.3) =~= seq![0int, 1int, 2int, 2int, 3int, 0int]);
            assert(quad_indices(face.3, base) =~= seq![a.0, b.0, c.0, c.0, d.0, a.0]);
        }
    }
    proof {
        assert(final(builder).spec_positions() =~= old(builder).spec_positions() + quad_positions(
            face,
        ));
        assert(final(builder).spec_normals() =~= old(builder).spec_normals() + quad_normals(
            face.3,
        ));
        assert(final(builder).spec_texcoords() =~= old(builder).spec_texcoords() + quad_uvs());
    }
}

/// The geometry of a one-face list is the face's own geometry.
pub proof fn lemma_buffers_singleton(f: (int, int, int, Side), base: int)
    ensures
        faces_positions(seq![f]) == quad_positions(f),
        faces_normals(seq![f]) == quad_normals(f.3),
        faces_uvs(seq![f]) == quad_uvs(),
        faces_indices_from(seq![f], base) == quad_indices(f.3, base),
{
    reveal(faces_positions);
    reveal(faces_normals);
    reveal(faces_uvs);
    reveal(faces_indices_from);
    let s = seq![f];
    assert(s.drop_last() =~= Seq::<(int, int, int, Side)>::empty());
    assert(s.last() == f);
    assert(faces_positions(s.drop_last()) + quad_positions(f) =~= quad_positions(f));
    assert(faces_normals(s.drop_last()) + quad_normals(f.3) =~= quad_normals(f.3));
    assert(faces_uvs(s.drop_last()) + quad_uvs() =~= quad_uvs());
    assert(faces_indices_from(s.drop_last(), base) + quad_indices(f.3, base) =~= quad_indices(
        f.3,
        base,
    ));
}

/// Zero or one face at (x, y, z): present exactly when `open` holds.
pub open spec fn cond_face(open: bool, x: int, y: int, z: int, side: Side) -> Seq<
    (int, int, int, Side),
> {
    if open {
        seq![(x, y, z, side)]
    } else {
        Seq::empty()
    }
}

/// Emit the face of one side of the cell at (x, y, z) when that side is
/// open, through the builder.
fn emit_side(builder: &mut ChunkBuilder, open: bool, side: Side, x: i32, y: i32, z: i32)
    requires
        old(builder).wf(),
        0 <= x < CHUNK_SIZE,
        0 <= y < CHUNK_SIZE,
        0 <= z < CHUNK_SIZE,
        old(builder).spec_positions().len() + 4 <= u32::MAX,
    ensures
        final(builder).wf(),
        ({
            let sf = cond_face(open, x as int, y as int, z as int, side);
            &&& final(builder).spec_positions() == old(builder).spec_positions()
                + faces_positions(sf)
            &&& final(builder).spec_normals() == old(builder).spec_normals() + faces_normals(sf)
            &&& final(builder).spec_texcoords() == old(builder).spec_texcoords() + faces_uvs(sf)
            &&& final(builder).spec_indices() == old(builder).spec_indices() + faces_indices_from(
                sf,
                old(builder).spec_positions().len() as int,
            )
            &&& final(builder).spec_positions().len() == old(builder).spec_positions().len() + 4
                * sf.len()
        }),
{
    let ghost xi = x as int;
    let ghost yi = y as int;
    let ghost zi = z as int;
    let ghost base = builder.spec_positions().len() as int;
    if open {
        let ghost f = (xi, yi, zi, side);
        proof {
            lemma_buffers_singleton(f, base);
        }
        match side {
            Side::Left => {
                proof {
                    assert(quad_positions(f) =~= seq![
                        (x, y, z),
                        (x, (y + 1) as i32, z),
                        (x, (y + 1) as i32, (z + 1) as i32),
                        (x, y, (z + 1) as i32),
                    ]);
                }
                emit_quad(
                    builder,
                    Ghost(f),
                    (x, y, z),
                    (x, y + 1, z),
                    (x, y + 1, z + 1),
                    (x, y, z + 1),
                    (-1, 0, 0),
                    true,
                );
            },
            Side::Right => {
                proof {
                    assert(quad_positions(f) =~= seq![
                        ((x + 1) as i32, y, z),
                        ((x + 1) as i32, (y + 1) as i32, z),
                        ((x + 1) as i32, (y + 1) as i32, (z + 1) as i32),
                        ((x + 1) as i32, y, (z + 1) as i32),
                    ]);
                }
                emit_quad(
                    builder,
                    Ghost(f),
                    (x + 1, y, z),
                    (x + 1, y + 1, z),
                    (x + 1, y + 1, z + 1),
                    (x + 1, y, z + 1),
                    (1, 0, 0),
                    false,
                );
            },
            Side::Top => {
                proof {
                    assert(quad_positions(f) =~= seq![
                        (x, (y + 1) as i32, z),
                        ((x + 1) as i32, (y + 1) as i32, z),
                        ((x + 1) as i32, (y + 1) as i32, (z + 1) as i32),
                        (x, (y + 1) as i32, (z + 1) as i32),
                    ]);
                }
                emit_quad(
                    builder,
                    Ghost(f),
                    (x, y + 1, z),
                    (x + 1, y + 1, z),
                    (x + 1, y + 1, z + 1),
                    (x, y + 1, z + 1),
                    (0, 1, 0),
                    true,
                );
            },
            Side::Bottom => {
                proof {
                    assert(quad_positions(f) =~= seq![
                        (x, y, z),
                        ((x + 1) as i32, y, z),
                        ((x + 1) as i32, y, (z + 1) as i32),
                        (x, y, (z + 1) as i32),
                    ]);
                }
                emit_quad(
                    builder,
                    Ghost(f),
                    (x, y, z),
                    (x + 1, y, z),
                    (x + 1, y, z + 1),
                    (x, y, z + 1),
                    (0, -1, 0),
                    false,
                );
            },
            Side::Front => {
                proof {
                    assert(quad_positions(f) =~= seq![
                        (x, y, (z + 1) as i32),
                        ((x + 1) as i32, y, (z + 1) as i32),
                        ((x + 1) as i32, (y + 1) as i32, (z + 1) as i32),
                        (x, (y + 1) as i32, (z + 1) as i32),
                    ]);
                }
                emit_quad(
                    builder,
                    Ghost(f),
                    (x, y, z + 1),
                    (x + 1, y, z + 1),
                    (x + 1, y + 1, z + 1),
                    (x, y + 1, z + 1),
                    (0, 0, 1),
                    false,
                );
            },
            Side::Back => {
                proof {
                    assert(quad_positions(f) =~= seq![
                        (x, y, z),
                        ((x + 1) as i32, y, z),
                        ((x + 1) as i32, (y + 1) as i32, z),
                        (x, (y + 1) as i32, z),
                    ]);
                }
                emit_quad(
                    builder,
                    Ghost(f),
                    (x, y, z),
                    (x + 1, y, z),
                    (x + 1, y + 1, z),
                    (x, y + 1, z),
                    (0, 0, -1),
                    true,
                );
            },
        }
        proof {
            lemma_positions_len(cond_face(open, xi, yi, zi, side));
        }
    } else {
        proof {
            reveal(faces_positions);
            reveal(faces_normals);
            reveal(faces_uvs);
            reveal(faces_indices_from);
            let sf = cond_face(open, xi, yi, zi, side);
            assert(faces_positions(sf) =~= Seq::<(i32, i32, i32)>::empty());
            assert(faces_normals(sf) =~= Seq::<(i32, i32, i32)>::empty());
            assert(faces_uvs(sf) =~= Seq::<(i32, i32)>::empty());
            assert(faces_indices_from(sf, base) =~= Seq::<u32>::empty());
            assert(final(builder).spec_positions() =~= old(builder).spec_positions()
                + faces_positions(sf));
            assert(final(builder).spec_normals() =~= old(builder).spec_normals() + faces_normals(
                sf,
            ));
            assert(final(builder).spec_texcoords() =~= old(builder).spec_texcoords() + faces_uvs(
                sf,
            ));
            assert(final(builder).spec_indices() =~= old(builder).spec_indices()
                + faces_indices_from(sf, base));
        }
    }
}

/// The k-th side in emission order.
pub open spec fn side_no(k: int) -> Side {
    if k == 0 {
        Side::Left
    } else if k == 1 {
        Side::Right
    } else if k == 2 {
        Side::Top
    } else if k == 3 {
        Side::Bottom
    } else if k == 4 {
        Side::Front
    } else {
        Side::Back
    }
}

/// Whether the k-th side is open according to `ab`.
pub open spec fn side_open(ab: AdjacentBlocks, k: int) -> bool {
    if k == 0 {
        !ab.left
    } else if k == 1 {
        !ab.right
    } else if k == 2 {
        !ab.top
    } else if k == 3 {
        !ab.bottom
    } else if k == 4 {
        !ab.front
    } else {
        !ab.back
    }
}

/// The faces of the first `k` sides of a cell, in emission order.
pub open spec fn prefix_faces(ab: AdjacentBlocks, x: int, y: int, z: int, k: int) -> Seq<
    (int, int, int, Side),
>
    decreases k,
{
    if k <= 0 {
        Seq::empty()
    } else {
        prefix_faces(ab, x, y, z, k - 1) + cond_face(side_open(ab, k - 1), x, y, z, side_no(k - 1))
    }
}

/// After all six sides, the prefix is the cell's whole face list.
pub proof fn lemma_prefix_faces_all(ab: AdjacentBlocks, x: int, y: int, z: int)
    ensures
        prefix_faces(ab, x, y, z, 6) == open_faces(ab, x, y, z),
{
    reveal_with_fuel(prefix_faces, 7);
    assert(prefix_faces(ab, x, y, z, 6) =~= open_faces(ab, x, y, z));
}

/// The face generator of the dirt block: a unit cube at local cell
/// (x, y, z), one quad per side that `adjacent` reports open, emitted in
/// the fixed order left, right, top, bottom, front, back.
pub fn render_dirt(builder: &mut ChunkBuilder, adjacent: AdjacentBlocks, x: i32, y: i32, z: i32)
    requires
        old(builder).wf(),
        0 <= x < CHUNK_SIZE,
        0 <= y < CHUNK_SIZE,
        0 <= z < CHUNK_SIZE,
        old(builder).spec_positions().len() + 24 <= u32::MAX,
    ensures
        final(builder).wf(),
        final(builder).spec_positions() == old(builder).spec_positions() + faces_positions(
            open_faces(adjacent, x as int, y as int, z as int),
        ),
        final(builder).spec_normals() == old(builder).spec_normals() + faces_normals(
            open_faces(adjacent, x as int, y as int, z as int),
        ),
        final(builder).spec_texcoords() == old(builder).spec_texcoords() + faces_uvs(
            open_faces(adjacent, x as int, y as int, z as int),
        ),
        final(builder).spec_indices() == old(builder).spec_indices() + faces_indices_from(
            open_faces(adjacent, x as int, y as int, z as int),
            old(builder).spec_positions().len() as int,
        ),
        final(builder).spec_positions().len() == old(builder).spec_positions().len() + 4
            * open_faces(adjacent, x as int, y as int, z as int).len(),
{
    let ghost xi = x as int;
    let ghost yi = y as int;
    let ghost zi = z as int;
    let ghost pos0 = builder.spec_positions();
    let ghost nrm0 = builder.spec_normals();
    let ghost uv0 = builder.spec_texcoords();
    let ghost idx0 = builder.spec_indices();
    let ghost mut done: Seq<(int, int, int, Side)> = Seq::empty();
    proof {
        reveal(faces_positions);
        reveal(faces_normals);
        reveal(faces_uvs);
        reveal(faces_indices_from);
    }
    let mut k: usize = 0;
    while k < 6
        invariant
            k <= 6,
            0 <= x < CHUNK_SIZE,
            0 <= y < CHUNK_SIZE,
            0 <= z < CHUNK_SIZE,
            xi == x as int && yi == y as int && zi == z as int,
            pos0.len() + 24 <= u32::MAX,
            builder.wf(),
            done == prefix_faces(adjacent, xi, yi, zi, k as int),
            done.len() <= k,
            builder.spec_positions() == pos0 + faces_positions(done),
            builder.spec_normals() == nrm0 + faces_normals(done),
            builder.spec_texcoords() == uv0 + faces_uvs(done),
            builder.spec_indices() == idx0 + faces_indices_from(done, pos0.len() as int),
            builder.spec_positions().len() == pos0.len() + 4 * done.len(),
        decreases 6 - k,
    {
        let open: bool;
        let side: Side;
        if k == 0 {
            open = !adjacent.left;
            side = Side::Left;
        } else if k == 1 {
            open = !adjacent.right;
            side = Side::Right;
        } else if k == 2 {
            open = !adjacent.top;
            side = Side::Top;
        } else if k == 3 {
            open = !adjacent.bottom;
            side = Side::Bottom;
        } else if k == 4 {
            open = !adjacent.front;
            side = Side::Front;
        } else {
            open = !adjacent.back;
            side = Side::Back;
        }
        proof {
            assert(open == side_open(adjacent, k as int) && side == side_no(k as int));
        }
        let ghost cf = cond_face(open, xi, yi, zi, side);
        emit_side(builder, open, side, x, y, z);
        proof {
            lemma_positions_concat(done, cf);
            lemma_normals_concat(done, cf);
            lemma_uvs_concat(done, cf);
            lemma_indices_concat(done, cf, pos0.len() as int);
            lemma_positions_len(done);
            assert(builder.spec_positions() =~= pos0 + faces_positions(done + cf));
            assert(builder.spec_normals() =~= nrm0 + faces_normals(done + cf));
            assert(builder.spec_texcoords() =~= uv0 + faces_uvs(done + cf));
            assert(builder.spec_indices() =~= idx0 + faces_indices_from(done + cf, pos0.len() as int));
            done = done + cf;
            lemma_positions_len(done);
        }
        k += 1;
    }
    proof {
        lemma_prefix_faces_all(adjacent, xi, yi, zi);
    }
}

// ---------------------------------------------------------------------
// What the face list contains
// ---------------------------------------------------------------------

proof fn lemma_concat_contains<T>(a: Seq<T>, b: Seq<T>, x: T)
    ensures
        (a + b).contains(x) <==> a.contains(x) || b.contains(x),
{
    if (a + b).contains(x) {
        let i = choose|i: int| 0 <= i < (a + b).len() && (a + b)[i] == x;
        if i < a.len() {
            assert(a[i] == x);
        } else {
            assert(b[i - a.len()] == x);
        }
    }
    if a.contains(x) {
        let i = choose|i: int| 0 <= i < a.len() && a[i] == x;
        assert((a + b)[i] == x);
    }
    if b.contains(x) {
        let i = choose|i: int| 0 <= i < b.len() && b[i] == x;
        assert((a + b)[a.len() + i] == x);
    }
}

proof fn lemma_cell_faces_membership(
    cells: Cells,
    adj: AdjacentChunkData,
    x: int,
    y: int,
    z: int,
    f: (int, int, int, Side),
)
    ensures
        cell_faces(cells, adj, x, y, z).contains(f) <==> (f.0 == x && f.1 == y && f.2 == z
            && face_visible(cells, adj, x, y, z, f.3)),
{
    let s1 = side_face(cells, adj, x, y, z, Side::Left);
    let s2 = side_face(cells, adj, x, y, z, Side::Right);
    let s3 = side_face(cells, adj, x, y, z, Side::Top);
    let s4 = side_face(cells, adj, x, y, z, Side::Bottom);
    let s5 = side_face(cells, adj, x, y, z, Side::Front);
    let s6 = side_face(cells, adj, x, y, z, Side::Back);
    lemma_concat_contains(s1 + s2 + s3 + s4 + s5, s6, f);
    lemma_concat_contains(s1 + s2 + s3 + s4, s5, f);
    lemma_concat_contains(s1 + s2 + s3, s4, f);
    lemma_concat_contains(s1 + s2, s3, f);
    lemma_concat_contains(s1, s2, f);
    assert forall|side: Side| #[trigger] side_face(cells, adj, x, y, z, side).contains(f) implies (
    f.0 == x && f.1 == y && f.2 == z && f.3 == side && face_visible(
        cells,
        adj,
        x,
        y,
        z,
        side,
    )) by {
        if face_visible(cells, adj, x, y, z, side) {
            assert(side_face(cells, adj, x, y, z, side)[0] == (x, y, z, side));
        }
    }
    if f.0 == x && f.1 == y && f.2 == z && face_visible(cells, adj, x, y, z, f.3) {
        assert(side_face(cells, adj, x, y, z, f.3)[0] == f);
        assert(side_face(cells, adj, x, y, z, f.3).contains(f));
    }
}

proof fn lemma_faces_upto_z_membership(
    cells: Cells,
    adj: AdjacentChunkData,
    x: int,
    y: int,
    z_end: int,
    f: (int, int, int, Side),
)
    ensures
        faces_upto_z(cells, adj, x, y, z_end).contains(f) <==> (f.0 == x && f.1 == y && 0 <= f.2
            < z_end && face_visible(cells, adj, x, y, f.2, f.3)),
    decreases z_end,
{
    if z_end <= 0 {
    } else {
        lemma_faces_upto_z_membership(cells, adj, x, y, z_end - 1, f);
        lemma_concat_contains(
            faces_upto_z(cells, adj, x, y, z_end - 1),
            cell_faces(cells, adj, x, y, z_end - 1),
            f,
        );
        lemma_cell_faces_membership(cells, adj, x, y, z_end - 1, f);
    }
}

proof fn lemma_faces_upto_y_membership(
    cells: Cells,
    adj: AdjacentChunkData,
    x: int,
    y_end: int,
    f: (int, int, int, Side),
)
    ensures
        faces_upto_y(cells, adj, x, y_end).contains(f) <==> (f.0 == x && 0 <= f.1 < y_end && 0
            <= f.2 < CHUNK_SIZE && face_visible(cells, adj, x, f.1, f.2, f.3)),
    decreases y_end,
{
    if y_end <= 0 {
    } else {
        lemma_faces_upto_y_membership(cells, adj, x, y_end - 1, f);
        lemma_concat_contains(
            faces_upto_y(cells, adj, x, y_end - 1),
            faces_upto_z(cells, adj, x, y_end - 1, CHUNK_SIZE as int),
            f,
        );
        lemma_faces_upto_z_membership(cells, adj, x, y_end - 1, CHUNK_SIZE as int, f);
    }
}

proof fn lemma_faces_upto_x_membership(
    cells: Cells,
    adj: AdjacentChunkData,
    x_end: int,
    f: (int, int, int, Side),
)
    ensures
        faces_upto_x(cells, adj, x_end).contains(f) <==> (0 <= f.0 < x_end && 0 <= f.1 < CHUNK_SIZE
            && 0 <= f.2 < CHUNK_SIZE && face_visible(cells, adj, f.0, f.1, f.2, f.3)),
    decreases x_end,
{
    if x_end <= 0 {
    } else {
        lemma_faces_upto_x_membership(cells, adj, x_end - 1, f);
        lemma_concat_contains(
            faces_upto_x(cells, adj, x_end - 1),
            faces_upto_y(cells, adj, x_end - 1, CHUNK_SIZE as int),
            f,
        );
        lemma_faces_upto_y_membership(cells, adj, x_end - 1, CHUNK_SIZE as int, f);
    }
}

/// A face stands in the mesh exactly when its cell is inside the chunk,
/// holds a block, and the neighboring cell on that side is open.
pub proof fn lemma_visible_faces_membership(
    cells: Cells,
    adj: AdjacentChunkData,
    f: (int, int, int, Side),
)
    ensures
        spec_visible_faces(cells, adj).contains(f) <==> (0 <= f.0 < CHUNK_SIZE && 0 <= f.1
            < CHUNK_SIZE && 0 <= f.2 < CHUNK_SIZE && face_visible(cells, adj, f.0, f.1, f.2, f.3)),
{
    lemma_faces_upto_x_membership(cells, adj, CHUNK_SIZE as int, f);
}

// ---------------------------------------------------------------------
// Laws of the mesher
// ---------------------------------------------------------------------

/// Meshing is a pure function of the chunk and the neighbor snapshot:
/// two meshes of the same pair are identical, buffer for buffer.
pub proof fn lemma_mesh_deterministic(
    m1: MeshData,
    m2: MeshData,
    cells: Cells,
    adj: AdjacentChunkData,
)
    requires
        is_mesh_of(m1, cells, adj),
        is_mesh_of(m2, cells, adj),
    ensures
        m1.positions@ == m2.positions@,
        m1.normals@ == m2.normals@,
        m1.texcoords@ == m2.texcoords@,
        m1.indices@ == m2.indices@,
{
}

/// The boundary cell of a side at plane coordinates (a, b), and the
/// neighbor plane it faces.
pub open spec fn boundary_cell(side: Side, a: int, b: int) -> (int, int, int) {
    let last = CHUNK_SIZE - 1;
    match side {
        Side::Left => (0, a, b),
        Side::Right => (last as int, a, b),
        Side::Top => (a, last as int, b),
        Side::Bottom => (a, 0, b),
        Side::Front => (a, b, last as int),
        Side::Back => (a, b, 0),
    }
}

/// The boundary plane `side` of the neighbor data.
pub open spec fn side_mask(adj: AdjacentChunkData, side: Side) -> Option<FaceMask> {
    match side {
        Side::Left => adj.left,
        Side::Right => adj.right,
        Side::Top => adj.top,
        Side::Bottom => adj.bottom,
        Side::Front => adj.front,
        Side::Back => adj.back,
    }
}

/// Boundary correctness, first half: when the neighbor on a side is not
/// loaded, every boundary cell there that holds a block shows its face
/// on that side.
pub proof fn lemma_boundary_face_drawn(
    cells: Cells,
    adj: AdjacentChunkData,
    side: Side,
    a: int,
    b: int,
)
    requires
        0 <= a < CHUNK_SIZE,
        0 <= b < CHUNK_SIZE,
        side_mask(adj, side) is None,
        occupied(cells, boundary_cell(side, a, b).0, boundary_cell(side, a, b).1, boundary_cell(side, a, b).2),
    ensures
        spec_visible_faces(cells, adj).contains(
            (boundary_cell(side, a, b).0, boundary_cell(side, a, b).1, boundary_cell(side, a, b).2, side),
        ),
{
    let c = boundary_cell(side, a, b);
    assert(!neighbor_occupied(cells, adj, c.0, c.1, c.2, side));
    lemma_visible_faces_membership(cells, adj, (c.0, c.1, c.2, side));
}

/// Boundary correctness, second half: when the neighbor on a side is
/// fully solid, no face at all is drawn toward that side.
pub proof fn lemma_boundary_face_culled(
    cells: Cells,
    adj: AdjacentChunkData,
    side: Side,
    a: int,
    b: int,
)
    requires
        0 <= a < CHUNK_SIZE,
        0 <= b < CHUNK_SIZE,
        side_mask(adj, side) matches Some(fm) && fm.wf() && (forall|i: int|
            0 <= i < CHUNK_SIZE * CHUNK_SIZE ==> fm@[i]),
    ensures
        !spec_visible_faces(cells, adj).contains(
            (boundary_cell(side, a, b).0, boundary_cell(side, a, b).1, boundary_cell(side, a, b).2, side),
        ),
{
    let c = boundary_cell(side, a, b);
    let fm = side_mask(adj, side)->Some_0;
    assert(0 <= a * CHUNK_SIZE + b < CHUNK_SIZE * CHUNK_SIZE) by (nonlinear_arith)
        requires
            0 <= a < CHUNK_SIZE,
            0 <= b < CHUNK_SIZE,
    ;
    assert(neighbor_occupied(cells, adj, c.0, c.1, c.2, side));
    lemma_visible_faces_membership(cells, adj, (c.0, c.1, c.2, side));
}

/// Occupancy of a neighbor chunk's plane that faces this chunk across
/// `side`: what the mesher consults for boundary cells on that side.
pub open spec fn boundary_occupied(cells: Cells, side: Side, a: int, b: int) -> bool {
    let last = CHUNK_SIZE - 1;
    match side {
        Side::Left => occupied(cells, last as int, a, b),
        Side::Right => occupied(cells, 0, a, b),
        Side::Top => occupied(cells, a, 0, b),
        Side::Bottom => occupied(cells, a, last as int, b),
        Side::Front => occupied(cells, a, b, 0),
        Side::Back => occupied(cells, a, b, last as int),
    }
}

/// Snapshot the boundary plane of a neighbor chunk that faces this chunk
/// across `side`.
#[verifier::loop_isolation(false)]
pub fn boundary_mask(chunk: &Chunk, side: Side) -> (r: FaceMask)
    requires
        chunk.wf(),
    ensures
        r.wf(),
        forall|a: int, b: int|
            0 <= a < CHUNK_SIZE && 0 <= b < CHUNK_SIZE ==> r.spec_at(a, b) == boundary_occupied(
                chunk@,
                side,
                a,
                b,
            ),
{
    let mut mask = FaceMask::new();
    let mut a: usize = 0;
    while a < CHUNK_SIZE
        invariant
            a <= CHUNK_SIZE,
            mask.wf(),
            forall|a2: int, b2: int|
                0 <= a2 < CHUNK_SIZE && 0 <= b2 < CHUNK_SIZE ==> #[trigger] mask.spec_at(a2, b2)
                    == (a2 < a && boundary_occupied(chunk@, side, a2, b2)),
        decreases CHUNK_SIZE - a,
    {
        let mut b: usize = 0;
        while b < CHUNK_SIZE
            invariant
                b <= CHUNK_SIZE,
                mask.wf(),
                forall|a2: int, b2: int|
                    0 <= a2 < CHUNK_SIZE && 0 <= b2 < CHUNK_SIZE ==> #[trigger] mask.spec_at(
                        a2,
                        b2,
                    ) == ((a2 < a || (a2 == a && b2 < b)) && boundary_occupied(
                        chunk@,
                        side,
                        a2,
                        b2,
                    )),
            decreases CHUNK_SIZE - b,
        {
            let last = CHUNK_SIZE - 1;
            let occ = match side {
                Side::Left => chunk.block(last, a, b).is_some(),
                Side::Right => chunk.block(0, a, b).is_some(),
                Side::Top => chunk.block(a, 0, b).is_some(),
                Side::Bottom => chunk.block(a, last, b).is_some(),
                Side::Front => chunk.block(a, b, 0).is_some(),
                Side::Back => chunk.block(a, b, last).is_some(),
            };
            let ghost pre = mask;
            mask.set(a, b, occ);
            proof {
                assert forall|a2: int, b2: int|
                    0 <= a2 < CHUNK_SIZE && 0 <= b2 < CHUNK_SIZE implies #[trigger] mask.spec_at(
                    a2,
                    b2,
                ) == ((a2 < a || (a2 == a && b2 < b + 1)) && boundary_occupied(
                    chunk@,
                    side,
                    a2,
                    b2,
                )) by {
                    if a2 * CHUNK_SIZE + b2 == a * CHUNK_SIZE + b {
                        crate::visibility::lemma_split_unique(
                            a2,
                            b2,
                            a as int,
                            b as int,
                            CHUNK_SIZE as int,
                        );
                    } else {
                        assert(mask.spec_at(a2, b2) == pre.spec_at(a2, b2));
                    }
                }
            }
            b += 1;
        }
        a += 1;
    }
    mask
}

/// Occupancy of one boundary-plane cell of an optional neighbor.
fn mask_get(m: &Option<FaceMask>, a: usize, b: usize) -> (r: bool)
    requires
        (*m matches Some(fm) ==> fm.wf()),
        a < CHUNK_SIZE,
        b < CHUNK_SIZE,
    ensures
        r == mask_at(*m, a as int, b as int),
{
    match m {
        None => false,
        Some(fm) => fm.at(a, b),
    }
}

/// When the six neighbor-occupancy bits agree with the chunk and its
/// neighbor planes, the open faces of the bits are the cell's faces.
proof fn lemma_open_faces_match(
    cells: Cells,
    adj: AdjacentChunkData,
    ab: AdjacentBlocks,
    x: int,
    y: int,
    z: int,
)
    requires
        occupied(cells, x, y, z),
        ab.left == neighbor_occupied(cells, adj, x, y, z, Side::Left),
        ab.right == neighbor_occupied(cells, adj, x, y, z, Side::Right),
        ab.top == neighbor_occupied(cells, adj, x, y, z, Side::Top),
        ab.bottom == neighbor_occupied(cells, adj, x, y, z, Side::Bottom),
        ab.front == neighbor_occupied(cells, adj, x, y, z, Side::Front),
        ab.back == neighbor_occupied(cells, adj, x, y, z, Side::Back),
    ensures
        open_faces(ab, x, y, z) == cell_faces(cells, adj, x, y, z),
{
    assert(open_faces(ab, x, y, z) =~= cell_faces(cells, adj, x, y, z));
}

/// Mesh one cell: emit the faces of the block at (x, y, z), if any.
#[verifier::rlimit(100)]
fn mesh_cell(
    builder: &mut ChunkBuilder,
    chunk: &Chunk,
    adjacent: &AdjacentChunkData,
    registry: &BlockRegistry,
    x: usize,
    y: usize,
    z: usize,
)
    requires
        chunk.wf(),
        adjacent.wf(),
        registry.wf(),
        cells_registered(chunk@, *registry),
        x < CHUNK_SIZE,
        y < CHUNK_SIZE,
        z < CHUNK_SIZE,
        old(builder).wf(),
        old(builder).spec_positions().len() + 24 <= u32::MAX,
    ensures
        final(builder).wf(),
        ({
            let cf = cell_faces(chunk@, *adjacent, x as int, y as int, z as int);
            &&& final(builder).spec_positions() == old(builder).spec_positions()
                + faces_positions(cf)
            &&& final(builder).spec_normals() == old(builder).spec_normals() + faces_normals(cf)
            &&& final(builder).spec_texcoords() == old(builder).spec_texcoords() + faces_uvs(cf)
            &&& final(builder).spec_indices() == old(builder).spec_indices() + faces_indices_from(
                cf,
                old(builder).spec_positions().len() as int,
            )
            &&& final(builder).spec_positions().len() == old(builder).spec_positions().len() + 4
                * cf.len()
            &&& cf.len() <= 6
        }),
{
    let ghost cells = chunk@;
    let ghost xi = x as int;
    let ghost yi = y as int;
    let ghost zi = z as int;
    let ghost cf = cell_faces(cells, *adjacent, xi, yi, zi);
    match chunk.block(x, y, z) {
        None => {
            proof {
                reveal(faces_positions);
                reveal(faces_normals);
                reveal(faces_uvs);
                reveal(faces_indices_from);
                assert(cf =~= Seq::<(int, int, int, Side)>::empty());
                assert(final(builder).spec_positions() =~= old(builder).spec_positions()
                    + faces_positions(cf));
                assert(final(builder).spec_normals() =~= old(builder).spec_normals()
                    + faces_normals(cf));
                assert(final(builder).spec_texcoords() =~= old(builder).spec_texcoords()
                    + faces_uvs(cf));
                assert(final(builder).spec_indices() =~= old(builder).spec_indices()
                    + faces_indices_from(cf, old(builder).spec_positions().len() as int));
            }
        },
        Some(id) => {
            let block = registry.block(id);
            let ab = AdjacentBlocks {
                left: if x == 0 {
                    mask_get(&adjacent.left, y, z)
                } else {
                    chunk.block(x - 1, y, z).is_some()
                },
                right: if x == CHUNK_SIZE - 1 {
                    mask_get(&adjacent.right, y, z)
                } else {
                    chunk.block(x + 1, y, z).is_some()
                },
                top: if y == CHUNK_SIZE - 1 {
                    mask_get(&adjacent.top, x, z)
                } else {
                    chunk.block(x, y + 1, z).is_some()
                },
                bottom: if y == 0 {
                    mask_get(&adjacent.bottom, x, z)
                } else {
                    chunk.block(x, y - 1, z).is_some()
                },
                front: if z == CHUNK_SIZE - 1 {
                    mask_get(&adjacent.front, x, y)
                } else {
                    chunk.block(x, y, z + 1).is_some()
                },
                back: if z == 0 {
                    mask_get(&adjacent.back, x, y)
                } else {
                    chunk.block(x, y, z - 1).is_some()
                },
            };
            proof {
                assert(ab.left == neighbor_occupied(cells, *adjacent, xi, yi, zi, Side::Left));
                assert(ab.right == neighbor_occupied(cells, *adjacent, xi, yi, zi, Side::Right));
                assert(ab.top == neighbor_occupied(cells, *adjacent, xi, yi, zi, Side::Top));
                assert(ab.bottom == neighbor_occupied(cells, *adjacent, xi, yi, zi, Side::Bottom));
                assert(ab.front == neighbor_occupied(cells, *adjacent, xi, yi, zi, Side::Front));
                assert(ab.back == neighbor_occupied(cells, *adjacent, xi, yi, zi, Side::Back));
                lemma_open_faces_match(cells, *adjacent, ab, xi, yi, zi);
            }
            match block.model {
                crate::block::BlockModel::Cube => {
                    render_dirt(builder, ab, x as i32, y as i32, z as i32);
                },
            }
        },
    }
}

/// Build the mesh of one chunk from its cells and its neighbors'
/// boundary occupancy: exactly the geometry of the visible faces, cells
/// visited x outermost, then y, then z.  The block registry supplies the
/// face-generation model of each block type.
#[verifier::loop_isolation(false)]
#[verifier::rlimit(60)]
pub fn build_chunk(adjacent: &AdjacentChunkData, chunk: &Chunk, registry: &BlockRegistry) -> (r:
    MeshData)
    requires
        chunk.wf(),
        adjacent.wf(),
        registry.wf(),
        cells_registered(chunk@, *registry),
    ensures
        is_mesh_of(r, chunk@, *adjacent),
{
    let ghost cells = chunk@;
    let mut builder = ChunkBuilder::new();
    proof {
        reveal(faces_positions);
        reveal(faces_normals);
        reveal(faces_uvs);
        reveal(faces_indices_from);
        assert(faces_positions(faces_upto_x(cells, *adjacent, 0)) =~= Seq::<(
            i32,
            i32,
            i32,
        )>::empty());
    }
    let mut x: usize = 0;
    while x < CHUNK_SIZE
        invariant
            x <= CHUNK_SIZE,
            builder.wf(),
            builder.spec_positions() == faces_positions(faces_upto_x(cells, *adjacent, x as int)),
            builder.spec_normals() == faces_normals(faces_upto_x(cells, *adjacent, x as int)),
            builder.spec_texcoords() == faces_uvs(faces_upto_x(cells, *adjacent, x as int)),
            builder.spec_indices() == faces_indices_from(
                faces_upto_x(cells, *adjacent, x as int),
                0,
            ),
            builder.spec_positions().len() == 4 * faces_upto_x(cells, *adjacent, x as int).len(),
            faces_upto_x(cells, *adjacent, x as int).len() <= 6144 * x,
        decreases CHUNK_SIZE - x,
    {
        let mut y: usize = 0;
        while y < CHUNK_SIZE
            invariant
                y <= CHUNK_SIZE,
                builder.wf(),
                ({
                    let fs = faces_upto_x(cells, *adjacent, x as int) + faces_upto_y(
                        cells,
                        *adjacent,
                        x as int,
                        y as int,
                    );
                    &&& builder.spec_positions() == faces_positions(fs)
                    &&& builder.spec_normals() == faces_normals(fs)
                    &&& builder.spec_texcoords() == faces_uvs(fs)
                    &&& builder.spec_indices() == faces_indices_from(fs, 0)
                    &&& builder.spec_positions().len() == 4 * fs.len()
                    &&& fs.len() <= 6144 * x + 192 * y
                }),
            decreases CHUNK_SIZE - y,
        {
            let mut z: usize = 0;
            while z < CHUNK_SIZE
                invariant
                    z <= CHUNK_SIZE,
                    builder.wf(),
                    ({
                        let fs = faces_upto_x(cells, *adjacent, x as int) + faces_upto_y(
                            cells,
                            *adjacent,
                            x as int,
                            y as int,
                        ) + faces_upto_z(cells, *adjacent, x as int, y as int, z as int);
                        &&& builder.spec_positions() == faces_positions(fs)
                        &&& builder.spec_normals() == faces_normals(fs)
                        &&& builder.spec_texcoords() == faces_uvs(fs)
                        &&& builder.spec_indices() == faces_indices_from(fs, 0)
                        &&& builder.spec_positions().len() == 4 * fs.len()
                        &&& fs.len() <= 6144 * x + 192 * y + 6 * z
                    }),
                decreases CHUNK_SIZE - z,
            {
                let ghost xi = x as int;
                let ghost yi = y as int;
                let ghost zi = z as int;
                let ghost fs_pre = faces_upto_x(cells, *adjacent, xi) + faces_upto_y(
                    cells,
                    *adjacent,
                    xi,
                    yi,
                ) + faces_upto_z(cells, *adjacent, xi, yi, zi);
                let ghost cf = cell_faces(cells, *adjacent, xi, yi, zi);
                mesh_cell(&mut builder, chunk, adjacent, registry, x, y, z);
                proof {
                    lemma_positions_concat(fs_pre, cf);
                    lemma_normals_concat(fs_pre, cf);
                    lemma_uvs_concat(fs_pre, cf);
                    lemma_indices_concat(fs_pre, cf, 0);
                    lemma_positions_len(fs_pre);
                    assert(builder.spec_positions() =~= faces_positions(fs_pre + cf));
                    assert(builder.spec_normals() =~= faces_normals(fs_pre + cf));
                    assert(builder.spec_texcoords() =~= faces_uvs(fs_pre + cf));
                    assert(builder.spec_indices() =~= faces_indices_from(fs_pre + cf, 0));
                    assert(fs_pre + cf =~= faces_upto_x(cells, *adjacent, xi) + faces_upto_y(
                        cells,
                        *adjacent,
                        xi,
                        yi,
                    ) + faces_upto_z(cells, *adjacent, xi, yi, zi + 1));
                }
                z += 1;
            }
            proof {
                assert(faces_upto_x(cells, *adjacent, x as int) + faces_upto_y(
                    cells,
                    *adjacent,
                    x as int,
                    y as int,
                ) + faces_upto_z(cells, *adjacent, x as int, y as int, CHUNK_SIZE as int)
                    =~= faces_upto_x(cells, *adjacent, x as int) + faces_upto_y(
                    cells,
                    *adjacent,
                    x as int,
                    y as int + 1,
                ));
            }
            y += 1;
        }
        proof {
            assert(faces_upto_x(cells, *adjacent, x as int) + faces_upto_y(
                cells,
                *adjacent,
                x as int,
                CHUNK_SIZE as int,
            ) =~= faces_upto_x(cells, *adjacent, x as int + 1));
        }
        x += 1;
    }
    builder.build()
}

} // verus!
