//! The chunk store and per-coordinate streaming state.
//!
//! A [`Level`] maps chunk coordinates to loaded chunks, tracks which
//! coordinates have a load task outstanding (at most one per
//! coordinate), which loaded chunks have a stale mesh ("dirty"), and
//! owns the persistent store.  A chunk is loaded exactly when present in
//! the map; it enters the map only once fully populated and leaves it
//! when it falls outside the visible set.

use vstd::prelude::*;

use crate::block_registry::BlockId;
use crate::block_registry::BlockRegistry;
use crate::chunk::{Chunk, CHUNK_SIZE, CHUNK_VOLUME};
use crate::codec::{
    cells_registered, spec_deserialize, spec_serialize, Cells, CodecError,
};
use crate::generator::{generate_chunk, spec_generated_cell};
use crate::mesher::{
    boundary_mask, build_chunk, is_mesh_of, AdjacentChunkData, MeshData, Side,
};
use crate::position::{BlockPos, ChunkPos};
use crate::store::{load_chunk_data, save_chunk_data, store_key, Database, StoreError};

verus! {

/// A chunk entry list holds `p`.
pub open spec fn seq_has_pos(s: Seq<(ChunkPos, Chunk)>, p: ChunkPos) -> bool {
    exists|i: int| 0 <= i < s.len() && (#[trigger] s[i]).0 == p
}

/// The position of the entry of `p` in a chunk entry list.
pub open spec fn pos_index_in(s: Seq<(ChunkPos, Chunk)>, p: ChunkPos) -> int {
    choose|i: int| 0 <= i < s.len() && (#[trigger] s[i]).0 == p
}

/// The cells of the entry of `p` in a chunk entry list.
pub open spec fn cells_at(s: Seq<(ChunkPos, Chunk)>, p: ChunkPos) -> Cells {
    s[pos_index_in(s, p)].1@
}

/// No two entries of a chunk entry list share a coordinate.
pub open spec fn seq_pos_unique(s: Seq<(ChunkPos, Chunk)>) -> bool {
    forall|i: int, j: int| 0 <= i < j < s.len() ==> (#[trigger] s[i]).0 != (#[trigger] s[j]).0
}

/// With unique coordinates, an entry holding `p` is the entry of `p`.
pub proof fn lemma_seq_pos_at(s: Seq<(ChunkPos, Chunk)>, p: ChunkPos, i: int)
    requires
        seq_pos_unique(s),
        0 <= i < s.len(),
        s[i].0 == p,
    ensures
        seq_has_pos(s, p),
        pos_index_in(s, p) == i,
        cells_at(s, p) == s[i].1@,
{
    assert(seq_has_pos(s, p));
    let w = pos_index_in(s, p);
    if w != i {
        assert(s[w].0 == p);
        assert(false);
    }
}

/// Errors of chunk loading and saving, per failure source.
#[derive(Debug, Clone, Copy, PartialEq, Eq, Structural)]
pub enum LevelError {
    /// A persisted chunk references a block name that was never
    /// registered; the chunk load fails rather than dropping blocks.
    UnknownBlockName,
    /// A persisted byte stream is malformed; the load fails and is
    /// surfaced rather than silently regenerated.
    CorruptChunkData,
    /// The backing store is unavailable; the chunk stays absent for
    /// this tick and the load is retried on a later tick.
    StoreIOFailure,
}

/// The library's error for a codec failure.
pub open spec fn codec_error_to_level(e: CodecError) -> LevelError {
    match e {
        CodecError::UnknownBlockName => LevelError::UnknownBlockName,
        CodecError::CorruptChunkData => LevelError::CorruptChunkData,
    }
}

/// The in-memory world: loaded chunks, per-coordinate streaming state,
/// and the persistent store.
pub struct Level {
    db: Database,
    loaded: Vec<(ChunkPos, Chunk)>,
    loading: Vec<ChunkPos>,
    dirty: Vec<ChunkPos>,
}

impl Level {
    pub closed spec fn loaded_seq(self) -> Seq<(ChunkPos, Chunk)> {
        self.loaded@
    }

    pub closed spec fn loading_seq(self) -> Seq<ChunkPos> {
        self.loading@
    }

    pub closed spec fn dirty_seq(self) -> Seq<ChunkPos> {
        self.dirty@
    }

    pub closed spec fn spec_db(self) -> Database {
        self.db
    }

    /// The records of the persistent store.
    pub open spec fn store(self) -> Map<(int, int, int), Seq<u8>> {
        self.spec_db().chunks()
    }

    /// A chunk is loaded exactly when present in the map.
    pub open spec fn is_loaded(self, p: ChunkPos) -> bool {
        seq_has_pos(self.loaded_seq(), p)
    }

    pub open spec fn loaded_index(self, p: ChunkPos) -> int {
        pos_index_in(self.loaded_seq(), p)
    }

    /// The cells of the loaded chunk at `p`.
    pub open spec fn loaded_cells(self, p: ChunkPos) -> Cells
        recommends
            self.is_loaded(p),
    {
        cells_at(self.loaded_seq(), p)
    }

    /// A load or generate task is outstanding for `p`.
    pub open spec fn is_loading(self, p: ChunkPos) -> bool {
        self.loading_seq().contains(p)
    }

    /// The mesh of the loaded chunk at `p` is stale.
    pub open spec fn is_dirty(self, p: ChunkPos) -> bool {
        self.dirty_seq().contains(p)
    }

    /// A scheduling pass must start a load for `p`: it is wanted but
    /// neither loaded nor already being loaded.
    pub open spec fn wants_load(self, p: ChunkPos) -> bool {
        !self.is_loaded(p) && !self.is_loading(p)
    }

    /// No two entries of the loaded map share a coordinate.
    pub open spec fn loaded_unique(self) -> bool {
        seq_pos_unique(self.loaded_seq())
    }

    /// Well-formed: one entry per coordinate, every loaded chunk dense,
    /// no duplicate loading or dirty entries, loading disjoint from
    /// loaded, and dirty only on loaded chunks.
    pub open spec fn wf(self) -> bool {
        &&& self.loaded_unique()
        &&& forall|i: int|
            0 <= i < self.loaded_seq().len() ==> (#[trigger] self.loaded_seq()[i]).1.wf()
        &&& self.loading_seq().no_duplicates()
        &&& forall|i: int|
            0 <= i < self.loading_seq().len() ==> !self.is_loaded(
                #[trigger] self.loading_seq()[i],
            )
        &&& self.dirty_seq().no_duplicates()
        &&& forall|i: int|
            0 <= i < self.dirty_seq().len() ==> self.is_loaded(#[trigger] self.dirty_seq()[i])
    }

    /// With unique coordinates, an entry holding `p` is the entry of `p`.
    pub proof fn lemma_loaded_at(self, p: ChunkPos, i: int)
        requires
            self.loaded_unique(),
            0 <= i < self.loaded_seq().len(),
            self.loaded_seq()[i].0 == p,
        ensures
            self.is_loaded(p),
            self.loaded_index(p) == i,
            self.loaded_cells(p) == self.loaded_seq()[i].1@,
    {
        lemma_seq_pos_at(self.loaded_seq(), p, i);
    }

    /// A fresh level over a store: nothing loaded, loading, or dirty.
    pub fn new(db: Database) -> (r: Level)
        ensures
            r.wf(),
            r.loaded_seq() == Seq::<(ChunkPos, Chunk)>::empty(),
            r.loading_seq() == Seq::<ChunkPos>::empty(),
            r.dirty_seq() == Seq::<ChunkPos>::empty(),
            r.spec_db() == db,
    {
        Level { db, loaded: Vec::new(), loading: Vec::new(), dirty: Vec::new() }
    }

    /// The index of `pos` in the loaded map, if present.
    fn find_loaded(&self, pos: ChunkPos) -> (r: Option<usize>)
        requires
            self.wf(),
        ensures
            match r {
                Some(i) => {
                    &&& self.is_loaded(pos)
                    &&& i < self.loaded_seq().len()
                    &&& self.loaded_seq()[i as int].0 == pos
                    &&& i == self.loaded_index(pos)
                },
                None => !self.is_loaded(pos),
            },
    {
        let n = self.loaded.len();
        let mut i: usize = 0;
        while i < n
            invariant
                i <= n,
                n == self.loaded_seq().len(),
                self.wf(),
                forall|j: int| 0 <= j < i ==> (#[trigger] self.loaded_seq()[j]).0 != pos,
            decreases n - i,
        {
            let (p, _) = &self.loaded[i];
            if p.x == pos.x && p.y == pos.y && p.z == pos.z {
                proof {
                    assert(self.loaded_seq()[i as int].0 == pos);
                    self.lemma_loaded_at(pos, i as int);
                }
                return Some(i);
            }
            i += 1;
        }
        None
    }

    /// The loaded chunk at `pos`, if any.
    pub fn chunk(&self, pos: ChunkPos) -> (r: Option<&Chunk>)
        requires
            self.wf(),
        ensures
            match r {
                Some(c) => {
                    &&& self.is_loaded(pos)
                    &&& c.wf()
                    &&& c@ == self.loaded_cells(pos)
                },
                None => !self.is_loaded(pos),
            },
    {
        match self.find_loaded(pos) {
            Some(i) => Some(&self.loaded[i].1),
            None => None,
        }
    }

    /// Insert a fully populated chunk; only then does it become visible
    /// to readers.  (The streaming pass only completes loads for
    /// coordinates that are not yet present.)
    pub fn add_chunk(&mut self, position: ChunkPos, chunk: Chunk)
        requires
            old(self).wf(),
            !old(self).is_loaded(position),
            !old(self).is_loading(position),
            chunk.wf(),
        ensures
            final(self).wf(),
            forall|p: ChunkPos|
                final(self).is_loaded(p) == (old(self).is_loaded(p) || p == position),
            final(self).loaded_cells(position) == chunk@,
            forall|p: ChunkPos|
                p != position && old(self).is_loaded(p) ==> final(self).loaded_cells(p) == old(
                    self,
                ).loaded_cells(p),
            final(self).loading_seq() == old(self).loading_seq(),
            final(self).dirty_seq() == old(self).dirty_seq(),
            final(self).spec_db() == old(self).spec_db(),
    {
        let ghost pre = *self;
        self.loaded.push((position, chunk));
        proof {
            let n = pre.loaded_seq().len() as int;
            assert(self.loaded_seq() =~= pre.loaded_seq().push((position, chunk)));
            assert(self.loaded_seq()[n].0 == position);
            assert forall|p: ChunkPos|
                final(self).is_loaded(p) == (pre.is_loaded(p) || p == position) by {
                if pre.is_loaded(p) {
                    let i = choose|i: int|
                        0 <= i < pre.loaded_seq().len() && (#[trigger] pre.loaded_seq()[i]).0 == p;
                    assert(self.loaded_seq()[i].0 == p);
                }
                if self.is_loaded(p) && p != position {
                    let i = choose|i: int|
                        0 <= i < self.loaded_seq().len() && (#[trigger] self.loaded_seq()[i]).0
                            == p;
                    assert(pre.loaded_seq()[i].0 == p);
                }
            }
            assert(final(self).wf()) by {
                assert forall|i: int|
                    0 <= i < self.loading_seq().len() implies !self.is_loaded(
                    #[trigger] self.loading_seq()[i],
                ) by {
                    assert(!pre.is_loaded(pre.loading_seq()[i]));
                    assert(!pre.is_loading(position) ==> true);
                    if self.loading_seq()[i] == position {
                        assert(pre.is_loading(position));
                        assert(!pre.is_loaded(position));
                    }
                }
            }
            self.lemma_loaded_at(position, n);
            assert forall|p: ChunkPos|
                p != position && pre.is_loaded(p) implies final(self).loaded_cells(p)
                == pre.loaded_cells(p) by {
                let i = pre.loaded_index(p);
                assert(pre.loaded_seq()[i].0 == p);
                assert(self.loaded_seq()[i].0 == p);
                self.lemma_loaded_at(p, i);
            }
        }
    }

    /// Evict the chunk at `position`, with its dirty marker; outside
    /// the visible set nothing of it stays in memory.
    pub fn remove_chunk(&mut self, position: &ChunkPos)
        requires
            old(self).wf(),
        ensures
            final(self).wf(),
            forall|p: ChunkPos|
                final(self).is_loaded(p) == (old(self).is_loaded(p) && p != *position),
            forall|p: ChunkPos|
                p != *position && old(self).is_loaded(p) ==> final(self).loaded_cells(p) == old(
                    self,
                ).loaded_cells(p),
            forall|p: ChunkPos|
                final(self).is_dirty(p) == (old(self).is_dirty(p) && p != *position),
            final(self).loading_seq() == old(self).loading_seq(),
            final(self).spec_db() == old(self).spec_db(),
    {
        let ghost pre = *self;
        match self.find_loaded(*position) {
            Some(i) => {
                self.loaded.remove(i);
                proof {
                    let n = pre.loaded_seq().len() as int;
                    assert(self.loaded@ == pre.loaded_seq().remove(i as int));
                    assert(self.loaded_unique()) by {
                        assert forall|a: int, b: int|
                            0 <= a < b < self.loaded_seq().len() implies (
                        #[trigger] self.loaded_seq()[a]).0 != (
                        #[trigger] self.loaded_seq()[b]).0 by {
                            let pa = if a < i { a } else { a + 1 };
                            let pb = if b < i { b } else { b + 1 };
                            assert(self.loaded_seq()[a] == pre.loaded_seq()[pa]);
                            assert(self.loaded_seq()[b] == pre.loaded_seq()[pb]);
                        }
                    }
                    assert forall|p: ChunkPos|
                        self.is_loaded(p) == (pre.is_loaded(p) && p != *position) by {
                        if self.is_loaded(p) {
                            let k = choose|k: int|
                                0 <= k < self.loaded_seq().len() && (
                                #[trigger] self.loaded_seq()[k]).0 == p;
                            if k < i {
                                assert(pre.loaded_seq()[k].0 == p);
                            } else {
                                assert(pre.loaded_seq()[k + 1].0 == p);
                            }
                        }
                        if pre.is_loaded(p) && p != *position {
                            let k = pre.loaded_index(p);
                            pre.lemma_loaded_at(p, k);
                            if k < i {
                                assert(self.loaded_seq()[k].0 == p);
                            } else {
                                assert(k > i);
                                assert(self.loaded_seq()[k - 1].0 == p);
                            }
                        }
                    }
                    assert forall|p: ChunkPos|
                        p != *position && pre.is_loaded(p) implies self.loaded_cells(p)
                        == pre.loaded_cells(p) by {
                        let k = pre.loaded_index(p);
                        pre.lemma_loaded_at(p, k);
                        if k < i {
                            assert(self.loaded_seq()[k].0 == p);
                            self.lemma_loaded_at(p, k);
                        } else {
                            assert(self.loaded_seq()[k - 1].0 == p);
                            self.lemma_loaded_at(p, k - 1);
                        }
                    }
                }
                let ghost mid = *self;
                let had = pos_list_remove(&mut self.dirty, position);
                proof {
                    assert(self.loaded@ == mid.loaded@);
                    assert(self.loading@ == mid.loading@);
                    assert forall|p: ChunkPos|
                        final(self).is_dirty(p) == (pre.is_dirty(p) && p != *position) by {}
                    assert(final(self).wf()) by {
                        assert forall|k: int|
                            0 <= k < self.loading_seq().len() implies !self.is_loaded(
                            #[trigger] self.loading_seq()[k],
                        ) by {
                            assert(!pre.is_loaded(pre.loading_seq()[k]));
                        }
                        assert forall|k: int|
                            0 <= k < self.dirty_seq().len() implies self.is_loaded(
                            #[trigger] self.dirty_seq()[k],
                        ) by {
                            assert(self.dirty_seq().contains(self.dirty_seq()[k]));
                            assert(pre.is_dirty(self.dirty_seq()[k]));
                            assert(self.dirty_seq()[k] != *position);
                        }
                    }
                }
            },
            None => {
                proof {
                    assert forall|p: ChunkPos|
                        final(self).is_dirty(p) == (pre.is_dirty(p) && p != *position) by {
                        if pre.is_dirty(p) {
                            let k = choose|k: int|
                                0 <= k < pre.dirty_seq().len() && pre.dirty_seq()[k] == p;
                            assert(pre.is_loaded(pre.dirty_seq()[k]));
                        }
                    }
                }
            },
        }
    }
}

impl Level {
    /// One scheduling step for a visible coordinate: when the chunk is
    /// neither loaded nor already being loaded, mark a load in flight
    /// and tell the caller to start exactly one task.  A duplicate
    /// request while a task is outstanding is coalesced into a no-op.
    pub fn begin_load(&mut self, pos: ChunkPos) -> (r: bool)
        requires
            old(self).wf(),
        ensures
            final(self).wf(),
            r == old(self).wants_load(pos),
            r ==> final(self).loading_seq() == old(self).loading_seq().push(pos),
            !r ==> final(self).loading_seq() == old(self).loading_seq(),
            final(self).loaded_seq() == old(self).loaded_seq(),
            final(self).dirty_seq() == old(self).dirty_seq(),
            final(self).spec_db() == old(self).spec_db(),
            final(self).is_loading(pos) == (old(self).is_loading(pos) || r),
    {
        let ghost pre = *self;
        match self.find_loaded(pos) {
            Some(_) => false,
            None => {
                if pos_list_contains(&self.loading, &pos) {
                    return false;
                }
                self.loading.push(pos);
                proof {
                    let l2 = self.loading_seq();
                    assert(l2 == pre.loading_seq().push(pos));
                    assert(l2[l2.len() - 1] == pos);
                    assert(l2.no_duplicates()) by {
                        assert forall|a: int, b: int|
                            0 <= a < b < l2.len() implies l2[a] != l2[b] by {
                            if b == l2.len() - 1 {
                                assert(l2[a] == pre.loading_seq()[a]);
                                if l2[a] == pos {
                                    assert(pre.loading_seq().contains(pos));
                                }
                            } else {
                                assert(l2[a] == pre.loading_seq()[a]);
                                assert(l2[b] == pre.loading_seq()[b]);
                            }
                        }
                    }
                    assert forall|i: int| 0 <= i < l2.len() implies !self.is_loaded(
                        #[trigger] l2[i],
                    ) by {
                        if i < l2.len() - 1 {
                            assert(l2[i] == pre.loading_seq()[i]);
                            assert(!pre.is_loaded(pre.loading_seq()[i]));
                        }
                    }
                }
                true
            },
        }
    }

    /// Drop the in-flight marker of `pos`: when a chunk is evicted while
    /// its load is still outstanding, the task's late result is simply
    /// no longer wanted, and a fresh load may start later.
    pub fn cancel_load(&mut self, pos: ChunkPos)
        requires
            old(self).wf(),
        ensures
            final(self).wf(),
            forall|q: ChunkPos|
                final(self).is_loading(q) == (old(self).is_loading(q) && q != pos),
            final(self).loaded_seq() == old(self).loaded_seq(),
            final(self).dirty_seq() == old(self).dirty_seq(),
            final(self).spec_db() == old(self).spec_db(),
    {
        let ghost pre = *self;
        pos_list_remove(&mut self.loading, &pos);
        proof {
            assert forall|i: int| 0 <= i < self.loading_seq().len() implies !self.is_loaded(
                #[trigger] self.loading_seq()[i],
            ) by {
                assert(self.loading_seq().contains(self.loading_seq()[i]));
                assert(pre.is_loading(self.loading_seq()[i]));
                let k = choose|k: int|
                    0 <= k < pre.loading_seq().len() && pre.loading_seq()[k]
                        == self.loading_seq()[i];
                assert(!pre.is_loaded(pre.loading_seq()[k]));
            }
        }
    }

    /// Flag the loaded chunk at `pos`: its mesh is stale and must be
    /// rebuilt before it can be trusted for rendering.
    pub fn mark_dirty(&mut self, pos: ChunkPos)
        requires
            old(self).wf(),
            old(self).is_loaded(pos),
        ensures
            final(self).wf(),
            forall|q: ChunkPos| final(self).is_dirty(q) == (old(self).is_dirty(q) || q == pos),
            final(self).loaded_seq() == old(self).loaded_seq(),
            final(self).loading_seq() == old(self).loading_seq(),
            final(self).spec_db() == old(self).spec_db(),
    {
        let ghost pre = *self;
        if !pos_list_contains(&self.dirty, &pos) {
            self.dirty.push(pos);
            proof {
                let d2 = self.dirty_seq();
                assert(d2 == pre.dirty_seq().push(pos));
                assert(d2[d2.len() - 1] == pos);
                assert forall|q: ChunkPos|
                    final(self).is_dirty(q) == (pre.is_dirty(q) || q == pos) by {
                    if pre.is_dirty(q) {
                        let k = choose|k: int|
                            0 <= k < pre.dirty_seq().len() && pre.dirty_seq()[k] == q;
                        assert(d2[k] == q);
                    }
                    if self.is_dirty(q) && q != pos {
                        let k = choose|k: int| 0 <= k < d2.len() && d2[k] == q;
                        assert(pre.dirty_seq()[k] == q);
                    }
                }
                assert(d2.no_duplicates()) by {
                    assert forall|a: int, b: int| 0 <= a < b < d2.len() implies d2[a] != d2[b] by {
                        if b == d2.len() - 1 {
                            assert(d2[a] == pre.dirty_seq()[a]);
                            if d2[a] == pos {
                                assert(pre.dirty_seq().contains(pos));
                            }
                        } else {
                            assert(d2[a] == pre.dirty_seq()[a]);
                            assert(d2[b] == pre.dirty_seq()[b]);
                        }
                    }
                }
                assert forall|i: int| 0 <= i < d2.len() implies self.is_loaded(
                    #[trigger] d2[i],
                ) by {
                    if i < d2.len() - 1 {
                        assert(d2[i] == pre.dirty_seq()[i]);
                        assert(pre.is_loaded(pre.dirty_seq()[i]));
                    }
                }
            }
        }
    }

    /// Hand over and clear the dirty set: the coordinates whose meshes
    /// must be rebuilt this pass.
    pub fn take_dirty(&mut self) -> (r: Vec<ChunkPos>)
        requires
            old(self).wf(),
        ensures
            final(self).wf(),
            r@ == old(self).dirty_seq(),
            final(self).dirty_seq() == Seq::<ChunkPos>::empty(),
            forall|i: int| 0 <= i < r@.len() ==> old(self).is_loaded(#[trigger] r@[i]),
            final(self).loaded_seq() == old(self).loaded_seq(),
            final(self).loading_seq() == old(self).loading_seq(),
            final(self).spec_db() == old(self).spec_db(),
    {
        let n = self.dirty.len();
        let mut out: Vec<ChunkPos> = Vec::new();
        let mut i: usize = 0;
        while i < n
            invariant
                i <= n,
                n == self.dirty@.len(),
                out@ == self.dirty@.take(i as int),
            decreases n - i,
        {
            out.push(self.dirty[i]);
            i += 1;
        }
        proof {
            assert(out@ =~= self.dirty@);
        }
        self.dirty.clear();
        out
    }
}

impl Level {
    /// The k-th face neighbor of `pos`, in the fixed order left, right,
    /// bottom, top, back, front.
    pub open spec fn nth_neighbor(pos: ChunkPos, k: int) -> ChunkPos {
        if k == 0 {
            ChunkPos { x: (pos.x - 1) as i32, y: pos.y, z: pos.z }
        } else if k == 1 {
            ChunkPos { x: (pos.x + 1) as i32, y: pos.y, z: pos.z }
        } else if k == 2 {
            ChunkPos { x: pos.x, y: (pos.y - 1) as i32, z: pos.z }
        } else if k == 3 {
            ChunkPos { x: pos.x, y: (pos.y + 1) as i32, z: pos.z }
        } else if k == 4 {
            ChunkPos { x: pos.x, y: pos.y, z: (pos.z - 1) as i32 }
        } else {
            ChunkPos { x: pos.x, y: pos.y, z: (pos.z + 1) as i32 }
        }
    }

    /// The six face neighbors are pairwise distinct.
    proof fn lemma_nth_neighbor_injective(pos: ChunkPos, a: int, b: int)
        requires
            i32::MIN < pos.x < i32::MAX,
            i32::MIN < pos.y < i32::MAX,
            i32::MIN < pos.z < i32::MAX,
            0 <= a < b < 6,
        ensures
            Self::nth_neighbor(pos, a) != Self::nth_neighbor(pos, b),
    {
    }

    /// Complete a load: install the result, drop the in-flight marker,
    /// and flag the chunk and its already-loaded face neighbors dirty
    /// (their boundary occupancy changed).  Hands back the flagged
    /// coordinates.  A stale result for an evicted coordinate is
    /// discarded with `cancel_load` instead.
    #[verifier::loop_isolation(false)]
    pub fn finish_load(&mut self, pos: ChunkPos, chunk: Chunk) -> (r: Vec<ChunkPos>)
        requires
            old(self).wf(),
            old(self).is_loading(pos),
            chunk.wf(),
            i32::MIN < pos.x < i32::MAX,
            i32::MIN < pos.y < i32::MAX,
            i32::MIN < pos.z < i32::MAX,
        ensures
            final(self).wf(),
            forall|p: ChunkPos|
                final(self).is_loaded(p) == (old(self).is_loaded(p) || p == pos),
            final(self).loaded_cells(pos) == chunk@,
            forall|p: ChunkPos|
                p != pos && old(self).is_loaded(p) ==> final(self).loaded_cells(p) == old(
                    self,
                ).loaded_cells(p),
            forall|q: ChunkPos|
                final(self).is_loading(q) == (old(self).is_loading(q) && q != pos),
            forall|q: ChunkPos|
                r@.contains(q) <==> (q == pos || (crate::position::adjacent_spec(pos, q) && old(
                    self,
                ).is_loaded(q))),
            forall|q: ChunkPos| final(self).is_dirty(q) == (old(self).is_dirty(q) || r@.contains(q)),
            final(self).spec_db() == old(self).spec_db(),
    {
        let ghost pre = *self;
        proof {
            // A coordinate in flight is never loaded.
            let k = choose|k: int|
                0 <= k < pre.loading_seq().len() && pre.loading_seq()[k] == pos;
            assert(!pre.is_loaded(pre.loading_seq()[k]));
        }
        pos_list_remove(&mut self.loading, &pos);
        proof {
            assert forall|i: int| 0 <= i < self.loading_seq().len() implies !self.is_loaded(
                #[trigger] self.loading_seq()[i],
            ) by {
                assert(self.loading_seq().contains(self.loading_seq()[i]));
                assert(pre.is_loading(self.loading_seq()[i]));
                let k = choose|k: int|
                    0 <= k < pre.loading_seq().len() && pre.loading_seq()[k]
                        == self.loading_seq()[i];
                assert(!pre.is_loaded(pre.loading_seq()[k]));
            }
        }
        let ghost g1 = *self;
        self.add_chunk(pos, chunk);
        let ghost g2 = *self;
        self.mark_dirty(pos);
        proof {
            assert forall|p: ChunkPos| self.is_loaded(p) == (pre.is_loaded(p) || p == pos) by {
                assert(g1.is_loaded(p) == pre.is_loaded(p));
                assert(g2.is_loaded(p) == (g1.is_loaded(p) || p == pos));
                assert(self.is_loaded(p) == g2.is_loaded(p));
            }
            assert(self.loaded_cells(pos) == chunk@) by {
                assert(g2.loaded_cells(pos) == chunk@);
                assert(self.loaded_seq() == g2.loaded_seq());
            }
            assert forall|p: ChunkPos|
                p != pos && pre.is_loaded(p) implies self.loaded_cells(p) == pre.loaded_cells(
                p,
            ) by {
                assert(g1.is_loaded(p) == pre.is_loaded(p));
                assert(g1.loaded_cells(p) == pre.loaded_cells(p));
                assert(g2.loaded_cells(p) == g1.loaded_cells(p));
                assert(self.loaded_cells(p) == g2.loaded_cells(p));
            }
            assert forall|q: ChunkPos| self.is_dirty(q) == (pre.is_dirty(q) || q == pos) by {
                assert(self.is_dirty(q) == (g2.is_dirty(q) || q == pos));
                assert(g2.is_dirty(q) == g1.is_dirty(q));
                assert(g1.is_dirty(q) == pre.is_dirty(q));
            }
            assert forall|q: ChunkPos|
                self.is_loading(q) == (pre.is_loading(q) && q != pos) by {
                assert(self.is_loading(q) == g2.is_loading(q));
                assert(g2.is_loading(q) == g1.is_loading(q));
            }
        }
        let mut out: Vec<ChunkPos> = Vec::new();
        out.push(pos);
        proof {
            assert(out@[0] == pos);
            assert forall|q: ChunkPos|
                out@.contains(q) <==> (q == pos || exists|m: int|
                    0 <= m < 0 && q == Self::nth_neighbor(pos, m) && pre.is_loaded(q)) by {
                if out@.contains(q) {
                    let w = choose|w: int| 0 <= w < out@.len() && out@[w] == q;
                    assert(out@[0] == pos);
                }
            }
        }
        let ghost base = *self;
        let mut k: usize = 0;
        while k < 6
            invariant
                k <= 6,
                self.wf(),
                self.loaded_seq() == base.loaded_seq(),
                self.loading_seq() == base.loading_seq(),
                self.spec_db() == base.spec_db(),
                forall|p: ChunkPos| self.is_loaded(p) == (pre.is_loaded(p) || p == pos),
                self.loaded_cells(pos) == chunk@,
                forall|p: ChunkPos|
                    p != pos && pre.is_loaded(p) ==> self.loaded_cells(p) == pre.loaded_cells(p),
                forall|q: ChunkPos|
                    out@.contains(q) <==> (q == pos || exists|m: int|
                        0 <= m < k && q == Self::nth_neighbor(pos, m) && pre.is_loaded(q)),
                forall|q: ChunkPos| self.is_dirty(q) == (pre.is_dirty(q) || out@.contains(q)),
                forall|q: ChunkPos|
                    self.is_loading(q) == (pre.is_loading(q) && q != pos),
            decreases 6 - k,
        {
            let np: ChunkPos;
            if k == 0 {
                np = ChunkPos::new(pos.x - 1, pos.y, pos.z);
            } else if k == 1 {
                np = ChunkPos::new(pos.x + 1, pos.y, pos.z);
            } else if k == 2 {
                np = ChunkPos::new(pos.x, pos.y - 1, pos.z);
            } else if k == 3 {
                np = ChunkPos::new(pos.x, pos.y + 1, pos.z);
            } else if k == 4 {
                np = ChunkPos::new(pos.x, pos.y, pos.z - 1);
            } else {
                np = ChunkPos::new(pos.x, pos.y, pos.z + 1);
            }
            proof {
                assert(np == Self::nth_neighbor(pos, k as int));
                assert(np != pos);
            }
            let ghost out_pre = out@;
            let ghost mid_l = *self;
            proof {
                assert(forall|q: ChunkPos|
                    mid_l.is_dirty(q) == (pre.is_dirty(q) || out_pre.contains(q)));
                assert(forall|q: ChunkPos|
                    mid_l.is_loading(q) == (pre.is_loading(q) && q != pos));
                assert(forall|q: ChunkPos| #![trigger out_pre.contains(q)]
                    out_pre.contains(q) <==> (q == pos || exists|m: int|
                        0 <= m < k && q == Self::nth_neighbor(pos, m) && pre.is_loaded(q)));
                assert(forall|q: ChunkPos|
                    q != pos && pre.is_loaded(q) ==> mid_l.loaded_cells(q) == pre.loaded_cells(
                        q,
                    ));
                assert(mid_l.loaded_cells(pos) == chunk@);
                assert(forall|q: ChunkPos| mid_l.is_loaded(q) == (pre.is_loaded(q) || q == pos));
            }
            let loaded_np = match self.find_loaded(np) {
                Some(_) => true,
                None => false,
            };
            if loaded_np {
                self.mark_dirty(np);
                out.push(np);
            }
            proof {
                assert forall|q: ChunkPos| self.is_loaded(q) == mid_l.is_loaded(q) by {
                    assert(self.loaded_seq() == mid_l.loaded_seq());
                }
                assert(loaded_np == (pre.is_loaded(np) || np == pos));
                assert(loaded_np == pre.is_loaded(np));
                assert(self.loaded_seq() == base.loaded_seq());
                assert(self.loading_seq() == base.loading_seq());
                assert(self.spec_db() == base.spec_db());
                if loaded_np {
                    assert(out@ == out_pre.push(np));
                    assert(out@[out_pre.len() as int] == np);
                    assert forall|q: ChunkPos|
                        out@.contains(q) == (out_pre.contains(q) || q == np) by {
                        if out@.contains(q) {
                            let w = choose|w: int| 0 <= w < out@.len() && out@[w] == q;
                            if w < out_pre.len() {
                                assert(out_pre[w] == q);
                            }
                        }
                        if out_pre.contains(q) {
                            let w = choose|w: int| 0 <= w < out_pre.len() && out_pre[w] == q;
                            assert(out@[w] == q);
                        }
                    }
                    assert forall|q: ChunkPos|
                        self.is_dirty(q) == (mid_l.is_dirty(q) || q == np) by {}
                } else {
                    assert(out@ == out_pre);
                    assert forall|q: ChunkPos| self.is_dirty(q) == mid_l.is_dirty(q) by {}
                }
                assert forall|q: ChunkPos| #![trigger out@.contains(q)]
                    out@.contains(q) <==> (q == pos || exists|m: int|
                        0 <= m < k + 1 && q == Self::nth_neighbor(pos, m) && pre.is_loaded(
                            q,
                        )) by {
                    assert(out_pre.contains(q) <==> (q == pos || exists|m: int|
                        0 <= m < k && q == Self::nth_neighbor(pos, m) && pre.is_loaded(q)));
                    if out@.contains(q) {
                        if out_pre.contains(q) {
                            if q != pos {
                                let m = choose|m: int|
                                    0 <= m < k && q == Self::nth_neighbor(pos, m)
                                        && pre.is_loaded(q);
                                assert(0 <= m < k + 1 && q == Self::nth_neighbor(pos, m)
                                    && pre.is_loaded(q));
                            }
                        } else {
                            assert(loaded_np && q == np);
                            assert(q == Self::nth_neighbor(pos, k as int) && pre.is_loaded(q));
                        }
                    }
                    if q == pos || (exists|m: int|
                        0 <= m < k + 1 && q == Self::nth_neighbor(pos, m) && pre.is_loaded(q)) {
                        if q == pos {
                            assert(out_pre.contains(q));
                            assert(out@.contains(q));
                        } else {
                            let m = choose|m: int|
                                0 <= m < k + 1 && q == Self::nth_neighbor(pos, m)
                                    && pre.is_loaded(q);
                            if m < k {
                                assert(out_pre.contains(q));
                                assert(out@.contains(q));
                            } else {
                                assert(q == np);
                                assert(loaded_np);
                                assert(out@.contains(np));
                            }
                        }
                    }
                }
                assert forall|q: ChunkPos|
                    self.is_dirty(q) == (pre.is_dirty(q) || out@.contains(q)) by {
                    assert(mid_l.is_dirty(q) == (pre.is_dirty(q) || out_pre.contains(q)));
                }
                assert forall|q: ChunkPos|
                    self.is_loading(q) == (pre.is_loading(q) && q != pos) by {
                    assert(mid_l.is_loading(q) == (pre.is_loading(q) && q != pos));
                    assert(self.loading_seq() == mid_l.loading_seq());
                }
                assert(self.loaded_cells(pos) == chunk@) by {
                    assert(mid_l.loaded_cells(pos) == chunk@);
                    assert(self.loaded_seq() == mid_l.loaded_seq());
                }
                assert forall|q: ChunkPos|
                    q != pos && pre.is_loaded(q) implies self.loaded_cells(q)
                    == pre.loaded_cells(q) by {
                    assert(mid_l.loaded_cells(q) == pre.loaded_cells(q));
                    assert(self.loaded_seq() == mid_l.loaded_seq());
                }
            }
            k += 1;
        }
        proof {
            assert forall|q: ChunkPos|
                out@.contains(q) <==> (q == pos || (crate::position::adjacent_spec(pos, q)
                    && pre.is_loaded(q))) by {
                if crate::position::adjacent_spec(pos, q) {
                    if q.x == pos.x - 1 && q.y == pos.y && q.z == pos.z {
                        assert(q == Self::nth_neighbor(pos, 0));
                    } else if q.x == pos.x + 1 && q.y == pos.y && q.z == pos.z {
                        assert(q == Self::nth_neighbor(pos, 1));
                    } else if q.x == pos.x && q.y == pos.y - 1 && q.z == pos.z {
                        assert(q == Self::nth_neighbor(pos, 2));
                    } else if q.x == pos.x && q.y == pos.y + 1 && q.z == pos.z {
                        assert(q == Self::nth_neighbor(pos, 3));
                    } else if q.x == pos.x && q.y == pos.y && q.z == pos.z - 1 {
                        assert(q == Self::nth_neighbor(pos, 4));
                    } else {
                        assert(q == Self::nth_neighbor(pos, 5));
                    }
                }
                if exists|m: int|
                    0 <= m < 6 && q == Self::nth_neighbor(pos, m) && pre.is_loaded(q) {
                    let m = choose|m: int|
                        0 <= m < 6 && q == Self::nth_neighbor(pos, m) && pre.is_loaded(q);
                    assert(crate::position::adjacent_spec(pos, q));
                }
            }
        }
        out
    }

    /// The visible coordinates a scheduling pass must start loads for,
    /// in the caller's (nearest-first) order: those that are neither
    /// loaded nor already in flight.
    #[verifier::loop_isolation(false)]
    pub fn chunks_to_load(&self, visible: &Vec<ChunkPos>) -> (r: Vec<ChunkPos>)
        requires
            self.wf(),
        ensures
            r@ == spec_wanted_loads(*self, visible@),
    {
        let n = visible.len();
        let mut out: Vec<ChunkPos> = Vec::new();
        let mut i: usize = 0;
        proof {
            assert(visible@.take(0) =~= Seq::<ChunkPos>::empty());
            assert(spec_wanted_loads(*self, visible@.take(0)) =~= Seq::<ChunkPos>::empty());
        }
        while i < n
            invariant
                i <= n,
                out@ == spec_wanted_loads(*self, visible@.take(i as int)),
            decreases n - i,
        {
            let p = visible[i];
            let wanted = match self.find_loaded(p) {
                Some(_) => false,
                None => !pos_list_contains(&self.loading, &p),
            };
            proof {
                assert(wanted == self.wants_load(p));
                let tprev = visible@.take(i as int);
                let tnext = visible@.take(i as int + 1);
                assert(tnext.drop_last() =~= tprev);
                assert(tnext.last() == p);
                lemma_wanted_loads_step(*self, tnext);
            }
            if wanted {
                out.push(p);
            }
            i += 1;
        }
        proof {
            assert(visible@.take(n as int) =~= visible@);
        }
        out
    }

    /// Evict every loaded chunk that is not in the visible set.
    #[verifier::loop_isolation(false)]
    pub fn unload_chunks(&mut self, visible: &Vec<ChunkPos>)
        requires
            old(self).wf(),
        ensures
            final(self).wf(),
            forall|p: ChunkPos|
                final(self).is_loaded(p) == (old(self).is_loaded(p) && visible@.contains(p)),
            forall|p: ChunkPos|
                final(self).is_loaded(p) ==> final(self).loaded_cells(p) == old(
                    self,
                ).loaded_cells(p),
            forall|p: ChunkPos|
                final(self).is_dirty(p) == (old(self).is_dirty(p) && visible@.contains(p)),
            final(self).loading_seq() == old(self).loading_seq(),
            final(self).spec_db() == old(self).spec_db(),
    {
        let ghost pre = *self;
        let mut gone: Vec<ChunkPos> = Vec::new();
        let mut i: usize = 0;
        let n = self.loaded.len();
        while i < n
            invariant
                i <= n,
                *self == pre,
                n == self.loaded_seq().len(),
                forall|q: ChunkPos|
                    gone@.contains(q) <==> (exists|j: int|
                        0 <= j < i && (#[trigger] pre.loaded_seq()[j]).0 == q
                            && !visible@.contains(q)),
            decreases n - i,
        {
            let (p, _) = &self.loaded[i];
            let p = *p;
            let ghost gone_pre = gone@;
            if !pos_list_contains(visible, &p) {
                gone.push(p);
            }
            proof {
                assert(pre.loaded_seq()[i as int].0 == p);
                assert forall|q: ChunkPos|
                    gone@.contains(q) <==> (exists|j: int|
                        0 <= j < i + 1 && (#[trigger] pre.loaded_seq()[j]).0 == q
                            && !visible@.contains(q)) by {
                    if gone@.contains(q) && !gone_pre.contains(q) {
                        let w = choose|w: int| 0 <= w < gone@.len() && gone@[w] == q;
                        if w < gone_pre.len() {
                            assert(gone_pre[w] == q);
                        } else {
                            assert(q == p);
                        }
                    }
                    if gone_pre.contains(q) {
                        let w = choose|w: int| 0 <= w < gone_pre.len() && gone_pre[w] == q;
                        assert(gone@[w] == q);
                    }
                    if exists|j: int|
                        0 <= j < i + 1 && (#[trigger] pre.loaded_seq()[j]).0 == q
                            && !visible@.contains(q) {
                        let j = choose|j: int|
                            0 <= j < i + 1 && (#[trigger] pre.loaded_seq()[j]).0 == q
                                && !visible@.contains(q);
                        if j < i {
                            assert(gone_pre.contains(q));
                            let w = choose|w: int| 0 <= w < gone_pre.len() && gone_pre[w] == q;
                            assert(gone@[w] == q);
                        } else {
                            assert(q == p);
                            assert(gone@[gone_pre.len() as int] == p);
                        }
                    }
                }
            }
            i += 1;
        }
        // Now remove each of them.
        let m = gone.len();
        let mut j: usize = 0;
        while j < m
            invariant
                j <= m,
                m == gone@.len(),
                self.wf(),
                self.loading_seq() == pre.loading_seq(),
                self.spec_db() == pre.spec_db(),
                forall|q: ChunkPos|
                    self.is_loaded(q) == (pre.is_loaded(q) && !gone@.take(j as int).contains(q)),
                forall|q: ChunkPos| self.is_loaded(q) ==> self.loaded_cells(q) == pre.loaded_cells(q),
                forall|q: ChunkPos|
                    self.is_dirty(q) == (pre.is_dirty(q) && !gone@.take(j as int).contains(q)),
            decreases m - j,
        {
            let p = gone[j];
            let ghost mid = *self;
            proof {
                assert(forall|q: ChunkPos|
                    mid.is_loaded(q) == (pre.is_loaded(q) && !gone@.take(j as int).contains(q)));
            }
            self.remove_chunk(&p);
            proof {
                assert(gone@.take(j + 1).drop_last() =~= gone@.take(j as int));
                assert(gone@.take(j + 1).last() == p);
                assert forall|q: ChunkPos| #![trigger gone@.take(j + 1).contains(q)]
                    gone@.take(j + 1).contains(q) <==> (gone@.take(j as int).contains(q) || q
                        == p) by {
                    if gone@.take(j + 1).contains(q) {
                        let w = choose|w: int|
                            0 <= w < gone@.take(j + 1).len() && (#[trigger] gone@.take(j + 1)[w])
                                == q;
                        if w < j {
                            assert(gone@.take(j as int)[w] == q);
                        }
                    }
                    if gone@.take(j as int).contains(q) {
                        let w = choose|w: int|
                            0 <= w < gone@.take(j as int).len() && (#[trigger] gone@.take(
                                j as int,
                            )[w]) == q;
                        assert(gone@.take(j + 1)[w] == q);
                    }
                    if q == p {
                        assert(gone@.take(j + 1)[j as int] == p);
                    }
                }
                assert forall|q: ChunkPos|
                    self.is_loaded(q) == (pre.is_loaded(q) && !gone@.take(j + 1).contains(
                        q,
                    )) by {
                    assert(self.is_loaded(q) == (mid.is_loaded(q) && q != p));
                    assert(mid.is_loaded(q) == (pre.is_loaded(q) && !gone@.take(
                        j as int,
                    ).contains(q)));
                }
                assert forall|q: ChunkPos|
                    self.is_dirty(q) == (pre.is_dirty(q) && !gone@.take(j + 1).contains(q)) by {
                    assert(self.is_dirty(q) == (mid.is_dirty(q) && q != p));
                    assert(mid.is_dirty(q) == (pre.is_dirty(q) && !gone@.take(j as int).contains(
                        q,
                    )));
                }
                assert forall|q: ChunkPos|
                    self.is_loaded(q) implies self.loaded_cells(q) == pre.loaded_cells(q) by {
                    assert(mid.is_loaded(q) && q != p);
                    assert(self.loaded_cells(q) == mid.loaded_cells(q));
                }
            }
            j += 1;
        }
        proof {
            assert(gone@.take(m as int) =~= gone@);
            assert(forall|q: ChunkPos|
                final(self).is_loaded(q) ==> final(self).loaded_cells(q) == pre.loaded_cells(q));
            assert(forall|q: ChunkPos|
                final(self).is_loaded(q) == (pre.is_loaded(q) && !gone@.contains(q)));
            assert(forall|q: ChunkPos|
                final(self).is_dirty(q) == (pre.is_dirty(q) && !gone@.contains(q)));
            assert forall|p: ChunkPos|
                final(self).is_loaded(p) == (pre.is_loaded(p) && visible@.contains(p)) by {
                if pre.is_loaded(p) && !visible@.contains(p) {
                    let i0 = pre.loaded_index(p);
                    pre.lemma_loaded_at(p, i0);
                    assert(pre.loaded_seq()[i0].0 == p);
                    assert(gone@.contains(p));
                }
                if gone@.contains(p) {
                    assert(!visible@.contains(p));
                }
            }
            assert forall|p: ChunkPos|
                final(self).is_dirty(p) == (pre.is_dirty(p) && visible@.contains(p)) by {
                if pre.is_dirty(p) && !visible@.contains(p) {
                    let w = choose|w: int|
                        0 <= w < pre.dirty_seq().len() && pre.dirty_seq()[w] == p;
                    assert(pre.is_loaded(pre.dirty_seq()[w]));
                    assert(pre.is_loaded(p));
                    let i0 = pre.loaded_index(p);
                    pre.lemma_loaded_at(p, i0);
                    assert(pre.loaded_seq()[i0].0 == p);
                    assert(gone@.contains(p));
                }
                if gone@.contains(p) {
                    assert(!visible@.contains(p));
                }
            }
            assert(pre == *old(self));
            assert(forall|p: ChunkPos|
                final(self).is_dirty(p) == (pre.is_dirty(p) && visible@.contains(p)));
            assert forall|p: ChunkPos|
                final(self).is_dirty(p) == (old(self).is_dirty(p) && visible@.contains(p)) by {
                assert(old(self).is_dirty(p) == pre.is_dirty(p));
            }
        }
    }
}

impl Level {
    /// Try the persistent store for the chunk at `pos`; on a miss,
    /// generate it from the injected height field and write it through
    /// to the store before handing it back.  Nothing is installed in the
    /// chunk map here; `finish_load` does that.
    pub fn load_or_generate(
        &mut self,
        pos: ChunkPos,
        heights: &Vec<i64>,
        filler: BlockId,
        registry: &BlockRegistry,
    ) -> (r: Result<Chunk, LevelError>)
        requires
            old(self).wf(),
            registry.wf(),
            heights@.len() == CHUNK_SIZE * CHUNK_SIZE,
            registry.valid_id(filler),
        ensures
            final(self).wf(),
            final(self).loaded_seq() == old(self).loaded_seq(),
            final(self).loading_seq() == old(self).loading_seq(),
            final(self).dirty_seq() == old(self).dirty_seq(),
            match r {
                Ok(c) => {
                    &&& c.wf()
                    &&& cells_registered(c@, *registry)
                    &&& if old(self).store().contains_key(store_key(pos)) {
                        &&& spec_deserialize(old(self).store()[store_key(pos)], *registry) == Ok::<
                            Cells,
                            CodecError,
                        >(c@)
                        &&& final(self).store() == old(self).store()
                    } else {
                        &&& (forall|x: int, y: int, z: int|
                            0 <= x < CHUNK_SIZE && 0 <= y < CHUNK_SIZE && 0 <= z < CHUNK_SIZE
                                ==> c.spec_block(x, y, z) == spec_generated_cell(
                                pos,
                                heights@,
                                filler,
                                x,
                                y,
                                z,
                            ))
                        &&& final(self).store() == old(self).store().insert(
                            store_key(pos),
                            spec_serialize(c@, *registry),
                        )
                    }
                },
                Err(e) => {
                    &&& final(self).store() == old(self).store()
                    &&& match e {
                        LevelError::StoreIOFailure => true,
                        LevelError::UnknownBlockName => old(self).store().contains_key(
                            store_key(pos),
                        ) && spec_deserialize(old(self).store()[store_key(pos)], *registry)
                            == Err::<Cells, CodecError>(CodecError::UnknownBlockName),
                        LevelError::CorruptChunkData => old(self).store().contains_key(
                            store_key(pos),
                        ) && spec_deserialize(old(self).store()[store_key(pos)], *registry)
                            == Err::<Cells, CodecError>(CodecError::CorruptChunkData),
                    }
                },
            },
    {
        match load_chunk_data(&self.db, pos) {
            Err(_) => Err(LevelError::StoreIOFailure),
            Ok(Some(bytes)) => match Chunk::deserialize(bytes.as_slice(), registry) {
                Ok(c) => Ok(c),
                Err(CodecError::UnknownBlockName) => Err(LevelError::UnknownBlockName),
                Err(CodecError::CorruptChunkData) => Err(LevelError::CorruptChunkData),
            },
            Ok(None) => {
                let c = generate_chunk(pos, heights, filler);
                proof {
                    assert forall|i: int|
                        0 <= i < c@.len() implies ((#[trigger] c@[i]) matches Some(id)
                        ==> registry.valid_id(id)) by {
                        let x = crate::level::cell_x(i);
                        let y = crate::level::cell_y(i);
                        let z = crate::level::cell_z(i);
                        lemma_cell_coords(i);
                        assert(c.spec_block(x, y, z) == spec_generated_cell(
                            pos,
                            heights@,
                            filler,
                            x,
                            y,
                            z,
                        ));
                    }
                }
                let data = c.serialize(registry);
                match save_chunk_data(&mut self.db, pos, data) {
                    Ok(_) => Ok(c),
                    Err(_) => Err(LevelError::StoreIOFailure),
                }
            },
        }
    }
}

impl Level {
    /// The neighbor boundary snapshot `adj` is what the loaded chunks
    /// around `pos` show: one plane per loaded face neighbor, open for
    /// the rest.
    pub open spec fn adj_matches_level(self, pos: ChunkPos, adj: AdjacentChunkData) -> bool {
        &&& Self::side_matches(self, Self::nth_neighbor(pos, 0), adj.left, Side::Left)
        &&& Self::side_matches(self, Self::nth_neighbor(pos, 1), adj.right, Side::Right)
        &&& Self::side_matches(self, Self::nth_neighbor(pos, 3), adj.top, Side::Top)
        &&& Self::side_matches(self, Self::nth_neighbor(pos, 2), adj.bottom, Side::Bottom)
        &&& Self::side_matches(self, Self::nth_neighbor(pos, 5), adj.front, Side::Front)
        &&& Self::side_matches(self, Self::nth_neighbor(pos, 4), adj.back, Side::Back)
    }

    /// One optional boundary plane agrees with the loaded neighbor at `np`.
    pub open spec fn side_matches(
        l: Level,
        np: ChunkPos,
        m: Option<crate::mesher::FaceMask>,
        side: Side,
    ) -> bool {
        &&& (m is Some <==> l.is_loaded(np))
        &&& (m matches Some(fm) ==> fm.wf() && (forall|a: int, b: int|
            0 <= a < CHUNK_SIZE && 0 <= b < CHUNK_SIZE ==> #[trigger] fm.spec_at(a, b)
                == crate::mesher::boundary_occupied(l.loaded_cells(np), side, a, b)))
    }

    /// Snapshot the boundary occupancy of the loaded neighbors of `pos`,
    /// for the mesher: read-only copies, so no neighbor's lock is held
    /// while the mesh is built.
    pub fn adjacent_data(&self, pos: ChunkPos) -> (r: AdjacentChunkData)
        requires
            self.wf(),
            i32::MIN < pos.x < i32::MAX,
            i32::MIN < pos.y < i32::MAX,
            i32::MIN < pos.z < i32::MAX,
        ensures
            r.wf(),
            self.adj_matches_level(pos, r),
    {
        let left = match self.chunk(ChunkPos::new(pos.x - 1, pos.y, pos.z)) {
            Some(c) => Some(boundary_mask(c, Side::Left)),
            None => None,
        };
        let right = match self.chunk(ChunkPos::new(pos.x + 1, pos.y, pos.z)) {
            Some(c) => Some(boundary_mask(c, Side::Right)),
            None => None,
        };
        let top = match self.chunk(ChunkPos::new(pos.x, pos.y + 1, pos.z)) {
            Some(c) => Some(boundary_mask(c, Side::Top)),
            None => None,
        };
        let bottom = match self.chunk(ChunkPos::new(pos.x, pos.y - 1, pos.z)) {
            Some(c) => Some(boundary_mask(c, Side::Bottom)),
            None => None,
        };
        let front = match self.chunk(ChunkPos::new(pos.x, pos.y, pos.z + 1)) {
            Some(c) => Some(boundary_mask(c, Side::Front)),
            None => None,
        };
        let back = match self.chunk(ChunkPos::new(pos.x, pos.y, pos.z - 1)) {
            Some(c) => Some(boundary_mask(c, Side::Back)),
            None => None,
        };
        AdjacentChunkData { left, right, top, bottom, front, back }
    }

    /// Mesh the loaded chunk at `pos` against the boundary occupancy of
    /// its currently loaded neighbors; `None` when no chunk is loaded
    /// there (its mesh task became stale).
    pub fn mesh_chunk(&self, pos: ChunkPos, registry: &BlockRegistry) -> (r: Option<MeshData>)
        requires
            self.wf(),
            registry.wf(),
            i32::MIN < pos.x < i32::MAX,
            i32::MIN < pos.y < i32::MAX,
            i32::MIN < pos.z < i32::MAX,
            self.is_loaded(pos) ==> cells_registered(self.loaded_cells(pos), *registry),
        ensures
            match r {
                Some(m) => self.is_loaded(pos) && exists|adj: AdjacentChunkData|
                    (#[trigger] self.adj_matches_level(pos, adj)) && adj.wf() && is_mesh_of(
                        m,
                        self.loaded_cells(pos),
                        adj,
                    ),
                None => !self.is_loaded(pos),
            },
    {
        match self.chunk(pos) {
            None => None,
            Some(c) => {
                let adj = self.adjacent_data(pos);
                let m = build_chunk(&adj, c, registry);
                Some(m)
            },
        }
    }

    /// Persist the loaded chunk at `pos` (write-through upsert of its
    /// serialized form) and build its mesh against the supplied neighbor
    /// boundary snapshot.
    pub fn save_chunk(
        &mut self,
        pos: ChunkPos,
        adjacent: &AdjacentChunkData,
        registry: &BlockRegistry,
    ) -> (r: Result<MeshData, LevelError>)
        requires
            old(self).wf(),
            old(self).is_loaded(pos),
            adjacent.wf(),
            registry.wf(),
            cells_registered(old(self).loaded_cells(pos), *registry),
        ensures
            final(self).wf(),
            final(self).loaded_seq() == old(self).loaded_seq(),
            final(self).loading_seq() == old(self).loading_seq(),
            final(self).dirty_seq() == old(self).dirty_seq(),
            match r {
                Ok(m) => {
                    &&& final(self).store() == old(self).store().insert(
                        store_key(pos),
                        spec_serialize(old(self).loaded_cells(pos), *registry),
                    )
                    &&& is_mesh_of(m, old(self).loaded_cells(pos), *adjacent)
                },
                Err(e) => {
                    &&& e == LevelError::StoreIOFailure
                    &&& final(self).store() == old(self).store()
                },
            },
    {
        let i = match self.find_loaded(pos) {
            Some(i) => i,
            None => {
                proof {
                    assert(false);
                }
                0
            },
        };
        let data = self.loaded[i].1.serialize(registry);
        match save_chunk_data(&mut self.db, pos, data) {
            Err(_) => Err(LevelError::StoreIOFailure),
            Ok(_) => {
                let m = build_chunk(adjacent, &self.loaded[i].1, registry);
                Ok(m)
            },
        }
    }
}

/// The chunk that holds a world block position.
pub open spec fn spec_chunk_of(b: BlockPos) -> ChunkPos {
    ChunkPos {
        x: (b.x as int / (CHUNK_SIZE as int)) as i32,
        y: (b.y as int / (CHUNK_SIZE as int)) as i32,
        z: (b.z as int / (CHUNK_SIZE as int)) as i32,
    }
}

/// The neighbor chunks that share a face through the boundary planes the
/// local cell (lx, ly, lz) of chunk `cpos` sits on: between zero and
/// three of the six face neighbors.
pub open spec fn edit_neighbor(cpos: ChunkPos, lx: int, ly: int, lz: int, q: ChunkPos) -> bool {
    let last = (CHUNK_SIZE - 1) as int;
    ||| (lx == 0 && q == Level::nth_neighbor(cpos, 0))
    ||| (lx == last && q == Level::nth_neighbor(cpos, 1))
    ||| (ly == 0 && q == Level::nth_neighbor(cpos, 2))
    ||| (ly == last && q == Level::nth_neighbor(cpos, 3))
    ||| (lz == 0 && q == Level::nth_neighbor(cpos, 4))
    ||| (lz == last && q == Level::nth_neighbor(cpos, 5))
}

impl Level {
    /// Remove the block at world position `world`: clear exactly that
    /// cell, flag its chunk dirty, and flag dirty exactly the loaded
    /// neighbor chunks that share a face through the touched boundary
    /// planes.  Hands back the flagged coordinates; a position in an
    /// unloaded chunk changes nothing.
    #[verifier::loop_isolation(false)]
    pub fn remove_block(&mut self, world: BlockPos) -> (r: Vec<ChunkPos>)
        requires
            old(self).wf(),
        ensures
            final(self).wf(),
            final(self).loading_seq() == old(self).loading_seq(),
            final(self).spec_db() == old(self).spec_db(),
            ({
                let cpos = spec_chunk_of(world);
                let lx = world.x as int % (CHUNK_SIZE as int);
                let ly = world.y as int % (CHUNK_SIZE as int);
                let lz = world.z as int % (CHUNK_SIZE as int);
                if old(self).is_loaded(cpos) {
                    &&& (forall|p: ChunkPos| final(self).is_loaded(p) == old(self).is_loaded(p))
                    &&& final(self).loaded_cells(cpos) == old(self).loaded_cells(cpos).update(
                        crate::chunk::spec_cell_index(lx, ly, lz),
                        None::<BlockId>,
                    )
                    &&& (forall|p: ChunkPos|
                        p != cpos && old(self).is_loaded(p) ==> final(self).loaded_cells(p) == old(
                            self,
                        ).loaded_cells(p))
                    &&& (forall|q: ChunkPos|
                        r@.contains(q) <==> (q == cpos || (edit_neighbor(cpos, lx, ly, lz, q)
                            && old(self).is_loaded(q))))
                    &&& (forall|q: ChunkPos|
                        final(self).is_dirty(q) == (old(self).is_dirty(q) || r@.contains(q)))
                } else {
                    &&& *final(self) == *old(self)
                    &&& r@ == Seq::<ChunkPos>::empty()
                }
            }),
    {
        let ghost pre = *self;
        let cpos = ChunkPos::from(world);
        let (lx, ly, lz) = world.block_in_chunk();
        proof {
            assert(cpos == spec_chunk_of(world));
            // Chunk coordinates of an i32 block position are far from the
            // i32 bounds, so the face neighbors exist.
            let cs = CHUNK_SIZE as int;
            vstd::arithmetic::div_mod::lemma_fundamental_div_mod(world.x as int, cs);
            vstd::arithmetic::div_mod::lemma_fundamental_div_mod(world.y as int, cs);
            vstd::arithmetic::div_mod::lemma_fundamental_div_mod(world.z as int, cs);
            assert(i32::MIN < cpos.x < i32::MAX && i32::MIN < cpos.y < i32::MAX && i32::MIN
                < cpos.z < i32::MAX) by (nonlinear_arith)
                requires
                    cs == 32,
                    cpos.x as int == world.x as int / cs,
                    cpos.y as int == world.y as int / cs,
                    cpos.z as int == world.z as int / cs,
                    world.x as int == cs * (world.x as int / cs) + world.x as int % cs,
                    world.y as int == cs * (world.y as int / cs) + world.y as int % cs,
                    world.z as int == cs * (world.z as int / cs) + world.z as int % cs,
                    0 <= world.x as int % cs < cs,
                    0 <= world.y as int % cs < cs,
                    0 <= world.z as int % cs < cs,
                    i32::MIN <= world.x as int <= i32::MAX,
                    i32::MIN <= world.y as int <= i32::MAX,
                    i32::MIN <= world.z as int <= i32::MAX,
            ;
        }
        let i = match self.find_loaded(cpos) {
            None => {
                let out: Vec<ChunkPos> = Vec::new();
                proof {
                    assert(out@ =~= Seq::<ChunkPos>::empty());
                }
                return out;
            },
            Some(i) => i,
        };
        // Clear exactly the touched cell.
        let mut c = self.loaded[i].1.clone();
        c.set_block(lx, ly, lz, None);
        let ghost newcells = c@;
        self.loaded.set(i, (cpos, c));
        proof {
            assert(self.loaded_seq() == pre.loaded_seq().update(i as int, (cpos, c)));
            assert(self.loaded_seq()[i as int].0 == cpos);
            assert(self.loaded_unique()) by {
                assert forall|a: int, b: int|
                    0 <= a < b < self.loaded_seq().len() implies (
                #[trigger] self.loaded_seq()[a]).0 != (#[trigger] self.loaded_seq()[b]).0 by {
                    assert(pre.loaded_seq()[a].0 == self.loaded_seq()[a].0);
                    assert(pre.loaded_seq()[b].0 == self.loaded_seq()[b].0);
                }
            }
            assert forall|p: ChunkPos| self.is_loaded(p) == pre.is_loaded(p) by {
                if pre.is_loaded(p) {
                    let k = pre.loaded_index(p);
                    pre.lemma_loaded_at(p, k);
                    assert(self.loaded_seq()[k].0 == p);
                }
                if self.is_loaded(p) {
                    let k = choose|k: int|
                        0 <= k < self.loaded_seq().len() && (#[trigger] self.loaded_seq()[k]).0
                            == p;
                    assert(pre.loaded_seq()[k].0 == p);
                    pre.lemma_loaded_at(p, k);
                }
            }
            self.lemma_loaded_at(cpos, i as int);
            assert(self.loaded_cells(cpos) == newcells);
            assert(newcells == pre.loaded_cells(cpos).update(
                crate::chunk::spec_cell_index(lx as int, ly as int, lz as int),
                None::<BlockId>,
            ));
            assert forall|p: ChunkPos|
                p != cpos && pre.is_loaded(p) implies self.loaded_cells(p) == pre.loaded_cells(
                p,
            ) by {
                let k = pre.loaded_index(p);
                pre.lemma_loaded_at(p, k);
                assert(self.loaded_seq()[k].0 == p);
                self.lemma_loaded_at(p, k);
            }
            assert(self.wf()) by {
                assert forall|k: int|
                    0 <= k < self.loaded_seq().len() implies (
                #[trigger] self.loaded_seq()[k]).1.wf() by {
                    if k != i {
                        assert(self.loaded_seq()[k] == pre.loaded_seq()[k]);
                    }
                }
                assert forall|k: int|
                    0 <= k < self.loading_seq().len() implies !self.is_loaded(
                    #[trigger] self.loading_seq()[k],
                ) by {
                    assert(!pre.is_loaded(pre.loading_seq()[k]));
                }
                assert forall|k: int|
                    0 <= k < self.dirty_seq().len() implies self.is_loaded(
                    #[trigger] self.dirty_seq()[k],
                ) by {
                    assert(pre.is_loaded(pre.dirty_seq()[k]));
                }
            }
        }
        // Flag the edited chunk and the loaded neighbors sharing a face
        // through the touched boundary planes.
        let ghost edited = *self;
        self.mark_dirty(cpos);
        let mut out: Vec<ChunkPos> = Vec::new();
        out.push(cpos);
        proof {
            assert(out@[0] == cpos);
            assert forall|q: ChunkPos| out@.contains(q) <==> q == cpos by {
                if out@.contains(q) {
                    let w = choose|w: int| 0 <= w < out@.len() && out@[w] == q;
                }
            }
            assert(forall|q: ChunkPos| self.is_dirty(q) == (pre.is_dirty(q) || q == cpos));
        }
        let last = CHUNK_SIZE - 1;
        let mut k: usize = 0;
        while k < 6
            invariant
                k <= 6,
                self.wf(),
                self.loaded_seq() == edited.loaded_seq(),
                self.loading_seq() == edited.loading_seq(),
                self.spec_db() == edited.spec_db(),
                cpos == spec_chunk_of(world),
                i32::MIN < cpos.x < i32::MAX,
                i32::MIN < cpos.y < i32::MAX,
                i32::MIN < cpos.z < i32::MAX,
                lx < CHUNK_SIZE && ly < CHUNK_SIZE && lz < CHUNK_SIZE,
                forall|p: ChunkPos| self.is_loaded(p) == pre.is_loaded(p),
                forall|q: ChunkPos|
                    out@.contains(q) <==> (q == cpos || exists|m: int|
                        0 <= m < k && q == Self::nth_neighbor(cpos, m) && edit_neighbor(
                            cpos,
                            lx as int,
                            ly as int,
                            lz as int,
                            q,
                        ) && pre.is_loaded(q)),
                forall|q: ChunkPos| self.is_dirty(q) == (pre.is_dirty(q) || out@.contains(q)),
            decreases 6 - k,
        {
            let np: ChunkPos;
            let on_plane: bool;
            if k == 0 {
                np = ChunkPos::new(cpos.x - 1, cpos.y, cpos.z);
                on_plane = lx == 0;
            } else if k == 1 {
                np = ChunkPos::new(cpos.x + 1, cpos.y, cpos.z);
                on_plane = lx == last;
            } else if k == 2 {
                np = ChunkPos::new(cpos.x, cpos.y - 1, cpos.z);
                on_plane = ly == 0;
            } else if k == 3 {
                np = ChunkPos::new(cpos.x, cpos.y + 1, cpos.z);
                on_plane = ly == last;
            } else if k == 4 {
                np = ChunkPos::new(cpos.x, cpos.y, cpos.z - 1);
                on_plane = lz == 0;
            } else {
                np = ChunkPos::new(cpos.x, cpos.y, cpos.z + 1);
                on_plane = lz == last;
            }
            proof {
                assert(np == Self::nth_neighbor(cpos, k as int));
                assert(np != cpos);
            }
            let ghost out_pre = out@;
            let ghost mid = *self;
            proof {
                assert(forall|q: ChunkPos|
                    mid.is_dirty(q) == (pre.is_dirty(q) || out_pre.contains(q)));
                assert(forall|q: ChunkPos| #![trigger out_pre.contains(q)]
                    out_pre.contains(q) <==> (q == cpos || exists|m: int|
                        0 <= m < k && q == Self::nth_neighbor(cpos, m) && edit_neighbor(
                            cpos,
                            lx as int,
                            ly as int,
                            lz as int,
                            q,
                        ) && pre.is_loaded(q)));
            }
            let flag = on_plane && match self.find_loaded(np) {
                Some(_) => true,
                None => false,
            };
            if flag {
                self.mark_dirty(np);
                out.push(np);
            }
            proof {
                assert(self.loaded_seq() == mid.loaded_seq());
                assert(self.loading_seq() == mid.loading_seq());
                assert(self.spec_db() == mid.spec_db());
                assert(flag == (on_plane && pre.is_loaded(np)));
                assert(on_plane == (
                if k == 0 {
                    lx == 0
                } else if k == 1 {
                    lx as int == (CHUNK_SIZE - 1) as int
                } else if k == 2 {
                    ly == 0
                } else if k == 3 {
                    ly as int == (CHUNK_SIZE - 1) as int
                } else if k == 4 {
                    lz == 0
                } else {
                    lz as int == (CHUNK_SIZE - 1) as int
                }));
                if flag {
                    assert(out@ == out_pre.push(np));
                    assert(out@[out_pre.len() as int] == np);
                    assert forall|q: ChunkPos|
                        out@.contains(q) == (out_pre.contains(q) || q == np) by {
                        if out@.contains(q) {
                            let w = choose|w: int| 0 <= w < out@.len() && out@[w] == q;
                            if w < out_pre.len() {
                                assert(out_pre[w] == q);
                            }
                        }
                        if out_pre.contains(q) {
                            let w = choose|w: int| 0 <= w < out_pre.len() && out_pre[w] == q;
                            assert(out@[w] == q);
                        }
                    }
                    assert forall|q: ChunkPos|
                        self.is_dirty(q) == (mid.is_dirty(q) || q == np) by {}
                    assert(edit_neighbor(cpos, lx as int, ly as int, lz as int, np));
                } else {
                    assert(out@ == out_pre);
                    assert forall|q: ChunkPos| self.is_dirty(q) == mid.is_dirty(q) by {}
                }
                assert forall|q: ChunkPos| #![trigger out@.contains(q)]
                    out@.contains(q) <==> (q == cpos || exists|m: int|
                        0 <= m < k + 1 && q == Self::nth_neighbor(cpos, m) && edit_neighbor(
                            cpos,
                            lx as int,
                            ly as int,
                            lz as int,
                            q,
                        ) && pre.is_loaded(q)) by {
                    if out@.contains(q) {
                        if out_pre.contains(q) {
                            if q != cpos {
                                let m = choose|m: int|
                                    0 <= m < k && q == Self::nth_neighbor(cpos, m)
                                        && edit_neighbor(cpos, lx as int, ly as int, lz as int, q)
                                        && pre.is_loaded(q);
                                assert(0 <= m < k + 1 && q == Self::nth_neighbor(cpos, m)
                                    && edit_neighbor(cpos, lx as int, ly as int, lz as int, q)
                                    && pre.is_loaded(q));
                            }
                        } else {
                            assert(flag && q == np);
                            assert(q == Self::nth_neighbor(cpos, k as int) && edit_neighbor(
                                cpos,
                                lx as int,
                                ly as int,
                                lz as int,
                                q,
                            ) && pre.is_loaded(q));
                        }
                    }
                    if q == cpos || (exists|m: int|
                        0 <= m < k + 1 && q == Self::nth_neighbor(cpos, m) && edit_neighbor(
                            cpos,
                            lx as int,
                            ly as int,
                            lz as int,
                            q,
                        ) && pre.is_loaded(q)) {
                        if q == cpos {
                            assert(out_pre.contains(q));
                            if flag {
                                let w = choose|w: int| 0 <= w < out_pre.len() && out_pre[w] == q;
                                assert(out@[w] == q);
                            }
                        } else {
                            let m = choose|m: int|
                                0 <= m < k + 1 && q == Self::nth_neighbor(cpos, m)
                                    && edit_neighbor(cpos, lx as int, ly as int, lz as int, q)
                                    && pre.is_loaded(q);
                            if m < k {
                                assert(out_pre.contains(q));
                                if flag {
                                    let w = choose|w: int|
                                        0 <= w < out_pre.len() && out_pre[w] == q;
                                    assert(out@[w] == q);
                                }
                            } else {
                                assert(q == np);
                                assert(edit_neighbor(cpos, lx as int, ly as int, lz as int, np));
                                assert(np == Self::nth_neighbor(cpos, k as int));
                                assert(on_plane) by {
                                    Self::lemma_edit_neighbor_side(
                                        cpos,
                                        lx as int,
                                        ly as int,
                                        lz as int,
                                        k as int,
                                    );
                                }
                                assert(flag);
                                assert(out@.contains(np));
                            }
                        }
                    }
                }
                assert forall|q: ChunkPos|
                    self.is_dirty(q) == (pre.is_dirty(q) || out@.contains(q)) by {}
            }
            k += 1;
        }
        proof {
            assert forall|q: ChunkPos| #![trigger out@.contains(q)]
                out@.contains(q) <==> (q == cpos || (edit_neighbor(
                    cpos,
                    lx as int,
                    ly as int,
                    lz as int,
                    q,
                ) && pre.is_loaded(q))) by {
                if q != cpos && edit_neighbor(cpos, lx as int, ly as int, lz as int, q)
                    && pre.is_loaded(q) {
                    if lx == 0 && q == Self::nth_neighbor(cpos, 0) {
                        assert(exists|m: int|
                            0 <= m < 6 && q == Self::nth_neighbor(cpos, m) && edit_neighbor(
                                cpos,
                                lx as int,
                                ly as int,
                                lz as int,
                                q,
                            ) && pre.is_loaded(q)) by {
                            assert(q == Self::nth_neighbor(cpos, 0));
                        }
                    } else if lx as int == (CHUNK_SIZE - 1) as int && q == Self::nth_neighbor(
                        cpos,
                        1,
                    ) {
                        assert(q == Self::nth_neighbor(cpos, 1));
                    } else if ly == 0 && q == Self::nth_neighbor(cpos, 2) {
                        assert(q == Self::nth_neighbor(cpos, 2));
                    } else if ly as int == (CHUNK_SIZE - 1) as int && q == Self::nth_neighbor(
                        cpos,
                        3,
                    ) {
                        assert(q == Self::nth_neighbor(cpos, 3));
                    } else if lz == 0 && q == Self::nth_neighbor(cpos, 4) {
                        assert(q == Self::nth_neighbor(cpos, 4));
                    } else {
                        assert(lz as int == (CHUNK_SIZE - 1) as int && q == Self::nth_neighbor(
                            cpos,
                            5,
                        ));
                    }
                }
            }
            assert(final(self).loaded_seq() == edited.loaded_seq());
            assert(forall|p: ChunkPos| final(self).is_loaded(p) == pre.is_loaded(p));
            assert(edited.loaded_cells(cpos) == pre.loaded_cells(cpos).update(
                crate::chunk::spec_cell_index(lx as int, ly as int, lz as int),
                None::<BlockId>,
            ));
            assert(final(self).loaded_cells(cpos) == edited.loaded_cells(cpos));
            assert forall|p: ChunkPos|
                p != cpos && pre.is_loaded(p) implies final(self).loaded_cells(p)
                == pre.loaded_cells(p) by {
                assert(edited.loaded_cells(p) == pre.loaded_cells(p));
                assert(final(self).loaded_cells(p) == edited.loaded_cells(p));
            }
            assert(forall|q: ChunkPos|
                final(self).is_dirty(q) == (pre.is_dirty(q) || out@.contains(q)));
            assert(lx as int == world.x as int % (CHUNK_SIZE as int));
            assert(ly as int == world.y as int % (CHUNK_SIZE as int));
            assert(lz as int == world.z as int % (CHUNK_SIZE as int));
            assert(pre == *old(self));
            let cpos2 = spec_chunk_of(world);
            let lx2 = world.x as int % (CHUNK_SIZE as int);
            let ly2 = world.y as int % (CHUNK_SIZE as int);
            let lz2 = world.z as int % (CHUNK_SIZE as int);
            assert(cpos2 == cpos && lx2 == lx as int && ly2 == ly as int && lz2 == lz as int);
            assert(old(self).is_loaded(cpos2));
            assert(forall|p: ChunkPos| final(self).is_loaded(p) == old(self).is_loaded(p));
            assert(final(self).loaded_cells(cpos2) == old(self).loaded_cells(cpos2).update(
                crate::chunk::spec_cell_index(lx2, ly2, lz2),
                None::<BlockId>,
            ));
            assert(forall|p: ChunkPos|
                p != cpos2 && old(self).is_loaded(p) ==> final(self).loaded_cells(p) == old(
                    self,
                ).loaded_cells(p));
            assert(forall|q: ChunkPos| #![trigger out@.contains(q)]
                out@.contains(q) <==> (q == cpos2 || (edit_neighbor(cpos2, lx2, ly2, lz2, q)
                    && old(self).is_loaded(q))));
            assert(forall|q: ChunkPos|
                final(self).is_dirty(q) == (old(self).is_dirty(q) || out@.contains(q)));
        }
        out
    }

    /// If the k-th neighbor shares a face through the touched cell's
    /// boundary planes, the cell sits on that side's plane.
    proof fn lemma_edit_neighbor_side(cpos: ChunkPos, lx: int, ly: int, lz: int, k: int)
        requires
            0 <= k < 6,
            i32::MIN < cpos.x < i32::MAX,
            i32::MIN < cpos.y < i32::MAX,
            i32::MIN < cpos.z < i32::MAX,
            edit_neighbor(cpos, lx, ly, lz, Self::nth_neighbor(cpos, k)),
        ensures
            k == 0 ==> lx == 0,
            k == 1 ==> lx == (CHUNK_SIZE - 1) as int,
            k == 2 ==> ly == 0,
            k == 3 ==> ly == (CHUNK_SIZE - 1) as int,
            k == 4 ==> lz == 0,
            k == 5 ==> lz == (CHUNK_SIZE - 1) as int,
    {
        assert forall|a: int, b: int|
            0 <= a < b < 6 implies Self::nth_neighbor(cpos, a) != Self::nth_neighbor(
            cpos,
            b,
        ) by {
            Self::lemma_nth_neighbor_injective(cpos, a, b);
        }
    }
}

/// Once a chunk's serialized form is persisted, re-requesting the same
/// coordinate in the same session loads identical block content from the
/// store rather than regenerating it: the stored record deserializes to
/// exactly the cells that were saved.
pub proof fn lemma_eviction_reload(
    store: Map<(int, int, int), Seq<u8>>,
    key: (int, int, int),
    cells: Cells,
    reg: BlockRegistry,
)
    requires
        reg.wf(),
        cells.len() == CHUNK_VOLUME,
        cells_registered(cells, reg),
        store.contains_key(key),
        store[key] == spec_serialize(cells, reg),
    ensures
        spec_deserialize(store[key], reg) == Ok::<Cells, CodecError>(cells),
{
    crate::codec::lemma_codec_round_trip(cells, reg);
}

/// The x coordinate of the cell at linear index `i`.
pub open spec fn cell_x(i: int) -> int {
    i % (CHUNK_SIZE as int)
}

/// The y coordinate of the cell at linear index `i`.
pub open spec fn cell_y(i: int) -> int {
    (i / (CHUNK_SIZE as int)) % (CHUNK_SIZE as int)
}

/// The z coordinate of the cell at linear index `i`.
pub open spec fn cell_z(i: int) -> int {
    i / ((CHUNK_SIZE * CHUNK_SIZE) as int)
}

/// Every linear cell index comes from one local coordinate triple.
pub proof fn lemma_cell_coords(i: int)
    requires
        0 <= i < CHUNK_VOLUME,
    ensures
        0 <= cell_x(i) < CHUNK_SIZE,
        0 <= cell_y(i) < CHUNK_SIZE,
        0 <= cell_z(i) < CHUNK_SIZE,
        crate::chunk::spec_cell_index(cell_x(i), cell_y(i), cell_z(i)) == i,
{
    let cs = CHUNK_SIZE as int;
    let x = i % cs;
    let yz = i / cs;
    let y = yz % cs;
    let z = yz / cs;
    vstd::arithmetic::div_mod::lemma_fundamental_div_mod(i, cs);
    vstd::arithmetic::div_mod::lemma_fundamental_div_mod(yz, cs);
    assert(0 <= x < cs && 0 <= y < cs);
    assert(0 <= yz < cs * cs) by (nonlinear_arith)
        requires
            0 <= i < cs * cs * cs,
            yz == i / cs,
            cs > 0,
            i == cs * yz + x,
            0 <= x < cs,
    ;
    assert(0 <= z < cs) by (nonlinear_arith)
        requires
            0 <= yz < cs * cs,
            z == yz / cs,
            cs > 0,
            yz == cs * z + y,
            0 <= y < cs,
    ;
    assert(x + y * cs + z * cs * cs == i) by (nonlinear_arith)
        requires
            i == cs * yz + x,
            yz == cs * z + y,
            cs == 32,
    ;
    assert(cell_z(i) == i / (cs * cs) && cell_z(i) == z) by (nonlinear_arith)
        requires
            cs == 32,
            i == cs * yz + x,
            yz == cs * z + y,
            0 <= x < cs,
            0 <= y < cs,
            0 <= z < cs,
            cell_z(i) == i / (cs * cs),
    ;
}

/// The subsequence of `visible` that the level must start loads for:
/// the coordinates neither loaded nor already in flight, in the order
/// given.
pub open spec fn spec_wanted_loads(l: Level, visible: Seq<ChunkPos>) -> Seq<ChunkPos>
    decreases visible.len(),
{
    if visible.len() == 0 {
        Seq::empty()
    } else {
        let rest = spec_wanted_loads(l, visible.drop_last());
        if l.wants_load(visible.last()) {
            rest.push(visible.last())
        } else {
            rest
        }
    }
}

proof fn lemma_wanted_loads_step(l: Level, visible: Seq<ChunkPos>)
    requires
        visible.len() > 0,
    ensures
        spec_wanted_loads(l, visible) == if l.wants_load(visible.last()) {
            spec_wanted_loads(l, visible.drop_last()).push(visible.last())
        } else {
            spec_wanted_loads(l, visible.drop_last())
        },
{
}

/// Two simultaneous load requests for one coordinate start exactly one
/// generate-or-load task: the request serviced first marks the
/// coordinate in flight, and any request that finds the coordinate in
/// flight (or already loaded) is coalesced into a no-op.
pub proof fn lemma_duplicate_load_coalesced(l: Level, pos: ChunkPos)
    requires
        l.is_loading(pos) || l.is_loaded(pos),
    ensures
        !l.wants_load(pos),
{
}

/// Whether a position list contains `p`.
pub(crate) fn pos_list_contains(v: &Vec<ChunkPos>, p: &ChunkPos) -> (r: bool)
    ensures
        r == v@.contains(*p),
{
    let n = v.len();
    let mut i: usize = 0;
    while i < n
        invariant
            i <= n,
            n == v@.len(),
            forall|j: int| 0 <= j < i ==> v@[j] != *p,
        decreases n - i,
    {
        let q = &v[i];
        if q.x == p.x && q.y == p.y && q.z == p.z {
            proof {
                assert(v@[i as int] == *p);
            }
            return true;
        }
        i += 1;
    }
    false
}

/// Remove the one occurrence of `p` from a duplicate-free position
/// list; hands back whether it was present.
#[verifier::loop_isolation(false)]
pub(crate) fn pos_list_remove(v: &mut Vec<ChunkPos>, p: &ChunkPos) -> (r: bool)
    requires
        old(v)@.no_duplicates(),
    ensures
        r == old(v)@.contains(*p),
        final(v)@.no_duplicates(),
        forall|q: ChunkPos| final(v)@.contains(q) == (old(v)@.contains(q) && q != *p),
    decreases old(v)@.len(),
{
    let ghost pre = v@;
    let n = v.len();
    let mut i: usize = 0;
    while i < n
        invariant
            i <= n,
            n == v@.len(),
            v@ == pre,
            forall|j: int| 0 <= j < i ==> v@[j] != *p,
        decreases n - i,
    {
        let q = &v[i];
        if q.x == p.x && q.y == p.y && q.z == p.z {
            proof {
                assert(v@[i as int] == *p);
            }
            v.remove(i);
            proof {
                assert(v@ == pre.remove(i as int));
                assert forall|qq: ChunkPos| v@.contains(qq) == (pre.contains(qq) && qq != *p) by {
                    if v@.contains(qq) {
                        let k = choose|k: int| 0 <= k < v@.len() && v@[k] == qq;
                        if k < i {
                            assert(pre[k] == qq);
                        } else {
                            assert(pre[k + 1] == qq);
                        }
                        if qq == *p {
                            if k < i {
                            } else {
                                assert(pre[k + 1] == qq);
                                assert(pre[i as int] == *p);
                                assert((i as int) < k + 1);
                                assert(pre[i as int] != pre[k + 1]);
                            }
                            assert(false);
                        }
                    }
                    if pre.contains(qq) && qq != *p {
                        let k = choose|k: int| 0 <= k < pre.len() && pre[k] == qq;
                        if k < i {
                            assert(v@[k] == qq);
                        } else {
                            assert(pre[i as int] == *p);
                            assert(k != i);
                            assert(k > i);
                            assert(v@[k - 1] == pre[k]);
                            assert(v@[k - 1] == qq);
                        }
                    }
                }
                assert(v@.no_duplicates()) by {
                    assert forall|a: int, b: int|
                        0 <= a < b < v@.len() implies v@[a] != v@[b] by {
                        if a < i && b < i {
                        } else if a < i {
                            assert(v@[a] == pre[a] && v@[b] == pre[b + 1]);
                        } else {
                            assert(v@[a] == pre[a + 1] && v@[b] == pre[b + 1]);
                        }
                    }
                }
            }
            return true;
        }
        i += 1;
    }
    false
}

} // verus!
