//! Persistence codec: the compact byte format for a chunk.
//!
//! A serialized chunk is a name table followed by a run-length stream:
//!
//! * name table: a 16-bit count of distinct non-air block names referenced
//!   by the chunk, then each name as one length byte and that many ASCII
//!   bytes, in first-seen order during the cell scan;
//! * run stream: repeated `(count, local_index)` pairs of 16-bit values,
//!   where local index 0 means air and k > 0 means the k-th name of the
//!   table; the counts of all runs add up to exactly `CHUNK_VOLUME`.
//!
//! All 16-bit values are little-endian.  The cells are scanned in the
//! fixed linear order of `spec_cell_index` (x fastest, then y, then z),
//! and expanded back in the same order.

use vstd::prelude::*;

use crate::block_registry::{BlockId, BlockRegistry};
use crate::chunk::{Chunk, CHUNK_VOLUME};

verus! {

use vstd::string::StrSliceExecFns;
use vstd::utf8::is_ascii_chars;

/// Errors of the persistence codec.
#[derive(Debug, Clone, Copy, PartialEq, Eq, Structural)]
pub enum CodecError {
    /// The persisted chunk references a block name that was never
    /// registered; the load fails rather than silently dropping blocks.
    UnknownBlockName,
    /// The byte stream is malformed: truncated, a zero-length or
    /// out-of-range run, a non-ASCII name byte, too many or too few cells,
    /// or trailing bytes.
    CorruptChunkData,
}

/// The cells of a chunk, as the codec sees them.
pub type Cells = Seq<Option<BlockId>>;

// ---------------------------------------------------------------------
// 16-bit little-endian primitives
// ---------------------------------------------------------------------

/// The two little-endian bytes of a 16-bit value.
pub open spec fn spec_u16_le(n: u16) -> Seq<u8> {
    seq![(n % 256) as u8, (n / 256) as u8]
}

/// The 16-bit value of two little-endian bytes.
pub open spec fn spec_u16_of(b0: u8, b1: u8) -> u16 {
    (b0 + 256 * b1) as u16
}

pub proof fn lemma_u16_le_round_trip(n: u16)
    ensures
        spec_u16_of(spec_u16_le(n)[0], spec_u16_le(n)[1]) == n,
{
    vstd::arithmetic::div_mod::lemma_fundamental_div_mod(n as int, 256);
}

fn push_u16_le(out: &mut Vec<u8>, n: u16)
    ensures
        final(out)@ == old(out)@ + spec_u16_le(n),
{
    out.push((n % 256) as u8);
    out.push((n / 256) as u8);
    proof {
        assert(final(out)@ =~= old(out)@ + spec_u16_le(n));
    }
}

fn read_u16_le(bytes: &[u8], pos: usize) -> (r: u16)
    requires
        pos + 2 <= bytes@.len(),
    ensures
        r == spec_u16_of(bytes@[pos as int], bytes@[pos as int + 1]),
{
    bytes[pos] as u16 + 256 * (bytes[pos + 1] as u16)
}

// ---------------------------------------------------------------------
// Serialization, as a specification
// ---------------------------------------------------------------------

/// The name table in first-seen order: ids of the distinct non-air cells
/// of `cells` from position `i` on, appended to those already in `acc`.
pub open spec fn table_rec(cells: Cells, i: int, acc: Seq<u16>) -> Seq<u16>
    decreases cells.len() - i,
{
    if i < 0 || i >= cells.len() {
        acc
    } else {
        match cells[i] {
            None => table_rec(cells, i + 1, acc),
            Some(id) => if acc.contains(id.0) {
                table_rec(cells, i + 1, acc)
            } else {
                table_rec(cells, i + 1, acc.push(id.0))
            },
        }
    }
}

/// The name table of a chunk: its distinct block ids in first-seen order.
pub open spec fn spec_table(cells: Cells) -> Seq<u16> {
    table_rec(cells, 0, Seq::empty())
}

/// The first position of `v` in `s`.
pub open spec fn first_index(s: Seq<u16>, v: u16) -> int
    recommends
        s.contains(v),
    decreases s.len(),
{
    if s.len() == 0 {
        0
    } else if s[0] == v {
        0
    } else {
        1 + first_index(s.drop_first(), v)
    }
}

/// The local index a cell is encoded as: 0 for air, or one past the
/// position of its id in the name table.
pub open spec fn spec_local(table: Seq<u16>, c: Option<BlockId>) -> u16 {
    match c {
        None => 0u16,
        Some(id) => (first_index(table, id.0) + 1) as u16,
    }
}

/// All cells of a chunk as local indices.
pub open spec fn spec_locals(cells: Cells, table: Seq<u16>) -> Seq<u16> {
    Seq::new(cells.len(), |i: int| spec_local(table, cells[i]))
}

/// Length of the run of equal values at the front of `s`.
pub open spec fn front_run(s: Seq<u16>) -> int
    decreases s.len(),
{
    if s.len() == 0 {
        0
    } else if s.len() == 1 {
        1
    } else if s[1] == s[0] {
        1 + front_run(s.drop_first())
    } else {
        1
    }
}

pub proof fn lemma_front_run_bounds(s: Seq<u16>)
    requires
        s.len() > 0,
    ensures
        1 <= front_run(s) <= s.len(),
    decreases s.len(),
{
    if s.len() > 1 && s[1] == s[0] {
        lemma_front_run_bounds(s.drop_first());
    }
}

/// The run-length encoding of a sequence of local indices.  (The inner
/// `if` only guards termination: by `lemma_front_run_bounds` the length of
/// a front run always lies between 1 and the sequence length.)
pub open spec fn spec_rle(s: Seq<u16>) -> Seq<(u16, u16)>
    recommends
        s.len() <= 0xFFFF,
    decreases s.len(),
{
    if s.len() == 0 {
        Seq::empty()
    } else {
        let n = if 1 <= front_run(s) <= s.len() {
            front_run(s)
        } else {
            1
        };
        seq![((n as u16), s[0])] + spec_rle(s.skip(n))
    }
}

/// The bytes of one name-table entry: a length byte, then the ASCII bytes
/// of the name registered for `id`.
pub open spec fn spec_name_entry(reg: BlockRegistry, id: u16) -> Seq<u8> {
    let name = reg.spec_name(BlockId(id));
    seq![name.len() as u8] + Seq::new(name.len(), |i: int| name[i] as u8)
}

/// The bytes of the name-table entries for `table[j..]`.
pub open spec fn table_bytes_from(reg: BlockRegistry, table: Seq<u16>, j: int) -> Seq<u8>
    decreases table.len() - j,
{
    if j < 0 || j >= table.len() {
        Seq::empty()
    } else {
        spec_name_entry(reg, table[j]) + table_bytes_from(reg, table, j + 1)
    }
}

/// The bytes of a run stream.
pub open spec fn spec_runs_bytes(runs: Seq<(u16, u16)>) -> Seq<u8>
    decreases runs.len(),
{
    if runs.len() == 0 {
        Seq::empty()
    } else {
        spec_u16_le(runs[0].0) + spec_u16_le(runs[0].1) + spec_runs_bytes(runs.drop_first())
    }
}

/// The serialized form of a chunk: name-table count, name table, runs.
pub open spec fn spec_serialize(cells: Cells, reg: BlockRegistry) -> Seq<u8> {
    let table = spec_table(cells);
    spec_u16_le(table.len() as u16) + table_bytes_from(reg, table, 0) + spec_runs_bytes(
        spec_rle(spec_locals(cells, table)),
    )
}

/// Every non-air cell holds an id that is valid in the registry.
pub open spec fn cells_registered(cells: Cells, reg: BlockRegistry) -> bool {
    forall|i: int|
        0 <= i < cells.len() ==> ((#[trigger] cells[i]) matches Some(id) ==> reg.valid_id(id))
}

// ---------------------------------------------------------------------
// Deserialization, as a specification
// ---------------------------------------------------------------------

/// The cell a local index stands for: air for 0, else the block id at
/// that (1-based) position of the name table.
pub open spec fn spec_cell_of(table: Seq<u16>, idx: u16) -> Option<BlockId>
    recommends
        idx <= table.len(),
{
    if idx == 0 {
        None
    } else {
        Some(BlockId(table[idx - 1]))
    }
}

/// Parse `n` name-table entries from the front of `bytes`, resolving each
/// name through the registry; yields the resolved ids after `acc` and the
/// remaining bytes.
pub open spec fn spec_parse_names(
    bytes: Seq<u8>,
    n: int,
    reg: BlockRegistry,
    acc: Seq<u16>,
) -> Result<(Seq<u16>, Seq<u8>), CodecError>
    decreases n,
{
    if n <= 0 {
        Ok((acc, bytes))
    } else if bytes.len() < 1 {
        Err(CodecError::CorruptChunkData)
    } else {
        let l = bytes[0] as int;
        if 1 + l > bytes.len() {
            Err(CodecError::CorruptChunkData)
        } else if exists|k: int| 1 <= k < 1 + l && (#[trigger] bytes[k]) >= 128 {
            Err(CodecError::CorruptChunkData)
        } else {
            let name = Seq::new(l as nat, |i: int| bytes[1 + i] as char);
            if reg.contains_name(name) {
                spec_parse_names(bytes.skip(1 + l), n - 1, reg, acc.push(reg.spec_id(name).0))
            } else {
                Err(CodecError::UnknownBlockName)
            }
        }
    }
}

/// Parse runs from the front of `bytes` and expand them after `acc` until
/// exactly `CHUNK_VOLUME` cells exist and the bytes end.
pub open spec fn spec_parse_runs(bytes: Seq<u8>, acc: Cells, table: Seq<u16>) -> Result<
    Cells,
    CodecError,
>
    decreases bytes.len(),
{
    if acc.len() >= CHUNK_VOLUME {
        if acc.len() == CHUNK_VOLUME && bytes.len() == 0 {
            Ok(acc)
        } else {
            Err(CodecError::CorruptChunkData)
        }
    } else if bytes.len() < 4 {
        Err(CodecError::CorruptChunkData)
    } else {
        let cnt = spec_u16_of(bytes[0], bytes[1]) as int;
        let idx = spec_u16_of(bytes[2], bytes[3]);
        if cnt == 0 {
            Err(CodecError::CorruptChunkData)
        } else if acc.len() + cnt > CHUNK_VOLUME {
            Err(CodecError::CorruptChunkData)
        } else if idx > table.len() {
            Err(CodecError::CorruptChunkData)
        } else {
            spec_parse_runs(
                bytes.skip(4),
                acc + Seq::new(cnt as nat, |i: int| spec_cell_of(table, idx)),
                table,
            )
        }
    }
}

/// Parse a whole serialized chunk: the result of deserialization on any
/// byte string, successful exactly on well-formed encodings whose names
/// all resolve.
pub open spec fn spec_deserialize(bytes: Seq<u8>, reg: BlockRegistry) -> Result<
    Cells,
    CodecError,
> {
    if bytes.len() < 2 {
        Err(CodecError::CorruptChunkData)
    } else {
        let n = spec_u16_of(bytes[0], bytes[1]) as int;
        match spec_parse_names(bytes.skip(2), n, reg, Seq::empty()) {
            Err(e) => Err(e),
            Ok((table, rest)) => spec_parse_runs(rest, Seq::empty(), table),
        }
    }
}

// ---------------------------------------------------------------------
// Facts about the name table and run lengths
// ---------------------------------------------------------------------

/// Whatever `acc` contains, the finished table still contains.
pub proof fn lemma_table_rec_mono(cells: Cells, i: int, acc: Seq<u16>, v: u16)
    requires
        acc.contains(v),
    ensures
        table_rec(cells, i, acc).contains(v),
    decreases cells.len() - i,
{
    if 0 <= i < cells.len() {
        match cells[i] {
            None => lemma_table_rec_mono(cells, i + 1, acc, v),
            Some(id) => {
                if acc.contains(id.0) {
                    lemma_table_rec_mono(cells, i + 1, acc, v);
                } else {
                    let w = choose|w: int| 0 <= w < acc.len() && acc[w] == v;
                    assert(acc.push(id.0)[w] == v);
                    lemma_table_rec_mono(cells, i + 1, acc.push(id.0), v);
                }
            },
        }
    }
}

/// The table contains the id of every non-air cell at or after `i`.
pub proof fn lemma_table_rec_complete(cells: Cells, i: int, acc: Seq<u16>, j: int, id: BlockId)
    requires
        0 <= i <= j < cells.len(),
        cells[j] == Some(id),
    ensures
        table_rec(cells, i, acc).contains(id.0),
    decreases cells.len() - i,
{
    if i == j {
        if acc.contains(id.0) {
            lemma_table_rec_mono(cells, i + 1, acc, id.0);
        } else {
            let pushed = acc.push(id.0);
            assert(pushed[acc.len() as int] == id.0);
            lemma_table_rec_mono(cells, i + 1, pushed, id.0);
        }
    } else {
        match cells[i] {
            None => lemma_table_rec_complete(cells, i + 1, acc, j, id),
            Some(other) => {
                if acc.contains(other.0) {
                    lemma_table_rec_complete(cells, i + 1, acc, j, id);
                } else {
                    lemma_table_rec_complete(cells, i + 1, acc.push(other.0), j, id);
                }
            },
        }
    }
}

/// No value repeats in `s`.
pub open spec fn distinct_u16(s: Seq<u16>) -> bool {
    forall|i: int, j: int| 0 <= i < j < s.len() ==> s[i] != s[j]
}

/// Building the table preserves distinctness and any per-element bound
/// that holds of the ids of the cells.
pub proof fn lemma_table_rec_wf(cells: Cells, i: int, acc: Seq<u16>, reg: BlockRegistry)
    requires
        cells_registered(cells, reg),
        distinct_u16(acc),
        forall|k: int| 0 <= k < acc.len() ==> 1 <= #[trigger] acc[k] <= reg.num_blocks(),
    ensures
        distinct_u16(table_rec(cells, i, acc)),
        forall|k: int|
            0 <= k < table_rec(cells, i, acc).len() ==> 1 <= #[trigger] table_rec(cells, i, acc)[k]
                <= reg.num_blocks(),
    decreases cells.len() - i,
{
    if 0 <= i < cells.len() {
        match cells[i] {
            None => lemma_table_rec_wf(cells, i + 1, acc, reg),
            Some(id) => {
                assert(cells[i] matches Some(x) ==> reg.valid_id(x));
                if acc.contains(id.0) {
                    lemma_table_rec_wf(cells, i + 1, acc, reg);
                } else {
                    let pushed = acc.push(id.0);
                    assert forall|a: int, b: int| 0 <= a < b < pushed.len() implies pushed[a]
                        != pushed[b] by {
                        if b < acc.len() {
                        } else {
                            assert(pushed[b] == id.0);
                            if pushed[a] == id.0 {
                                assert(acc.contains(id.0));
                            }
                        }
                    }
                    lemma_table_rec_wf(cells, i + 1, pushed, reg);
                }
            },
        }
    }
}

/// The table grows by at most one entry per cell scanned.
pub proof fn lemma_table_rec_len(cells: Cells, i: int, acc: Seq<u16>)
    ensures
        table_rec(cells, i, acc).len() <= acc.len() + (if 0 <= i && i <= cells.len() {
            cells.len() - i
        } else {
            0int
        }),
    decreases cells.len() - i,
{
    if 0 <= i < cells.len() {
        match cells[i] {
            None => lemma_table_rec_len(cells, i + 1, acc),
            Some(id) => {
                if acc.contains(id.0) {
                    lemma_table_rec_len(cells, i + 1, acc);
                } else {
                    lemma_table_rec_len(cells, i + 1, acc.push(id.0));
                }
            },
        }
    }
}

/// Characterize `first_index` by a scan: if `v` first appears at `j`,
/// that is the first index.
pub proof fn lemma_first_index_at(s: Seq<u16>, v: u16, j: int)
    requires
        0 <= j < s.len(),
        s[j] == v,
        forall|k: int| 0 <= k < j ==> s[k] != v,
    ensures
        first_index(s, v) == j,
    decreases j,
{
    if j > 0 {
        lemma_first_index_at(s.drop_first(), v, j - 1);
    }
}

/// A contained value is found within bounds, at a position holding it.
pub proof fn lemma_first_index_props(s: Seq<u16>, v: u16)
    requires
        s.contains(v),
    ensures
        0 <= first_index(s, v) < s.len(),
        s[first_index(s, v)] == v,
    decreases s.len(),
{
    if s[0] != v {
        let w = choose|w: int| 0 <= w < s.len() && s[w] == v;
        assert(s.drop_first()[w - 1] == v);
        lemma_first_index_props(s.drop_first(), v);
    }
}

/// Characterize `front_run` by a scan: if the first `k` values are equal
/// and the run stops there, the front run has length `k`.
pub proof fn lemma_front_run_exact(s: Seq<u16>, k: int)
    requires
        1 <= k <= s.len(),
        forall|m: int| 0 <= m < k ==> #[trigger] s[m] == s[0],
        k == s.len() || s[k] != s[0],
    ensures
        front_run(s) == k,
    decreases k,
{
    if k == 1 {
        if s.len() > 1 {
            assert(s[1] != s[0]);
        }
    } else {
        assert(s[1] == s[0]);
        let d = s.drop_first();
        assert forall|m: int| 0 <= m < k - 1 implies #[trigger] d[m] == d[0] by {
            assert(d[m] == s[m + 1]);
        }
        lemma_front_run_exact(d, k - 1);
    }
}

// ---------------------------------------------------------------------
// Executable serialization
// ---------------------------------------------------------------------

fn table_contains(table: &Vec<u16>, v: u16) -> (r: bool)
    ensures
        r == table@.contains(v),
{
    let n = table.len();
    let mut i: usize = 0;
    while i < n
        invariant
            i <= n,
            n == table@.len(),
            forall|j: int| 0 <= j < i ==> table@[j] != v,
        decreases n - i,
    {
        if table[i] == v {
            return true;
        }
        i += 1;
    }
    false
}

fn table_position(table: &Vec<u16>, v: u16) -> (r: usize)
    requires
        table@.contains(v),
    ensures
        r == first_index(table@, v),
        r < table@.len(),
{
    let n = table.len();
    let mut i: usize = 0;
    while i < n
        invariant
            i <= n,
            n == table@.len(),
            table@.contains(v),
            forall|j: int| 0 <= j < i ==> table@[j] != v,
        decreases n - i,
    {
        if table[i] == v {
            proof {
                lemma_first_index_at(table@, v, i as int);
            }
            return i;
        }
        i += 1;
    }
    proof {
        lemma_first_index_props(table@, v);
        assert(false);
    }
    0
}

impl Chunk {
    /// Serialize this chunk for the persistent store: the name table in
    /// first-seen scan order, then the run-length stream.  The fixed scan
    /// order is the one of `spec_cell_index` (x fastest, then y, then z).
    pub fn serialize(&self, registry: &BlockRegistry) -> (r: Vec<u8>)
        requires
            self.wf(),
            registry.wf(),
            cells_registered(self@, *registry),
        ensures
            r@ == spec_serialize(self@, *registry),
    {
        let ghost cells = self@;

        // Pass 1: the name table, as block ids in first-seen order.
        let mut table: Vec<u16> = Vec::new();
        let mut i: usize = 0;
        while i < CHUNK_VOLUME
            invariant
                i <= CHUNK_VOLUME,
                self.wf(),
                cells == self@,
                spec_table(cells) == table_rec(cells, i as int, table@),
                table@.len() <= i,
            decreases CHUNK_VOLUME - i,
        {
            let ghost pre = table@;
            match self.cell(i) {
                None => {
                    proof {
                        assert(table_rec(cells, i as int, pre) == table_rec(
                            cells,
                            i as int + 1,
                            pre,
                        ));
                    }
                },
                Some(id) => {
                    if !table_contains(&table, id.0) {
                        table.push(id.0);
                    }
                    proof {
                        assert(table_rec(cells, i as int, pre) == table_rec(
                            cells,
                            i as int + 1,
                            table@,
                        ));
                    }
                },
            }
            i += 1;
        }
        proof {
            assert(spec_table(cells) == table@);
            lemma_table_rec_wf(cells, 0, Seq::empty(), *registry);
        }

        // Header and name table bytes.
        let mut out: Vec<u8> = Vec::new();
        push_u16_le(&mut out, table.len() as u16);
        let tlen = table.len();
        let mut j: usize = 0;
        while j < tlen
            invariant
                j <= tlen,
                tlen == table@.len(),
                registry.wf(),
                table@ == spec_table(cells),
                forall|k: int| 0 <= k < table@.len() ==> 1 <= #[trigger] table@[k] <= registry.num_blocks(),
                out@ + table_bytes_from(*registry, table@, j as int) == spec_u16_le(
                    table@.len() as u16,
                ) + table_bytes_from(*registry, table@, 0),
            decreases tlen - j,
        {
            let id = BlockId(table[j]);
            let name = registry.name(id);
            let name_str = name.as_str();
            let nb = name_str.as_bytes_vec();
            proof {
                broadcast use vstd::string::is_ascii_spec_bytes;

                assert(is_ascii_chars(name@));
                assert(vstd::string::is_ascii(name_str));
                assert(nb@ =~= Seq::new(name@.len(), |k: int| name@[k] as u8));
            }
            out.push(nb.len() as u8);
            let mut k: usize = 0;
            let ghost out_before = out@;
            while k < nb.len()
                invariant
                    k <= nb@.len(),
                    out@ == out_before + nb@.take(k as int),
                decreases nb@.len() - k,
            {
                out.push(nb[k]);
                k += 1;
            }
            proof {
                assert(nb@.take(nb@.len() as int) =~= nb@);
                assert(out@ =~= out_before + nb@);
                assert(spec_name_entry(*registry, table@[j as int]) =~= seq![
                    name@.len() as u8,
                ] + nb@);
                assert(out@ + table_bytes_from(*registry, table@, j as int + 1) =~= spec_u16_le(
                    table@.len() as u16,
                ) + table_bytes_from(*registry, table@, 0));
            }
            j += 1;
        }

        // Pass 2: the local index of every cell.
        let mut locals: Vec<u16> = Vec::new();
        let mut p: usize = 0;
        while p < CHUNK_VOLUME
            invariant
                p <= CHUNK_VOLUME,
                self.wf(),
                cells == self@,
                cells_registered(cells, *registry),
                table@ == spec_table(cells),
                table@.len() <= CHUNK_VOLUME,
                locals@.len() == p,
                forall|k: int| 0 <= k < p ==> locals@[k] == spec_local(table@, cells[k]),
            decreases CHUNK_VOLUME - p,
        {
            match self.cell(p) {
                None => {
                    locals.push(0);
                },
                Some(id) => {
                    proof {
                        lemma_table_rec_complete(cells, 0, Seq::empty(), p as int, id);
                    }
                    let pos = table_position(&table, id.0);
                    locals.push((pos + 1) as u16);
                },
            }
            p += 1;
        }
        proof {
            assert(locals@ =~= spec_locals(cells, table@));
        }

        // Pass 3: run-length encode the locals.
        let ghost locs = spec_locals(cells, table@);
        proof {
            assert(table_bytes_from(*registry, table@, tlen as int) =~= Seq::<u8>::empty());
            assert(out@ =~= spec_u16_le(table@.len() as u16) + table_bytes_from(
                *registry,
                table@,
                0,
            ));
            assert(locs.skip(0) =~= locs);
            assert(out@ + spec_runs_bytes(spec_rle(locs)) =~= spec_serialize(cells, *registry));
        }
        let mut q: usize = 0;
        while q < CHUNK_VOLUME
            invariant
                q <= CHUNK_VOLUME,
                locals@ == locs,
                locs.len() == CHUNK_VOLUME,
                out@ + spec_runs_bytes(spec_rle(locs.skip(q as int))) == spec_serialize(
                    cells,
                    *registry,
                ),
            decreases CHUNK_VOLUME - q,
        {
            let v = locals[q];
            let mut e: usize = q + 1;
            while e < CHUNK_VOLUME && locals[e] == v
                invariant
                    q < e <= CHUNK_VOLUME,
                    locals@ == locs,
                    locs.len() == CHUNK_VOLUME,
                    locs[q as int] == v,
                    forall|m: int| q <= m < e ==> locs[m] == v,
                decreases CHUNK_VOLUME - e,
            {
                e += 1;
            }
            proof {
                let tail = locs.skip(q as int);
                assert forall|m: int| 0 <= m < e - q implies #[trigger] tail[m] == tail[0] by {
                    assert(tail[m] == locs[q + m]);
                }
                assert(e - q == tail.len() || tail[e - q] != tail[0]);
                lemma_front_run_exact(tail, e as int - q as int);
                assert(tail.skip(e as int - q as int) =~= locs.skip(e as int));
                assert(spec_rle(tail) == seq![(((e - q) as u16), v)] + spec_rle(
                    locs.skip(e as int),
                ));
                assert(spec_runs_bytes(seq![(((e - q) as u16), v)] + spec_rle(locs.skip(e as int)))
                    =~= spec_u16_le((e - q) as u16) + spec_u16_le(v) + spec_runs_bytes(
                    spec_rle(locs.skip(e as int)),
                )) by {
                    let rest = spec_rle(locs.skip(e as int));
                    let one = seq![(((e - q) as u16), v)];
                    assert((one + rest).drop_first() =~= rest);
                }
            }
            push_u16_le(&mut out, (e - q) as u16);
            push_u16_le(&mut out, v);
            q = e;
        }
        proof {
            assert(locs.skip(CHUNK_VOLUME as int) =~= Seq::<u16>::empty());
            assert(spec_runs_bytes(spec_rle(locs.skip(CHUNK_VOLUME as int))) =~= Seq::<
                u8,
            >::empty());
            assert(out@ =~= spec_serialize(cells, *registry));
        }
        out
    }
}

// ---------------------------------------------------------------------
// The round-trip law
// ---------------------------------------------------------------------

/// Every value within a front run equals the first one.
pub proof fn lemma_front_run_all_equal(s: Seq<u16>)
    requires
        s.len() > 0,
    ensures
        forall|m: int| 0 <= m < front_run(s) ==> #[trigger] s[m] == s[0],
    decreases s.len(),
{
    lemma_front_run_bounds(s);
    if s.len() > 1 && s[1] == s[0] {
        lemma_front_run_bounds(s.drop_first());
        lemma_front_run_all_equal(s.drop_first());
        assert forall|m: int| 0 <= m < front_run(s) implies #[trigger] s[m] == s[0] by {
            if m > 0 {
                assert(s.drop_first()[m - 1] == s[m]);
            }
        }
    }
}

/// An ASCII character survives the trip through its byte.
proof fn lemma_ascii_char_byte_round_trip(c: char)
    requires
        c <= '\u{7f}',
    ensures
        ((c as u8) as char) == c,
{
    let u: u32 = c as u32;
    assert(u < 128);
    vstd::utf8::char_u32_cast(c, u);
    vstd::utf8::char_u32_cast((c as u8) as char, u);
}

/// Parsing the name-table bytes of valid ids gives those ids back.
proof fn lemma_parse_names_rt(reg: BlockRegistry, table: Seq<u16>, j: int, acc: Seq<u16>, rest: Seq<u8>)
    requires
        reg.wf(),
        0 <= j <= table.len(),
        forall|k: int| j <= k < table.len() ==> reg.valid_id(BlockId(#[trigger] table[k])),
    ensures
        spec_parse_names(table_bytes_from(reg, table, j) + rest, table.len() - j, reg, acc)
            == Ok::<(Seq<u16>, Seq<u8>), CodecError>((acc + table.skip(j), rest)),
    decreases table.len() - j,
{
    if j == table.len() {
        assert(table_bytes_from(reg, table, j) + rest =~= rest);
        assert(acc + table.skip(j) =~= acc);
    } else {
        let id = table[j];
        let name = reg.spec_name(BlockId(id));
        let l = name.len() as int;
        let entry = spec_name_entry(reg, id);
        let bytes1 = table_bytes_from(reg, table, j + 1) + rest;
        let bytes = table_bytes_from(reg, table, j) + rest;
        assert(bytes =~= entry + bytes1);
        assert(l <= 255 && is_ascii_chars(name));
        assert(entry.len() == 1 + l);
        assert(bytes[0] == l as u8);
        assert(bytes[0] as int == l);
        assert forall|i: int| 0 <= i < l implies #[trigger] bytes[1 + i] == name[i] as u8 by {
            assert(entry[1 + i] == name[i] as u8);
        }
        assert forall|w: int| 1 <= w < 1 + l implies !((#[trigger] bytes[w]) >= 128) by {
            let c = name[w - 1];
            assert(c <= '\u{7f}');
            assert((c as u32) < 128);
            vstd::utf8::char_u32_cast(c, c as u32);
            assert(bytes[w] == c as u8);
        }
        let parsed = Seq::new(l as nat, |i: int| bytes[1 + i] as char);
        assert forall|i: int| 0 <= i < l implies parsed[i] == name[i] by {
            lemma_ascii_char_byte_round_trip(name[i]);
        }
        assert(parsed =~= name);
        reg.lemma_spec_id_of_name(BlockId(id));
        assert(reg.contains_name(parsed));
        assert(reg.spec_id(parsed).0 == id);
        assert(bytes.skip(1 + l) =~= bytes1);
        lemma_parse_names_rt(reg, table, j + 1, acc.push(id), rest);
        assert(acc.push(id) + table.skip(j + 1) =~= acc + table.skip(j));
    }
}

/// Parsing the run-stream bytes of the encoded locals expands them back
/// to the cells they came from.
proof fn lemma_parse_runs_rt(l: Seq<u16>, table: Seq<u16>, acc: Cells, cells: Cells)
    requires
        acc.len() + l.len() == CHUNK_VOLUME,
        cells.len() == l.len(),
        l.len() <= 0xFFFF,
        forall|i: int|
            0 <= i < l.len() ==> #[trigger] l[i] <= table.len() && spec_cell_of(table, l[i])
                == cells[i],
    ensures
        spec_parse_runs(spec_runs_bytes(spec_rle(l)), acc, table) == Ok::<Cells, CodecError>(
            acc + cells,
        ),
    decreases l.len(),
{
    if l.len() == 0 {
        assert(spec_runs_bytes(spec_rle(l)) =~= Seq::<u8>::empty());
        assert(acc + cells =~= acc);
    } else {
        lemma_front_run_bounds(l);
        lemma_front_run_all_equal(l);
        let n = front_run(l);
        let v = l[0];
        let runs = spec_rle(l);
        assert(runs == seq![((n as u16), v)] + spec_rle(l.skip(n)));
        let rest_bytes = spec_runs_bytes(spec_rle(l.skip(n)));
        let bytes = spec_runs_bytes(runs);
        assert(runs[0] == ((n as u16), v));
        assert(runs.drop_first() =~= spec_rle(l.skip(n)));
        assert(bytes =~= spec_u16_le(n as u16) + spec_u16_le(v) + rest_bytes);
        lemma_u16_le_round_trip(n as u16);
        lemma_u16_le_round_trip(v);
        assert(bytes[0] == spec_u16_le(n as u16)[0] && bytes[1] == spec_u16_le(n as u16)[1]);
        assert(bytes[2] == spec_u16_le(v)[0] && bytes[3] == spec_u16_le(v)[1]);
        assert(spec_u16_of(bytes[0], bytes[1]) == n as u16);
        assert(spec_u16_of(bytes[2], bytes[3]) == v);
        let filled = Seq::new(n as nat, |i: int| spec_cell_of(table, v));
        assert forall|i: int| 0 <= i < n implies filled[i] == cells.take(n)[i] by {
            assert(l[i] == l[0]);
            assert(spec_cell_of(table, l[i]) == cells[i]);
        }
        assert(filled =~= cells.take(n));
        assert(bytes.skip(4) =~= rest_bytes);
        assert forall|i: int| 0 <= i < l.skip(n).len() implies #[trigger] l.skip(n)[i]
            <= table.len() && spec_cell_of(table, l.skip(n)[i]) == cells.skip(n)[i] by {
            assert(l.skip(n)[i] == l[n + i]);
            assert(cells.skip(n)[i] == cells[n + i]);
        }
        lemma_parse_runs_rt(l.skip(n), table, acc + cells.take(n), cells.skip(n));
        assert((acc + cells.take(n)) + cells.skip(n) =~= acc + cells);
    }
}

/// The round-trip law of the persistence codec: any chunk whose blocks
/// are all registered deserializes from its own serialization to exactly
/// the same cells.
pub proof fn lemma_codec_round_trip(cells: Cells, reg: BlockRegistry)
    requires
        cells.len() == CHUNK_VOLUME,
        reg.wf(),
        cells_registered(cells, reg),
    ensures
        spec_deserialize(spec_serialize(cells, reg), reg) == Ok::<Cells, CodecError>(cells),
{
    let table = spec_table(cells);
    lemma_table_rec_wf(cells, 0, Seq::empty(), reg);
    lemma_table_rec_len(cells, 0, Seq::empty());
    assert(table.len() <= CHUNK_VOLUME);
    let locs = spec_locals(cells, table);
    let runs_bytes = spec_runs_bytes(spec_rle(locs));
    let bytes = spec_serialize(cells, reg);
    let head = spec_u16_le(table.len() as u16);
    assert(bytes =~= head + (table_bytes_from(reg, table, 0) + runs_bytes));
    lemma_u16_le_round_trip(table.len() as u16);
    assert(bytes[0] == head[0] && bytes[1] == head[1]);
    assert(spec_u16_of(bytes[0], bytes[1]) == table.len() as u16);
    assert(bytes.skip(2) =~= table_bytes_from(reg, table, 0) + runs_bytes);
    lemma_parse_names_rt(reg, table, 0, Seq::empty(), runs_bytes);
    assert(Seq::<u16>::empty() + table.skip(0) =~= table);
    assert(spec_parse_names(bytes.skip(2), table.len() as int, reg, Seq::empty()) == Ok::<
        (Seq<u16>, Seq<u8>),
        CodecError,
    >((table, runs_bytes)));
    assert forall|i: int| 0 <= i < locs.len() implies #[trigger] locs[i] <= table.len()
        && spec_cell_of(table, locs[i]) == cells[i] by {
        assert(locs[i] == spec_local(table, cells[i]));
        match cells[i] {
            None => {},
            Some(id) => {
                lemma_table_rec_complete(cells, 0, Seq::empty(), i, id);
                lemma_first_index_props(table, id.0);
                let fi = first_index(table, id.0);
                assert(locs[i] == (fi + 1) as u16);
                assert(spec_cell_of(table, (fi + 1) as u16) == Some(BlockId(table[fi])));
                assert(BlockId(table[fi]) == id);
            },
        }
    }
    lemma_parse_runs_rt(locs, table, Seq::empty(), cells);
    assert(Seq::<Option<BlockId>>::empty() + cells =~= cells);
}

// ---------------------------------------------------------------------
// Executable deserialization
// ---------------------------------------------------------------------

/// Relies on String::from_utf8: bytes below 128 are valid UTF-8 and
/// decode to exactly one character per byte, each the character with that
/// code point.
#[verifier::external_body]
fn ascii_bytes_to_string(bytes: &Vec<u8>) -> (r: String)
    requires
        forall|i: int| 0 <= i < bytes@.len() ==> bytes@[i] < 128,
    ensures
        r@.len() == bytes@.len(),
        forall|i: int| 0 <= i < bytes@.len() ==> r@[i] == bytes@[i] as char,
{
    String::from_utf8(bytes.clone()).unwrap()
}

impl Chunk {
    /// Rebuild a chunk from its serialized form, resolving the persisted
    /// block names through the registry.  Fails with `UnknownBlockName`
    /// when a persisted name was never registered, and with
    /// `CorruptChunkData` on any malformed byte stream; the outcome is
    /// exactly `spec_deserialize` of the input.
    #[verifier::loop_isolation(false)]
    pub fn deserialize(bytes: &[u8], registry: &BlockRegistry) -> (r: Result<Chunk, CodecError>)
        requires
            registry.wf(),
        ensures
            match r {
                Ok(c) => {
                    &&& c.wf()
                    &&& spec_deserialize(bytes@, *registry) == Ok::<Cells, CodecError>(c@)
                    &&& cells_registered(c@, *registry)
                },
                Err(e) => spec_deserialize(bytes@, *registry) == Err::<Cells, CodecError>(e),
            },
    {
        let blen = bytes.len();
        if blen < 2 {
            return Err(CodecError::CorruptChunkData);
        }
        let n = read_u16_le(bytes, 0) as usize;

        // Phase 1: the name table, each name resolved to its block id.
        let mut table: Vec<u16> = Vec::new();
        let mut pos: usize = 2;
        let mut j: usize = 0;
        while j < n
            invariant
                registry.wf(),
                blen == bytes@.len(),
                2 <= pos <= blen,
                j <= n,
                n <= 0xFFFF,
                table@.len() == j,
                spec_parse_names(bytes@.skip(2), n as int, *registry, Seq::empty())
                    == spec_parse_names(
                    bytes@.skip(pos as int),
                    n - j,
                    *registry,
                    table@,
                ),
                forall|k: int|
                    0 <= k < table@.len() ==> registry.valid_id(BlockId(#[trigger] table@[k])),
            decreases n - j,
        {
            let ghost rem = bytes@.skip(pos as int);
            let ghost table_pre = table@;
            if pos >= blen {
                return Err(CodecError::CorruptChunkData);
            }
            let l = bytes[pos] as usize;
            proof {
                assert(rem[0] == bytes@[pos as int]);
            }
            if l > blen - pos - 1 {
                return Err(CodecError::CorruptChunkData);
            }
            let mut nb: Vec<u8> = Vec::new();
            let mut k: usize = 0;
            while k < l
                invariant
                    k <= l,
                    blen == bytes@.len(),
                    2 <= pos,
                    pos + 1 + l <= blen,
                    nb@ == bytes@.subrange(pos as int + 1, pos as int + 1 + k as int),
                    forall|m: int| 0 <= m < k ==> #[trigger] bytes@[pos + 1 + m] < 128,
                decreases l - k,
            {
                let b = bytes[pos + 1 + k];
                if b >= 128 {
                    proof {
                        assert(rem[1 + k as int] == bytes@[pos + 1 + k as int]);
                        assert(exists|w: int| 1 <= w < 1 + l && (#[trigger] rem[w]) >= 128);
                    }
                    return Err(CodecError::CorruptChunkData);
                }
                nb.push(b);
                proof {
                    assert(nb@ =~= bytes@.subrange(pos as int + 1, pos as int + 1 + (k + 1)));
                }
                k += 1;
            }
            let ghost spec_nm = Seq::new(l as nat, |i: int| rem[1 + i] as char);
            proof {
                assert forall|w: int| 1 <= w < 1 + l implies !((#[trigger] rem[w]) >= 128) by {
                    assert(rem[w] == bytes@[pos + w]);
                    assert(bytes@[pos + 1 + (w - 1)] < 128);
                }
                assert forall|i: int| 0 <= i < nb@.len() implies nb@[i] < 128 by {
                    assert(nb@[i] == bytes@[pos + 1 + i]);
                }
            }
            let name = ascii_bytes_to_string(&nb);
            proof {
                assert forall|i: int| 0 <= i < l implies name@[i] == spec_nm[i] by {
                    assert(nb@[i] == bytes@[pos + 1 + i]);
                    assert(rem[1 + i] == bytes@[pos + 1 + i]);
                }
                assert(name@ =~= spec_nm);
            }
            match registry.block_id(name.as_str()) {
                Ok(id) => {
                    table.push(id.0);
                    proof {
                        assert(bytes@.skip(pos as int).skip(1 + l) =~= bytes@.skip(
                            pos as int + 1 + l,
                        ));
                        assert(table@ =~= table_pre.push(registry.spec_id(spec_nm).0));
                        assert(spec_parse_names(rem, n - j, *registry, table_pre)
                            == spec_parse_names(
                            bytes@.skip(pos as int + 1 + l),
                            n - j - 1,
                            *registry,
                            table@,
                        ));
                    }
                    pos = pos + 1 + l;
                },
                Err(_) => {
                    return Err(CodecError::UnknownBlockName);
                },
            }
            j += 1;
        }
        proof {
            assert(spec_parse_names(bytes@.skip(2), n as int, *registry, Seq::empty())
                == Ok::<(Seq<u16>, Seq<u8>), CodecError>((table@, bytes@.skip(pos as int))));
        }

        // Phase 2: expand the run stream into the dense cell array.
        let ghost table_seq = table@;
        let ghost rest0 = bytes@.skip(pos as int);
        let tlen = table.len();
        let mut chunk = Chunk::empty();
        let mut filled: usize = 0;
        while filled < CHUNK_VOLUME
            invariant
                registry.wf(),
                blen == bytes@.len(),
                pos <= blen,
                filled == chunk@.len(),
                filled <= CHUNK_VOLUME,
                table@ == table_seq,
                tlen == table@.len(),
                cells_registered(chunk@, *registry),
                forall|k: int|
                    0 <= k < table@.len() ==> registry.valid_id(BlockId(#[trigger] table@[k])),
                spec_parse_runs(rest0, Seq::empty(), table_seq) == spec_parse_runs(
                    bytes@.skip(pos as int),
                    chunk@,
                    table_seq,
                ),
            decreases CHUNK_VOLUME - filled,
        {
            let ghost rem = bytes@.skip(pos as int);
            let ghost chunk_pre = chunk@;
            if blen - pos < 4 {
                return Err(CodecError::CorruptChunkData);
            }
            let cnt = read_u16_le(bytes, pos) as usize;
            let idx = read_u16_le(bytes, pos + 2);
            proof {
                assert(rem[0] == bytes@[pos as int]);
                assert(rem[1] == bytes@[pos as int + 1]);
                assert(rem[2] == bytes@[pos as int + 2]);
                assert(rem[3] == bytes@[pos as int + 3]);
            }
            if cnt == 0 {
                return Err(CodecError::CorruptChunkData);
            }
            if cnt > CHUNK_VOLUME - filled {
                return Err(CodecError::CorruptChunkData);
            }
            if idx as usize > tlen {
                return Err(CodecError::CorruptChunkData);
            }
            let cellv: Option<BlockId> = if idx == 0 {
                None
            } else {
                Some(BlockId(table[idx as usize - 1]))
            };
            proof {
                assert(cellv == spec_cell_of(table_seq, idx));
            }
            let mut c: usize = 0;
            while c < cnt
                invariant
                    c <= cnt,
                    chunk@ == chunk_pre + Seq::new(c as nat, |i: int| cellv),
                    chunk_pre.len() + cnt <= CHUNK_VOLUME,
                decreases cnt - c,
            {
                chunk.push_cell(cellv);
                proof {
                    assert(chunk@ =~= chunk_pre + Seq::new((c + 1) as nat, |i: int| cellv));
                }
                c += 1;
            }
            proof {
                assert(chunk@ =~= chunk_pre + Seq::new(cnt as nat, |i: int| spec_cell_of(
                    table_seq,
                    idx,
                )));
                assert(bytes@.skip(pos as int).skip(4) =~= bytes@.skip(pos as int + 4));
                assert(spec_parse_runs(rem, chunk_pre, table_seq) == spec_parse_runs(
                    bytes@.skip(pos as int + 4),
                    chunk@,
                    table_seq,
                ));
                assert forall|k: int| 0 <= k < chunk@.len() implies ((#[trigger] chunk@[k])
                    matches Some(id) ==> registry.valid_id(id)) by {
                    if k >= chunk_pre.len() {
                        assert(chunk@[k] == spec_cell_of(table_seq, idx));
                    }
                }
            }
            pos = pos + 4;
            filled = filled + cnt;
        }
        if pos != blen {
            proof {
                assert(bytes@.skip(pos as int).len() > 0);
            }
            return Err(CodecError::CorruptChunkData);
        }
        proof {
            assert(bytes@.skip(pos as int).len() == 0);
            assert(spec_parse_runs(bytes@.skip(pos as int), chunk@, table_seq) == Ok::<
                Cells,
                CodecError,
            >(chunk@));
        }
        Ok(chunk)
    }
}

} // verus!
