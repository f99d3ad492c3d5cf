use vstd::prelude::*;

use crate::chunk::CHUNK_SIZE;
use crate::position::ChunkPos;

verus! {

/// Squared distance between two chunk coordinates, in chunks.
pub open spec fn dist2(a: ChunkPos, b: ChunkPos) -> int {
    (a.x - b.x) * (a.x - b.x) + (a.y - b.y) * (a.y - b.y) + (a.z - b.z) * (a.z - b.z)
}

/// The visible set around `center` with chunk radius `d`: the chunks
/// whose center lies within `d * CHUNK_SIZE` world units of the center
/// chunk's center.  Chunk centers sit `CHUNK_SIZE` apart per axis step,
/// so that is exactly a squared chunk distance of at most d * d (see
/// `lemma_visible_set_by_centers`).
pub open spec fn in_visible_set(center: ChunkPos, d: int, p: ChunkPos) -> bool {
    dist2(center, p) <= d * d
}

/// The distance filter over chunk coordinates agrees with the filter
/// over world-space chunk centers (the coordinates `ChunkPos::center`
/// computes).
pub proof fn lemma_visible_set_by_centers(a: ChunkPos, b: ChunkPos, d: int)
    requires
        d >= 0,
    ensures
        in_visible_set(a, d, b) <==> ({
            let cs = CHUNK_SIZE as int;
            let cx = (a.x * cs + cs / 2) - (b.x * cs + cs / 2);
            let cy = (a.y * cs + cs / 2) - (b.y * cs + cs / 2);
            let cz = (a.z * cs + cs / 2) - (b.z * cs + cs / 2);
            cx * cx + cy * cy + cz * cz <= (d * cs) * (d * cs)
        }),
{
    let cs = CHUNK_SIZE as int;
    let ex = a.x - b.x;
    let ey = a.y - b.y;
    let ez = a.z - b.z;
    assert((a.x * cs + cs / 2) - (b.x * cs + cs / 2) == cs * ex) by (nonlinear_arith)
        requires
            ex == a.x - b.x,
    ;
    assert((a.y * cs + cs / 2) - (b.y * cs + cs / 2) == cs * ey) by (nonlinear_arith)
        requires
            ey == a.y - b.y,
    ;
    assert((a.z * cs + cs / 2) - (b.z * cs + cs / 2) == cs * ez) by (nonlinear_arith)
        requires
            ez == a.z - b.z,
    ;
    assert((cs * ex) * (cs * ex) == cs * cs * (ex * ex)) by (nonlinear_arith);
    assert((cs * ey) * (cs * ey) == cs * cs * (ey * ey)) by (nonlinear_arith);
    assert((cs * ez) * (cs * ez) == cs * cs * (ez * ez)) by (nonlinear_arith);
    assert(cs * cs * (ex * ex) + cs * cs * (ey * ey) + cs * cs * (ez * ez) == cs * cs * (ex * ex
        + ey * ey + ez * ez)) by (nonlinear_arith);
    assert((d * cs) * (d * cs) == cs * cs * (d * d)) by (nonlinear_arith);
    assert(cs * cs * (ex * ex + ey * ey + ez * ez) <= cs * cs * (d * d) <==> ex * ex + ey * ey + ez
        * ez <= d * d) by (nonlinear_arith)
        requires
            cs * cs > 0,
    ;
}

/// Side length of the cube of candidate offsets for radius `d`.
pub open spec fn spec_side(d: int) -> int {
    2 * d + 1
}

/// All three offsets lie within the candidate cube.
pub open spec fn in_cube(d: int, dx: int, dy: int, dz: int) -> bool {
    -d <= dx <= d && -d <= dy <= d && -d <= dz <= d
}

/// The scan position of an offset triple within the candidate cube.
pub open spec fn spec_lin(d: int, dx: int, dy: int, dz: int) -> int {
    ((dx + d) * spec_side(d) + (dy + d)) * spec_side(d) + (dz + d)
}

proof fn lemma_lin_bounds(d: int, dx: int, dy: int, dz: int)
    requires
        d >= 0,
        in_cube(d, dx, dy, dz),
    ensures
        0 <= spec_lin(d, dx, dy, dz) < spec_side(d) * spec_side(d) * spec_side(d),
{
    let s = spec_side(d);
    assert(0 <= spec_lin(d, dx, dy, dz) < s * s * s) by (nonlinear_arith)
        requires
            s == 2 * d + 1,
            0 <= dx + d < s,
            0 <= dy + d < s,
            0 <= dz + d < s,
            spec_lin(d, dx, dy, dz) == ((dx + d) * s + (dy + d)) * s + (dz + d),
    ;
}

pub proof fn lemma_split_unique(q1: int, r1: int, q2: int, r2: int, m: int)
    requires
        m > 0,
        0 <= r1 < m,
        0 <= r2 < m,
        q1 * m + r1 == q2 * m + r2,
    ensures
        q1 == q2,
        r1 == r2,
{
    assert(q1 == q2 && r1 == r2) by (nonlinear_arith)
        requires
            m > 0,
            0 <= r1 < m,
            0 <= r2 < m,
            q1 * m + r1 == q2 * m + r2,
    ;
}

proof fn lemma_lin_injective(
    d: int,
    dx: int,
    dy: int,
    dz: int,
    ex: int,
    ey: int,
    ez: int,
)
    requires
        d >= 0,
        in_cube(d, dx, dy, dz),
        in_cube(d, ex, ey, ez),
        spec_lin(d, dx, dy, dz) == spec_lin(d, ex, ey, ez),
    ensures
        dx == ex && dy == ey && dz == ez,
{
    let s = spec_side(d);
    lemma_split_unique((dx + d) * s + (dy + d), dz + d, (ex + d) * s + (ey + d), ez + d, s);
    lemma_split_unique(dx + d, dy + d, ex + d, ey + d, s);
}

/// Being inside the visible set confines each offset to the cube.
proof fn lemma_visible_in_cube(center: ChunkPos, d: int, p: ChunkPos)
    requires
        d >= 0,
        in_visible_set(center, d, p),
    ensures
        in_cube(d, p.x - center.x, p.y - center.y, p.z - center.z),
{
    let ex = p.x - center.x;
    let ey = p.y - center.y;
    let ez = p.z - center.z;
    assert(-d <= ex <= d && -d <= ey <= d && -d <= ez <= d) by (nonlinear_arith)
        requires
            d >= 0,
            ex == p.x - center.x,
            ey == p.y - center.y,
            ez == p.z - center.z,
            (center.x - p.x) * (center.x - p.x) + (center.y - p.y) * (center.y - p.y) + (center.z
                - p.z) * (center.z - p.z) <= d * d,
    ;
}

/// The chunk positions within radius `distance` of `chunk_pos`, each
/// exactly once, ordered from nearest to farthest.  The radius is
/// capped so the candidate cube's size fits the machine.
#[verifier::loop_isolation(false)]
pub fn visible_chunks(chunk_pos: ChunkPos, distance: i32) -> (r: Vec<ChunkPos>)
    requires
        0 <= distance <= 512,
        i32::MIN + distance <= chunk_pos.x <= i32::MAX - distance,
        i32::MIN + distance <= chunk_pos.y <= i32::MAX - distance,
        i32::MIN + distance <= chunk_pos.z <= i32::MAX - distance,
    ensures
        forall|p: ChunkPos| r@.contains(p) <==> in_visible_set(chunk_pos, distance as int, p),
        r@.no_duplicates(),
        forall|i: int, j: int|
            0 <= i <= j < r@.len() ==> dist2(chunk_pos, r@[i]) <= dist2(chunk_pos, r@[j]),
{
    broadcast use vstd::seq_lib::group_to_multiset_ensures;

    let d = distance as usize;
    let ghost di = distance as int;
    let side: usize = 2 * d + 1;
    proof {
        assert(side * side <= 1025 * 1025) by (nonlinear_arith)
            requires
                1 <= side <= 1025,
        ;
    }
    let layer: usize = side * side;
    proof {
        assert(layer * side <= 1025 * 1025 * 1025) by (nonlinear_arith)
            requires
                1 <= side <= 1025,
                layer <= 1025 * 1025,
        ;
    }
    let total: usize = layer * side;

    // Phase 1: collect every qualifying position with its squared
    // distance, scanning the candidate cube in a fixed order.
    let mut found: Vec<(i64, ChunkPos)> = Vec::new();
    let mut idx: usize = 0;
    while idx < total
        invariant
            idx <= total,
            forall|k: int|
                0 <= k < found@.len() ==> {
                    let pr = #[trigger] found@[k];
                    &&& in_visible_set(chunk_pos, di, pr.1)
                    &&& pr.0 == dist2(chunk_pos, pr.1)
                    &&& in_cube(di, pr.1.x - chunk_pos.x, pr.1.y - chunk_pos.y, pr.1.z - chunk_pos.z)
                    &&& spec_lin(
                        di,
                        pr.1.x - chunk_pos.x,
                        pr.1.y - chunk_pos.y,
                        pr.1.z - chunk_pos.z,
                    ) < idx
                },
            forall|p: ChunkPos|
                (in_visible_set(chunk_pos, di, p) && 0 <= spec_lin(
                    di,
                    p.x - chunk_pos.x,
                    p.y - chunk_pos.y,
                    p.z - chunk_pos.z,
                ) < idx) ==> found@.contains((dist2(chunk_pos, p) as i64, p)),
            forall|k1: int, k2: int|
                0 <= k1 < k2 < found@.len() ==> found@[k1].1 != found@[k2].1,
        decreases total - idx,
    {
        let q1 = idx / layer;
        let rem = idx % layer;
        let q2 = rem / side;
        let q3 = rem % side;
        proof {
            vstd::arithmetic::div_mod::lemma_fundamental_div_mod(idx as int, layer as int);
            vstd::arithmetic::div_mod::lemma_fundamental_div_mod(rem as int, side as int);
            assert(q1 < side) by (nonlinear_arith)
                requires
                    idx < total,
                    total == layer * side,
                    layer > 0,
                    side > 0,
                    idx as int == layer * (q1 as int) + rem,
                    0 <= rem < layer,
            ;
            assert(q2 < side) by (nonlinear_arith)
                requires
                    rem < layer,
                    layer == side * side,
                    side > 0,
                    rem as int == side * (q2 as int) + q3,
                    0 <= q3 < side,
            ;
        }
        let ox: i64 = q1 as i64 - d as i64;
        let oy: i64 = q2 as i64 - d as i64;
        let oz: i64 = q3 as i64 - d as i64;
        proof {
            assert(0 <= ox as int * ox as int <= 513 * 513 && 0 <= oy as int * oy as int <= 513
                * 513 && 0 <= oz as int * oz as int <= 513 * 513) by (nonlinear_arith)
                requires
                    -513 <= ox as int <= 513,
                    -513 <= oy as int <= 513,
                    -513 <= oz as int <= 513,
            ;
        }
        let key: i64 = ox * ox + oy * oy + oz * oz;
        proof {
            assert(d * d <= 512 * 512) by (nonlinear_arith)
                requires
                    d <= 512,
            ;
        }
        proof {
            assert(spec_lin(di, ox as int, oy as int, oz as int) == idx) by (nonlinear_arith)
                requires
                    spec_side(di) == side as int,
                    spec_lin(di, ox as int, oy as int, oz as int) == ((ox + di) * side + (oy + di))
                        * side + (oz + di),
                    ox as int == q1 - di,
                    oy as int == q2 - di,
                    oz as int == q3 - di,
                    layer == side * side,
                    idx as int == layer * (q1 as int) + rem,
                    rem as int == side * (q2 as int) + q3,
                    0 <= q3 < side,
                    0 <= q2,
                    rem < layer,
            ;
        }
        if key <= (d * d) as i64 {
            let px = ((chunk_pos.x as i64) + ox) as i32;
            let py = ((chunk_pos.y as i64) + oy) as i32;
            let pz = ((chunk_pos.z as i64) + oz) as i32;
            let p = ChunkPos::new(px, py, pz);
            let ghost pre = found@;
            found.push((key, p));
            proof {
                assert(p.x - chunk_pos.x == ox && p.y - chunk_pos.y == oy && p.z - chunk_pos.z
                    == oz);
                assert(dist2(chunk_pos, p) == ox * ox + oy * oy + oz * oz) by (nonlinear_arith)
                    requires
                        p.x - chunk_pos.x == ox as int,
                        p.y - chunk_pos.y == oy as int,
                        p.z - chunk_pos.z == oz as int,
                        dist2(chunk_pos, p) == (chunk_pos.x - p.x) * (chunk_pos.x - p.x) + (
                        chunk_pos.y - p.y) * (chunk_pos.y - p.y) + (chunk_pos.z - p.z) * (
                        chunk_pos.z - p.z),
                ;
                assert(dist2(chunk_pos, p) == key);
                assert forall|pp: ChunkPos|
                    (in_visible_set(chunk_pos, di, pp) && 0 <= spec_lin(
                        di,
                        pp.x - chunk_pos.x,
                        pp.y - chunk_pos.y,
                        pp.z - chunk_pos.z,
                    ) < idx + 1) implies found@.contains((dist2(chunk_pos, pp) as i64, pp)) by {
                    let lx = pp.x - chunk_pos.x;
                    let ly = pp.y - chunk_pos.y;
                    let lz = pp.z - chunk_pos.z;
                    if spec_lin(di, lx, ly, lz) < idx {
                        assert(pre.contains((dist2(chunk_pos, pp) as i64, pp)));
                        let w = choose|w: int|
                            0 <= w < pre.len() && pre[w] == (dist2(chunk_pos, pp) as i64, pp);
                        assert(found@[w] == (dist2(chunk_pos, pp) as i64, pp));
                    } else {
                        lemma_visible_in_cube(chunk_pos, di, pp);
                        lemma_lin_injective(di, lx, ly, lz, ox as int, oy as int, oz as int);
                        assert(pp == p);
                        assert(found@[pre.len() as int] == (dist2(chunk_pos, pp) as i64, pp));
                    }
                }
            }
        } else {
            proof {
                assert forall|pp: ChunkPos|
                    (in_visible_set(chunk_pos, di, pp) && 0 <= spec_lin(
                        di,
                        pp.x - chunk_pos.x,
                        pp.y - chunk_pos.y,
                        pp.z - chunk_pos.z,
                    ) < idx + 1) implies found@.contains((dist2(chunk_pos, pp) as i64, pp)) by {
                    let lx = pp.x - chunk_pos.x;
                    let ly = pp.y - chunk_pos.y;
                    let lz = pp.z - chunk_pos.z;
                    if spec_lin(di, lx, ly, lz) >= idx {
                        lemma_visible_in_cube(chunk_pos, di, pp);
                        lemma_lin_injective(di, lx, ly, lz, ox as int, oy as int, oz as int);
                        assert(dist2(chunk_pos, pp) == ox as int * ox as int + oy as int
                            * oy as int + oz as int * oz as int) by (nonlinear_arith)
                            requires
                                pp.x - chunk_pos.x == ox as int,
                                pp.y - chunk_pos.y == oy as int,
                                pp.z - chunk_pos.z == oz as int,
                                dist2(chunk_pos, pp) == (chunk_pos.x - pp.x) * (chunk_pos.x - pp.x)
                                    + (chunk_pos.y - pp.y) * (chunk_pos.y - pp.y) + (chunk_pos.z
                                    - pp.z) * (chunk_pos.z - pp.z),
                        ;
                        assert(false);
                    }
                }
            }
        }
        idx += 1;
    }
    proof {
        assert forall|p: ChunkPos| in_visible_set(chunk_pos, di, p) implies found@.contains(
            (dist2(chunk_pos, p) as i64, p),
        ) by {
            lemma_visible_in_cube(chunk_pos, di, p);
            lemma_lin_bounds(di, p.x - chunk_pos.x, p.y - chunk_pos.y, p.z - chunk_pos.z);
        }
    }

    // Phase 2: selection sort by ascending squared distance.
    let ghost all_pairs = found@;
    let mut rest = found;
    let mut picked: Vec<(i64, ChunkPos)> = Vec::new();
    while rest.len() > 0
        invariant
            picked@.to_multiset().add(rest@.to_multiset()) =~= all_pairs.to_multiset(),
            forall|i: int, j: int| 0 <= i <= j < picked@.len() ==> picked@[i].0 <= picked@[j].0,
            forall|i: int, j: int|
                0 <= i < picked@.len() && 0 <= j < rest@.len() ==> picked@[i].0 <= rest@[j].0,
        decreases rest@.len(),
    {
        let mut mi: usize = 0;
        let mut j: usize = 1;
        while j < rest.len()
            invariant
                mi < j <= rest@.len(),
                forall|k: int| 0 <= k < j ==> rest@[mi as int].0 <= #[trigger] rest@[k].0,
            decreases rest@.len() - j,
        {
            if rest[j].0 < rest[mi].0 {
                mi = j;
            }
            j += 1;
        }
        let ghost rest_pre = rest@;
        let item = rest.remove(mi);
        picked.push(item);
        proof {
            assert(rest@ == rest_pre.remove(mi as int));
            assert(rest@.to_multiset() =~= rest_pre.to_multiset().remove(item));
            assert(picked@.to_multiset().add(rest@.to_multiset()) =~= all_pairs.to_multiset());
            assert forall|jj: int| 0 <= jj < rest@.len() implies item.0 <= rest@[jj].0 by {
                if jj < mi {
                    assert(rest@[jj] == rest_pre[jj]);
                } else {
                    assert(rest@[jj] == rest_pre[jj + 1]);
                }
            }
        }
    }
    proof {
        assert(rest@.to_multiset() =~= Seq::<(i64, ChunkPos)>::empty().to_multiset());
        assert(picked@.to_multiset() =~= all_pairs.to_multiset());
        // Transfer membership and distinctness through the multiset.
        assert forall|pr: (i64, ChunkPos)| picked@.contains(pr) <==> all_pairs.contains(
            pr,
        ) by {
            assert(picked@.contains(pr) <==> picked@.to_multiset().count(pr) > 0);
            assert(all_pairs.contains(pr) <==> all_pairs.to_multiset().count(pr) > 0);
        }
        assert(all_pairs.no_duplicates()) by {
            assert forall|k1: int, k2: int|
                0 <= k1 < k2 < all_pairs.len() implies all_pairs[k1] != all_pairs[k2] by {
                assert(all_pairs[k1].1 != all_pairs[k2].1);
            }
        }
        all_pairs.lemma_multiset_has_no_duplicates();
        picked@.lemma_multiset_has_no_duplicates_conv();
    }

    // Phase 3: drop the keys.
    let mut out: Vec<ChunkPos> = Vec::new();
    let mut k: usize = 0;
    while k < picked.len()
        invariant
            k <= picked@.len(),
            out@.len() == k,
            forall|i: int| 0 <= i < k ==> out@[i] == picked@[i].1,
        decreases picked@.len() - k,
    {
        let pr = picked[k];
        out.push(pr.1);
        k += 1;
    }
    proof {
        // Membership of positions transfers from the pairs: every pair
        // carries exactly the squared distance of its position.
        assert forall|p: ChunkPos| out@.contains(p) <==> in_visible_set(chunk_pos, di, p) by {
            if out@.contains(p) {
                let w = choose|w: int| 0 <= w < out@.len() && out@[w] == p;
                assert(picked@[w].1 == p);
                assert(picked@.contains(picked@[w]));
                assert(all_pairs.contains(picked@[w]));
                let w2 = choose|w2: int| 0 <= w2 < all_pairs.len() && all_pairs[w2] == picked@[w];
                assert(in_visible_set(chunk_pos, di, p));
            }
            if in_visible_set(chunk_pos, di, p) {
                assert(all_pairs.contains((dist2(chunk_pos, p) as i64, p)));
                assert(picked@.contains((dist2(chunk_pos, p) as i64, p)));
                let w = choose|w: int|
                    0 <= w < picked@.len() && picked@[w] == (dist2(chunk_pos, p) as i64, p);
                assert(out@[w] == p);
                assert(out@.contains(p));
            }
        }
        assert forall|i: int, j: int| 0 <= i < j < out@.len() implies out@[i] != out@[j] by {
            assert(picked@.contains(picked@[i]) && picked@.contains(picked@[j]));
            assert(all_pairs.contains(picked@[i]) && all_pairs.contains(picked@[j]));
            let wi = choose|w: int| 0 <= w < all_pairs.len() && all_pairs[w] == picked@[i];
            let wj = choose|w: int| 0 <= w < all_pairs.len() && all_pairs[w] == picked@[j];
            assert(all_pairs[wi] == picked@[i] && all_pairs[wj] == picked@[j]);
            assert(picked@[i].0 == dist2(chunk_pos, picked@[i].1));
            assert(picked@[j].0 == dist2(chunk_pos, picked@[j].1));
            if picked@[i].1 == picked@[j].1 {
                assert(picked@[i] == picked@[j]);
                assert(picked@.to_multiset().count(picked@[i]) >= 2) by {
                    let s0 = picked@.subrange(0, j);
                    let s1 = picked@.subrange(j, picked@.len() as int);
                    assert(picked@ =~= s0 + s1);
                    vstd::seq_lib::lemma_multiset_commutative(s0, s1);
                    assert(s0.contains(picked@[i]));
                    assert(s1.contains(picked@[j]));
                    assert(s0.to_multiset().count(picked@[i]) > 0);
                    assert(s1.to_multiset().count(picked@[j]) > 0);
                }
                assert(all_pairs.to_multiset().count(picked@[i]) >= 2);
                assert(false);
            }
        }
        assert forall|i: int, j: int|
            0 <= i <= j < out@.len() implies dist2(chunk_pos, out@[i]) <= dist2(
            chunk_pos,
            out@[j],
        ) by {
            assert(picked@.contains(picked@[i]) && picked@.contains(picked@[j]));
            assert(all_pairs.contains(picked@[i]) && all_pairs.contains(picked@[j]));
            let wi = choose|w: int| 0 <= w < all_pairs.len() && all_pairs[w] == picked@[i];
            let wj = choose|w: int| 0 <= w < all_pairs.len() && all_pairs[w] == picked@[j];
            assert(picked@[i].0 == dist2(chunk_pos, picked@[i].1));
            assert(picked@[j].0 == dist2(chunk_pos, picked@[j].1));
        }
    }
    out
}

} // verus!
