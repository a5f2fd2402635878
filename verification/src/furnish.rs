//! Paced tile furnishing: a landed tile's cell meshes are built a bounded number per frame while
//! the body is live, nearest tile first, so crossing a tile line never uploads a whole row in
//! one frame; while it is not live (entry, teleport) the cap is off.
use crate::residency::{tile_dist, tile_dist_exec};
use vstd::prelude::*;

verus! {

/// Chunks furnished per frame while live: four cells.
pub const CELL_SPAWN_CAP: usize = 64;

/// A tile's 16 by 16 chunks furnish as cells of `CELL_SPAN` by `CELL_SPAN` chunks.
pub const CELL_SPAN: usize = 4;

/// Cells per tile: a 4 by 4 grid.
pub const CELLS_PER_TILE: usize = 16;

/// Chunks per cell.
pub const CHUNKS_PER_CELL: usize = 16;

/// The per-frame cell cap: paced while live, none otherwise.
pub fn cell_cap(live: bool) -> (cap: usize)
    ensures
        cap == if live {
            CELL_SPAWN_CAP / CHUNKS_PER_CELL
        } else {
            usize::MAX
        },
{
    if live {
        CELL_SPAWN_CAP / CHUNKS_PER_CELL
    } else {
        usize::MAX
    }
}

/// The chunk index (row-major, row times 16 plus column) of the `k`th chunk of cell `cell`,
/// both row-major within their grids.
pub open spec fn cell_chunk(cell: int, k: int) -> int {
    let (cy, cx) = (cell / 4, cell % 4);
    let (dy, dx) = (k / 4, k % 4);
    (cy * 4 + dy) * 16 + cx * 4 + dx
}

/// The chunks of a cell, in row-major order within the cell.
pub fn cell_chunks(cell: usize) -> (out: Vec<usize>)
    requires
        cell < CELLS_PER_TILE,
    ensures
        out@.len() == CHUNKS_PER_CELL,
        forall|k: int| 0 <= k < 16 ==> #[trigger] out@[k] as int == cell_chunk(cell as int, k),
        forall|k: int| 0 <= k < 16 ==> out@[k] < 256,
{
    let cy = cell / CELL_SPAN;
    let cx = cell % CELL_SPAN;
    let mut out: Vec<usize> = Vec::new();
    let mut dy: usize = 0;
    while dy < CELL_SPAN
        invariant
            0 <= dy <= 4,
            cy == cell / 4,
            cx == cell % 4,
            cell < 16,
            out@.len() == 4 * dy,
            forall|k: int| 0 <= k < out@.len() ==> #[trigger] out@[k] as int == cell_chunk(cell as int, k),
            forall|k: int| 0 <= k < out@.len() ==> out@[k] < 256,
        decreases 4 - dy,
    {
        let mut dx: usize = 0;
        while dx < CELL_SPAN
            invariant
                0 <= dx <= 4,
                0 <= dy < 4,
                cy == cell / 4,
                cx == cell % 4,
                cell < 16,
                out@.len() == 4 * dy + dx,
                forall|k: int| 0 <= k < out@.len() ==> #[trigger] out@[k] as int == cell_chunk(cell as int, k),
                forall|k: int| 0 <= k < out@.len() ==> out@[k] < 256,
            decreases 4 - dx,
        {
            let idx = (cy * CELL_SPAN + dy) * 16 + cx * CELL_SPAN + dx;
            proof {
                let k = 4 * dy + dx;
                assert(k / 4 == dy && k % 4 == dx);
            }
            out.push(idx);
            dx = dx + 1;
        }
        dy = dy + 1;
    }
    out
}

/// The furnish order: nearer the focus tile (Chebyshev) first, then by tile key.
pub open spec fn before(a: (i32, i32), b: (i32, i32), focus: (i32, i32)) -> bool {
    let (da, db) = (tile_dist(a, focus), tile_dist(b, focus));
    da < db || (da == db && (a.0 < b.0 || (a.0 == b.0 && a.1 < b.1)))
}

fn before_exec(a: (i32, i32), b: (i32, i32), focus: (i32, i32)) -> (r: bool)
    ensures
        r == before(a, b, focus),
{
    let da = tile_dist_exec(a, focus);
    let db = tile_dist_exec(b, focus);
    da < db || (da == db && (a.0 < b.0 || (a.0 == b.0 && a.1 < b.1)))
}

/// `s` runs in furnish order.
pub open spec fn in_furnish_order(s: Seq<(i32, i32)>, focus: (i32, i32)) -> bool {
    forall|i: int, j: int| 0 <= i < j < s.len() ==> before(s[i], s[j], focus)
}

/// The unfurnished tiles in the order they furnish: the same tiles, nearest the focus tile
/// first, ties by tile key.
pub fn furnish_order(pending: &[(i32, i32)], focus: (i32, i32)) -> (out: Vec<(i32, i32)>)
    requires
        pending@.no_duplicates(),
    ensures
        out@.len() == pending@.len(),
        out@.no_duplicates(),
        forall|t: (i32, i32)| out@.contains(t) <==> pending@.contains(t),
        in_furnish_order(out@, focus),
{
    let mut out: Vec<(i32, i32)> = Vec::new();
    let mut i: usize = 0;
    while i < pending.len()
        invariant
            0 <= i <= pending@.len(),
            pending@.no_duplicates(),
            out@.len() == i,
            out@.no_duplicates(),
            forall|t: (i32, i32)| out@.contains(t) <==> pending@.take(i as int).contains(t),
            in_furnish_order(out@, focus),
        decreases pending@.len() - i,
    {
        let x = pending[i];
        proof {
            assert(pending@.take(i + 1) =~= pending@.take(i as int).push(x));
            assert(!pending@.take(i as int).contains(x)) by {
                if pending@.take(i as int).contains(x) {
                    let q = choose|q: int| 0 <= q < i && pending@.take(i as int)[q] == x;
                    assert(pending@[q] == pending@[i as int]);
                }
            }
        }
        let mut pos: usize = 0;
        while pos < out.len() && !before_exec(x, out[pos], focus)
            invariant
                0 <= pos <= out@.len(),
                forall|j: int| 0 <= j < pos ==> !before(x, #[trigger] out@[j], focus),
            decreases out@.len() - pos,
        {
            pos = pos + 1;
        }
        let ghost prev = out@;
        out.insert(pos, x);
        proof {
            assert(out@ =~= prev.insert(pos as int, x));
            assert forall|j: int| 0 <= j < pos implies before(#[trigger] prev[j], x, focus) by {
                assert(!before(x, prev[j], focus));
                assert(prev.contains(prev[j]));
                assert(pending@.take(i as int).contains(prev[j]));
                assert(prev[j] != x);
            }
            assert forall|j: int| pos <= j < prev.len() implies before(x, #[trigger] prev[j], focus) by {
                assert(before(x, prev[pos as int], focus));
                if j > pos {
                    assert(before(prev[pos as int], prev[j], focus));
                }
            }
            assert forall|a: int, b: int| 0 <= a < b < out@.len() implies before(
                out@[a],
                out@[b],
                focus,
            ) by {
                if a < pos && b == pos {
                } else if a == pos {
                    assert(out@[b] == prev[b - 1]);
                } else if a < pos && b > pos {
                    assert(out@[b] == prev[b - 1]);
                } else if b < pos {
                } else {
                    assert(out@[a] == prev[a - 1] && out@[b] == prev[b - 1]);
                }
            }
            assert forall|t: (i32, i32)| out@.contains(t) implies pending@.take(i + 1).contains(t) by {
                let q = choose|q: int| 0 <= q < out@.len() && out@[q] == t;
                if q < pos {
                    assert(prev[q] == t);
                    assert(prev.contains(t));
                    assert(pending@.take(i as int).contains(t));
                    let r = choose|r: int| 0 <= r < i && pending@.take(i as int)[r] == t;
                    assert(pending@.take(i + 1)[r] == t);
                } else if q > pos {
                    assert(prev[q - 1] == t);
                    assert(prev.contains(t));
                    assert(pending@.take(i as int).contains(t));
                    let r = choose|r: int| 0 <= r < i && pending@.take(i as int)[r] == t;
                    assert(pending@.take(i + 1)[r] == t);
                } else {
                    assert(pending@.take(i + 1)[i as int] == t);
                }
            }
            let ghost upto = pending@.take(i + 1);
            assert forall|t: (i32, i32)| upto.contains(t) implies out@.contains(t) by {
                let r = choose|r: int| 0 <= r < upto.len() && upto[r] == t;
                if r == i {
                    assert(out@[pos as int] == x);
                } else {
                    assert(pending@.take(i as int)[r] == t);
                    assert(pending@.take(i as int).contains(t));
                    assert(prev.contains(t));
                    let q = choose|q: int| 0 <= q < prev.len() && prev[q] == t;
                    if q < pos {
                        assert(out@[q] == t);
                    } else {
                        assert(out@[q + 1] == t);
                    }
                }
            }
            assert forall|a: int, b: int| 0 <= a < b < out@.len() implies out@[a] != out@[b] by {
                assert(before(out@[a], out@[b], focus));
            }
        }
        i = i + 1;
    }
    proof {
        assert(pending@.take(i as int) =~= pending@);
    }
    out
}

} // verus!
