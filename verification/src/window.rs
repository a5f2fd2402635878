//! The residency window, derived from `farclip` as the reference derives it: an inner window of
//! `r = 1 + trunc(farclip / 33.333)` chunks around the focus chunk (must be resident) and an outer
//! one of `max(r + 2, 8)` chunks (requested ahead). Eviction is membership in the outer window
//! grown by a one-chunk keep band, by whole tiles.
//!
//! Everything here is in chunk units on the tile-grid axes; the float half (the focus chunk from a
//! world position, the inner radius from `farclip`) stays with the caller.
use vstd::prelude::*;

verus! {

/// Chunks per tile edge; `chunk / 16` is the tile.
pub const CHUNKS_PER_TILE: i32 = 16;

/// Chunk indices run `0..=1023` (64 tiles of 16 chunks).
pub const CHUNK_MAX: i32 = 1023;

/// The outer window's floor in chunks: `max(r + 2, 8)`.
pub const OUTER_FLOOR_CHUNKS: i32 = 8;

/// Chunks the outer window grows by for the release test only.
pub const KEEP_BAND_CHUNKS: i32 = 1;

/// Tiles per grid edge.
pub const TILES_PER_EDGE: i32 = 64;

/// Rust's `/` on integers: truncation toward zero.
pub open spec fn trunc_div(a: int, b: int) -> int {
    if a >= 0 {
        a / b
    } else {
        -((-a) / b)
    }
}

/// A chunk index clamped to the grid, `0..=1023`.
pub open spec fn clamp_chunk(c: int) -> int {
    if c < 0 {
        0
    } else if c > CHUNK_MAX {
        CHUNK_MAX as int
    } else {
        c
    }
}

/// The lowest tile a window of half-width `half` around chunk `c` touches, clamped to the grid.
pub open spec fn lo_tile(c: int, half: int) -> int {
    clamp_chunk(c - half) / (CHUNKS_PER_TILE as int)
}

/// The highest tile a window of half-width `half` around chunk `c` touches, clamped to the grid.
pub open spec fn hi_tile(c: int, half: int) -> int {
    clamp_chunk(c + half) / (CHUNKS_PER_TILE as int)
}

/// `max(inner + 2, 8)`.
pub open spec fn outer_of(inner: int) -> int {
    if inner + 2 >= OUTER_FLOOR_CHUNKS {
        inner + 2
    } else {
        OUTER_FLOOR_CHUNKS as int
    }
}

/// The number of integers in `lo..=hi`.
pub open spec fn span(lo: int, hi: int) -> int {
    if hi >= lo {
        hi - lo + 1
    } else {
        0
    }
}

/// Tiles ordered as the grid walk visits them: by x, then by y.
pub open spec fn tile_lt(a: (i32, i32), b: (i32, i32)) -> bool {
    a.0 < b.0 || (a.0 == b.0 && a.1 < b.1)
}

/// The two nested windows around one focus chunk, in chunk units on the tile-grid axes.
#[derive(Clone, Copy, Debug, PartialEq, Eq)]
pub struct StreamWindow {
    /// The focus's chunk index `(chunk_x, chunk_y)`, on the tile grid's axes.
    pub focus: (i32, i32),
    /// Inner half-width in chunks: `1 + trunc(farclip / CHUNK_SIZE)`.
    pub inner: i32,
    /// Outer half-width in chunks: `max(inner + 2, 8)`.
    pub outer: i32,
}

impl StreamWindow {
    /// The outer window grown by `band` stays within `i32` arithmetic around the focus.
    pub open spec fn fits(&self, band: int) -> bool {
        &&& i32::MIN <= self.outer + band <= i32::MAX
        &&& i32::MIN <= self.focus.0 - (self.outer + band) <= i32::MAX
        &&& i32::MIN <= self.focus.0 + (self.outer + band) <= i32::MAX
        &&& i32::MIN <= self.focus.1 - (self.outer + band) <= i32::MAX
        &&& i32::MIN <= self.focus.1 + (self.outer + band) <= i32::MAX
    }

    /// The tile rectangle `((x0, y0), (x1, y1))` the outer window grown by `band` touches.
    pub open spec fn range_spec(&self, band: int) -> ((int, int), (int, int)) {
        let half = self.outer + band;
        (
            (lo_tile(self.focus.0 as int, half), lo_tile(self.focus.1 as int, half)),
            (hi_tile(self.focus.0 as int, half), hi_tile(self.focus.1 as int, half)),
        )
    }

    /// Whether a tile lies in the outer window grown by `band`.
    pub open spec fn in_range(&self, band: int, t: (i32, i32)) -> bool {
        let r = self.range_spec(band);
        &&& r.0.0 <= t.0 <= r.1.0
        &&& r.0.1 <= t.1 <= r.1.1
    }

    /// The tile the focus chunk lies on.
    pub open spec fn focus_tile_spec(&self) -> (int, int) {
        (
            trunc_div(self.focus.0 as int, CHUNKS_PER_TILE as int),
            trunc_div(self.focus.1 as int, CHUNKS_PER_TILE as int),
        )
    }

    /// The windows around `focus` for an inner half-width of `inner` chunks, the outer one at
    /// [`outer_radius`].
    pub fn around(focus: (i32, i32), inner: i32) -> (w: StreamWindow)
        requires
            inner + 2 <= i32::MAX,
        ensures
            w.focus == focus,
            w.inner == inner,
            w.outer == outer_of(inner as int),
    {
        StreamWindow { focus, inner, outer: outer_radius(inner) }
    }

    /// The tile the focus stands on.
    pub fn focus_tile(&self) -> (t: (i32, i32))
        ensures
            t.0 == self.focus_tile_spec().0,
            t.1 == self.focus_tile_spec().1,
    {
        (self.focus.0 / CHUNKS_PER_TILE, self.focus.1 / CHUNKS_PER_TILE)
    }

    /// The tile range the outer window grown by `band` chunks touches, clamped to the grid.
    pub fn tile_range(&self, band: i32) -> (r: ((i32, i32), (i32, i32)))
        requires
            self.fits(band as int),
        ensures
            r.0.0 == self.range_spec(band as int).0.0,
            r.0.1 == self.range_spec(band as int).0.1,
            r.1.0 == self.range_spec(band as int).1.0,
            r.1.1 == self.range_spec(band as int).1.1,
            0 <= r.0.0 < TILES_PER_EDGE,
            0 <= r.0.1 < TILES_PER_EDGE,
            0 <= r.1.0 < TILES_PER_EDGE,
            0 <= r.1.1 < TILES_PER_EDGE,
    {
        let half = self.outer + band;
        let x0 = clamp_chunk_exec(self.focus.0 - half) / CHUNKS_PER_TILE;
        let y0 = clamp_chunk_exec(self.focus.1 - half) / CHUNKS_PER_TILE;
        let x1 = clamp_chunk_exec(self.focus.0 + half) / CHUNKS_PER_TILE;
        let y1 = clamp_chunk_exec(self.focus.1 + half) / CHUNKS_PER_TILE;
        ((x0, y0), (x1, y1))
    }

    /// Every tile the outer window touches, in grid order: the set the streamer wants resident.
    pub fn wanted_tiles(&self) -> (out: Vec<(i32, i32)>)
        requires
            self.fits(0),
        ensures
            forall|t: (i32, i32)| out@.contains(t) <==> self.in_range(0, t),
            forall|i: int, j: int| 0 <= i < j < out@.len() ==> tile_lt(out@[i], out@[j]),
            out@.len() == span(self.range_spec(0).0.0, self.range_spec(0).1.0) * span(
                self.range_spec(0).0.1,
                self.range_spec(0).1.1,
            ),
    {
        let ((x0, y0), (x1, y1)) = self.tile_range(0);
        let ghost ny: int = span(y0 as int, y1 as int);
        let mut out: Vec<(i32, i32)> = Vec::new();
        let mut tx = x0;
        while tx <= x1
            invariant
                0 <= x0 < TILES_PER_EDGE,
                0 <= x1 < TILES_PER_EDGE,
                0 <= y0 < TILES_PER_EDGE,
                0 <= y1 < TILES_PER_EDGE,
                ny == span(y0 as int, y1 as int),
                x0 <= tx,
                tx <= x1 + 1 || tx == x0,
                out@.len() == (tx - x0) * ny,
                forall|t: (i32, i32)|
                    out@.contains(t) <==> (x0 <= t.0 < tx && y0 <= t.1 <= y1),
                forall|i: int, j: int| 0 <= i < j < out@.len() ==> tile_lt(out@[i], out@[j]),
                forall|i: int| 0 <= i < out@.len() ==> out@[i].0 < tx,
            decreases x1 + 1 - tx,
        {
            let mut ty = y0;
            let ghost row_start: int = out@.len() as int;
            while ty <= y1
                invariant
                    0 <= x0 <= tx <= x1 < TILES_PER_EDGE,
                    0 <= y0 < TILES_PER_EDGE,
                    0 <= y1 < TILES_PER_EDGE,
                    y0 <= ty,
                    ty <= y1 + 1 || ty == y0,
                    out@.len() == row_start + (ty - y0),
                    forall|t: (i32, i32)|
                        out@.contains(t) <==> ((x0 <= t.0 < tx && y0 <= t.1 <= y1) || (t.0 == tx
                            && y0 <= t.1 < ty)),
                    forall|i: int, j: int|
                        0 <= i < j < out@.len() ==> tile_lt(out@[i], out@[j]),
                    forall|i: int|
                        0 <= i < out@.len() ==> out@[i].0 < tx || (out@[i].0 == tx && out@[i].1
                            < ty),
                decreases y1 + 1 - ty,
            {
                let ghost before = out@;
                out.push((tx, ty));
                proof {
                    assert forall|t: (i32, i32)|
                        out@.contains(t) <==> ((x0 <= t.0 < tx && y0 <= t.1 <= y1) || (t.0 == tx
                            && y0 <= t.1 < ty + 1)) by {
                        if out@.contains(t) {
                            let k = choose|k: int| 0 <= k < out@.len() && out@[k] == t;
                            if k < before.len() {
                                assert(before.contains(t));
                            }
                        }
                        if (x0 <= t.0 < tx && y0 <= t.1 <= y1) || (t.0 == tx && y0 <= t.1 < ty) {
                            assert(before.contains(t));
                            let k = choose|k: int| 0 <= k < before.len() && before[k] == t;
                            assert(out@[k] == t);
                        }
                        if t.0 == tx && t.1 == ty {
                            assert(out@[before.len() as int] == t);
                        }
                    }
                }
                ty = ty + 1;
            }
            proof {
                assert(out@.len() == row_start + ny);
                assert((tx + 1 - x0) * ny == (tx - x0) * ny + ny) by (nonlinear_arith);
            }
            tx = tx + 1;
        }
        proof {
            assert(span(x0 as int, x1 as int) == tx - x0);
        }
        out
    }

    /// Whether a tile is inside the outer window plus the keep band.
    pub fn keeps(&self, tile: (i32, i32)) -> (b: bool)
        requires
            self.fits(KEEP_BAND_CHUNKS as int),
        ensures
            b == self.in_range(KEEP_BAND_CHUNKS as int, tile),
    {
        let ((x0, y0), (x1, y1)) = self.tile_range(KEEP_BAND_CHUNKS);
        x0 <= tile.0 && tile.0 <= x1 && y0 <= tile.1 && tile.1 <= y1
    }
}

/// A chunk index clamped to the grid.
fn clamp_chunk_exec(c: i32) -> (r: i32)
    ensures
        r == clamp_chunk(c as int),
        0 <= r <= CHUNK_MAX,
{
    if c < 0 {
        0
    } else if c > CHUNK_MAX {
        CHUNK_MAX
    } else {
        c
    }
}

/// The outer half-width in chunks: `max(inner + 2, 8)`.
pub fn outer_radius(inner: i32) -> (r: i32)
    requires
        inner + 2 <= i32::MAX,
    ensures
        r == outer_of(inner as int),
        r >= OUTER_FLOOR_CHUNKS,
        r >= inner + 2,
{
    let r = inner + 2;
    if r >= OUTER_FLOOR_CHUNKS {
        r
    } else {
        OUTER_FLOOR_CHUNKS
    }
}

/// A wider half-width never touches fewer tiles: a tile the window of half-width `h1` touches
/// around chunk `c` is touched by every window of half-width `h2 >= h1` around it.
proof fn lemma_range_grows(c: int, h1: int, h2: int)
    requires
        h1 <= h2,
    ensures
        lo_tile(c, h2) <= lo_tile(c, h1),
        hi_tile(c, h1) <= hi_tile(c, h2),
{
    vstd::arithmetic::div_mod::lemma_div_is_ordered(clamp_chunk(c - h2), clamp_chunk(c - h1), 16);
    vstd::arithmetic::div_mod::lemma_div_is_ordered(clamp_chunk(c + h1), clamp_chunk(c + h2), 16);
}

/// Every tile the streamer wants is a tile it keeps: the keep band only ever adds hysteresis.
pub proof fn lemma_wanted_tiles_are_kept(w: StreamWindow, t: (i32, i32))
    requires
        w.in_range(0, t),
    ensures
        w.in_range(KEEP_BAND_CHUNKS as int, t),
{
    lemma_range_grows(w.focus.0 as int, w.outer as int, w.outer + 1);
    lemma_range_grows(w.focus.1 as int, w.outer as int, w.outer + 1);
}

/// The window clamps to the grid: whatever the focus and band, a tile it touches is on the
/// 64 x 64 tile grid.
pub proof fn lemma_window_stays_on_the_grid(w: StreamWindow, band: int, t: (i32, i32))
    requires
        w.in_range(band, t),
    ensures
        0 <= t.0 < TILES_PER_EDGE,
        0 <= t.1 < TILES_PER_EDGE,
{
    let half = w.outer + band;
    vstd::arithmetic::div_mod::lemma_div_is_ordered(0, clamp_chunk(w.focus.0 - half), 16);
    vstd::arithmetic::div_mod::lemma_div_is_ordered(clamp_chunk(w.focus.0 + half), 1023, 16);
    vstd::arithmetic::div_mod::lemma_div_is_ordered(0, clamp_chunk(w.focus.1 - half), 16);
    vstd::arithmetic::div_mod::lemma_div_is_ordered(clamp_chunk(w.focus.1 + half), 1023, 16);
}

/// A focus on the grid always wants its own tile.
pub proof fn lemma_focus_tile_is_wanted(w: StreamWindow)
    requires
        0 <= w.focus.0 <= CHUNK_MAX,
        0 <= w.focus.1 <= CHUNK_MAX,
        w.outer >= 0,
    ensures
        w.in_range(0, ((w.focus.0 / CHUNKS_PER_TILE) as i32, (w.focus.1 / CHUNKS_PER_TILE) as i32)),
        w.focus_tile_spec() == (w.focus.0 / CHUNKS_PER_TILE, w.focus.1 / CHUNKS_PER_TILE),
{
    lemma_range_grows(w.focus.0 as int, 0, w.outer as int);
    lemma_range_grows(w.focus.1 as int, 0, w.outer as int);
}

/// A farther view never wants fewer tiles: with the same focus, every tile a window wants is
/// wanted by any window whose outer half-width is at least as wide.
pub proof fn lemma_wider_window_wants_more(a: StreamWindow, b: StreamWindow, t: (i32, i32))
    requires
        a.focus == b.focus,
        a.outer <= b.outer,
        a.in_range(0, t),
    ensures
        b.in_range(0, t),
{
    lemma_range_grows(a.focus.0 as int, a.outer as int, b.outer as int);
    lemma_range_grows(a.focus.1 as int, a.outer as int, b.outer as int);
}

} // verus!
