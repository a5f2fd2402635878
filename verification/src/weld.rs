//! Doodad-hull welding: world-static hulls batch into a few dozen welded triangle soups instead of
//! thousands of colliders. ADT doodads weld per owner tile and WMO props per placement; a batch
//! closes at its hull or triangle cap or after an idle tail, and a batch whose owner is gone is
//! discarded.
//!
//! `V` is the caller's vertex type; only the indices are this module's business.
use crate::placements::Placements;
use vstd::prelude::*;

verus! {

/// Hull cap per weld: keeps a weld's broadphase bound a neighbourhood, not a zone.
pub const WELD_MAX_HULLS: u32 = 128;

/// Triangle cap per weld; a single oversized hull exceeds it alone and closes its batch at once.
pub const WELD_MAX_TRIS: usize = 16384;

/// Quiet frames (a quarter second) that close a batch in settled play; under the loading cover
/// one quiet frame does.
pub const WELD_IDLE_FRAMES: u32 = 15;

/// A triangle's indices moved up by `base`.
pub open spec fn rebased(t: [u32; 3], base: int) -> [u32; 3] {
    [(t[0] + base) as u32, (t[1] + base) as u32, (t[2] + base) as u32]
}

/// Every index of every triangle plus `base` still fits in `u32`.
pub open spec fn rebase_fits(tris: Seq<[u32; 3]>, base: int) -> bool {
    forall|i: int, k: int| 0 <= i < tris.len() && 0 <= k < 3 ==> tris[i][k] + base <= u32::MAX
}

/// Appends a hull's triangles to a soup whose vertex list is `base` long, indices rebased.
pub fn extend_rebased(soup: &mut Vec<[u32; 3]>, tris: &Vec<[u32; 3]>, base: u32)
    requires
        rebase_fits(tris@, base as int),
    ensures
        final(soup)@ == old(soup)@ + tris@.map_values(|t: [u32; 3]| rebased(t, base as int)),
{
    let ghost start = soup@;
    let mut i: usize = 0;
    while i < tris.len()
        invariant
            0 <= i <= tris@.len(),
            rebase_fits(tris@, base as int),
            soup@ == start + tris@.take(i as int).map_values(|t: [u32; 3]| rebased(t, base as int)),
        decreases tris@.len() - i,
    {
        let t = tris[i];
        assert(t[0] + base <= u32::MAX && t[1] + base <= u32::MAX && t[2] + base <= u32::MAX) by {
            assert(tris@[i as int][0] + base <= u32::MAX);
            assert(tris@[i as int][1] + base <= u32::MAX);
            assert(tris@[i as int][2] + base <= u32::MAX);
        }
        let r: [u32; 3] = [t[0] + base, t[1] + base, t[2] + base];
        soup.push(r);
        proof {
            assert(r == rebased(tris@[i as int], base as int));
            assert(tris@.take(i + 1).map_values(|t: [u32; 3]| rebased(t, base as int)) =~= tris@.take(
                i as int,
            ).map_values(|t: [u32; 3]| rebased(t, base as int)).push(r));
        }
        i = i + 1;
    }
    proof {
        assert(tris@.take(i as int) =~= tris@);
    }
}

/// The triangles a flat index list describes, three at a time; a trailing partial triangle is
/// dropped.
pub fn triangles(indices: &[u32]) -> (out: Vec<[u32; 3]>)
    ensures
        out@.len() == indices@.len() / 3,
        forall|i: int|
            0 <= i < out@.len() ==> #[trigger] out@[i] == [
                indices@[3 * i],
                indices@[3 * i + 1],
                indices@[3 * i + 2],
            ],
{
    let n = indices.len() / 3;
    let mut out: Vec<[u32; 3]> = Vec::new();
    let mut i: usize = 0;
    let mut k: usize = 0;
    while i < n
        invariant
            0 <= i <= n,
            k == 3 * i,
            n == indices@.len() / 3,
            out@.len() == i,
            forall|j: int|
                0 <= j < i ==> #[trigger] out@[j] == [
                    indices@[3 * j],
                    indices@[3 * j + 1],
                    indices@[3 * j + 2],
                ],
        decreases n - i,
    {
        assert(3 * i + 2 < indices@.len()) by (nonlinear_arith)
            requires
                i < n,
                n == indices@.len() / 3,
        ;
        let t: [u32; 3] = [indices[k], indices[k + 1], indices[k + 2]];
        out.push(t);
        i = i + 1;
        k = k + 3;
    }
    out
}

/// One accumulating weld: a triangle soup, indices rebased as hulls append.
pub struct WeldAcc<V> {
    pub verts: Vec<V>,
    pub tris: Vec<[u32; 3]>,
    pub hulls: u32,
    /// The flush tick at the last append: the idle clock.
    pub last_add: u32,
}

/// A batch is ready at its hull cap, its triangle cap, or after `idle` quiet ticks (a wrapping
/// difference).
pub open spec fn ready_spec<V>(acc: WeldAcc<V>, frame: u32, idle: u32) -> bool {
    ||| acc.hulls >= WELD_MAX_HULLS
    ||| acc.tris@.len() >= WELD_MAX_TRIS
    ||| (if frame >= acc.last_add {
        frame - acc.last_add
    } else {
        frame - acc.last_add + 0x1_0000_0000
    }) >= idle
}

impl<V> WeldAcc<V> {
    /// An empty batch opened at tick `frame`.
    pub fn new(frame: u32) -> (acc: WeldAcc<V>)
        ensures
            acc.verts@.len() == 0,
            acc.tris@.len() == 0,
            acc.hulls == 0,
            acc.last_add == frame,
    {
        WeldAcc { verts: Vec::new(), tris: Vec::new(), hulls: 0, last_add: frame }
    }

    /// Appends one hull: its vertices after the soup's, its triangles rebased onto them.
    pub fn append(&mut self, verts: Vec<V>, tris: Vec<[u32; 3]>, frame: u32)
        requires
            old(self).verts@.len() <= u32::MAX,
            rebase_fits(tris@, old(self).verts@.len() as int),
            old(self).hulls < u32::MAX,
        ensures
            final(self).verts@ == old(self).verts@ + verts@,
            final(self).tris@ == old(self).tris@ + tris@.map_values(
                |t: [u32; 3]| rebased(t, old(self).verts@.len() as int),
            ),
            final(self).hulls == old(self).hulls + 1,
            final(self).last_add == frame,
    {
        let base = self.verts.len() as u32;
        let mut verts = verts;
        self.verts.append(&mut verts);
        extend_rebased(&mut self.tris, &tris, base);
        self.hulls = self.hulls + 1;
        self.last_add = frame;
    }

    /// Whether the batch should close at tick `frame`.
    pub fn ready(&self, frame: u32, idle_frames: u32) -> (r: bool)
        ensures
            r == ready_spec(*self, frame, idle_frames),
    {
        self.hulls >= WELD_MAX_HULLS || self.tris.len() >= WELD_MAX_TRIS || frame.wrapping_sub(
            self.last_add,
        ) >= idle_frames
    }
}

/// An ADT doodad batch and the tile that owns it.
pub struct TileWeld<V> {
    pub tile: (i32, i32),
    pub acc: WeldAcc<V>,
}

/// A WMO prop batch and the placement uniqueId that owns it.
pub struct PropWeld<V> {
    pub uid: u32,
    pub acc: WeldAcc<V>,
}

/// The in-flight weld accumulators. Cleared with the world: tile keys repeat across maps, so a
/// stale one would weld into the next.
pub struct HullWelds<V> {
    /// Flush tick, the idle clock; wrapping, read only as a difference.
    pub frame: u32,
    /// ADT map-doodad hulls by owner tile, one batch per tile.
    pub tiles: Vec<TileWeld<V>>,
    /// WMO prop hulls by placement uniqueId, one batch per placement.
    pub props: Vec<PropWeld<V>>,
}

impl<V> HullWelds<V> {
    /// No batches, tick 0.
    pub fn new() -> (w: HullWelds<V>)
        ensures
            w.frame == 0,
            w.tiles@.len() == 0,
            w.props@.len() == 0,
    {
        HullWelds { frame: 0, tiles: Vec::new(), props: Vec::new() }
    }

    /// Accumulators not yet flushed, counted into the pending colliders so the settle release
    /// waits for them.
    pub fn unflushed(&self) -> (n: usize)
        requires
            self.tiles@.len() + self.props@.len() <= usize::MAX,
        ensures
            n == self.tiles@.len() + self.props@.len(),
    {
        self.tiles.len() + self.props.len()
    }

    /// Drops every batch.
    pub fn clear(&mut self)
        ensures
            final(self).tiles@.len() == 0,
            final(self).props@.len() == 0,
            final(self).frame == old(self).frame,
    {
        self.tiles = Vec::new();
        self.props = Vec::new();
    }

    /// Adds one ADT doodad hull to its owner tile's batch, opening the batch at this tick if the
    /// tile has none.
    pub fn add_tile(&mut self, tile: (i32, i32), verts: Vec<V>, tris: Vec<[u32; 3]>) -> (at: usize)
        requires
            forall|i: int|
                0 <= i < old(self).tiles@.len() && old(self).tiles@[i].tile == tile ==> {
                    &&& old(self).tiles@[i].acc.verts@.len() <= u32::MAX
                    &&& rebase_fits(tris@, old(self).tiles@[i].acc.verts@.len() as int)
                    &&& old(self).tiles@[i].acc.hulls < u32::MAX
                },
            rebase_fits(tris@, 0),
        ensures
            final(self).frame == old(self).frame,
            final(self).props@ == old(self).props@,
            at < final(self).tiles@.len(),
            final(self).tiles@[at as int].tile == tile,
            forall|i: int| 0 <= i < at ==> old(self).tiles@[i].tile != tile,
            at < old(self).tiles@.len() ==> {
                &&& final(self).tiles@.len() == old(self).tiles@.len()
                &&& old(self).tiles@[at as int].tile == tile
                &&& forall|i: int|
                    0 <= i < final(self).tiles@.len() && i != at ==> final(self).tiles@[i]
                        == old(self).tiles@[i]
                &&& final(self).tiles@[at as int].acc.verts@ == old(self).tiles@[at as int].acc.verts@
                    + verts@
                &&& final(self).tiles@[at as int].acc.tris@ == old(self).tiles@[at as int].acc.tris@
                    + tris@.map_values(
                    |t: [u32; 3]| rebased(t, old(self).tiles@[at as int].acc.verts@.len() as int),
                )
                &&& final(self).tiles@[at as int].acc.hulls == old(self).tiles@[at as int].acc.hulls
                    + 1
            },
            at == old(self).tiles@.len() ==> {
                &&& final(self).tiles@.len() == old(self).tiles@.len() + 1
                &&& forall|i: int| 0 <= i < at ==> final(self).tiles@[i] == old(self).tiles@[i]
                &&& final(self).tiles@[at as int].acc.verts@ == verts@
                &&& final(self).tiles@[at as int].acc.tris@ == tris@.map_values(
                    |t: [u32; 3]| rebased(t, 0),
                )
                &&& final(self).tiles@[at as int].acc.hulls == 1
            },
            final(self).tiles@[at as int].acc.last_add == old(self).frame,
    {
        let frame = self.frame;
        let i = find_tile(&self.tiles, tile);
        if i == self.tiles.len() {
            let mut acc: WeldAcc<V> = WeldAcc::new(frame);
            acc.append(verts, tris, frame);
            self.tiles.push(TileWeld { tile, acc });
        } else {
            let mut entry = self.tiles.remove(i);
            entry.acc.append(verts, tris, frame);
            self.tiles.insert(i, entry);
        }
        i
    }

    /// Adds one WMO prop hull to its placement's batch, opening the batch at this tick if the
    /// placement has none.
    pub fn add_prop(&mut self, uid: u32, verts: Vec<V>, tris: Vec<[u32; 3]>) -> (at: usize)
        requires
            forall|i: int|
                0 <= i < old(self).props@.len() && old(self).props@[i].uid == uid ==> {
                    &&& old(self).props@[i].acc.verts@.len() <= u32::MAX
                    &&& rebase_fits(tris@, old(self).props@[i].acc.verts@.len() as int)
                    &&& old(self).props@[i].acc.hulls < u32::MAX
                },
            rebase_fits(tris@, 0),
        ensures
            final(self).frame == old(self).frame,
            final(self).tiles@ == old(self).tiles@,
            at < final(self).props@.len(),
            final(self).props@[at as int].uid == uid,
            forall|i: int| 0 <= i < at ==> old(self).props@[i].uid != uid,
            at < old(self).props@.len() ==> {
                &&& final(self).props@.len() == old(self).props@.len()
                &&& old(self).props@[at as int].uid == uid
                &&& forall|i: int|
                    0 <= i < final(self).props@.len() && i != at ==> final(self).props@[i]
                        == old(self).props@[i]
                &&& final(self).props@[at as int].acc.verts@ == old(self).props@[at as int].acc.verts@
                    + verts@
                &&& final(self).props@[at as int].acc.tris@ == old(self).props@[at as int].acc.tris@
                    + tris@.map_values(
                    |t: [u32; 3]| rebased(t, old(self).props@[at as int].acc.verts@.len() as int),
                )
                &&& final(self).props@[at as int].acc.hulls == old(self).props@[at as int].acc.hulls
                    + 1
            },
            at == old(self).props@.len() ==> {
                &&& final(self).props@.len() == old(self).props@.len() + 1
                &&& forall|i: int| 0 <= i < at ==> final(self).props@[i] == old(self).props@[i]
                &&& final(self).props@[at as int].acc.verts@ == verts@
                &&& final(self).props@[at as int].acc.tris@ == tris@.map_values(
                    |t: [u32; 3]| rebased(t, 0),
                )
                &&& final(self).props@[at as int].acc.hulls == 1
            },
            final(self).props@[at as int].acc.last_add == old(self).frame,
    {
        let frame = self.frame;
        let i = find_prop(&self.props, uid);
        if i == self.props.len() {
            let mut acc: WeldAcc<V> = WeldAcc::new(frame);
            acc.append(verts, tris, frame);
            self.props.push(PropWeld { uid, acc });
        } else {
            let mut entry = self.props.remove(i);
            entry.acc.append(verts, tris, frame);
            self.props.insert(i, entry);
        }
        i
    }
}

/// The index of the first batch for placement `uid`, or the number of batches when there is
/// none.
fn find_prop<V>(props: &Vec<PropWeld<V>>, uid: u32) -> (i: usize)
    ensures
        i <= props@.len(),
        forall|j: int| 0 <= j < i ==> props@[j].uid != uid,
        i < props@.len() ==> props@[i as int].uid == uid,
{
    let mut i: usize = 0;
    while i < props.len()
        invariant
            0 <= i <= props@.len(),
            forall|j: int| 0 <= j < i ==> props@[j].uid != uid,
        decreases props@.len() - i,
    {
        if props[i].uid == uid {
            return i;
        }
        i = i + 1;
    }
    i
}

/// The index of the first batch for `tile`, or the number of batches when there is none.
fn find_tile<V>(tiles: &Vec<TileWeld<V>>, tile: (i32, i32)) -> (i: usize)
    ensures
        i <= tiles@.len(),
        forall|j: int| 0 <= j < i ==> tiles@[j].tile != tile,
        i < tiles@.len() ==> tiles@[i as int].tile == tile,
{
    let mut i: usize = 0;
    while i < tiles.len()
        invariant
            0 <= i <= tiles@.len(),
            forall|j: int| 0 <= j < i ==> tiles@[j].tile != tile,
        decreases tiles@.len() - i,
    {
        if tiles[i].tile.0 == tile.0 && tiles[i].tile.1 == tile.1 {
            assert(tiles@[i as int].tile == tile);
            return i;
        }
        i = i + 1;
    }
    i
}

/// A batch handed back: its owner is live and it is ready.
pub open spec fn closed_ok<V>(w: TileWeld<V>, live: Seq<(i32, i32)>, frame: u32, idle: u32) -> bool {
    live.contains(w.tile) && ready_spec(w.acc, frame, idle)
}

/// A batch kept waiting: its owner is live and it is not ready.
pub open spec fn kept_ok<V>(w: TileWeld<V>, live: Seq<(i32, i32)>, frame: u32, idle: u32) -> bool {
    live.contains(w.tile) && !ready_spec(w.acc, frame, idle)
}

/// A batch closes this tick: it is ready at `frame` with `idle` quiet ticks.
pub open spec fn closes<V>(acc: WeldAcc<V>, frame: u32, idle: u32) -> bool {
    ready_spec(acc, frame, idle)
}

/// The tile batches a flush closes: owner tile loaded and ready.
pub open spec fn tiles_closing<V>(live: Seq<(i32, i32)>, frame: u32, idle: u32) -> spec_fn(TileWeld<V>) -> bool {
    |w: TileWeld<V>| closed_ok(w, live, frame, idle)
}

/// The tile batches a flush keeps waiting: owner tile loaded and not ready.
pub open spec fn tiles_waiting<V>(live: Seq<(i32, i32)>, frame: u32, idle: u32) -> spec_fn(TileWeld<V>) -> bool {
    |w: TileWeld<V>| kept_ok(w, live, frame, idle)
}

/// The prop batches a flush closes: placement registered and ready.
pub open spec fn prop_welds_closing<V, Q>(live: Map<u32, Q>, frame: u32, idle: u32) -> spec_fn(PropWeld<V>) -> bool {
    |w: PropWeld<V>| prop_closed_ok(w, live, frame, idle)
}

/// The prop batches a flush keeps waiting: placement registered and not ready.
pub open spec fn prop_welds_waiting<V, Q>(live: Map<u32, Q>, frame: u32, idle: u32) -> spec_fn(PropWeld<V>) -> bool {
    |w: PropWeld<V>| prop_kept_ok(w, live, frame, idle)
}

/// The idle tail a weld flush waits: the quarter second in settled play, one tick under the
/// loading cover.
pub open spec fn weld_idle_for(paced: bool) -> u32 {
    if paced {
        WELD_IDLE_FRAMES
    } else {
        1
    }
}

/// Advances the flush tick and sorts the tile batches: a batch whose owner tile is gone (not in
/// `live`) is discarded, a ready one is closed and handed back, the rest wait. `paced` selects
/// the idle tail: the full quarter second in settled play, one tick under the loading cover.
pub fn flush_tiles<V>(welds: &mut HullWelds<V>, live: &[(i32, i32)], paced: bool) -> (closed: Vec<
    TileWeld<V>,
>)
    ensures
        final(welds).frame == (old(welds).frame + 1) % 0x1_0000_0000,
        final(welds).props@ == old(welds).props@,
        ({
            let idle = if paced {
                WELD_IDLE_FRAMES
            } else {
                1u32
            };
            let f = final(welds).frame;
            &&& forall|i: int|
                0 <= i < closed@.len() ==> live@.contains(#[trigger] closed@[i].tile) && closes(
                    closed@[i].acc,
                    f,
                    idle,
                )
            &&& forall|i: int|
                0 <= i < final(welds).tiles@.len() ==> live@.contains(
                    #[trigger] final(welds).tiles@[i].tile,
                ) && !closes(final(welds).tiles@[i].acc, f, idle)
            &&& closed@.len() + final(welds).tiles@.len() == old(welds).tiles@.len() - count_dead(
                old(welds).tiles@,
                live@,
            )
        }),
        closed@ == old(welds).tiles@.filter(
            tiles_closing(live@, final(welds).frame, weld_idle_for(paced)),
        ),
        final(welds).tiles@ == old(welds).tiles@.filter(
            tiles_waiting(live@, final(welds).frame, weld_idle_for(paced)),
        ),
{
    welds.frame = welds.frame.wrapping_add(1);
    let frame = welds.frame;
    let idle: u32 = if paced {
        WELD_IDLE_FRAMES
    } else {
        1
    };
    let mut pending: Vec<TileWeld<V>> = Vec::new();
    std::mem::swap(&mut pending, &mut welds.tiles);
    let ghost all = pending@;
    let mut closed: Vec<TileWeld<V>> = Vec::new();
    let mut kept: Vec<TileWeld<V>> = Vec::new();
    let mut i: usize = 0;
    let n = pending.len();
    while pending.len() > 0
        invariant
            pending@.len() + i == n,
            n == all.len(),
            pending@ == all.subrange(i as int, n as int),
            forall|k: int| 0 <= k < closed@.len() ==> closed_ok(#[trigger] closed@[k], live@, frame, idle),
            forall|k: int| 0 <= k < kept@.len() ==> kept_ok(#[trigger] kept@[k], live@, frame, idle),
            closed@.len() + kept@.len() == i - count_dead(all.take(i as int), live@),
            closed@ == all.take(i as int).filter(tiles_closing(live@, frame, idle)),
            kept@ == all.take(i as int).filter(tiles_waiting(live@, frame, idle)),
            idle == weld_idle_for(paced),
        decreases pending@.len(),
    {
        let w = pending.remove(0);
        proof {
            assert(all.take(i + 1).drop_last() =~= all.take(i as int));
            assert(all[i as int] == w);
            assert(pending@ =~= all.subrange(i + 1, n as int));
            lemma_count_dead_bound(all.take(i as int), live@);
        }
        proof {
            assert(all.take(i + 1) =~= all.take(i as int).push(w));
            all.take(i as int).lemma_filter_push(w, tiles_closing(live@, frame, idle));
            all.take(i as int).lemma_filter_push(w, tiles_waiting(live@, frame, idle));
        }
        let alive = contains_tile(live, w.tile);
        if alive {
            let r = w.acc.ready(frame, idle);
            if r {
                closed.push(w);
            } else {
                kept.push(w);
            }
        }
        i = i + 1;
    }
    proof {
        assert(all.take(i as int) =~= all);
    }
    welds.tiles = kept;
    closed
}

/// Advances nothing and sorts the WMO prop batches as [`flush_tiles`] sorts the tile batches,
/// against the placements still registered: a batch whose placement is gone is discarded, a
/// ready one is closed and handed back, the rest wait. Called after [`flush_tiles`] in the same
/// tick, with the tick it advanced to.
pub fn flush_props<V, P, E>(welds: &mut HullWelds<V>, placements: &Placements<P, E>, paced: bool) -> (closed: Vec<
    PropWeld<V>,
>)
    ensures
        final(welds).frame == old(welds).frame,
        final(welds).tiles@ == old(welds).tiles@,
        ({
            let idle = if paced {
                WELD_IDLE_FRAMES
            } else {
                1u32
            };
            let f = final(welds).frame;
            let live = placements.by_id@;
            &&& forall|i: int|
                0 <= i < closed@.len() ==> live.contains_key(#[trigger] closed@[i].uid) && closes(
                    closed@[i].acc,
                    f,
                    idle,
                )
            &&& forall|i: int|
                0 <= i < final(welds).props@.len() ==> live.contains_key(
                    #[trigger] final(welds).props@[i].uid,
                ) && !closes(final(welds).props@[i].acc, f, idle)
            &&& closed@.len() + final(welds).props@.len() == old(welds).props@.len()
                - count_gone(old(welds).props@, live)
        }),
        closed@ == old(welds).props@.filter(
            prop_welds_closing(placements.by_id@, final(welds).frame, weld_idle_for(paced)),
        ),
        final(welds).props@ == old(welds).props@.filter(
            prop_welds_waiting(placements.by_id@, final(welds).frame, weld_idle_for(paced)),
        ),
{
    let frame = welds.frame;
    let idle: u32 = if paced {
        WELD_IDLE_FRAMES
    } else {
        1
    };
    let ghost live = placements.by_id@;
    let mut pending: Vec<PropWeld<V>> = Vec::new();
    std::mem::swap(&mut pending, &mut welds.props);
    let ghost all = pending@;
    let mut closed: Vec<PropWeld<V>> = Vec::new();
    let mut kept: Vec<PropWeld<V>> = Vec::new();
    let mut i: usize = 0;
    let n = pending.len();
    while pending.len() > 0
        invariant
            pending@.len() + i == n,
            n == all.len(),
            live == placements.by_id@,
            pending@ == all.subrange(i as int, n as int),
            forall|k: int|
                0 <= k < closed@.len() ==> prop_closed_ok(#[trigger] closed@[k], live, frame, idle),
            forall|k: int|
                0 <= k < kept@.len() ==> prop_kept_ok(#[trigger] kept@[k], live, frame, idle),
            closed@.len() + kept@.len() == i - count_gone(all.take(i as int), live),
            closed@ == all.take(i as int).filter(prop_welds_closing(live, frame, idle)),
            kept@ == all.take(i as int).filter(prop_welds_waiting(live, frame, idle)),
            idle == weld_idle_for(paced),
        decreases pending@.len(),
    {
        let w = pending.remove(0);
        proof {
            assert(all.take(i + 1).drop_last() =~= all.take(i as int));
            assert(all[i as int] == w);
            assert(pending@ =~= all.subrange(i + 1, n as int));
            lemma_count_gone_bound(all.take(i as int), live);
        }
        proof {
            assert(all.take(i + 1) =~= all.take(i as int).push(w));
            all.take(i as int).lemma_filter_push(w, prop_welds_closing(live, frame, idle));
            all.take(i as int).lemma_filter_push(w, prop_welds_waiting(live, frame, idle));
        }
        let alive = placements.contains(w.uid);
        if alive {
            let r = w.acc.ready(frame, idle);
            if r {
                closed.push(w);
            } else {
                kept.push(w);
            }
        }
        i = i + 1;
    }
    proof {
        assert(all.take(i as int) =~= all);
    }
    welds.props = kept;
    closed
}

/// A prop batch handed back: its placement is registered and it is ready.
pub open spec fn prop_closed_ok<V, Q>(w: PropWeld<V>, live: Map<u32, Q>, frame: u32, idle: u32) -> bool {
    live.contains_key(w.uid) && ready_spec(w.acc, frame, idle)
}

/// A prop batch kept waiting: its placement is registered and it is not ready.
pub open spec fn prop_kept_ok<V, Q>(w: PropWeld<V>, live: Map<u32, Q>, frame: u32, idle: u32) -> bool {
    live.contains_key(w.uid) && !ready_spec(w.acc, frame, idle)
}

/// The number of prop batches whose placement is no longer registered.
pub open spec fn count_gone<V, Q>(s: Seq<PropWeld<V>>, live: Map<u32, Q>) -> nat
    decreases s.len(),
{
    if s.len() == 0 {
        0
    } else {
        count_gone(s.drop_last(), live) + if live.contains_key(s.last().uid) {
            0nat
        } else {
            1nat
        }
    }
}

proof fn lemma_count_gone_bound<V, Q>(s: Seq<PropWeld<V>>, live: Map<u32, Q>)
    ensures
        count_gone(s, live) <= s.len(),
    decreases s.len(),
{
    if s.len() > 0 {
        lemma_count_gone_bound(s.drop_last(), live);
    }
}

/// The number of batches whose owner is not live.
pub open spec fn count_dead<V>(s: Seq<TileWeld<V>>, live: Seq<(i32, i32)>) -> nat
    decreases s.len(),
{
    if s.len() == 0 {
        0
    } else {
        count_dead(s.drop_last(), live) + if live.contains(s.last().tile) {
            0nat
        } else {
            1nat
        }
    }
}

proof fn lemma_count_dead_bound<V>(s: Seq<TileWeld<V>>, live: Seq<(i32, i32)>)
    ensures
        count_dead(s, live) <= s.len(),
    decreases s.len(),
{
    if s.len() > 0 {
        lemma_count_dead_bound(s.drop_last(), live);
    }
}

/// Whether `t` is among `tiles`.
fn contains_tile(tiles: &[(i32, i32)], t: (i32, i32)) -> (r: bool)
    ensures
        r == tiles@.contains(t),
{
    let mut i: usize = 0;
    while i < tiles.len()
        invariant
            0 <= i <= tiles@.len(),
            forall|j: int| 0 <= j < i ==> tiles@[j] != t,
        decreases tiles@.len() - i,
    {
        if tiles[i].0 == t.0 && tiles[i].1 == t.1 {
            assert(tiles@[i as int] == t);
            return true;
        }
        i = i + 1;
    }
    false
}


/// What one hull-weld flush asks of the host: building a batch's collider.
pub trait WeldHost<V, E> {
    /// Builds the collider of one closed batch.
    fn spawn_weld(&mut self, acc: WeldAcc<V>) -> E;
}

/// One hull-weld flush: advance the tick and close the ready tile batches, then the ready prop
/// batches (a dead owner's batch is discarded, building nothing); each prop collider joins its
/// placement's entities. Returns the tile colliders with their owner tiles, in closing order.
pub fn flush_hull_welds<V, P, E, H: WeldHost<V, E>>(
    welds: &mut HullWelds<V>,
    live: &[(i32, i32)],
    placements: &mut Placements<P, E>,
    paced: bool,
    host: &mut H,
) -> (tile_owned: Vec<((i32, i32), E)>)
    ensures
        final(welds).frame == (old(welds).frame + 1) % 0x1_0000_0000,
        final(welds).tiles@ == old(welds).tiles@.filter(
            tiles_waiting(live@, final(welds).frame, weld_idle_for(paced)),
        ),
        final(welds).props@ == old(welds).props@.filter(
            prop_welds_waiting(old(placements).by_id@, final(welds).frame, weld_idle_for(paced)),
        ),
        tile_owned@.len() == old(welds).tiles@.filter(
            tiles_closing(live@, final(welds).frame, weld_idle_for(paced)),
        ).len(),
        forall|k: int|
            0 <= k < tile_owned@.len() ==> (#[trigger] tile_owned@[k]).0 == old(welds).tiles@.filter(
                tiles_closing(live@, final(welds).frame, weld_idle_for(paced)),
            )[k].tile,
        final(placements).by_id@.dom() == old(placements).by_id@.dom(),
        final(placements).pending_spawns == old(placements).pending_spawns,
        old(placements).wf() ==> final(placements).wf(),
{
    let mut closed = flush_tiles(welds, live, paced);
    let ghost cl = closed@;
    let mut tile_owned: Vec<((i32, i32), E)> = Vec::new();
    let n = closed.len();
    while closed.len() > 0
        invariant
            tile_owned@.len() + closed@.len() == n,
            n == cl.len(),
            closed@ == cl.subrange(tile_owned@.len() as int, n as int),
            forall|k: int| 0 <= k < tile_owned@.len() ==> (#[trigger] tile_owned@[k]).0 == cl[k].tile,
        decreases closed@.len(),
    {
        let ghost k = tile_owned@.len() as int;
        let batch = closed.remove(0);
        proof {
            assert(batch == cl[k]);
            assert(closed@ =~= cl.subrange(k + 1, n as int));
        }
        let tile = batch.tile;
        let e = host.spawn_weld(batch.acc);
        tile_owned.push((tile, e));
    }
    let ghost m0 = placements.by_id@;
    let mut props = flush_props(welds, placements, paced);
    while props.len() > 0
        invariant
            placements.by_id@.dom() == m0.dom(),
            placements.pending_spawns == old(placements).pending_spawns,
            old(placements).wf() ==> placements.wf(),
        decreases props@.len(),
    {
        let batch = props.remove(0);
        let uid = batch.uid;
        let e = host.spawn_weld(batch.acc);
        let ghost mb = placements.by_id@;
        placements.adopt(uid, e);
        proof {
            assert(placements.by_id@.dom() =~= mb.dom());
        }
    }
    tile_owned
}

} // verus!
