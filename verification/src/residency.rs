//! The streamer's decisions around the residency window: which stale tiles to release this frame,
//! which wanted tiles to request, and the residency the loading screen reads.
use vstd::prelude::*;

use crate::window::StreamWindow;

verus! {

/// How much of the world wanted around the view focus is there, read by the loading bar and by
/// the post-snap physics hold.
#[derive(Clone, Copy, Debug, Default)]
pub struct WorldLoadProgress {
    /// Units done of [`Self::total`]: desired tiles furnished, focus-neighbourhood placements up.
    pub ready: usize,
    pub total: usize,
    /// The tile under the view focus is furnished; false at startup and whenever a teleport lands
    /// on unloaded ground.
    pub focus_resident: bool,
    /// The focus tile and its 8 neighbours are up with every placement they reference.
    pub scene_ready: bool,
    /// Outstanding collider attaches.
    pub colliders_pending: usize,
    /// Unflushed static-merge accumulators, holes the reveal must not show.
    pub merge_pending: usize,
    /// Focus-neighbourhood placements not yet spawned.
    pub placements_pending: usize,
    /// Retained-pass regions spawned but not yet drawable.
    pub gx_pending: usize,
    /// The focus tile these facts are about.
    pub focus_tile: Option<(i32, i32)>,
    /// Latched once the load reads fully ready, freezing the counts until a new load re-arms it.
    pub complete: bool,
}

impl WorldLoadProgress {
    pub open spec fn is_ready_spec(&self) -> bool {
        self.total > 0 && self.ready >= self.total
    }

    /// The latch is honest: a load marked complete is scene-ready and fully resident.
    pub open spec fn latch_consistent(&self) -> bool {
        self.complete ==> self.scene_ready && self.is_ready_spec()
    }

    pub open spec fn presentable_spec(&self) -> bool {
        self.scene_ready && self.colliders_pending == 0 && self.merge_pending == 0
            && self.gx_pending == 0
    }

    /// Every wanted unit is resident; `total == 0` is a frame before the window, never done.
    pub fn is_ready(&self) -> (r: bool)
        ensures
            r == self.is_ready_spec(),
    {
        self.total > 0 && self.ready >= self.total
    }

    /// The scene term with no collider, merge or retained-pass backlog: what the loading cover
    /// and the settle release key on.
    pub fn presentable(&self) -> (r: bool)
        ensures
            r == self.presentable_spec(),
    {
        self.scene_ready && self.colliders_pending == 0 && self.merge_pending == 0
            && self.gx_pending == 0
    }

    /// During a load, once nothing else is outstanding, the retained pass is flushed rather than
    /// left to wait out its quiet window.
    pub fn should_flush_retained(&self, paced: bool) -> (r: bool)
        ensures
            r == (!paced && self.gx_pending > 0 && self.scene_ready && self.colliders_pending == 0
                && self.merge_pending == 0),
    {
        !paced && self.gx_pending > 0 && self.scene_ready && self.colliders_pending == 0
            && self.merge_pending == 0
    }
}

/// What the streamer did this frame, zeroed by its reader.
#[derive(Clone, Copy, Debug, Default)]
pub struct StreamActivity {
    /// Tiles whose owned entities were despawned.
    pub tiles_dropped: u32,
    /// Shared placements whose refcount hit zero.
    pub placements_dropped: u32,
    /// Entities despawned with those placements.
    pub placement_entities_dropped: u32,
    pub tiles_requested: u32,
    pub tiles_spawned: u32,
    /// Terrain cells spawned by the furnisher.
    pub cells_spawned: u32,
    /// Model submesh forms built by the model furnisher.
    pub model_meshes_built: u32,
    /// Placements (or WMO props) whose model landed and spawned.
    pub placements_spawned: u32,
    pub colliders_attached: u32,
}

impl StreamActivity {
    pub open spec fn event_total(&self) -> int {
        self.tiles_dropped + self.placements_dropped + self.tiles_requested + self.tiles_spawned
            + self.cells_spawned + self.model_meshes_built + self.placements_spawned
            + self.colliders_attached
    }

    /// The streamer did something this frame; the entity tally and the self-timers do not count.
    pub fn any_event(&self) -> (r: bool)
        ensures
            r == (self.event_total() > 0),
    {
        let total: u64 = self.tiles_dropped as u64 + self.placements_dropped as u64
            + self.tiles_requested as u64 + self.tiles_spawned as u64 + self.cells_spawned as u64
            + self.model_meshes_built as u64 + self.placements_spawned as u64
            + self.colliders_attached as u64;
        total > 0
    }
}

/// Chebyshev distance in tiles.
pub open spec fn tile_dist(a: (i32, i32), b: (i32, i32)) -> int {
    let dx = if a.0 >= b.0 {
        a.0 - b.0
    } else {
        b.0 - a.0
    };
    let dy = if a.1 >= b.1 {
        a.1 - b.1
    } else {
        b.1 - a.1
    };
    if dx >= dy {
        dx
    } else {
        dy
    }
}

pub(crate) fn tile_dist_exec(a: (i32, i32), b: (i32, i32)) -> (d: i64)
    ensures
        d == tile_dist(a, b),
{
    let dx: i64 = if a.0 >= b.0 {
        a.0 as i64 - b.0 as i64
    } else {
        b.0 as i64 - a.0 as i64
    };
    let dy: i64 = if a.1 >= b.1 {
        a.1 as i64 - b.1 as i64
    } else {
        b.1 as i64 - a.1 as i64
    };
    if dx >= dy {
        dx
    } else {
        dy
    }
}

/// The tiles of `s` a window no longer keeps, in order.
pub open spec fn stale_of(w: StreamWindow, s: Seq<(i32, i32)>) -> Seq<(i32, i32)> {
    s.filter(|t: (i32, i32)| !w.in_range(1, t))
}

/// The tiles of `s` not yet present (`present[i]` false), in order.
pub open spec fn untracked(s: Seq<(i32, i32)>, present: Seq<bool>) -> Seq<(i32, i32)>
    decreases s.len(),
{
    if s.len() == 0 {
        Seq::empty()
    } else {
        let rest = untracked(s.drop_last(), present);
        if present[s.len() - 1] {
            rest
        } else {
            rest.push(s.last())
        }
    }
}

/// The stale tiles to release this frame: every resident tile the window no longer keeps, at
/// most `budget` of them (0 is no limit) and then farthest from the focus tile first, since a
/// whole row's free wave is a frame spike.
pub fn release_candidates(resident: &[(i32, i32)], window: &StreamWindow, budget: usize) -> (out:
    Vec<(i32, i32)>)
    requires
        window.fits(1),
        resident@.no_duplicates(),
    ensures
        budget == 0 || stale_of(*window, resident@).len() <= budget ==> out@ == stale_of(
            *window,
            resident@,
        ),
        budget > 0 && stale_of(*window, resident@).len() > budget ==> {
            &&& out@.len() == budget
            &&& out@.no_duplicates()
            &&& forall|t: (i32, i32)| out@.contains(t) ==> stale_of(*window, resident@).contains(t)
            &&& forall|t: (i32, i32), u: (i32, i32)|
                out@.contains(u) && stale_of(*window, resident@).contains(t) && !out@.contains(t)
                    ==> tile_dist(u, window.focus_tile_spec_i32()) >= tile_dist(
                    t,
                    window.focus_tile_spec_i32(),
                )
            &&& forall|i: int, j: int|
                0 <= i < j < out@.len() ==> tile_dist(out@[i], window.focus_tile_spec_i32())
                    >= tile_dist(out@[j], window.focus_tile_spec_i32())
        },
{
    let ghost pred = |t: (i32, i32)| !window.in_range(1, t);
    let mut stale: Vec<(i32, i32)> = Vec::new();
    let mut i: usize = 0;
    while i < resident.len()
        invariant
            0 <= i <= resident@.len(),
            window.fits(1),
            pred == (|t: (i32, i32)| !window.in_range(1, t)),
            stale@ == resident@.take(i as int).filter(pred),
        decreases resident@.len() - i,
    {
        let t = resident[i];
        proof {
            assert(resident@.take(i + 1).drop_last() =~= resident@.take(i as int));
            assert(resident@.take(i + 1).last() == t);
            reveal(Seq::filter);
        }
        if !window.keeps(t) {
            stale.push(t);
        }
        i = i + 1;
    }
    proof {
        assert(resident@.take(i as int) =~= resident@);
        lemma_filter_facts(resident@, pred);
    }
    if budget == 0 || stale.len() <= budget {
        return stale;
    }
    farthest(&stale, window.focus_tile(), budget)
}

/// The `k` entries of `s` farthest from `focus`, ties to the earlier entry.
fn farthest(s: &Vec<(i32, i32)>, focus: (i32, i32), k: usize) -> (out: Vec<(i32, i32)>)
    requires
        k <= s@.len(),
        s@.no_duplicates(),
    ensures
        out@.len() == k,
        out@.no_duplicates(),
        forall|t: (i32, i32)| out@.contains(t) ==> s@.contains(t),
        forall|t: (i32, i32), u: (i32, i32)|
            out@.contains(u) && s@.contains(t) && !out@.contains(t) ==> tile_dist(u, focus)
                >= tile_dist(t, focus),
        forall|i: int, j: int|
            0 <= i < j < out@.len() ==> tile_dist(out@[i], focus) >= tile_dist(out@[j], focus),
{
    let n = s.len();
    let mut taken: Vec<bool> = Vec::new();
    let mut j: usize = 0;
    while j < n
        invariant
            0 <= j <= n,
            n == s@.len(),
            taken@.len() == j,
            forall|q: int| 0 <= q < j ==> !taken@[q],
        decreases n - j,
    {
        taken.push(false);
        j = j + 1;
    }
    let mut out: Vec<(i32, i32)> = Vec::new();
    let mut picked: usize = 0;
    proof {
        lemma_all_false_count(taken@);
    }
    while picked < k
        invariant
            0 <= picked <= k <= n,
            n == s@.len(),
            s@.no_duplicates(),
            taken@.len() == n,
            out@.len() == picked,
            out@.no_duplicates(),
            forall|t: (i32, i32)|
                out@.contains(t) <==> exists|q: int| 0 <= q < n && taken@[q] && s@[q] == t,
            forall|q: int| 0 <= q < n && taken@[q] ==> #[trigger] out@.contains(s@[q]),
            picked == count_true(taken@),
            forall|q: int, r: int|
                0 <= q < n && 0 <= r < n && taken@[q] && !taken@[r] ==> tile_dist(s@[q], focus)
                    >= tile_dist(s@[r], focus),
            forall|i: int, j: int|
                0 <= i < j < out@.len() ==> tile_dist(out@[i], focus) >= tile_dist(out@[j], focus),
        decreases k - picked,
    {
        proof {
            lemma_count_true_bound(taken@);
            if forall|q: int| 0 <= q < n ==> taken@[q] {
                lemma_all_true_count(taken@);
            }
        }
        let ghost some_free = choose|q: int| 0 <= q < n && !taken@[q];
        // The farthest untaken entry, first on ties.
        let mut best: usize = n;
        let mut best_d: i64 = -1;
        let mut q: usize = 0;
        while q < n
            invariant
                0 <= q <= n,
                n == s@.len(),
                taken@.len() == n,
                best <= n,
                best == n <==> best_d == -1,
                best < n ==> !taken@[best as int] && best_d == tile_dist(s@[best as int], focus),
                best < n ==> best < q,
                forall|r: int|
                    0 <= r < q && !taken@[r] ==> best < n && tile_dist(s@[r], focus) <= best_d,
            decreases n - q,
        {
            let ghost old_best = best;
            let ghost old_best_d = best_d;
            let free = !taken[q];
            let d = tile_dist_exec(s[q], focus);
            if free && (best == n || d > best_d) {
                best = q;
                best_d = d;
            }
            proof {
                assert(free == !taken@[q as int]);
                assert forall|r: int| 0 <= r < q + 1 && !taken@[r] implies best < n && tile_dist(
                    s@[r],
                    focus,
                ) <= best_d by {
                    if r < q {
                        assert(old_best < n && tile_dist(s@[r], focus) <= old_best_d);
                        assert(old_best_d <= best_d);
                    } else {
                        assert(r == q);
                        assert(d == tile_dist(s@[r], focus));
                    }
                }
            }
            q = q + 1;
        }
        proof {
            assert(0 <= some_free < n && !taken@[some_free]);
            assert(best < n);
        }
        let t = s[best];
        let ghost old_taken = taken@;
        let ghost old_out = out@;
        proof {
            if old_out.contains(t) {
                let w = choose|w: int| 0 <= w < n && old_taken[w] && s@[w] == t;
                assert(s@[w] == s@[best as int]);
                assert(w != best);
            }
        }
        taken.set(best, true);
        out.push(t);
        proof {
            assert forall|i: int, j: int| 0 <= i < j < out@.len() implies tile_dist(out@[i], focus)
                >= tile_dist(out@[j], focus) by {
                if j == old_out.len() {
                    assert(old_out.contains(out@[i]));
                    let w = choose|w: int| 0 <= w < n && old_taken[w] && s@[w] == out@[i];
                    assert(!old_taken[best as int]);
                }
            }
            lemma_count_true_set(old_taken, best as int);
            assert forall|t2: (i32, i32)|
                out@.contains(t2) <==> exists|q2: int| 0 <= q2 < n && taken@[q2] && s@[q2] == t2 by {
                if out@.contains(t2) {
                    let w = choose|w: int| 0 <= w < out@.len() && out@[w] == t2;
                    if w < old_out.len() {
                        assert(old_out.contains(t2));
                        let q2 = choose|q2: int| 0 <= q2 < n && old_taken[q2] && s@[q2] == t2;
                        assert(taken@[q2]);
                    } else {
                        assert(taken@[best as int] && s@[best as int] == t2);
                    }
                }
                if exists|q2: int| 0 <= q2 < n && taken@[q2] && s@[q2] == t2 {
                    let q2 = choose|q2: int| 0 <= q2 < n && taken@[q2] && s@[q2] == t2;
                    if q2 == best {
                        assert(out@[old_out.len() as int] == t2);
                    } else {
                        assert(old_taken[q2]);
                        assert(old_out.contains(t2));
                        let w = choose|w: int| 0 <= w < old_out.len() && old_out[w] == t2;
                        assert(out@[w] == t2);
                    }
                }
            }
            assert forall|q2: int| 0 <= q2 < n && taken@[q2] implies #[trigger] out@.contains(
                s@[q2],
            ) by {
                if q2 == best {
                    assert(out@[old_out.len() as int] == s@[q2]);
                } else {
                    assert(old_out.contains(s@[q2]));
                    let w = choose|w: int| 0 <= w < old_out.len() && old_out[w] == s@[q2];
                    assert(out@[w] == s@[q2]);
                }
            }
        }
        picked = picked + 1;
    }
    proof {
        assert forall|t: (i32, i32)| out@.contains(t) implies s@.contains(t) by {
            let q2 = choose|q2: int| 0 <= q2 < n && taken@[q2] && s@[q2] == t;
            assert(s@[q2] == t);
        }
        assert forall|t: (i32, i32), u: (i32, i32)|
            out@.contains(u) && s@.contains(t) && !out@.contains(t) implies tile_dist(u, focus)
                >= tile_dist(t, focus) by {
            let qu = choose|q2: int| 0 <= q2 < n && taken@[q2] && s@[q2] == u;
            let qt = choose|q2: int| 0 <= q2 < s@.len() && s@[q2] == t;
            if taken@[qt] {
                assert(out@.contains(s@[qt]));
            }
        }
    }
    out
}

/// The number of `true` entries.
pub open spec fn count_true(s: Seq<bool>) -> nat
    decreases s.len(),
{
    if s.len() == 0 {
        0
    } else {
        count_true(s.drop_last()) + if s.last() {
            1nat
        } else {
            0nat
        }
    }
}

proof fn lemma_count_true_bound(s: Seq<bool>)
    ensures
        count_true(s) <= s.len(),
    decreases s.len(),
{
    if s.len() > 0 {
        lemma_count_true_bound(s.drop_last());
    }
}

proof fn lemma_all_true_count(s: Seq<bool>)
    requires
        forall|q: int| 0 <= q < s.len() ==> s[q],
    ensures
        count_true(s) == s.len(),
    decreases s.len(),
{
    if s.len() > 0 {
        lemma_all_true_count(s.drop_last());
    }
}

proof fn lemma_count_true_set(s: Seq<bool>, i: int)
    requires
        0 <= i < s.len(),
        !s[i],
    ensures
        count_true(s.update(i, true)) == count_true(s) + 1,
    decreases s.len(),
{
    if i == s.len() - 1 {
        assert(s.update(i, true).drop_last() =~= s.drop_last());
    } else {
        assert(s.update(i, true).drop_last() =~= s.drop_last().update(i, true));
        lemma_count_true_set(s.drop_last(), i);
    }
}

impl StreamWindow {
    /// The focus tile, as the streamer keys on it.
    pub open spec fn focus_tile_spec_i32(&self) -> (i32, i32) {
        (self.focus_tile_spec().0 as i32, self.focus_tile_spec().1 as i32)
    }
}

/// The wanted tiles to request this frame: every one not yet present, or, while the focus is
/// settled (`paced`) and more than one is missing, only the nearest to the focus tile (the first
/// on ties), so a fresh row's landings stagger.
pub fn request_order(
    desired: &[(i32, i32)],
    present: &[bool],
    focus: (i32, i32),
    paced: bool,
) -> (out: Vec<(i32, i32)>)
    requires
        present@.len() == desired@.len(),
    ensures
        !paced || untracked(desired@, present@).len() <= 1 ==> out@ == untracked(
            desired@,
            present@,
        ),
        paced && untracked(desired@, present@).len() > 1 ==> exists|k: int|
            0 <= k < untracked(desired@, present@).len() && out@ == seq![
                untracked(desired@, present@)[k],
            ] && (forall|j: int|
                0 <= j < untracked(desired@, present@).len() ==> tile_dist(
                    untracked(desired@, present@)[k],
                    focus,
                ) <= tile_dist(untracked(desired@, present@)[j], focus)) && (forall|j: int|
                0 <= j < k ==> tile_dist(untracked(desired@, present@)[k], focus) < tile_dist(
                    untracked(desired@, present@)[j],
                    focus,
                )),
{
    let mut fresh: Vec<(i32, i32)> = Vec::new();
    let mut i: usize = 0;
    while i < desired.len()
        invariant
            0 <= i <= desired@.len(),
            present@.len() == desired@.len(),
            fresh@ == untracked(desired@.take(i as int), present@),
        decreases desired@.len() - i,
    {
        proof {
            assert(desired@.take(i + 1).drop_last() =~= desired@.take(i as int));
            assert(desired@.take(i + 1).last() == desired@[i as int]);
        }
        if !present[i] {
            fresh.push(desired[i]);
        }
        i = i + 1;
    }
    proof {
        assert(desired@.take(i as int) =~= desired@);
    }
    if !paced || fresh.len() <= 1 {
        return fresh;
    }
    let mut best: usize = 0;
    let mut best_d = tile_dist_exec(fresh[0], focus);
    let mut j: usize = 1;
    while j < fresh.len()
        invariant
            1 <= j <= fresh@.len(),
            best < j,
            best_d == tile_dist(fresh@[best as int], focus),
            forall|q: int| 0 <= q < j ==> best_d <= tile_dist(fresh@[q], focus),
            forall|q: int| 0 <= q < best ==> best_d < tile_dist(fresh@[q], focus),
        decreases fresh@.len() - j,
    {
        let d = tile_dist_exec(fresh[j], focus);
        if d < best_d {
            best = j;
            best_d = d;
        }
        j = j + 1;
    }
    let mut out: Vec<(i32, i32)> = Vec::new();
    out.push(fresh[best]);
    proof {
        assert(out@ =~= seq![fresh@[best as int]]);
    }
    out
}

/// One wanted tile as the residency count sees it: whether it stands furnished (root and every
/// cell), and for each placement it references that is registered, whether that placement and
/// its props are all spawned.
#[derive(Debug)]
pub struct DesiredTile {
    pub tile: (i32, i32),
    pub furnished: bool,
    pub placements_up: Vec<bool>,
}

/// A WMO-only map's one building: spawned, and with its props too.
#[derive(Clone, Copy, Debug)]
pub struct GlobalWmoState {
    pub spawned: bool,
    pub full: bool,
}

/// A tile in the focus's 3 x 3 neighbourhood.
pub open spec fn near(t: (i32, i32), focus: (i32, i32)) -> bool {
    tile_dist(t, focus) <= 1
}

/// Tile `t` is the focus tile or one of its eight neighbours.
pub open spec fn in_focus_block(t: (i32, i32), focus: (i32, i32)) -> bool {
    -1 <= t.0 - focus.0 <= 1 && -1 <= t.1 - focus.1 <= 1
}

/// Some wanted tile of the focus block is not furnished.
pub open spec fn block_tile_missing(d: Seq<DesiredTile>, focus: (i32, i32)) -> bool {
    exists|i: int| 0 <= i < d.len() && in_focus_block(d[i].tile, focus) && !d[i].furnished
}

/// Some furnished wanted tile of the focus block has a placement not yet up.
pub open spec fn block_placement_down(d: Seq<DesiredTile>, focus: (i32, i32)) -> bool {
    exists|i: int, j: int|
        0 <= i < d.len() && in_focus_block(d[i].tile, focus) && d[i].furnished && 0 <= j
            < d[i].placements_up@.len() && !d[i].placements_up@[j]
}

/// A sequence with an entry not up counts fewer up than it holds.
proof fn lemma_some_down_count(s: Seq<bool>, j: int)
    requires
        0 <= j < s.len(),
        !s[j],
    ensures
        count_true(s) < s.len(),
    decreases s.len(),
{
    if j == s.len() - 1 {
        lemma_count_true_bound(s.drop_last());
    } else {
        lemma_some_down_count(s.drop_last(), j);
    }
}

/// The neighbourhood sums see every gap in the focus block: a wanted block tile not furnished
/// sets the missing flag, and a furnished block tile with a placement down leaves fewer up than
/// registered.
proof fn lemma_block_gaps(d: Seq<DesiredTile>, focus: (i32, i32))
    ensures
        tile_sums(d, focus).2 <= tile_sums(d, focus).1,
        block_tile_missing(d, focus) ==> tile_sums(d, focus).3,
        block_placement_down(d, focus) ==> tile_sums(d, focus).2 < tile_sums(d, focus).1,
    decreases d.len(),
{
    if d.len() > 0 {
        let r = d.drop_last();
        lemma_block_gaps(r, focus);
        let t = d.last();
        lemma_count_true_bound(t.placements_up@);
        assert(in_focus_block(t.tile, focus) <==> near(t.tile, focus));
        if block_tile_missing(d, focus) {
            let i = choose|i: int| 0 <= i < d.len() && in_focus_block(d[i].tile, focus) && !d[i].furnished;
            if i < d.len() - 1 {
                assert(r[i] == d[i]);
                assert(block_tile_missing(r, focus));
            }
        }
        if block_placement_down(d, focus) {
            let (i, j) = choose|i: int, j: int|
                0 <= i < d.len() && in_focus_block(d[i].tile, focus) && d[i].furnished && 0 <= j
                    < d[i].placements_up@.len() && !d[i].placements_up@[j];
            if i < d.len() - 1 {
                assert(r[i] == d[i]);
                assert(block_placement_down(r, focus));
            } else {
                lemma_some_down_count(t.placements_up@, j);
            }
        }
    }
}

/// Counts over the desired tiles: furnished tiles; and over the furnished ones in the focus
/// neighbourhood, their registered placements, those up, and any neighbourhood tile not up.
pub open spec fn tile_sums(d: Seq<DesiredTile>, focus: (i32, i32)) -> (nat, nat, nat, bool)
    decreases d.len(),
{
    if d.len() == 0 {
        (0, 0, 0, false)
    } else {
        let r = tile_sums(d.drop_last(), focus);
        let t = d.last();
        let furnished = r.0 + if t.furnished {
            1nat
        } else {
            0nat
        };
        if near(t.tile, focus) {
            if t.furnished {
                (
                    furnished,
                    r.1 + t.placements_up@.len(),
                    r.2 + count_true(t.placements_up@),
                    r.3,
                )
            } else {
                (furnished, r.1, r.2, true)
            }
        } else {
            (furnished, r.1, r.2, r.3)
        }
    }
}

/// Whether the focus tile is wanted, and if so whether it is furnished.
pub open spec fn focus_state(d: Seq<DesiredTile>, focus: (i32, i32)) -> (bool, bool)
    decreases d.len(),
{
    if d.len() == 0 {
        (false, false)
    } else {
        let r = focus_state(d.drop_last(), focus);
        if d.last().tile == focus {
            (true, d.last().furnished)
        } else {
            r
        }
    }
}

/// The focus tile's residency: wanted and furnished, or not wanted at all (ground the map never
/// authors counts as resident); nothing before the tile index answers; and on a WMO-only map, its
/// one building spawned.
pub open spec fn focus_resident_spec(
    d: Seq<DesiredTile>,
    focus: (i32, i32),
    index_answered: bool,
    global: Option<GlobalWmoState>,
) -> bool {
    &&& (focus_state(d, focus).0 ==> focus_state(d, focus).1)
    &&& index_answered
    &&& match global {
        Some(g) => g.spawned,
        None => true,
    }
}

/// The wanted tiles are distinct.
pub open spec fn distinct_tiles(d: Seq<DesiredTile>) -> bool {
    forall|i: int, j: int| 0 <= i < j < d.len() ==> d[i].tile != d[j].tile
}

/// The counts fit the machine.
pub open spec fn sums_fit(d: Seq<DesiredTile>, focus: (i32, i32)) -> bool {
    d.len() + tile_sums(d, focus).1 + 1 <= usize::MAX
}

proof fn lemma_sums_bounded(d: Seq<DesiredTile>, focus: (i32, i32))
    ensures
        tile_sums(d, focus).0 <= d.len(),
        tile_sums(d, focus).2 <= tile_sums(d, focus).1,
    decreases d.len(),
{
    if d.len() > 0 {
        lemma_sums_bounded(d.drop_last(), focus);
        lemma_count_true_bound(d.last().placements_up@);
    }
}

/// Publishes this frame's residency. The focus facts are live every frame; the counts latch off
/// once the load reads fully ready (`complete`), and re-arm on a focus over unfurnished ground or
/// on the edge into a load (`was_paced` and no longer `paced`).
pub fn publish_residency(
    p: &mut WorldLoadProgress,
    desired: &[DesiredTile],
    focus: (i32, i32),
    index_answered: bool,
    global: Option<GlobalWmoState>,
    was_paced: bool,
    paced: bool,
)
    requires
        distinct_tiles(desired@),
        sums_fit(desired@, focus),
    ensures
        final(p).focus_tile == Some(focus),
        final(p).focus_resident == focus_resident_spec(desired@, focus, index_answered, global),
        final(p).colliders_pending == old(p).colliders_pending,
        final(p).merge_pending == old(p).merge_pending,
        final(p).gx_pending == old(p).gx_pending,
        old(p).latch_consistent() ==> final(p).latch_consistent(),
        (!old(p).complete || !final(p).focus_resident || (was_paced && !paced)) && (
        block_tile_missing(desired@, focus) || block_placement_down(desired@, focus))
            ==> !final(p).scene_ready,
        ({
            let rearmed = !old(p).complete || !final(p).focus_resident || (was_paced && !paced);
            let s = tile_sums(desired@, focus);
            let g_total: int = if global is Some {
                1
            } else {
                0
            };
            let g_ready: int = match global {
                Some(g) => if g.full {
                    1
                } else {
                    0
                },
                None => 0,
            };
            if rearmed {
                &&& final(p).total == desired@.len() + s.1 + g_total
                &&& final(p).ready == s.0 + s.2 + g_ready
                &&& final(p).placements_pending == s.1 - s.2
                &&& final(p).scene_ready == (final(p).focus_resident && !s.3 && s.1 == s.2
                    && match global {
                    Some(g) => g.full,
                    None => true,
                })
                &&& final(p).complete == (final(p).scene_ready && final(p).is_ready_spec())
            } else {
                &&& final(p).total == old(p).total
                &&& final(p).ready == old(p).ready
                &&& final(p).placements_pending == old(p).placements_pending
                &&& final(p).scene_ready == old(p).scene_ready
                &&& final(p).complete == old(p).complete
            }
        }),
{
    proof {
        lemma_block_gaps(desired@, focus);
    }
    p.focus_tile = Some(focus);
    // The focus tile's own furnishing, if it is wanted at all.
    let mut focus_wanted = false;
    let mut focus_furnished = false;
    let mut furnished: usize = 0;
    let mut placements: usize = 0;
    let mut up: usize = 0;
    let mut missing = false;
    let mut i: usize = 0;
    proof {
        lemma_sums_bounded(desired@, focus);
    }
    while i < desired.len()
        invariant
            0 <= i <= desired@.len(),
            sums_fit(desired@, focus),
            distinct_tiles(desired@),
            tile_sums(desired@, focus).0 <= desired@.len(),
            (furnished as nat, placements as nat, up as nat, missing) == tile_sums(
                desired@.take(i as int),
                focus,
            ),
            (focus_wanted, focus_furnished) == focus_state(desired@.take(i as int), focus),
            tile_sums(desired@.take(i as int), focus).1 <= tile_sums(desired@, focus).1,
        decreases desired@.len() - i,
    {
        let t = &desired[i];
        proof {
            assert(desired@.take(i + 1).drop_last() =~= desired@.take(i as int));
            assert(desired@.take(i + 1).last() == desired@[i as int]);
            lemma_sums_prefix_grows(desired@, focus, i + 1);
            lemma_sums_bounded(desired@.take(i + 1), focus);
            lemma_sums_bounded(desired@.take(i as int), focus);
            lemma_count_true_bound(t.placements_up@);
        }
        if t.furnished {
            furnished = furnished + 1;
        }
        if t.tile.0 == focus.0 && t.tile.1 == focus.1 {
            focus_wanted = true;
            focus_furnished = t.furnished;
        }
        let dist = tile_dist_exec(t.tile, focus);
        if dist <= 1 {
            if t.furnished {
                placements = placements + t.placements_up.len();
                up = up + count_up(&t.placements_up);
            } else {
                missing = true;
            }
        }
        i = i + 1;
    }
    proof {
        assert(desired@.take(i as int) =~= desired@);
    }
    let mut resident = if focus_wanted {
        focus_furnished
    } else {
        true
    };
    if !index_answered {
        resident = false;
    }
    match global {
        Some(g) => {
            resident = resident && g.spawned;
        },
        None => {},
    }
    p.focus_resident = resident;
    if !resident {
        p.complete = false;
    }
    if was_paced && !paced {
        p.complete = false;
    }
    if !p.complete {
        p.total = desired.len() + placements;
        p.ready = furnished + up;
        p.placements_pending = placements - up;
        let mut scene = resident && !missing && placements == up;
        match global {
            Some(g) => {
                p.total = p.total + 1;
                if g.full {
                    p.ready = p.ready + 1;
                }
                scene = scene && g.full;
            },
            None => {},
        }
        p.scene_ready = scene;
        p.complete = scene && p.is_ready();
    }
}

proof fn lemma_sums_prefix_grows(d: Seq<DesiredTile>, focus: (i32, i32), k: int)
    requires
        0 <= k <= d.len(),
    ensures
        tile_sums(d.take(k), focus).1 <= tile_sums(d, focus).1,
    decreases d.len() - k,
{
    if k < d.len() {
        lemma_sums_prefix_grows(d, focus, k + 1);
        assert(d.take(k + 1).drop_last() =~= d.take(k));
    } else {
        assert(d.take(k) =~= d);
    }
}

/// The number of placements up.
fn count_up(v: &Vec<bool>) -> (n: usize)
    ensures
        n == count_true(v@),
{
    let mut n: usize = 0;
    let mut i: usize = 0;
    while i < v.len()
        invariant
            0 <= i <= v@.len(),
            n == count_true(v@.take(i as int)),
            n <= i,
        decreases v@.len() - i,
    {
        proof {
            assert(v@.take(i + 1).drop_last() =~= v@.take(i as int));
        }
        if v[i] {
            n = n + 1;
        }
        i = i + 1;
    }
    proof {
        assert(v@.take(i as int) =~= v@);
    }
    n
}

/// `(spawned, requested)` tiles for the debug panel: furnished, and all present.
pub fn residency(furnished: &[bool]) -> (r: (usize, usize))
    ensures
        r.0 == count_true(furnished@),
        r.1 == furnished@.len(),
{
    let mut n: usize = 0;
    let mut i: usize = 0;
    while i < furnished.len()
        invariant
            0 <= i <= furnished@.len(),
            n == count_true(furnished@.take(i as int)),
            n <= i,
        decreases furnished@.len() - i,
    {
        proof {
            assert(furnished@.take(i + 1).drop_last() =~= furnished@.take(i as int));
        }
        if furnished[i] {
            n = n + 1;
        }
        i = i + 1;
    }
    proof {
        assert(furnished@.take(i as int) =~= furnished@);
    }
    (n, furnished.len())
}

/// What a filter keeps comes from the source and passes the test, and a filter of a list with no
/// duplicates has none.
proof fn lemma_filter_facts<A>(s: Seq<A>, pred: spec_fn(A) -> bool)
    ensures
        forall|t: A| s.filter(pred).contains(t) ==> s.contains(t) && pred(t),
        s.no_duplicates() ==> s.filter(pred).no_duplicates(),
    decreases s.len(),
{
    reveal(Seq::filter);
    if s.len() > 0 {
        let rest = s.drop_last();
        lemma_filter_facts(rest, pred);
        let f = s.filter(pred);
        let fr = rest.filter(pred);
        assert(f == if pred(s.last()) {
            fr.push(s.last())
        } else {
            fr
        });
        assert forall|t: A| f.contains(t) implies s.contains(t) && pred(t) by {
            let k = choose|k: int| 0 <= k < f.len() && f[k] == t;
            if k < fr.len() {
                assert(fr[k] == t);
                assert(fr.contains(t));
                assert(rest.contains(t));
                let q = choose|q: int| 0 <= q < rest.len() && rest[q] == t;
                assert(s[q] == rest[q]);
            } else {
                assert(s[s.len() - 1] == t);
            }
        }
        if s.no_duplicates() {
            assert(rest.no_duplicates()) by {
                assert forall|a: int, b: int| 0 <= a < rest.len() && 0 <= b < rest.len() && a != b
                    implies rest[a] != rest[b] by {
                    assert(s[a] == rest[a] && s[b] == rest[b]);
                }
            }
            if pred(s.last()) {
                assert(!fr.contains(s.last())) by {
                    if fr.contains(s.last()) {
                        assert(rest.contains(s.last()));
                        let q = choose|q: int| 0 <= q < rest.len() && rest[q] == s.last();
                        assert(s[q] == s[s.len() - 1]);
                    }
                }
                assert forall|a: int, b: int| 0 <= a < f.len() && 0 <= b < f.len() && a != b
                    implies f[a] != f[b] by {
                    if a < fr.len() && b < fr.len() {
                        assert(f[a] == fr[a] && f[b] == fr[b]);
                    } else if a < fr.len() {
                        assert(f[a] == fr[a]);
                        assert(fr.contains(f[a]));
                    } else {
                        assert(f[b] == fr[b]);
                        assert(fr.contains(f[b]));
                    }
                }
            }
        }
    }
}

proof fn lemma_all_false_count(s: Seq<bool>)
    requires
        forall|q: int| 0 <= q < s.len() ==> !s[q],
    ensures
        count_true(s) == 0,
    decreases s.len(),
{
    if s.len() > 0 {
        lemma_all_false_count(s.drop_last());
    }
}

/// Whether the streamer stands settled this frame: nothing went stale, nothing was fresh, and
/// every resident tile is up (`up[i]`: spawned and furnished).
pub fn streamer_settled(stale_empty: bool, fresh_empty: bool, up: &[bool]) -> (r: bool)
    ensures
        r == (stale_empty && fresh_empty && forall|i: int| 0 <= i < up@.len() ==> up@[i]),
{
    if !stale_empty || !fresh_empty {
        return false;
    }
    let mut i: usize = 0;
    while i < up.len()
        invariant
            0 <= i <= up@.len(),
            forall|j: int| 0 <= j < i ==> up@[j],
        decreases up@.len() - i,
    {
        if !up[i] {
            return false;
        }
        i = i + 1;
    }
    true
}

/// Whether the streamer may skip this frame: the window did not move and the world is paced,
/// settled, complete and presentable, with the pacing unchanged and the tile index answered
/// (or not needed). The skipped tail is what releases a load, so any doubt runs it.
pub fn skip_unchanged_frame(
    same_window: bool,
    settled: bool,
    paced: bool,
    was_paced: bool,
    index_ready: bool,
    progress: Option<&WorldLoadProgress>,
) -> (r: bool)
    ensures
        r == (same_window && settled && paced && was_paced == paced && index_ready && match progress {
            None => true,
            Some(p) => p.complete && p.presentable_spec(),
        }),
{
    let done = match progress {
        None => true,
        Some(p) => p.complete && p.presentable(),
    };
    same_window && settled && paced && was_paced == paced && index_ready && done
}

/// A placement's model-build priority from the tile it stands on: one step per tile of
/// Chebyshev distance from the focus tile, so the nearest models build first.
pub fn placement_priority(tile: (i32, i32), focus: (i32, i32)) -> (p: i32)
    requires
        16 + 16 * tile_dist(tile, focus) <= i32::MAX,
    ensures
        p == 16 + 16 * tile_dist(tile, focus),
{
    let d = tile_dist_exec(tile, focus);
    (16 + d * 16) as i32
}

} // verus!
