//! Static-world consolidation of doodad and WMO prop batches. Each static, order-free batch is
//! diverted into an accumulator by key (owner tile, cell and material for a doodad; placement,
//! rooms and material for a prop). An accumulator closes at the vertex cap or after an idle tail
//! and is baked into one blob, or discarded when its owner is gone. A doodad cell that stays quiet
//! re-bakes its fragments first-fit under the vertex cap, but only when that makes strictly fewer
//! blobs; a replaced fragment keeps drawing for a short cushion before it retires.
//!
//! `T` is the caller's per-batch part (geometry and transform); only counts and clocks are this
//! module's business.
use crate::placements::{Placement, Placements};
use crate::residency::WorldLoadProgress;
use crate::portal::WmoGroupVis;
use vstd::prelude::*;

verus! {

/// Vertex cap per blob: bounds one bake and upload and keeps the cull bound a neighbourhood.
pub const MERGE_MAX_VERTS: usize = 65536;

/// Quiet frames (a quarter second) that close an accumulator in settled play; under the arrival
/// cover one quiet frame does.
pub const MERGE_IDLE_FRAMES: u32 = 15;

/// Quiet frames (about three seconds) before a settled cell's fragments re-bake into one blob.
pub const RECONSOLIDATE_IDLE_FRAMES: u32 = 180;

/// Frames a replaced fragment keeps drawing while its successor's mesh uploads.
pub const RETIRE_FRAMES: u32 = 10;

/// Ticks from `since` to `now` on a wrapping clock.
pub open spec fn ticks_since(now: u32, since: u32) -> int {
    if now >= since {
        now - since
    } else {
        now - since + 0x1_0000_0000
    }
}

/// The ticks from `since` to `now` on a wrapping clock.
pub fn elapsed(now: u32, since: u32) -> (d: u32)
    ensures
        d == ticks_since(now, since),
{
    let d = now.wrapping_sub(since);
    d
}

/// One accumulating blob: its parts, each part's probe slot (interior props only, so either none
/// or one per part), its vertex total and the tick of its last append.
pub struct MergeAcc<T> {
    pub parts: Vec<T>,
    pub slots: Vec<u32>,
    pub verts: usize,
    /// The flush tick at the last append: the idle clock.
    pub last_add: u32,
}

/// A blob closes at the vertex cap or after `idle` quiet ticks.
pub open spec fn merge_ready_spec<T>(acc: MergeAcc<T>, frame: u32, idle: u32) -> bool {
    acc.verts >= MERGE_MAX_VERTS || ticks_since(frame, acc.last_add) >= idle
}

impl<T> MergeAcc<T> {
    /// The slot list is empty or parallel to the parts: a key is all interior or all exterior,
    /// and a ragged slot list would misindex the bake.
    pub open spec fn wf(&self) -> bool {
        self.slots@.len() == 0 || self.slots@.len() == self.parts@.len()
    }

    /// An empty accumulator opened at tick `frame`.
    pub fn new(frame: u32) -> (acc: MergeAcc<T>)
        ensures
            acc.wf(),
            acc.parts@.len() == 0,
            acc.slots@.len() == 0,
            acc.verts == 0,
            acc.last_add == frame,
    {
        MergeAcc { parts: Vec::new(), slots: Vec::new(), verts: 0, last_add: frame }
    }

    /// Takes one batch of `verts` vertices, with its probe slot when it is an interior prop.
    pub fn push(&mut self, part: T, verts: usize, slot: Option<u16>, frame: u32)
        requires
            old(self).wf(),
            old(self).verts + verts <= usize::MAX,
            old(self).parts@.len() > 0 ==> (slot is Some <==> old(self).slots@.len() > 0),
        ensures
            final(self).wf(),
            final(self).parts@ == old(self).parts@.push(part),
            final(self).slots@ == (match slot {
                Some(s) => old(self).slots@.push(s as u32),
                None => old(self).slots@,
            }),
            final(self).verts == old(self).verts + verts,
            final(self).last_add == frame,
    {
        if let Some(s) = slot {
            self.slots.push(s as u32);
        }
        self.parts.push(part);
        self.verts = self.verts + verts;
        self.last_add = frame;
    }

    /// Whether the accumulator should close at tick `frame`.
    pub fn ready(&self, frame: u32, idle_frames: u32) -> (r: bool)
        ensures
            r == merge_ready_spec(*self, frame, idle_frames),
    {
        self.verts >= MERGE_MAX_VERTS || elapsed(frame, self.last_add) >= idle_frames
    }
}

/// A settled cell is due a re-consolidation check: armed, and quiet long enough since its last
/// fragment.
pub fn reconsolidation_due(dirty: bool, frame: u32, last_add: u32) -> (r: bool)
    ensures
        r == (dirty && ticks_since(frame, last_add) >= RECONSOLIDATE_IDLE_FRAMES),
{
    dirty && elapsed(frame, last_add) >= RECONSOLIDATE_IDLE_FRAMES
}

/// A replaced fragment retires once its successor has had the cushion to upload.
pub fn retire_due(frame: u32, since: u32) -> (r: bool)
    ensures
        r == (ticks_since(frame, since) >= RETIRE_FRAMES),
{
    elapsed(frame, since) >= RETIRE_FRAMES
}

/// First-fit over the fragments in order: the start index of each new blob, and the vertex
/// total of the blob still open. A blob starts over when the next fragment would take a
/// non-empty blob past the cap.
pub open spec fn first_fit(v: Seq<usize>) -> (Seq<int>, int)
    decreases v.len(),
{
    if v.len() == 0 {
        (seq![0int], 0int)
    } else {
        let prev = first_fit(v.drop_last());
        let x = v.last() as int;
        if prev.1 > 0 && prev.1 + x > MERGE_MAX_VERTS {
            (prev.0.push(v.len() - 1), x)
        } else {
            (prev.0, prev.1 + x)
        }
    }
}

/// The vertex total of a run of fragments.
pub open spec fn vert_sum(v: Seq<usize>) -> int
    decreases v.len(),
{
    if v.len() == 0 {
        0
    } else {
        vert_sum(v.drop_last()) + v.last()
    }
}

/// Where the blob that starts at split `j` ends.
pub open spec fn group_end(splits: Seq<int>, j: int, n: int) -> int {
    if j + 1 < splits.len() {
        splits[j + 1]
    } else {
        n
    }
}

/// The re-bake plan for a quiet cell whose fragments hold `verts` vertices each, in spawn order:
/// the first-fit start index of each new blob, or `None` when first-fit would not make strictly
/// fewer blobs than there are fragments.
pub fn reconsolidation_plan(verts: &[usize]) -> (plan: Option<Vec<usize>>)
    ensures
        match plan {
            Some(s) => first_fit(verts@).0.len() < verts@.len() && s@.len() == first_fit(
                verts@,
            ).0.len() && forall|j: int|
                0 <= j < s@.len() ==> #[trigger] s@[j] as int == first_fit(verts@).0[j],
            None => first_fit(verts@).0.len() >= verts@.len(),
        },
{
    let mut splits: Vec<usize> = Vec::new();
    splits.push(0);
    let mut open: usize = 0;
    let mut i: usize = 0;
    proof {
        assert(verts@.take(0) =~= Seq::<usize>::empty());
    }
    while i < verts.len()
        invariant
            0 <= i <= verts@.len(),
            open == first_fit(verts@.take(i as int)).1,
            splits@.len() == first_fit(verts@.take(i as int)).0.len(),
            forall|j: int|
                0 <= j < splits@.len() ==> #[trigger] splits@[j] as int == first_fit(
                    verts@.take(i as int),
                ).0[j],
        decreases verts@.len() - i,
    {
        let x = verts[i];
        proof {
            assert(verts@.take(i + 1).drop_last() =~= verts@.take(i as int));
            assert(verts@.take(i + 1).last() == x);
        }
        if open > 0 && (open > MERGE_MAX_VERTS || x > MERGE_MAX_VERTS - open) {
            splits.push(i);
            open = x;
        } else {
            open = open + x;
        }
        i = i + 1;
    }
    proof {
        assert(verts@.take(i as int) =~= verts@);
    }
    if splits.len() >= verts.len() {
        None
    } else {
        Some(splits)
    }
}

/// What first-fit keeps true of every prefix: the starts begin at 0 and rise strictly, the last
/// start is a real fragment (when there is one), and the open total is the last blob's sum.
proof fn lemma_first_fit_shape(v: Seq<usize>)
    requires
        forall|i: int| 0 <= i < v.len() ==> v[i] > 0,
    ensures
        ({
            let (s, open) = first_fit(v);
            &&& s.len() >= 1
            &&& s[0] == 0
            &&& forall|a: int, b: int| 0 <= a < b < s.len() ==> s[a] < s[b]
            &&& v.len() > 0 ==> s[s.len() - 1] < v.len()
            &&& v.len() == 0 ==> s.len() == 1
            &&& s.len() <= v.len() || v.len() == 0
            &&& open == vert_sum(v.subrange(s[s.len() - 1], v.len() as int))
            &&& open >= 0
            &&& v.len() > 0 ==> open >= v.last()
            &&& forall|j: int|
                0 <= j < s.len() - 1 ==> (#[trigger] s[j + 1] - s[j] == 1 || vert_sum(
                    v.subrange(s[j], s[j + 1]),
                ) <= MERGE_MAX_VERTS)
            &&& (s[s.len() - 1] + 1 >= v.len() || open <= MERGE_MAX_VERTS)
        }),
    decreases v.len(),
{
    if v.len() > 0 {
        let p = v.drop_last();
        lemma_first_fit_shape(p);
        let (ps, popen) = first_fit(p);
        let x = v.last() as int;
        let last = ps[ps.len() - 1];
        assert forall|j: int| 0 <= j < ps.len() - 1 implies #[trigger] v.subrange(ps[j], ps[j + 1])
            =~= p.subrange(ps[j], ps[j + 1]) by {
            assert(ps[j] < ps[j + 1]);
            assert(ps[j + 1] <= last);
            if j + 1 < ps.len() - 1 {
                assert(ps[j + 1] < ps[ps.len() - 1]);
            }
        }
        if popen > 0 && popen + x > MERGE_MAX_VERTS {
            let s = ps.push(v.len() - 1);
            assert(v.subrange(v.len() - 1, v.len() as int) =~= seq![v.last()]);
            assert(vert_sum(seq![v.last()]) == x) by {
                assert(seq![v.last()].drop_last() =~= Seq::<usize>::empty());
                reveal_with_fuel(vert_sum, 2);
            }
            assert(v.subrange(last, v.len() - 1) =~= p.subrange(last, p.len() as int));
            assert forall|j: int| 0 <= j < s.len() - 1 implies (#[trigger] s[j + 1] - s[j] == 1
                || vert_sum(v.subrange(s[j], s[j + 1])) <= MERGE_MAX_VERTS) by {
                if j < ps.len() - 1 {
                    assert(s[j] == ps[j] && s[j + 1] == ps[j + 1]);
                } else {
                    assert(j == ps.len() - 1);
                    assert(s[j] == last && s[j + 1] == v.len() - 1);
                    if last + 1 < p.len() {
                        assert(popen <= MERGE_MAX_VERTS);
                    }
                }
            }
            assert(s.len() <= v.len()) by {
                assert(last < p.len());
            }
        } else {
            assert(v.subrange(last, v.len() as int).drop_last() =~= p.subrange(
                last,
                p.len() as int,
            ));
            if p.len() > 0 {
                assert(last < p.len());
            }
            assert forall|j: int| 0 <= j < ps.len() - 1 implies (#[trigger] ps[j + 1] - ps[j] == 1
                || vert_sum(v.subrange(ps[j], ps[j + 1])) <= MERGE_MAX_VERTS) by {
                assert(v.subrange(ps[j], ps[j + 1]) =~= p.subrange(ps[j], ps[j + 1]));
            }
        }
    }
}

/// For fragments that each hold vertices: no planned blob goes past the vertex cap unless it is
/// a single fragment that does alone, the blobs cover the fragments in order from the first,
/// and there are never more blobs than fragments.
pub proof fn lemma_plan_respects_the_cap(verts: Seq<usize>)
    requires
        verts.len() > 0,
        forall|i: int| 0 <= i < verts.len() ==> verts[i] > 0,
    ensures
        ({
            let s = first_fit(verts).0;
            &&& s[0] == 0
            &&& forall|a: int, b: int| 0 <= a < b < s.len() ==> s[a] < s[b]
            &&& s[s.len() - 1] < verts.len()
            &&& s.len() <= verts.len()
            &&& forall|j: int|
                0 <= j < s.len() ==> group_end(s, j, verts.len() as int) - s[j] == 1 || vert_sum(
                    #[trigger] verts.subrange(s[j], group_end(s, j, verts.len() as int)),
                ) <= MERGE_MAX_VERTS
        }),
{
    lemma_first_fit_shape(verts);
    let s = first_fit(verts).0;
    assert forall|j: int| 0 <= j < s.len() implies group_end(s, j, verts.len() as int) - s[j] == 1
        || vert_sum(#[trigger] verts.subrange(s[j], group_end(s, j, verts.len() as int)))
        <= MERGE_MAX_VERTS by {
        if j + 1 < s.len() {
            assert(s[j + 1] - s[j] == 1 || vert_sum(verts.subrange(s[j], s[j + 1]))
                <= MERGE_MAX_VERTS);
        }
    }
}

/// A doodad blob's identity: its owner tile, its cell (a quarter tile, 133 yards) and its
/// material.
#[derive(Clone, Copy, Debug, PartialEq, Eq)]
pub struct DoodadKey {
    pub owner: (i32, i32),
    pub cell: (i32, i32),
    pub material: u64,
}

/// A WMO prop blob's identity: its placement, the rooms that name it (the blob's portal tag)
/// and its material.
#[derive(Clone, Debug)]
pub struct PropKey {
    pub uid: u32,
    pub rooms: Vec<u16>,
    pub material: u64,
}

/// An accumulating prop blob under its key.
pub struct PropAcc<T> {
    pub key: PropKey,
    pub acc: MergeAcc<T>,
}

/// An accumulating doodad blob under its key.
pub struct DoodadAcc<T> {
    pub key: DoodadKey,
    pub acc: MergeAcc<T>,
}

/// One spawned doodad blob, kept with its bake input so a shredded cell can re-bake.
pub struct SettledBlob<T, E> {
    pub entity: E,
    pub parts: Vec<T>,
    pub verts: usize,
}

/// A key's spawned blobs. `dirty` arms one re-consolidation check after the next quiet window.
pub struct SettledCell<T, E> {
    pub key: DoodadKey,
    pub blobs: Vec<SettledBlob<T, E>>,
    /// The flush tick at the last fragment spawn: the quiet clock.
    pub last_add: u32,
    pub dirty: bool,
}

/// A replaced fragment drawing out its successor's upload cushion.
pub struct Retiring<E> {
    pub entity: E,
    pub owner: (i32, i32),
    /// The flush tick when the successor spawned.
    pub since: u32,
}

/// The static merge: doodad and prop accumulators by key, the spawned doodad blobs of each key,
/// and the replaced fragments still drawing.
pub struct StaticMerge<T, E> {
    /// Flush tick, the idle clock; wrapping, read only as a difference.
    pub frame: u32,
    pub doodads: Vec<DoodadAcc<T>>,
    /// Prop accumulators by key.
    pub props: Vec<PropAcc<T>>,
    pub settled: Vec<SettledCell<T, E>>,
    pub retiring: Vec<Retiring<E>>,
}

/// No doodad accumulator carries probe slots: those are interior props'.
pub open spec fn slotless<T>(d: Seq<DoodadAcc<T>>) -> bool {
    forall|i: int| 0 <= i < d.len() ==> (#[trigger] d[i]).acc.slots@.len() == 0
}

/// `after` is `before` with one doodad batch taken in under `key` at tick `frame`: into the
/// first accumulator under the key (index `at`), or into a new one opened at the end.
pub open spec fn doodad_diverted<T>(
    before: Seq<DoodadAcc<T>>,
    after: Seq<DoodadAcc<T>>,
    key: DoodadKey,
    part: T,
    verts: usize,
    frame: u32,
    at: int,
) -> bool {
    &&& 0 <= at < after.len()
    &&& after[at].key == key
    &&& forall|i: int| 0 <= i < at ==> before[i].key != key
    &&& at < before.len() ==> {
        &&& after.len() == before.len()
        &&& before[at].key == key
        &&& forall|i: int| 0 <= i < after.len() && i != at ==> after[i] == before[i]
        &&& after[at].acc.parts@ =~= before[at].acc.parts@.push(part)
        &&& after[at].acc.verts == before[at].acc.verts + verts
    }
    &&& at == before.len() ==> {
        &&& after.len() == before.len() + 1
        &&& forall|i: int| 0 <= i < at ==> after[i] == before[i]
        &&& after[at].acc.parts@ =~= seq![part]
        &&& after[at].acc.verts == verts
    }
    &&& after[at].acc.last_add == frame
}

/// A merge site: where a diverted batch belongs.
pub enum MergeSite {
    /// An ADT map doodad, owned by its first-registering tile.
    Doodad { owner: (i32, i32) },
    /// WMO group geometry: each batch owns its material, so it never merges.
    Wmo { uid: u32 },
    /// A WMO doodad prop, owned by its placement, keyed by the rooms that name it and, indoors,
    /// carrying its probe slot.
    Prop { uid: u32, rooms: Vec<u16>, slot: Option<u16> },
}

impl<T, E> StaticMerge<T, E> {
    /// Nothing accumulated, nothing settled, tick 0.
    pub fn new() -> (m: StaticMerge<T, E>)
        ensures
            m.frame == 0,
            m.doodads@.len() == 0,
            m.props@.len() == 0,
            m.settled@.len() == 0,
            m.retiring@.len() == 0,
    {
        StaticMerge {
            frame: 0,
            doodads: Vec::new(),
            props: Vec::new(),
            settled: Vec::new(),
            retiring: Vec::new(),
        }
    }

    /// Accumulators not yet baked: holes the reveal must not show.
    pub fn unflushed(&self) -> (n: usize)
        requires
            self.doodads@.len() + self.props@.len() <= usize::MAX,
        ensures
            n == self.doodads@.len() + self.props@.len(),
    {
        self.doodads.len() + self.props.len()
    }

    /// Drops everything with the world: keys repeat across maps.
    pub fn clear(&mut self)
        ensures
            final(self).doodads@.len() == 0,
            final(self).props@.len() == 0,
            final(self).settled@.len() == 0,
            final(self).retiring@.len() == 0,
            final(self).frame == old(self).frame,
    {
        self.doodads = Vec::new();
        self.props = Vec::new();
        self.settled = Vec::new();
        self.retiring = Vec::new();
    }

    /// Takes one static, order-free doodad batch of `verts` vertices into its key's accumulator,
    /// opening the accumulator at this tick if the key has none.
    pub fn divert_doodad(&mut self, key: DoodadKey, part: T, verts: usize) -> (at: usize)
        requires
            slotless(old(self).doodads@),
            forall|i: int|
                0 <= i < old(self).doodads@.len() && old(self).doodads@[i].key == key
                    ==> old(self).doodads@[i].acc.verts + verts <= usize::MAX,
        ensures
            slotless(final(self).doodads@),
            final(self).frame == old(self).frame,
            final(self).props@ == old(self).props@,
            final(self).settled@ == old(self).settled@,
            final(self).retiring@ == old(self).retiring@,
            doodad_diverted(old(self).doodads@, final(self).doodads@, key, part, verts, old(self).frame, at as int),
    {
        let frame = self.frame;
        let i = find_doodad(&self.doodads, key);
        if i == self.doodads.len() {
            let mut acc: MergeAcc<T> = MergeAcc::new(frame);
            acc.push(part, verts, None, frame);
            self.doodads.push(DoodadAcc { key, acc });
            proof {
                assert forall|j: int| 0 <= j < self.doodads@.len() implies (
                #[trigger] self.doodads@[j]).acc.slots@.len() == 0 by {
                    if j < i {
                        assert(self.doodads@[j] == old(self).doodads@[j]);
                    }
                }
            }
        } else {
            let mut entry = self.doodads.remove(i);
            proof {
                assert(old(self).doodads@[i as int] == entry);
                assert(entry.acc.slots@.len() == 0);
            }
            entry.acc.push(part, verts, None, frame);
            self.doodads.insert(i, entry);
            proof {
                assert forall|j: int| 0 <= j < self.doodads@.len() implies (
                #[trigger] self.doodads@[j]).acc.slots@.len() == 0 by {
                    if j != i {
                        assert(self.doodads@[j] == old(self).doodads@[j]);
                    }
                }
            }
        }
        i
    }
}

/// Whether `t` is among `tiles`.
fn holds_tile(tiles: &[(i32, i32)], t: (i32, i32)) -> (r: bool)
    ensures
        r == tiles@.contains(t),
{
    let mut i: usize = 0;
    while i < tiles.len()
        invariant
            0 <= i <= tiles@.len(),
            forall|j: int| 0 <= j < i ==> tiles@[j] != t,
        decreases tiles@.len() - i,
    {
        if tiles[i].0 == t.0 && tiles[i].1 == t.1 {
            assert(tiles@[i as int] == t);
            return true;
        }
        i = i + 1;
    }
    false
}

/// An accumulator handed back to bake: its owner tile is loaded and it is ready.
pub open spec fn acc_closes<T>(d: DoodadAcc<T>, live: Seq<(i32, i32)>, frame: u32, idle: u32) -> bool {
    live.contains(d.key.owner) && merge_ready_spec(d.acc, frame, idle)
}

/// An accumulator kept waiting: its owner tile is loaded and it is not ready.
pub open spec fn acc_waits<T>(d: DoodadAcc<T>, live: Seq<(i32, i32)>, frame: u32, idle: u32) -> bool {
    live.contains(d.key.owner) && !merge_ready_spec(d.acc, frame, idle)
}

/// The number of accumulators whose owner tile is not loaded.
pub open spec fn count_orphaned<T>(s: Seq<DoodadAcc<T>>, live: Seq<(i32, i32)>) -> nat
    decreases s.len(),
{
    if s.len() == 0 {
        0
    } else {
        count_orphaned(s.drop_last(), live) + if live.contains(s.last().key.owner) {
            0nat
        } else {
            1nat
        }
    }
}

proof fn lemma_count_orphaned_bound<T>(s: Seq<DoodadAcc<T>>, live: Seq<(i32, i32)>)
    ensures
        count_orphaned(s, live) <= s.len(),
    decreases s.len(),
{
    if s.len() > 0 {
        lemma_count_orphaned_bound(s.drop_last(), live);
    }
}

/// The accumulators a flush hands back to bake: owner tile loaded and ready.
pub open spec fn doodads_closing<T>(live: Seq<(i32, i32)>, frame: u32, idle: u32) -> spec_fn(DoodadAcc<T>) -> bool {
    |d: DoodadAcc<T>| acc_closes(d, live, frame, idle)
}

/// The accumulators a flush keeps waiting: owner tile loaded and not ready.
pub open spec fn doodads_waiting<T>(live: Seq<(i32, i32)>, frame: u32, idle: u32) -> spec_fn(DoodadAcc<T>) -> bool {
    |d: DoodadAcc<T>| acc_waits(d, live, frame, idle)
}

/// The prop accumulators a flush hands back to bake: placement registered and ready.
pub open spec fn props_closing<T, Q>(live: Map<u32, Q>, frame: u32, idle: u32) -> spec_fn(PropAcc<T>) -> bool {
    |d: PropAcc<T>| prop_closes(d, live, frame, idle)
}

/// The prop accumulators a flush keeps waiting: placement registered and not ready.
pub open spec fn props_waiting<T, Q>(live: Map<u32, Q>, frame: u32, idle: u32) -> spec_fn(PropAcc<T>) -> bool {
    |d: PropAcc<T>| prop_waits(d, live, frame, idle)
}

/// The idle tail: the quarter second in settled play, one tick under the arrival cover.
pub open spec fn idle_for(paced: bool) -> u32 {
    if paced {
        MERGE_IDLE_FRAMES
    } else {
        1
    }
}

/// The idle tail counts flush calls: a doodad accumulator last fed at tick `fed`, under the
/// vertex cap and with its owner tile loaded, waits through the first fourteen flushes after
/// (each advances the tick by one) and closes on the fifteenth once the focus is settled, and on
/// the very first flush under the arrival cover; one at the cap closes on any flush.
pub proof fn lemma_idle_tail_counts_flushes<T>(d: DoodadAcc<T>, live: Seq<(i32, i32)>, fed: u32, k: nat)
    requires
        live.contains(d.key.owner),
        d.acc.last_add == fed,
        1 <= k < 0x1_0000_0000,
    ensures
        d.acc.verts < MERGE_MAX_VERTS ==> (acc_closes(
            d,
            live,
            ((fed + k) % 0x1_0000_0000) as u32,
            idle_for(true),
        ) <==> k >= MERGE_IDLE_FRAMES),
        acc_closes(d, live, ((fed + k) % 0x1_0000_0000) as u32, idle_for(false)),
        d.acc.verts >= MERGE_MAX_VERTS ==> acc_closes(
            d,
            live,
            ((fed + k) % 0x1_0000_0000) as u32,
            idle_for(true),
        ),
{
    let now = ((fed + k) % 0x1_0000_0000) as u32;
    if fed + k < 0x1_0000_0000 {
        assert(now == fed + k);
    } else {
        assert(now == fed + k - 0x1_0000_0000);
    }
    assert(ticks_since(now, fed) == k);
}

impl<T, E> StaticMerge<T, E> {
    /// Advances the flush tick and sorts the accumulators: one whose owner tile is gone (not in
    /// `live`) is discarded, a ready one is handed back to bake, the rest wait.
    pub fn close_doodads(&mut self, live: &[(i32, i32)], paced: bool) -> (closed: Vec<DoodadAcc<T>>)
        requires
            slotless(old(self).doodads@),
        ensures
            slotless(final(self).doodads@),
            slotless(closed@),
            final(self).frame == (old(self).frame + 1) % 0x1_0000_0000,
            final(self).props@ == old(self).props@,
            final(self).settled@ == old(self).settled@,
            final(self).retiring@ == old(self).retiring@,
            forall|i: int|
                0 <= i < closed@.len() ==> acc_closes(
                    #[trigger] closed@[i],
                    live@,
                    final(self).frame,
                    idle_for(paced),
                ),
            forall|i: int|
                0 <= i < final(self).doodads@.len() ==> acc_waits(
                    #[trigger] final(self).doodads@[i],
                    live@,
                    final(self).frame,
                    idle_for(paced),
                ),
            closed@.len() + final(self).doodads@.len() == old(self).doodads@.len()
                - count_orphaned(old(self).doodads@, live@),
            closed@ == old(self).doodads@.filter(
                doodads_closing(live@, final(self).frame, idle_for(paced)),
            ),
            final(self).doodads@ == old(self).doodads@.filter(
                doodads_waiting(live@, final(self).frame, idle_for(paced)),
            ),
    {
        self.frame = self.frame.wrapping_add(1);
        let frame = self.frame;
        let idle: u32 = if paced {
            MERGE_IDLE_FRAMES
        } else {
            1
        };
        let mut pending: Vec<DoodadAcc<T>> = Vec::new();
        std::mem::swap(&mut pending, &mut self.doodads);
        let ghost all = pending@;
        let mut closed: Vec<DoodadAcc<T>> = Vec::new();
        let mut kept: Vec<DoodadAcc<T>> = Vec::new();
        let mut i: usize = 0;
        let n = pending.len();
        while pending.len() > 0
            invariant
                pending@.len() + i == n,
                n == all.len(),
                slotless(all),
                idle == idle_for(paced),
                pending@ == all.subrange(i as int, n as int),
                forall|k: int| 0 <= k < closed@.len() ==> acc_closes(#[trigger] closed@[k], live@, frame, idle),
                forall|k: int| 0 <= k < kept@.len() ==> acc_waits(#[trigger] kept@[k], live@, frame, idle),
                slotless(closed@),
                slotless(kept@),
                closed@.len() + kept@.len() == i - count_orphaned(all.take(i as int), live@),
                closed@ == all.take(i as int).filter(doodads_closing(live@, frame, idle)),
                kept@ == all.take(i as int).filter(doodads_waiting(live@, frame, idle)),
            decreases pending@.len(),
        {
            let d = pending.remove(0);
            proof {
                assert(all.take(i + 1).drop_last() =~= all.take(i as int));
                assert(all[i as int] == d);
                assert(pending@ =~= all.subrange(i + 1, n as int));
                lemma_count_orphaned_bound(all.take(i as int), live@);
            }
            proof {
                assert(all.take(i + 1) =~= all.take(i as int).push(d));
                all.take(i as int).lemma_filter_push(d, doodads_closing(live@, frame, idle));
                all.take(i as int).lemma_filter_push(d, doodads_waiting(live@, frame, idle));
            }
            let alive = holds_tile(live, d.key.owner);
            if alive {
                let r = d.acc.ready(frame, idle);
                if r {
                    closed.push(d);
                } else {
                    kept.push(d);
                }
            }
            i = i + 1;
        }
        proof {
            assert(all.take(i as int) =~= all);
        }
        self.doodads = kept;
        closed
    }

    /// Records a baked blob under its key: the key's settled cell (opened on its first blob)
    /// keeps the bake input for a later re-consolidation, restarts its quiet clock and re-arms.
    pub fn settle(&mut self, key: DoodadKey, entity: E, parts: Vec<T>, verts: usize) -> (at: usize)
        ensures
            final(self).frame == old(self).frame,
            final(self).doodads@ == old(self).doodads@,
            final(self).props@ == old(self).props@,
            final(self).retiring@ == old(self).retiring@,
            at < final(self).settled@.len(),
            final(self).settled@[at as int].key == key,
            forall|i: int| 0 <= i < at ==> old(self).settled@[i].key != key,
            at < old(self).settled@.len() ==> {
                &&& final(self).settled@.len() == old(self).settled@.len()
                &&& old(self).settled@[at as int].key == key
                &&& forall|i: int|
                    0 <= i < final(self).settled@.len() && i != at ==> final(self).settled@[i]
                        == old(self).settled@[i]
                &&& final(self).settled@[at as int].blobs@ == old(
                    self,
                ).settled@[at as int].blobs@.push(SettledBlob { entity, parts, verts })
            },
            at == old(self).settled@.len() ==> {
                &&& final(self).settled@.len() == old(self).settled@.len() + 1
                &&& forall|i: int| 0 <= i < at ==> final(self).settled@[i] == old(self).settled@[i]
                &&& final(self).settled@[at as int].blobs@ == seq![SettledBlob { entity, parts, verts }]
            },
            final(self).settled@[at as int].last_add == old(self).frame,
            final(self).settled@[at as int].dirty,
    {
        let frame = self.frame;
        let i = find_cell(&self.settled, key);
        let blob = SettledBlob { entity, parts, verts };
        if i == self.settled.len() {
            let mut blobs: Vec<SettledBlob<T, E>> = Vec::new();
            blobs.push(blob);
            self.settled.push(SettledCell { key, blobs, last_add: frame, dirty: true });
        } else {
            let mut cell = self.settled.remove(i);
            cell.blobs.push(blob);
            cell.last_add = frame;
            cell.dirty = true;
            self.settled.insert(i, cell);
        }
        i
    }
}

/// The index of the first settled cell under `key`, or the number of cells when there is none.
fn find_cell<T, E>(d: &Vec<SettledCell<T, E>>, key: DoodadKey) -> (i: usize)
    ensures
        i <= d@.len(),
        forall|j: int| 0 <= j < i ==> d@[j].key != key,
        i < d@.len() ==> d@[i as int].key == key,
{
    let mut i: usize = 0;
    while i < d.len()
        invariant
            0 <= i <= d@.len(),
            forall|j: int| 0 <= j < i ==> d@[j].key != key,
        decreases d@.len() - i,
    {
        if same_key(&d[i].key, &key) {
            return i;
        }
        i = i + 1;
    }
    i
}

/// One blob to bake from a re-consolidated cell: the members' parts, in order, and their
/// vertex total.
pub struct Rebake<T> {
    pub parts: Vec<T>,
    pub verts: usize,
}

/// What a re-consolidation check did to one settled cell.
#[derive(Clone, Copy, Debug, PartialEq, Eq, Structural)]
pub enum CellVerdict {
    /// Its owner tile is gone, which took the entities with it: the ledger follows.
    Gone,
    /// Not armed, or not quiet long enough: untouched.
    Waiting,
    /// Checked, but first-fit would not make strictly fewer blobs: disarmed, blobs kept.
    Declined,
    /// Checked and re-baked: disarmed, its fragments retiring, the new blobs handed back.
    Rebaked,
}

/// The fragments' vertex counts, in spawn order.
pub open spec fn blob_verts<T, E>(b: Seq<SettledBlob<T, E>>) -> Seq<usize> {
    b.map_values(|x: SettledBlob<T, E>| x.verts)
}

/// The first-fit blobs of a run of fragments as `(parts, vertex total)`: a blob starts over
/// when the next fragment would take a non-empty blob past the cap.
pub open spec fn rebake_groups<T, E>(b: Seq<SettledBlob<T, E>>) -> Seq<(Seq<T>, int)>
    decreases b.len(),
{
    if b.len() == 0 {
        seq![(Seq::<T>::empty(), 0int)]
    } else {
        let g = rebake_groups(b.drop_last());
        let x = b.last();
        let open = g.last();
        if open.1 > 0 && open.1 + x.verts > MERGE_MAX_VERTS {
            g.push((x.parts@, x.verts as int))
        } else {
            g.update(g.len() - 1, (open.0 + x.parts@, open.1 + x.verts))
        }
    }
}

/// The re-bake blobs are first-fit's: as many as it starts, the last holding its open total.
pub proof fn lemma_groups_follow_first_fit<T, E>(b: Seq<SettledBlob<T, E>>)
    ensures
        rebake_groups(b).len() >= 1,
        rebake_groups(b).len() == first_fit(blob_verts(b)).0.len(),
        rebake_groups(b).last().1 == first_fit(blob_verts(b)).1,
    decreases b.len(),
{
    if b.len() > 0 {
        lemma_groups_follow_first_fit(b.drop_last());
        assert(blob_verts(b).drop_last() =~= blob_verts(b.drop_last()));
        assert(blob_verts(b).last() == b.last().verts);
        let g = rebake_groups(b.drop_last());
        let x = b.last();
        if g.last().1 > 0 && g.last().1 + x.verts > MERGE_MAX_VERTS {
            assert(rebake_groups(b) == g.push((x.parts@, x.verts as int)));
        } else {
            assert(rebake_groups(b) == g.update(g.len() - 1, (g.last().0 + x.parts@, g.last().1 + x.verts)));
        }
    }
}

/// All the parts of a run of blobs, in order.
pub open spec fn group_parts<T>(g: Seq<(Seq<T>, int)>) -> Seq<T>
    decreases g.len(),
{
    if g.len() == 0 {
        Seq::empty()
    } else {
        group_parts(g.drop_last()) + g.last().0
    }
}

/// The vertex total of a run of blobs.
pub open spec fn group_verts<T>(g: Seq<(Seq<T>, int)>) -> int
    decreases g.len(),
{
    if g.len() == 0 {
        0
    } else {
        group_verts(g.drop_last()) + g.last().1
    }
}

/// All the parts of a run of fragments, in order.
pub open spec fn fragment_parts<T, E>(b: Seq<SettledBlob<T, E>>) -> Seq<T>
    decreases b.len(),
{
    if b.len() == 0 {
        Seq::empty()
    } else {
        fragment_parts(b.drop_last()) + b.last().parts@
    }
}

/// A re-bake loses and reorders nothing: its blobs hold exactly the fragments' parts, in spawn
/// order, and exactly their vertices.
pub proof fn lemma_rebake_conserves_the_cell<T, E>(b: Seq<SettledBlob<T, E>>)
    ensures
        group_parts(rebake_groups(b)) == fragment_parts(b),
        group_verts(rebake_groups(b)) == vert_sum(blob_verts(b)),
    decreases b.len(),
{
    if b.len() == 0 {
        let g = rebake_groups(b);
        assert(g.drop_last() =~= Seq::<(Seq<T>, int)>::empty());
        reveal_with_fuel(group_parts, 2);
        reveal_with_fuel(group_verts, 2);
        assert(group_parts(g) =~= Seq::<T>::empty() + Seq::<T>::empty());
        assert(group_parts(g) =~= Seq::<T>::empty());
    } else {
        lemma_rebake_conserves_the_cell(b.drop_last());
        lemma_groups_follow_first_fit(b.drop_last());
        assert(blob_verts(b).drop_last() =~= blob_verts(b.drop_last()));
        assert(blob_verts(b).last() == b.last().verts);
        let g = rebake_groups(b.drop_last());
        let x = b.last();
        let l = g.last();
        if l.1 > 0 && l.1 + x.verts > MERGE_MAX_VERTS {
            let h = g.push((x.parts@, x.verts as int));
            assert(rebake_groups(b) == h);
            assert(h.drop_last() =~= g);
        } else {
            let h = g.update(g.len() - 1, (l.0 + x.parts@, l.1 + x.verts));
            assert(rebake_groups(b) == h);
            assert(h.drop_last() =~= g.drop_last());
            assert(group_parts(h) =~= group_parts(g.drop_last()) + l.0 + x.parts@);
            assert(group_parts(g) == group_parts(g.drop_last()) + l.0);
            assert(group_parts(g.drop_last()) + l.0 + x.parts@ =~= group_parts(g) + x.parts@);
        }
    }
}

/// The retirement records of a cell's replaced fragments, in order.
pub open spec fn retirements<T, E>(b: Seq<SettledBlob<T, E>>, owner: (i32, i32), since: u32) -> Seq<
    Retiring<E>,
> {
    b.map_values(|x: SettledBlob<T, E>| Retiring { entity: x.entity, owner, since })
}

/// A settled cell is due its check: armed, and quiet long enough.
pub open spec fn cell_due<T, E>(c: SettledCell<T, E>, frame: u32) -> bool {
    c.dirty && ticks_since(frame, c.last_add) >= RECONSOLIDATE_IDLE_FRAMES
}

impl<T, E> StaticMerge<T, E> {
    /// The re-consolidation check of settled cell `i`, whose owner tile is (or is not) still
    /// loaded. A dead owner's cell leaves the ledger. A cell armed and quiet for
    /// [`RECONSOLIDATE_IDLE_FRAMES`] is disarmed and, when first-fit under the vertex cap makes
    /// strictly fewer blobs, re-baked: its fragments start retiring now and the new blobs are
    /// handed back, to be spawned and recorded with [`Self::add_rebaked`].
    pub fn reconsolidate_cell(&mut self, i: usize, owner_live: bool) -> (r: (CellVerdict, Vec<Rebake<T>>))
        requires
            i < old(self).settled@.len(),
        ensures
            final(self).frame == old(self).frame,
            final(self).doodads@ == old(self).doodads@,
            final(self).props@ == old(self).props@,
            ({
                let c = old(self).settled@[i as int];
                let f = old(self).frame;
                let rebaked = cell_due(c, f) && first_fit(blob_verts(c.blobs@)).0.len()
                    < c.blobs@.len();
                if !owner_live {
                    &&& r.0 == CellVerdict::Gone
                    &&& final(self).settled@ == old(self).settled@.remove(i as int)
                    &&& final(self).retiring@ == old(self).retiring@
                    &&& r.1@.len() == 0
                } else if !cell_due(c, f) {
                    &&& r.0 == CellVerdict::Waiting
                    &&& final(self).settled@ == old(self).settled@
                    &&& final(self).retiring@ == old(self).retiring@
                    &&& r.1@.len() == 0
                } else {
                    &&& final(self).settled@.len() == old(self).settled@.len()
                    &&& forall|j: int|
                        0 <= j < final(self).settled@.len() && j != i ==> final(self).settled@[j]
                            == old(self).settled@[j]
                    &&& final(self).settled@[i as int].key == c.key
                    &&& final(self).settled@[i as int].last_add == c.last_add
                    &&& !final(self).settled@[i as int].dirty
                    &&& if rebaked {
                        &&& r.0 == CellVerdict::Rebaked
                        &&& final(self).settled@[i as int].blobs@.len() == 0
                        &&& final(self).retiring@ == old(self).retiring@ + retirements(
                            c.blobs@,
                            c.key.owner,
                            f,
                        )
                        &&& r.1@.len() == rebake_groups(c.blobs@).len()
                        &&& forall|k: int|
                            0 <= k < r.1@.len() ==> (#[trigger] r.1@[k]).parts@ == rebake_groups(
                                c.blobs@,
                            )[k].0 && r.1@[k].verts == rebake_groups(c.blobs@)[k].1
                    } else {
                        &&& r.0 == CellVerdict::Declined
                        &&& final(self).settled@[i as int].blobs@ == c.blobs@
                        &&& final(self).retiring@ == old(self).retiring@
                        &&& r.1@.len() == 0
                    }
                }
            }),
    {
        let frame = self.frame;
        if !owner_live {
            self.settled.remove(i);
            return (CellVerdict::Gone, Vec::new());
        }
        let mut cell = self.settled.remove(i);
        let ghost c = cell;
        let due = reconsolidation_due(cell.dirty, frame, cell.last_add);
        if !due {
            self.settled.insert(i, cell);
            proof {
                assert(self.settled@ =~= old(self).settled@);
            }
            return (CellVerdict::Waiting, Vec::new());
        }
        cell.dirty = false;
        let verts = fragment_verts(&cell.blobs);
        let plan = reconsolidation_plan(&verts);
        if plan.is_none() {
            self.settled.insert(i, cell);
            return (CellVerdict::Declined, Vec::new());
        }
        let mut old_blobs: Vec<SettledBlob<T, E>> = Vec::new();
        std::mem::swap(&mut old_blobs, &mut cell.blobs);
        let (groups, retired) = split_fragments(old_blobs, cell.key.owner, frame);
        self.settled.insert(i, cell);
        let mut retired = retired;
        self.retiring.append(&mut retired);
        (CellVerdict::Rebaked, groups)
    }

    /// Records a re-baked blob of settled cell `i`; the cell's quiet clock and arming stay as the
    /// check left them.
    pub fn add_rebaked(&mut self, i: usize, entity: E, parts: Vec<T>, verts: usize)
        requires
            i < old(self).settled@.len(),
        ensures
            final(self).frame == old(self).frame,
            final(self).doodads@ == old(self).doodads@,
            final(self).props@ == old(self).props@,
            final(self).retiring@ == old(self).retiring@,
            final(self).settled@.len() == old(self).settled@.len(),
            forall|j: int|
                0 <= j < final(self).settled@.len() && j != i ==> final(self).settled@[j] == old(
                    self,
                ).settled@[j],
            final(self).settled@[i as int].key == old(self).settled@[i as int].key,
            final(self).settled@[i as int].last_add == old(self).settled@[i as int].last_add,
            final(self).settled@[i as int].dirty == old(self).settled@[i as int].dirty,
            final(self).settled@[i as int].blobs@ == old(self).settled@[i as int].blobs@.push(
                SettledBlob { entity, parts, verts },
            ),
    {
        let mut cell = self.settled.remove(i);
        cell.blobs.push(SettledBlob { entity, parts, verts });
        self.settled.insert(i, cell);
    }
}

/// Whether a prop key is the one for `uid`, `rooms` and `material`.
pub open spec fn prop_key_is(k: PropKey, uid: u32, rooms: Seq<u16>, material: u64) -> bool {
    k.uid == uid && k.rooms@ == rooms && k.material == material
}

/// `after` is `before` with one prop batch taken in under the key for `uid`, `rooms` and
/// `material` at tick `frame`, its probe slot with it when indoors: into the first accumulator
/// under the key (index `at`), or into a new one opened at the end.
pub open spec fn prop_diverted<T>(
    before: Seq<PropAcc<T>>,
    after: Seq<PropAcc<T>>,
    uid: u32,
    rooms: Seq<u16>,
    material: u64,
    part: T,
    verts: usize,
    slot: Option<u16>,
    frame: u32,
    at: int,
) -> bool {
    &&& 0 <= at < after.len()
    &&& prop_key_is(after[at].key, uid, rooms, material)
    &&& forall|i: int| 0 <= i < at ==> !prop_key_is(before[i].key, uid, rooms, material)
    &&& at < before.len() ==> {
        &&& after.len() == before.len()
        &&& forall|i: int| 0 <= i < after.len() && i != at ==> after[i] == before[i]
        &&& after[at].acc.parts@ =~= before[at].acc.parts@.push(part)
        &&& after[at].acc.verts == before[at].acc.verts + verts
        &&& after[at].acc.slots@ =~= match slot {
            Some(s) => before[at].acc.slots@.push(s as u32),
            None => before[at].acc.slots@,
        }
    }
    &&& at == before.len() ==> {
        &&& after.len() == before.len() + 1
        &&& forall|i: int| 0 <= i < at ==> after[i] == before[i]
        &&& after[at].acc.parts@ =~= seq![part]
        &&& after[at].acc.verts == verts
        &&& after[at].acc.slots@ =~= match slot {
            Some(s) => seq![s as u32],
            None => Seq::<u32>::empty(),
        }
    }
    &&& after[at].acc.last_add == frame
}

/// Every prop accumulator keeps its slots parallel to its parts, or has none.
pub open spec fn props_wf<T>(d: Seq<PropAcc<T>>) -> bool {
    forall|i: int| 0 <= i < d.len() ==> (#[trigger] d[i]).acc.wf()
}

/// A prop accumulator handed back to bake: its placement is registered and it is ready.
pub open spec fn prop_closes<T, Q>(d: PropAcc<T>, live: Map<u32, Q>, frame: u32, idle: u32) -> bool {
    live.contains_key(d.key.uid) && merge_ready_spec(d.acc, frame, idle)
}

/// A prop accumulator kept waiting: its placement is registered and it is not ready.
pub open spec fn prop_waits<T, Q>(d: PropAcc<T>, live: Map<u32, Q>, frame: u32, idle: u32) -> bool {
    live.contains_key(d.key.uid) && !merge_ready_spec(d.acc, frame, idle)
}

/// The number of prop accumulators whose placement is no longer registered.
pub open spec fn count_unregistered<T, Q>(s: Seq<PropAcc<T>>, live: Map<u32, Q>) -> nat
    decreases s.len(),
{
    if s.len() == 0 {
        0
    } else {
        count_unregistered(s.drop_last(), live) + if live.contains_key(s.last().key.uid) {
            0nat
        } else {
            1nat
        }
    }
}

proof fn lemma_count_unregistered_bound<T, Q>(s: Seq<PropAcc<T>>, live: Map<u32, Q>)
    ensures
        count_unregistered(s, live) <= s.len(),
    decreases s.len(),
{
    if s.len() > 0 {
        lemma_count_unregistered_bound(s.drop_last(), live);
    }
}

/// Whether two room lists are equal.
fn same_rooms(a: &Vec<u16>, b: &Vec<u16>) -> (r: bool)
    ensures
        r == (a@ == b@),
{
    if a.len() != b.len() {
        return false;
    }
    let mut i: usize = 0;
    while i < a.len()
        invariant
            0 <= i <= a@.len(),
            a@.len() == b@.len(),
            forall|j: int| 0 <= j < i ==> a@[j] == b@[j],
        decreases a@.len() - i,
    {
        if a[i] != b[i] {
            return false;
        }
        i = i + 1;
    }
    assert(a@ =~= b@);
    true
}

/// The index of the first prop accumulator under the key, or the number of accumulators when
/// there is none.
fn find_prop_acc<T>(d: &Vec<PropAcc<T>>, uid: u32, rooms: &Vec<u16>, material: u64) -> (i: usize)
    ensures
        i <= d@.len(),
        forall|j: int| 0 <= j < i ==> !prop_key_is(d@[j].key, uid, rooms@, material),
        i < d@.len() ==> prop_key_is(d@[i as int].key, uid, rooms@, material),
{
    let mut i: usize = 0;
    while i < d.len()
        invariant
            0 <= i <= d@.len(),
            forall|j: int| 0 <= j < i ==> !prop_key_is(d@[j].key, uid, rooms@, material),
        decreases d@.len() - i,
    {
        if d[i].key.uid == uid && d[i].key.material == material && same_rooms(&d[i].key.rooms, rooms) {
            return i;
        }
        i = i + 1;
    }
    i
}

impl<T, E> StaticMerge<T, E> {
    /// Takes one static, order-free WMO prop batch of `verts` vertices into its key's
    /// accumulator, with its probe slot when it is indoors, opening the accumulator at this tick
    /// if the key has none. A key is all interior or all exterior, so its slots stay parallel to
    /// its parts.
    pub fn divert_prop(
        &mut self,
        uid: u32,
        rooms: Vec<u16>,
        material: u64,
        part: T,
        verts: usize,
        slot: Option<u16>,
    ) -> (at: usize)
        requires
            props_wf(old(self).props@),
            forall|i: int|
                0 <= i < old(self).props@.len() && prop_key_is(
                    old(self).props@[i].key,
                    uid,
                    rooms@,
                    material,
                ) ==> {
                    &&& old(self).props@[i].acc.verts + verts <= usize::MAX
                    &&& old(self).props@[i].acc.parts@.len() > 0 ==> (slot is Some <==> old(
                        self,
                    ).props@[i].acc.slots@.len() > 0)
                },
        ensures
            props_wf(final(self).props@),
            final(self).frame == old(self).frame,
            final(self).doodads@ == old(self).doodads@,
            final(self).settled@ == old(self).settled@,
            final(self).retiring@ == old(self).retiring@,
            prop_diverted(
                old(self).props@,
                final(self).props@,
                uid,
                rooms@,
                material,
                part,
                verts,
                slot,
                old(self).frame,
                at as int,
            ),
    {
        let frame = self.frame;
        let i = find_prop_acc(&self.props, uid, &rooms, material);
        if i == self.props.len() {
            let mut acc: MergeAcc<T> = MergeAcc::new(frame);
            acc.push(part, verts, slot, frame);
            proof {
                assert(acc.slots@ =~= match slot {
                    Some(s) => seq![s as u32],
                    None => Seq::<u32>::empty(),
                });
            }
            self.props.push(PropAcc { key: PropKey { uid, rooms, material }, acc });
            proof {
                assert forall|j: int| 0 <= j < self.props@.len() implies (
                #[trigger] self.props@[j]).acc.wf() by {
                    if j < i {
                        assert(self.props@[j] == old(self).props@[j]);
                    }
                }
            }
        } else {
            let mut entry = self.props.remove(i);
            proof {
                assert(old(self).props@[i as int] == entry);
            }
            entry.acc.push(part, verts, slot, frame);
            self.props.insert(i, entry);
            proof {
                assert forall|j: int| 0 <= j < self.props@.len() implies (
                #[trigger] self.props@[j]).acc.wf() by {
                    if j != i {
                        assert(self.props@[j] == old(self).props@[j]);
                    }
                }
            }
        }
        i
    }

    /// Sorts the prop accumulators at the current tick (after [`Self::close_doodads`] advanced
    /// it): one whose placement is no longer registered is discarded, a ready one is handed back
    /// to bake into its placement's entities, the rest wait.
    pub fn close_props<P, Q>(&mut self, placements: &Placements<P, Q>, paced: bool) -> (closed: Vec<
        PropAcc<T>,
    >)
        requires
            props_wf(old(self).props@),
        ensures
            props_wf(final(self).props@),
            props_wf(closed@),
            final(self).frame == old(self).frame,
            final(self).doodads@ == old(self).doodads@,
            final(self).settled@ == old(self).settled@,
            final(self).retiring@ == old(self).retiring@,
            forall|i: int|
                0 <= i < closed@.len() ==> prop_closes(
                    #[trigger] closed@[i],
                    placements.by_id@,
                    final(self).frame,
                    idle_for(paced),
                ),
            forall|i: int|
                0 <= i < final(self).props@.len() ==> prop_waits(
                    #[trigger] final(self).props@[i],
                    placements.by_id@,
                    final(self).frame,
                    idle_for(paced),
                ),
            closed@.len() + final(self).props@.len() == old(self).props@.len()
                - count_unregistered(old(self).props@, placements.by_id@),
            closed@ == old(self).props@.filter(
                props_closing(placements.by_id@, final(self).frame, idle_for(paced)),
            ),
            final(self).props@ == old(self).props@.filter(
                props_waiting(placements.by_id@, final(self).frame, idle_for(paced)),
            ),
    {
        let frame = self.frame;
        let idle: u32 = if paced {
            MERGE_IDLE_FRAMES
        } else {
            1
        };
        let ghost live = placements.by_id@;
        let mut pending: Vec<PropAcc<T>> = Vec::new();
        std::mem::swap(&mut pending, &mut self.props);
        let ghost all = pending@;
        let mut closed: Vec<PropAcc<T>> = Vec::new();
        let mut kept: Vec<PropAcc<T>> = Vec::new();
        let mut i: usize = 0;
        let n = pending.len();
        while pending.len() > 0
            invariant
                pending@.len() + i == n,
                n == all.len(),
                props_wf(all),
                idle == idle_for(paced),
                live == placements.by_id@,
                pending@ == all.subrange(i as int, n as int),
                forall|k: int| 0 <= k < closed@.len() ==> prop_closes(#[trigger] closed@[k], live, frame, idle),
                forall|k: int| 0 <= k < kept@.len() ==> prop_waits(#[trigger] kept@[k], live, frame, idle),
                props_wf(closed@),
                props_wf(kept@),
                closed@.len() + kept@.len() == i - count_unregistered(all.take(i as int), live),
                closed@ == all.take(i as int).filter(props_closing(live, frame, idle)),
                kept@ == all.take(i as int).filter(props_waiting(live, frame, idle)),
            decreases pending@.len(),
        {
            let d = pending.remove(0);
            proof {
                assert(all.take(i + 1).drop_last() =~= all.take(i as int));
                assert(all[i as int] == d);
                assert(pending@ =~= all.subrange(i + 1, n as int));
                lemma_count_unregistered_bound(all.take(i as int), live);
            }
            proof {
                assert(all.take(i + 1) =~= all.take(i as int).push(d));
                all.take(i as int).lemma_filter_push(d, props_closing(live, frame, idle));
                all.take(i as int).lemma_filter_push(d, props_waiting(live, frame, idle));
            }
            let alive = placements.contains(d.key.uid);
            if alive {
                let r = d.acc.ready(frame, idle);
                if r {
                    closed.push(d);
                } else {
                    kept.push(d);
                }
            }
            i = i + 1;
        }
        proof {
            assert(all.take(i as int) =~= all);
        }
        self.props = kept;
        closed
    }
}

impl<T, E> StaticMerge<T, E> {
    /// Takes one mergeable batch into its site's accumulator: a doodad's under its owner tile,
    /// the `cell` it stands in and its material; a prop's under its placement, rooms and
    /// material. WMO group geometry is refused (`false`), to be spawned on its own.
    pub fn divert(&mut self, site: MergeSite, cell: (i32, i32), material: u64, part: T, verts: usize) -> (taken: bool)
        requires
            site matches MergeSite::Doodad { owner } ==> {
                &&& slotless(old(self).doodads@)
                &&& forall|i: int|
                    0 <= i < old(self).doodads@.len() && old(self).doodads@[i].key == (DoodadKey {
                        owner,
                        cell,
                        material,
                    }) ==> old(self).doodads@[i].acc.verts + verts <= usize::MAX
            },
            site matches MergeSite::Prop { uid, rooms, slot } ==> {
                &&& props_wf(old(self).props@)
                &&& forall|i: int|
                    0 <= i < old(self).props@.len() && prop_key_is(
                        old(self).props@[i].key,
                        uid,
                        rooms@,
                        material,
                    ) ==> {
                        &&& old(self).props@[i].acc.verts + verts <= usize::MAX
                        &&& old(self).props@[i].acc.parts@.len() > 0 ==> (slot is Some <==> old(
                            self,
                        ).props@[i].acc.slots@.len() > 0)
                    }
            },
        ensures
            taken == !(site is Wmo),
            final(self).frame == old(self).frame,
            final(self).settled@ == old(self).settled@,
            final(self).retiring@ == old(self).retiring@,
            site is Wmo ==> final(self).doodads@ == old(self).doodads@ && final(self).props@
                == old(self).props@,
            site matches MergeSite::Doodad { owner } ==> {
                &&& final(self).props@ == old(self).props@
                &&& slotless(final(self).doodads@)
                &&& exists|at: int|
                    doodad_diverted(
                        old(self).doodads@,
                        final(self).doodads@,
                        DoodadKey { owner, cell, material },
                        part,
                        verts,
                        old(self).frame,
                        at,
                    )
            },
            site matches MergeSite::Prop { uid, rooms, slot } ==> {
                &&& final(self).doodads@ == old(self).doodads@
                &&& props_wf(final(self).props@)
                &&& exists|at: int|
                    prop_diverted(
                        old(self).props@,
                        final(self).props@,
                        uid,
                        rooms@,
                        material,
                        part,
                        verts,
                        slot,
                        old(self).frame,
                        at,
                    )
            },
    {
        match site {
            MergeSite::Doodad { owner } => {
                self.divert_doodad(DoodadKey { owner, cell, material }, part, verts);
                true
            },
            MergeSite::Wmo { uid: _ } => false,
            MergeSite::Prop { uid, rooms, slot } => {
                self.divert_prop(uid, rooms, material, part, verts, slot);
                true
            },
        }
    }
}

/// A prop blob's portal tag: a blob whose rooms name it, in a building that has a portal
/// instance, is culled with those rooms (and as exterior scenery); otherwise it is untagged.
pub fn prop_blob_tag(key: &PropKey, portal_instance: Option<u64>) -> (tag: Option<WmoGroupVis>)
    ensures
        match tag {
            Some(v) => key.rooms@.len() > 0 && portal_instance == Some(v.instance) && v.groups@
                == key.rooms@,
            None => key.rooms@.len() == 0 || portal_instance is None,
        },
{
    if key.rooms.len() == 0 {
        return None;
    }
    match portal_instance {
        Some(instance) => Some(WmoGroupVis { instance, groups: copy_rooms(&key.rooms) }),
        None => None,
    }
}

fn copy_rooms(r: &Vec<u16>) -> (c: Vec<u16>)
    ensures
        c@ == r@,
{
    let mut c: Vec<u16> = Vec::new();
    let mut i: usize = 0;
    while i < r.len()
        invariant
            0 <= i <= r@.len(),
            c@ == r@.take(i as int),
        decreases r@.len() - i,
    {
        c.push(r[i]);
        proof {
            assert(r@.take(i + 1) =~= r@.take(i as int).push(r@[i as int]));
        }
        i = i + 1;
    }
    proof {
        assert(r@.take(i as int) =~= r@);
    }
    c
}

/// The retiring fragments still inside their cushion at `frame`, in order.
pub open spec fn still_cushioned<E>(s: Seq<Retiring<E>>, frame: u32) -> Seq<Retiring<E>>
    decreases s.len(),
{
    if s.len() == 0 {
        Seq::empty()
    } else {
        let rest = still_cushioned(s.drop_last(), frame);
        if ticks_since(frame, s.last().since) < RETIRE_FRAMES {
            rest.push(s.last())
        } else {
            rest
        }
    }
}

/// The fragments past their cushion whose owner tile is still loaded, in order: the ones to
/// despawn. A dead owner already despawned its own.
pub open spec fn due_for_despawn<E>(s: Seq<Retiring<E>>, frame: u32, live: Seq<(i32, i32)>) -> Seq<
    Retiring<E>,
>
    decreases s.len(),
{
    if s.len() == 0 {
        Seq::empty()
    } else {
        let rest = due_for_despawn(s.drop_last(), frame, live);
        if ticks_since(frame, s.last().since) >= RETIRE_FRAMES && live.contains(s.last().owner) {
            rest.push(s.last())
        } else {
            rest
        }
    }
}

impl<T, E> StaticMerge<T, E> {
    /// Retires the fragments past their cushion: those whose owner tile is still loaded are
    /// handed back to despawn (and to leave the tile's list); the rest are dropped from the
    /// ledger, their owner having despawned them.
    pub fn retire(&mut self, live: &[(i32, i32)]) -> (out: Vec<Retiring<E>>)
        ensures
            final(self).frame == old(self).frame,
            final(self).doodads@ == old(self).doodads@,
            final(self).props@ == old(self).props@,
            final(self).settled@ == old(self).settled@,
            final(self).retiring@ == still_cushioned(old(self).retiring@, old(self).frame),
            out@ == due_for_despawn(old(self).retiring@, old(self).frame, live@),
    {
        let frame = self.frame;
        let mut pending: Vec<Retiring<E>> = Vec::new();
        std::mem::swap(&mut pending, &mut self.retiring);
        let ghost all = pending@;
        let mut kept: Vec<Retiring<E>> = Vec::new();
        let mut out: Vec<Retiring<E>> = Vec::new();
        let n = pending.len();
        let mut i: usize = 0;
        while pending.len() > 0
            invariant
                pending@.len() + i == n,
                n == all.len(),
                pending@ == all.subrange(i as int, n as int),
                kept@ == still_cushioned(all.take(i as int), frame),
                out@ == due_for_despawn(all.take(i as int), frame, live@),
            decreases pending@.len(),
        {
            let r = pending.remove(0);
            proof {
                assert(all.take(i + 1).drop_last() =~= all.take(i as int));
                assert(all[i as int] == r);
                assert(pending@ =~= all.subrange(i + 1, n as int));
            }
            if elapsed(frame, r.since) < RETIRE_FRAMES {
                kept.push(r);
            } else if holds_tile(live, r.owner) {
                out.push(r);
            }
            i = i + 1;
        }
        proof {
            assert(all.take(i as int) =~= all);
        }
        self.retiring = kept;
        out
    }
}

/// The fragments' vertex counts.
fn fragment_verts<T, E>(b: &Vec<SettledBlob<T, E>>) -> (v: Vec<usize>)
    ensures
        v@ == blob_verts(b@),
{
    let mut v: Vec<usize> = Vec::new();
    let mut i: usize = 0;
    while i < b.len()
        invariant
            0 <= i <= b@.len(),
            v@ == blob_verts(b@.take(i as int)),
        decreases b@.len() - i,
    {
        v.push(b[i].verts);
        proof {
            assert(blob_verts(b@.take(i + 1)) =~= blob_verts(b@.take(i as int)).push(b@[i as int].verts));
        }
        i = i + 1;
    }
    proof {
        assert(b@.take(i as int) =~= b@);
    }
    v
}

/// Moves a cell's fragments into their first-fit blobs, and records each fragment retiring.
fn split_fragments<T, E>(blobs: Vec<SettledBlob<T, E>>, owner: (i32, i32), since: u32) -> (r: (
    Vec<Rebake<T>>,
    Vec<Retiring<E>>,
))
    ensures
        r.0@.len() == rebake_groups(blobs@).len(),
        forall|k: int|
            0 <= k < r.0@.len() ==> (#[trigger] r.0@[k]).parts@ == rebake_groups(blobs@)[k].0
                && r.0@[k].verts == rebake_groups(blobs@)[k].1,
        r.1@ == retirements(blobs@, owner, since),
{
    let ghost all = blobs@;
    let mut rest = blobs;
    let mut out: Vec<Rebake<T>> = Vec::new();
    out.push(Rebake { parts: Vec::new(), verts: 0 });
    let mut retired: Vec<Retiring<E>> = Vec::new();
    let n = rest.len();
    let mut i: usize = 0;
    proof {
        assert(all.take(0) =~= Seq::<SettledBlob<T, E>>::empty());
        assert(retirements(all.take(0), owner, since) =~= Seq::<Retiring<E>>::empty());
    }
    while rest.len() > 0
        invariant
            rest@.len() + i == n,
            n == all.len(),
            rest@ == all.subrange(i as int, n as int),
            out@.len() == rebake_groups(all.take(i as int)).len(),
            out@.len() >= 1,
            forall|k: int|
                0 <= k < out@.len() ==> (#[trigger] out@[k]).parts@ == rebake_groups(
                    all.take(i as int),
                )[k].0 && out@[k].verts == rebake_groups(all.take(i as int))[k].1,
            retired@ == retirements(all.take(i as int), owner, since),
        decreases rest@.len(),
    {
        let b = rest.remove(0);
        proof {
            assert(all.take(i + 1).drop_last() =~= all.take(i as int));
            assert(all[i as int] == b);
            assert(rest@ =~= all.subrange(i + 1, n as int));
            assert(retirements(all.take(i + 1), owner, since) =~= retirements(
                all.take(i as int),
                owner,
                since,
            ).push(Retiring { entity: b.entity, owner, since }));
        }
        let ghost g = rebake_groups(all.take(i as int));
        let ghost prev = out@;
        retired.push(Retiring { entity: b.entity, owner, since });
        let mut open = out.pop().unwrap();
        proof {
            assert(open.parts@ == g.last().0 && open.verts == g.last().1);
        }
        let SettledBlob { entity: _, parts, verts } = b;
        if open.verts > 0 && (open.verts > MERGE_MAX_VERTS || verts > MERGE_MAX_VERTS - open.verts) {
            out.push(open);
            out.push(Rebake { parts, verts });
            proof {
                let g2 = rebake_groups(all.take(i + 1));
                assert(g2 =~= g.push((parts@, verts as int)));
                assert forall|k: int| 0 <= k < out@.len() implies (#[trigger] out@[k]).parts@
                    == g2[k].0 && out@[k].verts == g2[k].1 by {
                    if k < prev.len() {
                        assert(out@[k] == prev[k]);
                    }
                }
            }
        } else {
            let mut parts = parts;
            let ghost before_parts = open.parts@;
            open.parts.append(&mut parts);
            open.verts = open.verts + verts;
            out.push(open);
            proof {
                let g2 = rebake_groups(all.take(i + 1));
                assert(g2 =~= g.update(g.len() - 1, (g.last().0 + b.parts@, g.last().1 + verts)));
                assert forall|k: int| 0 <= k < out@.len() implies (#[trigger] out@[k]).parts@
                    == g2[k].0 && out@[k].verts == g2[k].1 by {
                    if k < prev.len() - 1 {
                        assert(out@[k] == prev[k]);
                    }
                }
            }
        }
        i = i + 1;
    }
    proof {
        assert(all.take(i as int) =~= all);
    }
    (out, retired)
}

/// Whether two keys name the same blob.
fn same_key(a: &DoodadKey, b: &DoodadKey) -> (r: bool)
    ensures
        r == (*a == *b),
{
    a.owner.0 == b.owner.0 && a.owner.1 == b.owner.1 && a.cell.0 == b.cell.0 && a.cell.1
        == b.cell.1 && a.material == b.material
}

/// The index of the first accumulator under `key`, or the number of accumulators when there is
/// none.
fn find_doodad<T>(d: &Vec<DoodadAcc<T>>, key: DoodadKey) -> (i: usize)
    ensures
        i <= d@.len(),
        forall|j: int| 0 <= j < i ==> d@[j].key != key,
        i < d@.len() ==> d@[i as int].key == key,
{
    let mut i: usize = 0;
    while i < d.len()
        invariant
            0 <= i <= d@.len(),
            forall|j: int| 0 <= j < i ==> d@[j].key != key,
        decreases d@.len() - i,
    {
        if same_key(&d[i].key, &key) {
            return i;
        }
        i = i + 1;
    }
    i
}

/// Batch `i` names a skin section another batch of the model also names; a WMO batch (no
/// section) never shares.
pub open spec fn shares_section(sections: Seq<Option<u16>>, i: int) -> bool {
    sections[i] is Some && exists|j: int| 0 <= j < sections.len() && j != i && sections[j]
        == sections[i]
}

/// Per batch, whether another batch of the model names the same skin section: such a batch's
/// geometry is shared, so it never merges.
pub fn shared_geometry(sections: &[Option<u16>]) -> (out: Vec<bool>)
    ensures
        out@.len() == sections@.len(),
        forall|i: int| 0 <= i < out@.len() ==> #[trigger] out@[i] == shares_section(sections@, i),
{
    let mut out: Vec<bool> = Vec::new();
    let mut i: usize = 0;
    while i < sections.len()
        invariant
            0 <= i <= sections@.len(),
            out@.len() == i,
            forall|k: int| 0 <= k < i ==> #[trigger] out@[k] == shares_section(sections@, k),
        decreases sections@.len() - i,
    {
        let mut shared = false;
        match sections[i] {
            None => {},
            Some(sec) => {
                let mut j: usize = 0;
                while j < sections.len()
                    invariant
                        0 <= j <= sections@.len(),
                        i < sections@.len(),
                        sections@[i as int] == Some(sec),
                        shared == exists|k: int| 0 <= k < j && k != i && sections@[k] == Some(sec),
                    decreases sections@.len() - j,
                {
                    if j != i {
                        match sections[j] {
                            Some(o) => {
                                if o == sec {
                                    shared = true;
                                }
                            },
                            None => {},
                        }
                    }
                    j = j + 1;
                }
            },
        }
        out.push(shared);
        i = i + 1;
    }
    out
}


/// How many prop accumulators of `s` belong to placement `uid`.
pub open spec fn count_for_uid<T>(s: Seq<PropAcc<T>>, uid: u32) -> nat
    decreases s.len(),
{
    if s.len() == 0 {
        0
    } else {
        count_for_uid(s.drop_last(), uid) + if s.last().key.uid == uid {
            1nat
        } else {
            0nat
        }
    }
}

/// What one static-merge flush asks of the host, which bakes and spawns the blobs.
pub trait BlobHost<T, E> {
    /// Bakes and spawns one doodad blob from `parts` for tile `owner`, which owns the entity.
    fn spawn_doodad_blob(&mut self, owner: (i32, i32), parts: &Vec<T>) -> E;

    /// Bakes and spawns one prop blob; its placement owns the entity.
    fn spawn_prop_blob(&mut self, acc: &PropAcc<T>) -> E;

    /// Despawns a retired fragment and drops it from its tile's list.
    fn despawn_fragment(&mut self, owner: (i32, i32), entity: E);
}

/// One static-merge flush: advance the tick, close and bake the ready accumulators (a dead
/// owner's are discarded, spawning nothing), settle each doodad blob into its cell, give each prop
/// blob to its placement, re-consolidate the quiet cells (a dead owner's cell leaves the ledger),
/// retire the fragments past their cushion, and publish the accumulators still unflushed as the
/// load's `merge_pending`.
pub fn flush_static_merge<T, P, E: Copy, H: BlobHost<T, E>>(
    merge: &mut StaticMerge<T, E>,
    live: &[(i32, i32)],
    placements: &mut Placements<P, E>,
    paced: bool,
    progress: &mut Option<WorldLoadProgress>,
    host: &mut H,
)
    requires
        slotless(old(merge).doodads@),
        props_wf(old(merge).props@),
        old(merge).doodads@.len() + old(merge).props@.len() <= usize::MAX,
    ensures
        final(merge).frame == (old(merge).frame + 1) % 0x1_0000_0000,
        final(merge).doodads@ == old(merge).doodads@.filter(
            doodads_waiting(live@, final(merge).frame, idle_for(paced)),
        ),
        final(merge).props@ == old(merge).props@.filter(
            props_waiting(old(placements).by_id@, final(merge).frame, idle_for(paced)),
        ),
        forall|k: int|
            0 <= k < final(merge).settled@.len() ==> live@.contains(
                (#[trigger] final(merge).settled@[k]).key.owner,
            ),
        final(placements).by_id@.dom() == old(placements).by_id@.dom(),
        final(placements).pending_spawns == old(placements).pending_spawns,
        old(placements).wf() ==> final(placements).wf(),
        forall|u: u32| #[trigger] old(placements).by_id@.contains_key(u) ==> {
            let before = old(placements).by_id@[u].entities@;
            let after = final(placements).by_id@[u].entities@;
            &&& after.len() == before.len() + count_for_uid(
                old(merge).props@.filter(
                    props_closing(old(placements).by_id@, final(merge).frame, idle_for(paced)),
                ),
                u,
            )
            &&& forall|k: int| 0 <= k < before.len() ==> after[k] == before[k]
        },
        match *old(progress) {
            Some(p) => *final(progress) == Some(
                WorldLoadProgress {
                    merge_pending: (final(merge).doodads@.len() + final(merge).props@.len()) as usize,
                    ..p
                },
            ),
            None => *final(progress) is None,
        },
{
    let ghost d0 = merge.doodads@;
    let ghost p0 = merge.props@;
    let ghost live_uids = placements.by_id@;
    let mut closed = merge.close_doodads(live, paced);
    let ghost f1 = merge.frame;
    while closed.len() > 0
        invariant
            merge.frame == f1,
            merge.doodads@ == d0.filter(doodads_waiting(live@, f1, idle_for(paced))),
            merge.props@ == p0,
        decreases closed@.len(),
    {
        let acc = closed.remove(0);
        let e = host.spawn_doodad_blob(acc.key.owner, &acc.acc.parts);
        let _at = merge.settle(acc.key, e, acc.acc.parts, acc.acc.verts);
    }
    let closed_props = merge.close_props(placements, paced);
    let ghost cp = closed_props@;
    proof {
        assert forall|k: int| 0 <= k < cp.len() implies live_uids.contains_key(#[trigger] cp[k].key.uid) by {
            p0.lemma_filter_pred(props_closing(live_uids, f1, idle_for(paced)), k);
        }
    }
    let mut pi: usize = 0;
    while pi < closed_props.len()
        invariant
            0 <= pi <= closed_props@.len(),
            cp == closed_props@,
            forall|k: int| 0 <= k < cp.len() ==> live_uids.contains_key(#[trigger] cp[k].key.uid),
            live_uids == old(placements).by_id@,
            placements.by_id@.dom() == live_uids.dom(),
            placements.pending_spawns == old(placements).pending_spawns,
            old(placements).wf() ==> placements.wf(),
            forall|u: u32| #[trigger] live_uids.contains_key(u) ==> {
                let before = live_uids[u].entities@;
                let now = placements.by_id@[u].entities@;
                &&& now.len() == before.len() + count_for_uid(cp.take(pi as int), u)
                &&& forall|k: int| 0 <= k < before.len() ==> now[k] == before[k]
            },
        decreases closed_props@.len() - pi,
    {
        let acc = &closed_props[pi];
        let e = host.spawn_prop_blob(acc);
        let ghost mb = placements.by_id@;
        let uid = acc.key.uid;
        placements.adopt(uid, e);
        proof {
            assert(placements.by_id@.dom() =~= mb.dom());
            assert(cp.take(pi + 1).drop_last() =~= cp.take(pi as int));
            assert(cp.take(pi + 1).last() == cp[pi as int]);
            assert(live_uids.contains_key(cp[pi as int].key.uid));
            assert forall|u: u32| #[trigger] live_uids.contains_key(u) implies {
                let before = live_uids[u].entities@;
                let now = placements.by_id@[u].entities@;
                &&& now.len() == before.len() + count_for_uid(cp.take(pi + 1), u)
                &&& forall|k: int| 0 <= k < before.len() ==> now[k] == before[k]
            } by {
                if u != uid {
                    assert(placements.by_id@[u] == mb[u]);
                }
            }
        }
        pi = pi + 1;
    }
    proof {
        assert(cp.take(pi as int) =~= cp);
    }
    let mut i: usize = 0;
    while i < merge.settled.len()
        invariant
            0 <= i <= merge.settled@.len(),
            merge.frame == f1,
            merge.doodads@ == d0.filter(doodads_waiting(live@, f1, idle_for(paced))),
            merge.props@ == p0.filter(props_waiting(live_uids, f1, idle_for(paced))),
            forall|k: int| 0 <= k < i ==> live@.contains((#[trigger] merge.settled@[k]).key.owner),
        decreases merge.settled@.len() - i,
    {
        let owner = merge.settled[i].key.owner;
        let owner_live = holds_tile(live, owner);
        let ghost sb = merge.settled@;
        let (verdict, rebakes) = merge.reconsolidate_cell(i, owner_live);
        match verdict {
            CellVerdict::Gone => {
                proof {
                    assert forall|k: int| 0 <= k < i implies live@.contains((#[trigger] merge.settled@[k]).key.owner) by {
                        assert(merge.settled@[k] == sb[k]);
                    }
                }
            },
            _ => {
                let mut rebakes = rebakes;
                proof {
                    assert(owner_live);
                    assert(merge.settled@.len() == sb.len());
                }
                while rebakes.len() > 0
                    invariant
                        i < merge.settled@.len(),
                        merge.settled@.len() == sb.len(),
                        merge.frame == f1,
                        merge.doodads@ == d0.filter(doodads_waiting(live@, f1, idle_for(paced))),
                        merge.props@ == p0.filter(props_waiting(live_uids, f1, idle_for(paced))),
                        merge.settled@[i as int].key.owner == owner,
                        live@.contains(owner),
                        forall|k: int| 0 <= k < i ==> live@.contains((#[trigger] merge.settled@[k]).key.owner),
                    decreases rebakes@.len(),
                {
                    let rb = rebakes.remove(0);
                    let e = host.spawn_doodad_blob(owner, &rb.parts);
                    let ghost sb2 = merge.settled@;
                    merge.add_rebaked(i, e, rb.parts, rb.verts);
                    proof {
                        assert forall|k: int| 0 <= k < i implies live@.contains((#[trigger] merge.settled@[k]).key.owner) by {
                            assert(merge.settled@[k] == sb2[k]);
                        }
                    }
                }
                proof {
                    assert forall|k: int| 0 <= k < i + 1 implies live@.contains((#[trigger] merge.settled@[k]).key.owner) by {
                        if k < i {
                        } else {
                            assert(merge.settled@[k].key.owner == owner);
                        }
                    }
                }
                i = i + 1;
            },
        }
    }
    let retired = merge.retire(live);
    let mut t: usize = 0;
    while t < retired.len()
        invariant
            0 <= t <= retired@.len(),
        decreases retired@.len() - t,
    {
        host.despawn_fragment(retired[t].owner, retired[t].entity);
        t = t + 1;
    }
    proof {
        d0.lemma_filter_len(doodads_waiting::<T>(live@, f1, idle_for(paced)));
        p0.lemma_filter_len(props_waiting::<T, Placement<P, E>>(live_uids, f1, idle_for(paced)));
    }
    let n = merge.unflushed();
    match progress.take() {
        Some(mut p) => {
            p.merge_pending = n;
            *progress = Some(p);
        },
        None => {},
    }
}


impl<T, E> StaticMerge<T, E> {
    /// Whether the accumulators are consistent, as a flush needs them: no doodad accumulator
    /// carries probe slots, and every prop accumulator's slots are none or one per part.
    pub fn accumulators_consistent(&self) -> (r: bool)
        ensures
            r == (slotless(self.doodads@) && props_wf(self.props@)),
    {
        let mut i: usize = 0;
        while i < self.doodads.len()
            invariant
                0 <= i <= self.doodads@.len(),
                forall|k: int| 0 <= k < i ==> (#[trigger] self.doodads@[k]).acc.slots@.len() == 0,
            decreases self.doodads@.len() - i,
        {
            if self.doodads[i].acc.slots.len() != 0 {
                return false;
            }
            i = i + 1;
        }
        let mut j: usize = 0;
        while j < self.props.len()
            invariant
                0 <= j <= self.props@.len(),
                slotless(self.doodads@),
                forall|k: int| 0 <= k < j ==> (#[trigger] self.props@[k]).acc.wf(),
            decreases self.props@.len() - j,
        {
            let a = &self.props[j].acc;
            if a.slots.len() != 0 && a.slots.len() != a.parts.len() {
                return false;
            }
            j = j + 1;
        }
        true
    }
}

} // verus!
