//! Doodad and WMO placements, registered once by uniqueId and refcounted across the tiles that
//! list them, and the ownership handoff of an M2 doodad whose owner tile unloads while another
//! tile still references it.
//!
//! `P` is the caller's per-placement payload (the model handle, the transform, the WMO sets) and
//! `E` its entity handle.
use std::collections::HashMap;
use vstd::prelude::*;

verus! {

broadcast use vstd::std_specs::hash::group_hash_axioms;

/// A shared placement: the caller's payload, its spawned entities and its refcount.
pub struct Placement<P, E> {
    pub payload: P,
    /// An M2 doodad (its hull weld and merged blobs live with its owner tile); false for a WMO.
    pub is_m2: bool,
    /// Spawned entities, WMO prop submeshes included so they despawn together.
    pub entities: Vec<E>,
    /// Spawned, or found to have nothing to spawn.
    pub spawned: bool,
    /// Per WMO doodad prop: spawned yet.
    pub props_spawned: Vec<bool>,
    /// How many loaded tiles reference this placement; released when it hits zero.
    pub refs: u32,
    /// The tile owning an M2 doodad's hull weld and merged blobs, first the registering tile.
    pub owner: (i32, i32),
}

/// The placement registry by MDDF/MODF uniqueId, with the count of spawns still pending.
pub struct Placements<P, E> {
    pub by_id: HashMap<u32, Placement<P, E>>,
    /// Placements awaiting their model plus WMO props awaiting theirs.
    pub pending_spawns: usize,
    /// The last spawn pass's questions to the host, in order, with its answers.
    pub last_pass: Vec<SpawnAsk>,
}

/// One question a spawn pass put to the host: a placement's model (`prop` `None`) or its prop,
/// whether the host had it loaded and spawned it, whether the landing was recorded, the props a
/// landed model resolved, the pending count when asked, and the clock's answer after a landing
/// (false when not asked).
#[derive(Clone, Copy, Debug, PartialEq, Eq)]
pub struct SpawnAsk {
    pub uid: u32,
    pub prop: Option<usize>,
    pub loaded: bool,
    pub landed: bool,
    pub resolved: usize,
    pub pending: usize,
    pub out_of_time: bool,
}

/// One loaded tile's listing: the uniqueIds of the placements it references.
pub struct TileListing {
    pub tile: (i32, i32),
    pub placements: Vec<u32>,
}

/// The number of `false` entries.
pub open spec fn count_false(s: Seq<bool>) -> nat
    decreases s.len(),
{
    if s.len() == 0 {
        0
    } else {
        count_false(s.drop_last()) + if s.last() {
            0nat
        } else {
            1nat
        }
    }
}

/// The pending spawns a placement accounts for: itself unless spawned, and each unspawned prop.
pub open spec fn pending_of<P, E>(p: Placement<P, E>) -> nat {
    (if p.spawned {
        0nat
    } else {
        1nat
    }) + count_false(p.props_spawned@)
}

/// The pending spawns of every placement in a registry, summed.
pub open spec fn pending_total<P, E>(m: Map<u32, Placement<P, E>>) -> nat
    decreases m.dom().len(),
{
    if m.dom().finite() && m.dom().len() > 0 {
        let k = m.dom().choose();
        pending_of(m[k]) + pending_total(m.remove(k))
    } else {
        0
    }
}

/// Taking one placement out of a registry takes its pending spawns out of the total.
pub proof fn lemma_pending_total_remove<P, E>(m: Map<u32, Placement<P, E>>, k: u32)
    requires
        m.dom().finite(),
        m.contains_key(k),
    ensures
        pending_total(m) == pending_of(m[k]) + pending_total(m.remove(k)),
    decreases m.dom().len(),
{
    let c = m.dom().choose();
    if c != k {
        lemma_pending_total_remove(m.remove(c), k);
        lemma_pending_total_remove(m.remove(k), c);
        assert(m.remove(c).remove(k) =~= m.remove(k).remove(c));
        assert(m.remove(c)[k] == m[k]);
        assert(m.remove(k)[c] == m[c]);
    }
}

/// Putting a placement into a registry, over whatever stood at its key, changes the total by
/// what the two account for.
pub proof fn lemma_pending_total_insert<P, E>(m: Map<u32, Placement<P, E>>, k: u32, v: Placement<P, E>)
    requires
        m.dom().finite(),
    ensures
        pending_total(m.insert(k, v)) == pending_of(v) + pending_total(m.remove(k)),
        m.contains_key(k) ==> pending_total(m) == pending_of(m[k]) + pending_total(m.remove(k)),
        !m.contains_key(k) ==> m.remove(k) == m,
{
    lemma_pending_total_remove(m.insert(k, v), k);
    assert(m.insert(k, v).remove(k) =~= m.remove(k));
    if m.contains_key(k) {
        lemma_pending_total_remove(m, k);
    } else {
        assert(m.remove(k) =~= m);
    }
}

/// The 8 neighbours of a tile, in the order the handoff searches them: x, then y.
pub open spec fn neighbour(t: (i32, i32), k: int) -> (int, int) {
    let k2 = if k < 4 {
        k
    } else {
        k + 1
    };
    (t.0 + (k2 / 3 - 1), t.1 + (k2 % 3 - 1))
}

/// The index of the first listing for tile `t`, if the tile is loaded.
pub open spec fn listing_at(tiles: Seq<TileListing>, t: (int, int)) -> Option<int>
    decreases tiles.len(),
{
    if tiles.len() == 0 {
        None
    } else {
        let r = listing_at(tiles.drop_last(), t);
        if r is Some {
            r
        } else if tiles.last().tile.0 == t.0 && tiles.last().tile.1 == t.1 {
            Some(tiles.len() - 1)
        } else {
            None
        }
    }
}

/// Whether tile `t` is loaded and its listing references `uid`.
pub open spec fn references(tiles: Seq<TileListing>, t: (int, int), uid: u32) -> bool {
    match listing_at(tiles, t) {
        Some(i) => tiles[i].placements@.contains(uid),
        None => false,
    }
}

/// The listing of the first of the dead tile's first `k` neighbours that references `uid`.
pub open spec fn neighbour_owner(tiles: Seq<TileListing>, dead: (i32, i32), uid: u32, k: int) -> Option<
    int,
>
    decreases k,
{
    if k <= 0 {
        None
    } else {
        let r = neighbour_owner(tiles, dead, uid, k - 1);
        if r is Some {
            r
        } else if references(tiles, neighbour(dead, k - 1), uid) {
            listing_at(tiles, neighbour(dead, k - 1))
        } else {
            None
        }
    }
}

/// The first of the first `n` listings, other than the dead tile's, that references `uid`.
pub open spec fn fallback_owner(tiles: Seq<TileListing>, dead: (i32, i32), uid: u32, n: int) -> Option<
    int,
>
    decreases n,
{
    if n <= 0 {
        None
    } else {
        let r = fallback_owner(tiles, dead, uid, n - 1);
        if r is Some {
            r
        } else if tiles[n - 1].tile != dead && tiles[n - 1].placements@.contains(uid) {
            Some(n - 1)
        } else {
            None
        }
    }
}

/// The listing whose tile takes over a straddler: a neighbour of the dead tile first (another
/// referrer shares the row across a tile seam), else any other loaded tile referencing it.
pub open spec fn new_owner(tiles: Seq<TileListing>, dead: (i32, i32), uid: u32) -> Option<int> {
    let n = neighbour_owner(tiles, dead, uid, 8);
    if n is Some {
        n
    } else {
        fallback_owner(tiles, dead, uid, tiles.len() as int)
    }
}

/// A placement the dead tile owned as an M2 doodad, still registered.
pub open spec fn is_straddler<P, E>(
    by_id: Map<u32, Placement<P, E>>,
    uids: Seq<u32>,
    dead: (i32, i32),
    uid: u32,
) -> bool {
    uids.contains(uid) && by_id.contains_key(uid) && by_id[uid].owner == dead && by_id[uid].is_m2
}

/// The straddlers of a dead tile in `uids` order, each once: registered M2 placements the dead
/// tile owned.
pub open spec fn straddler_order<P, E>(
    by_id: Map<u32, Placement<P, E>>,
    uids: Seq<u32>,
    dead: (i32, i32),
) -> Seq<u32>
    decreases uids.len(),
{
    if uids.len() == 0 {
        Seq::empty()
    } else {
        let r = straddler_order(by_id, uids.drop_last(), dead);
        let u = uids.last();
        if by_id.contains_key(u) && by_id[u].owner == dead && by_id[u].is_m2 && !r.contains(u) {
            r.push(u)
        } else {
            r
        }
    }
}

/// The entities the handoff despawns, straddler by straddler in `order`: those of each
/// spawned straddler that found a new owner.
pub open spec fn handed_entities<P, E>(
    by_id: Map<u32, Placement<P, E>>,
    order: Seq<u32>,
    tiles: Seq<TileListing>,
    dead: (i32, i32),
) -> Seq<E>
    decreases order.len(),
{
    if order.len() == 0 {
        Seq::empty()
    } else {
        let u = order.last();
        handed_entities(by_id, order.drop_last(), tiles, dead) + if new_owner(tiles, dead, u) is Some
            && by_id[u].spawned {
            by_id[u].entities@
        } else {
            Seq::<E>::empty()
        }
    }
}

/// The respawns the handoff queues: one per spawned straddler in `order` that found a new
/// owner.
pub open spec fn handed_respawns<P, E>(
    by_id: Map<u32, Placement<P, E>>,
    order: Seq<u32>,
    tiles: Seq<TileListing>,
    dead: (i32, i32),
) -> nat
    decreases order.len(),
{
    if order.len() == 0 {
        0
    } else {
        let u = order.last();
        handed_respawns(by_id, order.drop_last(), tiles, dead) + if new_owner(tiles, dead, u) is Some
            && by_id[u].spawned {
            1nat
        } else {
            0nat
        }
    }
}

impl<P, E> Placements<P, E> {
    /// The pending count is every registered placement's pending spawns, summed: itself unless
    /// spawned, and each unspawned prop. Every register, release, spawn and handoff keeps it.
    pub open spec fn wf(&self) -> bool {
        self.pending_spawns == pending_total(self.by_id@)
    }

    /// An empty registry.
    pub fn new() -> (r: Placements<P, E>)
        ensures
            r.by_id@ == Map::<u32, Placement<P, E>>::empty(),
            r.pending_spawns == 0,
            r.wf(),
    {
        let r = Placements { by_id: HashMap::new(), pending_spawns: 0, last_pass: Vec::new() };
        proof {
            assert(r.by_id@.dom().len() == 0);
        }
        r
    }

    /// Whether a placement is registered.
    pub fn contains(&self, uid: u32) -> (r: bool)
        ensures
            r == self.by_id@.contains_key(uid),
    {
        self.by_id.contains_key(&uid)
    }

    /// One more tile references an already-registered placement: bump its refcount. Returns
    /// whether it was registered; an unknown uniqueId is left for [`Self::register`].
    pub fn bump(&mut self, uid: u32) -> (known: bool)
        requires
            old(self).by_id@.contains_key(uid) ==> old(self).by_id@[uid].refs < u32::MAX,
        ensures
            known == old(self).by_id@.contains_key(uid),
            final(self).pending_spawns == old(self).pending_spawns,
            known ==> final(self).by_id@ == old(self).by_id@.insert(
                uid,
                Placement { refs: (old(self).by_id@[uid].refs + 1) as u32, ..old(self).by_id@[uid] },
            ),
            !known ==> final(self).by_id@ == old(self).by_id@,
            old(self).wf() ==> final(self).wf(),
    {
        let ghost m0 = self.by_id@;
        match self.by_id.remove(&uid) {
            Some(p) => {
                let bumped = Placement { refs: p.refs + 1, ..p };
                proof {
                    lemma_pending_total_insert(m0, uid, bumped);
                }
                self.by_id.insert(uid, bumped);
                true
            },
            None => false,
        }
    }

    /// Registers a new placement for its first referencing tile, owned by that tile, unspawned,
    /// with one pending spawn.
    pub fn register(&mut self, uid: u32, payload: P, is_m2: bool, owner: (i32, i32))
        requires
            !old(self).by_id@.contains_key(uid),
            old(self).pending_spawns < usize::MAX,
        ensures
            final(self).by_id@ == old(self).by_id@.insert(
                uid,
                Placement {
                    payload,
                    is_m2,
                    entities: final(self).by_id@[uid].entities,
                    spawned: false,
                    props_spawned: final(self).by_id@[uid].props_spawned,
                    refs: 1,
                    owner,
                },
            ),
            final(self).by_id@[uid].entities@.len() == 0,
            final(self).by_id@[uid].props_spawned@.len() == 0,
            final(self).pending_spawns == old(self).pending_spawns + 1,
            old(self).wf() ==> final(self).wf(),
    {
        let ghost m0 = self.by_id@;
        let p = Placement {
            payload,
            is_m2,
            entities: Vec::new(),
            spawned: false,
            props_spawned: Vec::new(),
            refs: 1,
            owner,
        };
        proof {
            lemma_pending_total_insert(m0, uid, p);
            assert(count_false(p.props_spawned@) == 0);
        }
        self.by_id.insert(uid, p);
        self.pending_spawns = self.pending_spawns + 1;
    }

    /// Drops one tile's reference. At zero the placement leaves the registry, taking its pending
    /// spawns (itself and its props) out of the count, and is handed back for its entities to be
    /// despawned.
    pub fn release(&mut self, uid: u32) -> (dropped: Option<Placement<P, E>>)
        requires
            old(self).by_id@.contains_key(uid) ==> old(self).by_id@[uid].refs >= 1,
            old(self).by_id@.contains_key(uid) && old(self).by_id@[uid].refs == 1 ==> pending_of(
                old(self).by_id@[uid],
            ) <= old(self).pending_spawns,
        ensures
            !old(self).by_id@.contains_key(uid) ==> final(self).by_id@ == old(self).by_id@
                && final(self).pending_spawns == old(self).pending_spawns && dropped is None,
            old(self).by_id@.contains_key(uid) && old(self).by_id@[uid].refs > 1 ==> {
                &&& final(self).by_id@ == old(self).by_id@.insert(
                    uid,
                    Placement {
                        refs: (old(self).by_id@[uid].refs - 1) as u32,
                        ..old(self).by_id@[uid]
                    },
                )
                &&& final(self).pending_spawns == old(self).pending_spawns
                &&& dropped is None
            },
            old(self).by_id@.contains_key(uid) && old(self).by_id@[uid].refs == 1 ==> {
                &&& final(self).by_id@ == old(self).by_id@.remove(uid)
                &&& final(self).pending_spawns == old(self).pending_spawns - pending_of(
                    old(self).by_id@[uid],
                )
                &&& dropped == Some(
                    Placement { refs: 0u32, ..old(self).by_id@[uid] },
                )
            },
            old(self).wf() ==> final(self).wf(),
    {
        let ghost m0 = self.by_id@;
        proof {
            if m0.contains_key(uid) {
                lemma_pending_total_remove(m0, uid);
            }
        }
        match self.by_id.remove(&uid) {
            None => None,
            Some(p) => {
                if p.refs > 1 {
                    let kept = Placement { refs: p.refs - 1, ..p };
                    proof {
                        lemma_pending_total_insert(m0, uid, kept);
                    }
                    self.by_id.insert(uid, kept);
                    proof {
                        assert(self.by_id@ == m0.insert(uid, kept));
                        assert(m0.remove(uid) == m0.remove(uid));
                    }
                    None
                } else {
                    let n = pending_count(&p);
                    self.pending_spawns = self.pending_spawns - n;
                    proof {
                        assert(p == m0[uid]);
                        assert(self.by_id@ == m0.remove(uid));
                    }
                    Some(Placement { refs: 0, ..p })
                }
            },
        }
    }
}

/// Placements (models or WMO props) spawned per frame once the focus is settled: about half a
/// frame of downstream render work.
pub const SPAWN_COUNT_CAP: usize = 150;

/// The spawn count cap, as the contracts read it.
pub open spec fn spawn_cap(paced: bool) -> usize {
    if paced {
        SPAWN_COUNT_CAP
    } else {
        usize::MAX
    }
}

/// The per-frame spawn count cap: paced once settled, none under the loading cover.
pub fn spawn_count_cap(paced: bool) -> (cap: usize)
    ensures
        cap == if paced {
            SPAWN_COUNT_CAP
        } else {
            usize::MAX
        },
{
    if paced {
        SPAWN_COUNT_CAP
    } else {
        usize::MAX
    }
}

/// `n` unspawned props.
fn unspawned(n: usize) -> (v: Vec<bool>)
    ensures
        v@ == Seq::new(n as nat, |i: int| false),
        count_false(v@) == n,
{
    let mut v: Vec<bool> = Vec::new();
    let mut i: usize = 0;
    while i < n
        invariant
            0 <= i <= n,
            v@ == Seq::new(i as nat, |k: int| false),
            count_false(v@) == i,
        decreases n - i,
    {
        let ghost before = v@;
        v.push(false);
        proof {
            assert(v@.drop_last() =~= before);
            assert(v@ =~= Seq::new((i + 1) as nat, |k: int| false));
        }
        i = i + 1;
    }
    v
}

/// Setting one `false` entry to `true` takes one off the count.
proof fn lemma_count_false_set(s: Seq<bool>, i: int)
    requires
        0 <= i < s.len(),
        !s[i],
    ensures
        count_false(s.update(i, true)) + 1 == count_false(s),
    decreases s.len(),
{
    if i == s.len() - 1 {
        assert(s.update(i, true).drop_last() =~= s.drop_last());
    } else {
        assert(s.update(i, true).drop_last() =~= s.drop_last().update(i, true));
        lemma_count_false_set(s.drop_last(), i);
    }
}

impl<P, E> Placements<P, E> {
    /// A placement's model landed and spawned as `entities`; a WMO's just-resolved doodad props
    /// (`props` of them, none spawned) join the pending count while the placement itself leaves
    /// it.
    pub fn landed(&mut self, uid: u32, entities: Vec<E>, props: usize)
        requires
            old(self).by_id@.contains_key(uid),
            !old(self).by_id@[uid].spawned,
            count_false(old(self).by_id@[uid].props_spawned@) == 0,
            old(self).pending_spawns >= 1,
            old(self).pending_spawns - 1 + props <= usize::MAX,
        ensures
            final(self).by_id@ == old(self).by_id@.insert(
                uid,
                Placement {
                    entities: final(self).by_id@[uid].entities,
                    spawned: true,
                    props_spawned: final(self).by_id@[uid].props_spawned,
                    ..old(self).by_id@[uid]
                },
            ),
            final(self).by_id@[uid].entities@ == entities@,
            final(self).by_id@[uid].props_spawned@ == Seq::new(props as nat, |i: int| false),
            final(self).pending_spawns == old(self).pending_spawns - 1 + props,
            pending_of(final(self).by_id@[uid]) == props,
            final(self).last_pass@ == old(self).last_pass@,
            old(self).wf() ==> final(self).wf(),
    {
        let ghost m0 = self.by_id@;
        let p = self.by_id.remove(&uid).unwrap();
        let q = Placement { entities, spawned: true, props_spawned: unspawned(props), ..p };
        proof {
            lemma_pending_total_insert(m0, uid, q);
        }
        self.by_id.insert(uid, q);
        proof {
            assert(self.by_id@ == m0.insert(uid, q));
        }
        self.pending_spawns = self.pending_spawns - 1 + props;
    }

    /// A WMO placement's prop `i` landed and spawned as `entities`, which join the placement's.
    pub fn prop_landed(&mut self, uid: u32, i: usize, entities: Vec<E>)
        requires
            old(self).by_id@.contains_key(uid),
            i < old(self).by_id@[uid].props_spawned@.len(),
            !old(self).by_id@[uid].props_spawned@[i as int],
            old(self).pending_spawns >= 1,
        ensures
            final(self).by_id@ == old(self).by_id@.insert(
                uid,
                Placement {
                    entities: final(self).by_id@[uid].entities,
                    props_spawned: final(self).by_id@[uid].props_spawned,
                    ..old(self).by_id@[uid]
                },
            ),
            final(self).by_id@[uid].entities@ == old(self).by_id@[uid].entities@ + entities@,
            final(self).by_id@[uid].props_spawned@ == old(self).by_id@[uid].props_spawned@.update(
                i as int,
                true,
            ),
            final(self).pending_spawns == old(self).pending_spawns - 1,
            pending_of(final(self).by_id@[uid]) + 1 == pending_of(old(self).by_id@[uid]),
            final(self).last_pass@ == old(self).last_pass@,
            old(self).wf() ==> final(self).wf(),
    {
        let ghost m0 = self.by_id@;
        let mut p = self.by_id.remove(&uid).unwrap();
        proof {
            lemma_count_false_set(p.props_spawned@, i as int);
        }
        p.props_spawned.set(i, true);
        let mut more = entities;
        p.entities.append(&mut more);
        proof {
            lemma_pending_total_insert(m0, uid, p);
        }
        self.by_id.insert(uid, p);
        proof {
            assert(self.by_id@ == m0.insert(uid, p));
            lemma_pending_total_remove(m0, uid);
        }
        self.pending_spawns = self.pending_spawns - 1;
    }
}

/// The pending spawns one placement accounts for.
fn pending_count<P, E>(p: &Placement<P, E>) -> (n: usize)
    requires
        pending_of(*p) <= usize::MAX,
    ensures
        n == pending_of(*p),
{
    let mut m: usize = 0;
    let mut i: usize = 0;
    while i < p.props_spawned.len()
        invariant
            0 <= i <= p.props_spawned@.len(),
            m == count_false(p.props_spawned@.take(i as int)),
            m <= i,
        decreases p.props_spawned@.len() - i,
    {
        proof {
            assert(p.props_spawned@.take(i + 1).drop_last() =~= p.props_spawned@.take(i as int));
        }
        if !p.props_spawned[i] {
            m = m + 1;
        }
        i = i + 1;
    }
    proof {
        assert(p.props_spawned@.take(i as int) =~= p.props_spawned@);
    }
    if p.spawned {
        m
    } else {
        m + 1
    }
}

/// What one spawn pass asks of the host, which holds the assets: each call spawns when the
/// model has landed and answers `None` while it is still loading.
pub trait SpawnHost<P, E> {
    /// Spawns a placement's own model: its entities, and for a WMO how many doodad props the
    /// model resolved.
    fn spawn_model(&mut self, uid: u32, payload: &P) -> Option<(Vec<E>, usize)>;

    /// Spawns prop `i` of a spawned placement: its entities.
    fn spawn_prop(&mut self, uid: u32, payload: &P, i: usize) -> Option<Vec<E>>;

    /// Whether this frame's spawn time is spent.
    fn out_of_time(&mut self) -> bool;
}

/// One landing of a spawn pass: a placement's model (`None`) or its prop `i` (`Some(i)`).
pub type Landing = (u32, Option<usize>);

/// Every prop is spawned.
fn props_settled(v: &Vec<bool>) -> (r: bool)
    ensures
        r == (count_false(v@) == 0),
{
    let mut i: usize = 0;
    while i < v.len()
        invariant
            0 <= i <= v@.len(),
            count_false(v@.take(i as int)) == 0,
        decreases v@.len() - i,
    {
        proof {
            assert(v@.take(i + 1).drop_last() =~= v@.take(i as int));
        }
        if !v[i] {
            proof {
                lemma_count_false_prefix(v@, i + 1);
            }
            return false;
        }
        i = i + 1;
    }
    proof {
        assert(v@.take(i as int) =~= v@);
    }
    true
}

/// An unspawned entry counts, in every longer prefix too.
proof fn lemma_count_false_prefix(s: Seq<bool>, n: int)
    requires
        0 < n <= s.len(),
        !s[n - 1],
    ensures
        count_false(s) >= 1,
    decreases s.len(),
{
    if n < s.len() {
        lemma_count_false_prefix(s.drop_last(), n);
    }
}

/// A placement's unchanging facts are its payload, kind, refcount and owner.
pub open spec fn same_identity<P, E>(a: Placement<P, E>, b: Placement<P, E>) -> bool {
    a.payload == b.payload && a.is_m2 == b.is_m2 && a.refs == b.refs && a.owner == b.owner
}

/// A landing took: the placement is registered and its model, or its prop `i`, is spawned.
pub open spec fn landing_took<P, E>(m: Map<u32, Placement<P, E>>, l: Landing) -> bool {
    &&& m.contains_key(l.0)
    &&& m[l.0].spawned
    &&& match l.1 {
        None => true,
        Some(i) => i < m[l.0].props_spawned@.len() && m[l.0].props_spawned@[i as int],
    }
}

/// The landings the asks of a pass recorded, in order.
pub open spec fn landings_of(asks: Seq<SpawnAsk>) -> Seq<Landing>
    decreases asks.len(),
{
    if asks.len() == 0 {
        Seq::empty()
    } else {
        let r = landings_of(asks.drop_last());
        if asks.last().landed {
            r.push((asks.last().uid, asks.last().prop))
        } else {
            r
        }
    }
}

/// A placement waits for its model: registered, not spawned, and no prop of an earlier landing
/// left over.
pub open spec fn awaits_model<P, E>(m: Map<u32, Placement<P, E>>, u: u32) -> bool {
    m.contains_key(u) && !m[u].spawned && count_false(m[u].props_spawned@) == 0
}

/// The host was asked for placement `u`'s model.
pub open spec fn asked_model(asks: Seq<SpawnAsk>, u: u32) -> bool {
    exists|i: int| 0 <= i < asks.len() && (#[trigger] asks[i]).uid == u && asks[i].prop is None
}

/// An ask answered as the pass must: a landing only of what the host had; a prop the host had
/// always lands; a model the host had lands unless its props would overflow the pending count.
pub open spec fn ask_kept(a: SpawnAsk) -> bool {
    &&& a.landed ==> a.loaded
    &&& a.prop is Some && a.loaded ==> a.landed
    &&& a.prop is None && a.loaded ==> (a.landed <==> a.pending >= 1 && a.resolved <= usize::MAX - (a.pending - 1))
    &&& !a.landed ==> !a.out_of_time
}

/// One more ask keeps a pass's account: the earlier asks stand, its uid is from `order`, and
/// the landings follow the asks.
proof fn lemma_ask_pushed(a0: Seq<SpawnAsk>, a1: Seq<SpawnAsk>, order: Seq<u32>, uid: u32, l0: Seq<Landing>)
    requires
        a1.len() == a0.len() + 1,
        forall|i: int| 0 <= i < a0.len() ==> a1[i] == a0[i],
        a1.last().uid == uid,
        l0 == landings_of(a0),
    ensures
        a1.drop_last() == a0,
        landings_of(a1) == if a1.last().landed {
            l0.push((uid, a1.last().prop))
        } else {
            l0
        },
        forall|u: u32| asked_model(a0, u) ==> #[trigger] asked_model(a1, u),
{
    assert(a1.drop_last() =~= a0);
    assert forall|u: u32| asked_model(a0, u) implies #[trigger] asked_model(a1, u) by {
        let i = choose|i: int| 0 <= i < a0.len() && (#[trigger] a0[i]).uid == u && a0[i].prop is None;
        assert(a1[i] == a0[i]);
    }
}

/// From one registry to a later one in a pass: nothing leaves or joins, the unchanging facts
/// stay, a spawned model stays spawned with its props only gaining spawned bits.
pub open spec fn pass_step<P, E>(a: Map<u32, Placement<P, E>>, b: Map<u32, Placement<P, E>>) -> bool {
    &&& b.dom() == a.dom()
    &&& forall|u: u32| #[trigger] a.contains_key(u) ==> same_identity(a[u], b[u]) && (a[u].spawned ==> b[u].spawned
        && b[u].props_spawned@.len() == a[u].props_spawned@.len() && forall|i: int|
        0 <= i < a[u].props_spawned@.len() && a[u].props_spawned@[i] ==> b[u].props_spawned@[i])
}

impl<P, E> Placements<P, E> {
    /// One frame's spawn pass over the registered placements in `order`: a placement's model
    /// spawns once the host has it (a WMO's resolved props joining the pending count), then each
    /// of a spawned placement's props as the host has it. A model or prop still loading is passed
    /// over and the pass goes on; it stops once the frame's time is spent or [`spawn_count_cap`]
    /// landings have been made, and is skipped when nothing is pending. Returns the landings in
    /// order; the host's answers are kept in `last_pass`.
    pub fn spawn_pass<H: SpawnHost<P, E>>(&mut self, order: &[u32], paced: bool, host: &mut H) -> (landed:
        Vec<Landing>)
        requires
            old(self).wf(),
        ensures
            final(self).wf(),
            landed@.len() <= spawn_cap(paced),
            old(self).pending_spawns == 0 ==> landed@.len() == 0 && final(self).by_id@ == old(
                self,
            ).by_id@,
            pass_step(old(self).by_id@, final(self).by_id@),
            forall|k: int|
                0 <= k < landed@.len() ==> order@.contains((#[trigger] landed@[k]).0) && landing_took(
                    final(self).by_id@,
                    landed@[k],
                ),
            landed@ == landings_of(final(self).last_pass@),
            forall|i: int| 0 <= i < final(self).last_pass@.len() ==> ask_kept(#[trigger] final(self).last_pass@[i]),
            forall|i: int|
                0 <= i < final(self).last_pass@.len() ==> order@.contains((#[trigger] final(self).last_pass@[i]).uid),
            (final(self).last_pass@.len() == 0 || !final(self).last_pass@.last().out_of_time)
                && landed@.len() < spawn_cap(paced) ==> forall|k: int|
                0 <= k < order@.len() && awaits_model(old(self).by_id@, #[trigger] order@[k]) ==> asked_model(
                    final(self).last_pass@,
                    order@[k],
                ),
    {
        let mut landed: Vec<Landing> = Vec::new();
        self.last_pass = Vec::new();
        if self.pending_spawns == 0 {
            proof {
                assert forall|k: int| 0 <= k < order@.len() && awaits_model(self.by_id@, #[trigger] order@[k]) implies false by {
                    lemma_pending_total_remove(self.by_id@, order@[k]);
                }
            }
            return landed;
        }
        let cap = spawn_count_cap(paced);
        let ghost m0 = self.by_id@;
        let mut k: usize = 0;
        let mut stop = false;
        while k < order.len() && !stop
            invariant
                0 <= k <= order@.len(),
                self.wf(),
                cap == spawn_cap(paced),
                cap >= 1,
                landed@.len() <= cap,
                !stop ==> landed@.len() < cap,
                pass_step(m0, self.by_id@),
                forall|j: int|
                    0 <= j < landed@.len() ==> order@.contains((#[trigger] landed@[j]).0) && landing_took(
                        self.by_id@,
                        landed@[j],
                    ),
                landed@ == landings_of(self.last_pass@),
                forall|i: int| 0 <= i < self.last_pass@.len() ==> ask_kept(#[trigger] self.last_pass@[i]),
                forall|i: int| 0 <= i < self.last_pass@.len() ==> order@.contains((#[trigger] self.last_pass@[i]).uid),
                !stop ==> forall|i: int| 0 <= i < self.last_pass@.len() ==> !(#[trigger] self.last_pass@[i]).out_of_time,
                stop ==> self.last_pass@.len() > 0 && (self.last_pass@.last().out_of_time || landed@.len() >= cap),
                forall|j: int|
                    0 <= j < k && awaits_model(m0, #[trigger] order@[j]) ==> asked_model(self.last_pass@, order@[j]),
                forall|u: u32|
                    awaits_model(m0, u) && !awaits_model(self.by_id@, u) ==> #[trigger] asked_model(self.last_pass@, u),
            decreases order@.len() - k, if stop { 0int } else { 1int },
        {
            let uid = order[k];
            proof {
                assert(order@.contains(uid)) by {
                    assert(order@[k as int] == uid);
                }
            }
            let ghost a0 = self.last_pass@;
            let mut go = false;
            match self.by_id.get(&uid) {
                None => {},
                Some(p) => {
                    if p.spawned {
                        go = true;
                    } else if props_settled(&p.props_spawned) {
                        let answer = host.spawn_model(uid, &p.payload);
                        let pending = self.pending_spawns;
                        match answer {
                            None => {
                                self.last_pass.push(
                                    SpawnAsk { uid, prop: None, loaded: false, landed: false, resolved: 0, pending, out_of_time: false },
                                );
                                proof {
                                    lemma_ask_pushed(a0, self.last_pass@, order@, uid, landed@);
                                }
                            },
                            Some((entities, props)) => {
                                proof {
                                    lemma_pending_total_remove(self.by_id@, uid);
                                }
                                if props <= usize::MAX - (self.pending_spawns - 1) {
                                    let ghost mb = self.by_id@;
                                    self.landed(uid, entities, props);
                                    proof {
                                        assert(self.by_id@.dom() =~= mb.dom());
                                        self.lemma_landing_keeps(mb, m0, landed@, uid, None);
                                    }
                                    let ghost lb = landed@;
                                    landed.push((uid, None));
                                    let late = host.out_of_time();
                                    self.last_pass.push(
                                        SpawnAsk { uid, prop: None, loaded: true, landed: true, resolved: props, pending, out_of_time: late },
                                    );
                                    proof {
                                        assert(self.last_pass@.drop_last() =~= a0);
                                        assert(landed@ =~= lb.push((uid, None)));
                                        lemma_ask_pushed(a0, self.last_pass@, order@, uid, lb);
                                    }
                                    go = true;
                                    if late || landed.len() >= cap {
                                        stop = true;
                                        go = false;
                                    }
                                } else {
                                    self.last_pass.push(
                                        SpawnAsk { uid, prop: None, loaded: true, landed: false, resolved: props, pending, out_of_time: false },
                                    );
                                    proof {
                                        lemma_ask_pushed(a0, self.last_pass@, order@, uid, landed@);
                                    }
                                }
                            },
                        }
                        proof {
                            assert(self.last_pass@[a0.len() as int].uid == uid && self.last_pass@[a0.len() as int].prop is None);
                            assert(asked_model(self.last_pass@, uid));
                        }
                    }
                },
            }
            proof {
                assert forall|j: int|
                    0 <= j < k + 1 && awaits_model(m0, #[trigger] order@[j]) implies asked_model(self.last_pass@, order@[j]) by {
                    if j < k {
                        assert(asked_model(a0, order@[j]));
                        let i = choose|i: int| 0 <= i < a0.len() && (#[trigger] a0[i]).uid == order@[j] && a0[i].prop is None;
                        assert(self.last_pass@[i] == a0[i]);
                    } else if !awaits_model(self.by_id@, uid) {
                    }
                }
            }
            if go {
                let n = self.by_id.get(&uid).unwrap().props_spawned.len();
                let mut i: usize = 0;
                while i < n && !stop
                    invariant
                        0 <= i <= n,
                        self.wf(),
                        cap == spawn_cap(paced),
                        landed@.len() <= cap,
                        !stop ==> landed@.len() < cap,
                        order@.contains(uid),
                        self.by_id@.contains_key(uid),
                        self.by_id@[uid].spawned,
                        self.by_id@[uid].props_spawned@.len() == n,
                        pass_step(m0, self.by_id@),
                        forall|j: int|
                            0 <= j < landed@.len() ==> order@.contains((#[trigger] landed@[j]).0)
                                && landing_took(self.by_id@, landed@[j]),
                        landed@ == landings_of(self.last_pass@),
                        forall|q: int| 0 <= q < self.last_pass@.len() ==> ask_kept(#[trigger] self.last_pass@[q]),
                        forall|q: int| 0 <= q < self.last_pass@.len() ==> order@.contains((#[trigger] self.last_pass@[q]).uid),
                        !stop ==> forall|q: int| 0 <= q < self.last_pass@.len() ==> !(#[trigger] self.last_pass@[q]).out_of_time,
                        stop ==> self.last_pass@.len() > 0 && (self.last_pass@.last().out_of_time || landed@.len() >= cap),
                        forall|j: int|
                            0 <= j < k + 1 && awaits_model(m0, #[trigger] order@[j]) ==> asked_model(self.last_pass@, order@[j]),
                        forall|u: u32|
                            awaits_model(m0, u) && !awaits_model(self.by_id@, u) ==> #[trigger] asked_model(self.last_pass@, u),
                    decreases n - i, if stop { 0int } else { 1int },
                {
                    let p = self.by_id.get(&uid).unwrap();
                    if !p.props_spawned[i] {
                        let answer = host.spawn_prop(uid, &p.payload, i);
                        let pending = self.pending_spawns;
                        let ghost a1 = self.last_pass@;
                        match answer {
                            None => {
                                self.last_pass.push(
                                    SpawnAsk { uid, prop: Some(i), loaded: false, landed: false, resolved: 0, pending, out_of_time: false },
                                );
                                proof {
                                    lemma_ask_pushed(a1, self.last_pass@, order@, uid, landed@);
                                }
                            },
                            Some(entities) => {
                                proof {
                                    lemma_pending_total_remove(self.by_id@, uid);
                                    lemma_count_false_prefix(self.by_id@[uid].props_spawned@, i + 1);
                                }
                                let ghost mb = self.by_id@;
                                self.prop_landed(uid, i, entities);
                                proof {
                                    assert(self.by_id@.dom() =~= mb.dom());
                                    self.lemma_landing_keeps(mb, m0, landed@, uid, Some(i));
                                }
                                let ghost lb = landed@;
                                landed.push((uid, Some(i)));
                                let late = host.out_of_time();
                                self.last_pass.push(
                                    SpawnAsk { uid, prop: Some(i), loaded: true, landed: true, resolved: 0, pending, out_of_time: late },
                                );
                                proof {
                                    assert(landed@ =~= lb.push((uid, Some(i))));
                                    lemma_ask_pushed(a1, self.last_pass@, order@, uid, lb);
                                }
                                if late || landed.len() >= cap {
                                    stop = true;
                                }
                            },
                        }
                    }
                    i = i + 1;
                }
            }
            k = k + 1;
        }
        landed
    }

    /// A landing keeps the pass's account: the registry takes one pass step from where the pass
    /// began, and every earlier landing still took.
    proof fn lemma_landing_keeps(
        &self,
        mb: Map<u32, Placement<P, E>>,
        m0: Map<u32, Placement<P, E>>,
        earlier: Seq<Landing>,
        uid: u32,
        what: Option<usize>,
    )
        requires
            pass_step(m0, mb),
            mb.contains_key(uid),
            forall|j: int| 0 <= j < earlier.len() ==> landing_took(mb, #[trigger] earlier[j]),
            self.by_id@.dom() == mb.dom(),
            forall|u: u32| #[trigger] mb.contains_key(u) && u != uid ==> self.by_id@[u] == mb[u],
            same_identity(mb[uid], self.by_id@[uid]),
            self.by_id@[uid].spawned,
            what is None ==> !mb[uid].spawned,
            what matches Some(i) ==> mb[uid].spawned && i < mb[uid].props_spawned@.len()
                && self.by_id@[uid].props_spawned@ == mb[uid].props_spawned@.update(i as int, true),
        ensures
            pass_step(m0, self.by_id@),
            forall|j: int| 0 <= j < earlier.len() ==> landing_took(self.by_id@, #[trigger] earlier[j]),
            landing_took(self.by_id@, (uid, what)),
    {
        let m = self.by_id@;
        assert forall|u: u32| #[trigger] m0.contains_key(u) implies same_identity(m0[u], m[u]) && (m0[u].spawned
            ==> m[u].spawned && m[u].props_spawned@.len() == m0[u].props_spawned@.len() && forall|i: int|
            0 <= i < m0[u].props_spawned@.len() && m0[u].props_spawned@[i] ==> m[u].props_spawned@[i]) by {
            assert(mb.contains_key(u));
            if u == uid && m0[u].spawned {
                assert(mb[u].spawned);
            }
        }
        assert forall|j: int| 0 <= j < earlier.len() implies landing_took(m, #[trigger] earlier[j]) by {
            assert(landing_took(mb, earlier[j]));
            let u = earlier[j].0;
            if u == uid {
                assert(mb[u].spawned);
            }
        }
    }
}

impl<P, E> Placements<P, E> {
    /// A spawned entity joins a registered placement's, to despawn with it; an unknown
    /// placement takes nothing.
    pub fn adopt(&mut self, uid: u32, entity: E)
        ensures
            old(self).by_id@.contains_key(uid) ==> final(self).by_id@ == old(self).by_id@.insert(
                uid,
                Placement {
                    entities: final(self).by_id@[uid].entities,
                    ..old(self).by_id@[uid]
                },
            ) && final(self).by_id@[uid].entities@ == old(self).by_id@[uid].entities@.push(entity),
            !old(self).by_id@.contains_key(uid) ==> final(self).by_id@ == old(self).by_id@,
            final(self).pending_spawns == old(self).pending_spawns,
            old(self).wf() ==> final(self).wf(),
    {
        let ghost m0 = self.by_id@;
        match self.by_id.remove(&uid) {
            None => {},
            Some(p) => {
                let mut p = p;
                p.entities.push(entity);
                proof {
                    lemma_pending_total_insert(m0, uid, p);
                    lemma_pending_total_remove(m0, uid);
                }
                self.by_id.insert(uid, p);
                proof {
                    assert(self.by_id@ == m0.insert(uid, p));
                }
            },
        }
    }
}

/// `slot` after a listing at index `li` with references `refs` fills it, unless already filled.
pub open spec fn filled_slot(old_slot: Option<usize>, refs: Seq<u32>, uid: u32, li: usize) -> Option<
    usize,
> {
    if old_slot is Some {
        old_slot
    } else if refs.contains(uid) {
        Some(li)
    } else {
        None
    }
}

/// Fills every empty slot whose straddler the listing `li` references.
fn fill_slots(strad: &Vec<u32>, slots: &mut Vec<Option<usize>>, refs: &Vec<u32>, li: usize)
    requires
        old(slots)@.len() == strad@.len(),
    ensures
        final(slots)@.len() == strad@.len(),
        forall|q: int|
            0 <= q < strad@.len() ==> #[trigger] final(slots)@[q] == filled_slot(
                old(slots)@[q],
                refs@,
                strad@[q],
                li,
            ),
{
    let ghost start = slots@;
    let mut p: usize = 0;
    while p < refs.len()
        invariant
            0 <= p <= refs@.len(),
            slots@.len() == strad@.len(),
            start.len() == strad@.len(),
            forall|q: int|
                0 <= q < strad@.len() ==> #[trigger] slots@[q] == filled_slot(
                    start[q],
                    refs@.take(p as int),
                    strad@[q],
                    li,
                ),
        decreases refs@.len() - p,
    {
        let u = refs[p];
        proof {
            assert forall|x: u32| refs@.take(p + 1).contains(x) <==> (refs@.take(p as int).contains(x)
                || x == u) by {
                let t1 = refs@.take(p + 1);
                let t0 = refs@.take(p as int);
                if t1.contains(x) {
                    let k = choose|k: int| 0 <= k < t1.len() && t1[k] == x;
                    if k < p {
                        assert(t0[k] == x);
                    }
                }
                if t0.contains(x) {
                    let k = choose|k: int| 0 <= k < t0.len() && t0[k] == x;
                    assert(t1[k] == x);
                }
                if x == u {
                    assert(refs@.take(p + 1)[p as int] == x);
                }
            }
        }
        let mut j: usize = 0;
        while j < strad.len()
            invariant
                0 <= j <= strad@.len(),
                p < refs@.len(),
                u == refs@[p as int],
                slots@.len() == strad@.len(),
                start.len() == strad@.len(),
                forall|x: u32| refs@.take(p + 1).contains(x) <==> (refs@.take(p as int).contains(x)
                    || x == u),
                forall|q: int|
                    0 <= q < strad@.len() ==> #[trigger] slots@[q] == if q < j {
                        filled_slot(start[q], refs@.take(p + 1), strad@[q], li)
                    } else {
                        filled_slot(start[q], refs@.take(p as int), strad@[q], li)
                    },
            decreases strad@.len() - j,
        {
            if strad[j] == u && slots[j].is_none() {
                slots.set(j, Some(li));
            }
            j = j + 1;
        }
        p = p + 1;
    }
    proof {
        assert(refs@.take(p as int) =~= refs@);
    }
}

/// Prefix stability: once a prefix holds a listing for `t`, the whole list's first one is it.
proof fn lemma_listing_at_prefix(tiles: Seq<TileListing>, t: (int, int), k: int)
    requires
        0 <= k <= tiles.len(),
        listing_at(tiles.take(k), t) is Some,
    ensures
        listing_at(tiles, t) == listing_at(tiles.take(k), t),
    decreases tiles.len() - k,
{
    if k < tiles.len() {
        assert(tiles.take(k + 1).drop_last() =~= tiles.take(k));
        lemma_listing_at_prefix(tiles, t, k + 1);
    } else {
        assert(tiles.take(k) =~= tiles);
    }
}

/// A listing index found in a prefix is an index into that prefix.
proof fn lemma_listing_at_bounds(tiles: Seq<TileListing>, t: (int, int))
    ensures
        listing_at(tiles, t) matches Some(i) ==> 0 <= i < tiles.len() && tiles[i].tile.0 == t.0
            && tiles[i].tile.1 == t.1,
    decreases tiles.len(),
{
    if tiles.len() > 0 {
        lemma_listing_at_bounds(tiles.drop_last(), t);
    }
}

/// The first listing for tile `t`, if loaded.
fn find_listing(tiles: &Vec<TileListing>, t: (i64, i64)) -> (r: Option<usize>)
    ensures
        r is None <==> listing_at(tiles@, (t.0 as int, t.1 as int)) is None,
        r matches Some(i) ==> listing_at(tiles@, (t.0 as int, t.1 as int)) == Some(i as int),
        r matches Some(i) ==> i < tiles@.len(),
{
    let ghost tt = (t.0 as int, t.1 as int);
    let mut i: usize = 0;
    while i < tiles.len()
        invariant
            0 <= i <= tiles@.len(),
            tt == (t.0 as int, t.1 as int),
            listing_at(tiles@.take(i as int), tt) is None,
        decreases tiles@.len() - i,
    {
        proof {
            assert(tiles@.take(i + 1).drop_last() =~= tiles@.take(i as int));
        }
        if tiles[i].tile.0 as i64 == t.0 && tiles[i].tile.1 as i64 == t.1 {
            proof {
                assert(tiles@.take(i + 1).last() == tiles@[i as int]);
                lemma_listing_at_prefix(tiles@, tt, i + 1);
            }
            return Some(i);
        }
        i = i + 1;
    }
    proof {
        assert(tiles@.take(i as int) =~= tiles@);
    }
    None
}

/// A slot holds exactly the listing index `o` names.
pub open spec fn slot_is(slot: Option<usize>, o: Option<int>) -> bool {
    match slot {
        Some(i) => o == Some(i as int),
        None => o is None,
    }
}

/// After the handoff: a straddler with a new owner tile moved there and, if it was spawned,
/// dropped its entities and went back to unspawned for a respawn; every other placement is as
/// it was.
pub open spec fn after_handoff<P, E>(
    old_p: Placement<P, E>,
    new_p: Placement<P, E>,
    moved_to: Option<(i32, i32)>,
) -> bool {
    &&& new_p.payload == old_p.payload
    &&& new_p.is_m2 == old_p.is_m2
    &&& new_p.props_spawned@ == old_p.props_spawned@
    &&& new_p.refs == old_p.refs
    &&& match moved_to {
        Some(t) => {
            &&& new_p.owner == t
            &&& new_p.spawned == false
            &&& new_p.entities@ == if old_p.spawned {
                Seq::<E>::empty()
            } else {
                old_p.entities@
            }
        },
        None => {
            &&& new_p.owner == old_p.owner
            &&& new_p.spawned == old_p.spawned
            &&& new_p.entities@ == old_p.entities@
        },
    }
}

/// Whether `s` holds `u`.
fn contains_u32(s: &Vec<u32>, u: u32) -> (r: bool)
    ensures
        r == s@.contains(u),
{
    let mut i: usize = 0;
    while i < s.len()
        invariant
            0 <= i <= s@.len(),
            forall|j: int| 0 <= j < i ==> s@[j] != u,
        decreases s@.len() - i,
    {
        if s[i] == u {
            assert(s@[i as int] == u);
            return true;
        }
        i = i + 1;
    }
    false
}

impl<P, E> Placements<P, E> {
    /// The dead tile's still-referenced M2 placements: in `uids` order, each once.
    fn straddlers(&self, dead: (i32, i32), uids: &Vec<u32>) -> (strad: Vec<u32>)
        ensures
            strad@.no_duplicates(),
            strad@.len() <= uids@.len(),
            forall|u: u32| strad@.contains(u) <==> is_straddler(self.by_id@, uids@, dead, u),
            strad@ == straddler_order(self.by_id@, uids@, dead),
    {
        let mut strad: Vec<u32> = Vec::new();
        let mut i: usize = 0;
        while i < uids.len()
            invariant
                0 <= i <= uids@.len(),
                strad@.no_duplicates(),
                strad@.len() <= i,
                strad@ == straddler_order(self.by_id@, uids@.take(i as int), dead),
                forall|u: u32|
                    strad@.contains(u) <==> (uids@.take(i as int).contains(u) && is_straddler(
                        self.by_id@,
                        uids@,
                        dead,
                        u,
                    )),
            decreases uids@.len() - i,
        {
            let u = uids[i];
            let hit = match self.by_id.get(&u) {
                Some(p) => p.owner.0 == dead.0 && p.owner.1 == dead.1 && p.is_m2,
                None => false,
            };
            proof {
                assert(uids@.contains(u)) by {
                    assert(uids@[i as int] == u);
                }
                assert(hit == is_straddler(self.by_id@, uids@, dead, u));
                assert(uids@.take(i + 1).drop_last() =~= uids@.take(i as int));
                assert(uids@.take(i + 1).last() == u);
                let t1 = uids@.take(i + 1);
                let t0 = uids@.take(i as int);
                assert forall|x: u32| t1.contains(x) <==> (t0.contains(x) || x == u) by {
                    if t1.contains(x) {
                        let k = choose|k: int| 0 <= k < t1.len() && t1[k] == x;
                        if k < i {
                            assert(t0[k] == x);
                        }
                    }
                    if t0.contains(x) {
                        let k = choose|k: int| 0 <= k < t0.len() && t0[k] == x;
                        assert(t1[k] == x);
                    }
                    if x == u {
                        assert(t1[i as int] == x);
                    }
                }
            }
            let ghost before0 = strad@;
            if hit && !contains_u32(&strad, u) {
                let ghost before = strad@;
                strad.push(u);
                proof {
                    assert forall|a: int, b: int|
                        0 <= a < strad@.len() && 0 <= b < strad@.len() && a != b implies strad@[a]
                        != strad@[b] by {
                        if a < before.len() && b < before.len() {
                        } else if a < before.len() {
                            assert(before.contains(strad@[a]));
                        } else {
                            assert(before.contains(strad@[b]));
                        }
                    }
                    assert forall|x: u32| strad@.contains(x) <==> (before.contains(x) || x == u) by {
                        if strad@.contains(x) {
                            let k = choose|k: int| 0 <= k < strad@.len() && strad@[k] == x;
                            if k < before.len() {
                                assert(before[k] == x);
                            }
                        }
                        if before.contains(x) {
                            let k = choose|k: int| 0 <= k < before.len() && before[k] == x;
                            assert(strad@[k] == x);
                        }
                        if x == u {
                            assert(strad@[before.len() as int] == x);
                        }
                    }
                }
            }
            proof {
                let t1 = uids@.take(i + 1);
                let t0 = uids@.take(i as int);
                assert forall|x: u32|
                    strad@.contains(x) <==> (t1.contains(x) && is_straddler(
                        self.by_id@,
                        uids@,
                        dead,
                        x,
                    )) by {
                    assert(before0.contains(x) <==> (t0.contains(x) && is_straddler(
                        self.by_id@,
                        uids@,
                        dead,
                        x,
                    )));
                }
            }
            i = i + 1;
        }
        proof {
            assert(uids@.take(i as int) =~= uids@);
        }
        strad
    }

    /// Hands the dead tile's surviving M2 placements to a still-loaded referrer, since their
    /// merged batches and welded hulls lived with the owner tile and died with it. A neighbour of
    /// the dead tile is searched first, in x-then-y order, then every other loaded tile; a
    /// straddler no loaded tile references keeps its owner. A handed-over placement that was
    /// spawned drops its entities (returned for despawn) and queues for a respawn. Only with the
    /// merge on; the second result is the number of respawns queued.
    pub fn handoff_straddlers(
        &mut self,
        tiles: &Vec<TileListing>,
        dead: (i32, i32),
        uids: &Vec<u32>,
        merge_on: bool,
    ) -> (out: (Vec<E>, usize))
        requires
            old(self).pending_spawns + uids@.len() <= usize::MAX,
        ensures
            !merge_on ==> final(self).by_id@ == old(self).by_id@ && final(self).pending_spawns
                == old(self).pending_spawns && out.0@.len() == 0 && out.1 == 0,
            old(self).wf() ==> final(self).wf(),
            merge_on ==> {
                &&& final(self).by_id@.dom() == old(self).by_id@.dom()
                &&& forall|u: u32|
                    #[trigger] old(self).by_id@.contains_key(u) ==> after_handoff(
                        old(self).by_id@[u],
                        final(self).by_id@[u],
                        if is_straddler(old(self).by_id@, uids@, dead, u) && new_owner(
                            tiles@,
                            dead,
                            u,
                        ) is Some {
                            Some(tiles@[new_owner(tiles@, dead, u)->0].tile)
                        } else {
                            None
                        },
                    )
                &&& final(self).pending_spawns == old(self).pending_spawns + out.1
                &&& out.1 <= uids@.len()
                &&& out.0@ == handed_entities(
                    old(self).by_id@,
                    straddler_order(old(self).by_id@, uids@, dead),
                    tiles@,
                    dead,
                )
                &&& out.1 == handed_respawns(
                    old(self).by_id@,
                    straddler_order(old(self).by_id@, uids@, dead),
                    tiles@,
                    dead,
                )
            },
    {
        let mut despawn: Vec<E> = Vec::new();
        if !merge_on {
            return (despawn, 0);
        }
        let strad = self.straddlers(dead, uids);
        let ns = strad.len();
        let mut slots: Vec<Option<usize>> = Vec::new();
        let mut q: usize = 0;
        while q < ns
            invariant
                0 <= q <= ns,
                ns == strad@.len(),
                slots@.len() == q,
                forall|r: int| 0 <= r < q ==> #[trigger] slots@[r] == None::<usize>,
            decreases ns - q,
        {
            slots.push(None);
            q = q + 1;
        }
        // The 8 neighbours first: another referrer shares the row across a tile seam.
        let mut k: usize = 0;
        while k < 8
            invariant
                0 <= k <= 8,
                slots@.len() == strad@.len(),
                forall|r: int|
                    0 <= r < strad@.len() ==> slot_is(#[trigger] slots@[r], 
                        neighbour_owner(tiles@, dead, strad@[r], k as int),
                    ),
            decreases 8 - k,
        {
            let k2: i64 = if k < 4 {
                k as i64
            } else {
                k as i64 + 1
            };
            let c: (i64, i64) = (dead.0 as i64 + (k2 / 3 - 1), dead.1 as i64 + (k2 % 3 - 1));
            proof {
                assert(c.0 as int == neighbour(dead, k as int).0);
                assert(c.1 as int == neighbour(dead, k as int).1);
                assert((c.0 as int, c.1 as int) == neighbour(dead, k as int));
            }
            let ghost before = slots@;
            match find_listing(tiles, c) {
                Some(li) => {
                    fill_slots(&strad, &mut slots, &tiles[li].placements, li);
                    proof {
                        assert(listing_at(tiles@, neighbour(dead, k as int)) == Some(li as int));
                        assert forall|x: u32| #[trigger] neighbour_owner(tiles@, dead, x, k + 1)
                            == if neighbour_owner(tiles@, dead, x, k as int) is Some {
                            neighbour_owner(tiles@, dead, x, k as int)
                        } else if tiles@[li as int].placements@.contains(x) {
                            Some(li as int)
                        } else {
                            None
                        } by {
                            assert(references(tiles@, neighbour(dead, k as int), x)
                                == tiles@[li as int].placements@.contains(x));
                        }
                        assert forall|r: int| 0 <= r < strad@.len() implies slot_is(#[trigger] slots@[r], neighbour_owner(tiles@, dead, strad@[r], k + 1)) by {
                            assert(slots@[r] == filled_slot(
                                before[r],
                                tiles@[li as int].placements@,
                                strad@[r],
                                li,
                            ));
                        }
                    }
                },
                None => {
                    proof {
                        assert(listing_at(tiles@, neighbour(dead, k as int)) is None);
                        assert forall|r: int| 0 <= r < strad@.len() implies slot_is(#[trigger] slots@[r], neighbour_owner(tiles@, dead, strad@[r], k + 1)) by {
                            assert(!references(tiles@, neighbour(dead, k as int), strad@[r]));
                            assert(before[r] == slots@[r]);
                        }
                    }
                },
            }
            k = k + 1;
        }
        // The full scan, only when a neighbour left a straddler unclaimed.
        let mut any_empty = false;
        let mut r0: usize = 0;
        while r0 < ns
            invariant
                0 <= r0 <= ns,
                ns == strad@.len(),
                slots@.len() == ns,
                any_empty == exists|r: int| 0 <= r < r0 && slots@[r] is None,
            decreases ns - r0,
        {
            if slots[r0].is_none() {
                any_empty = true;
            }
            r0 = r0 + 1;
        }
        if any_empty {
            let mut i: usize = 0;
            while i < tiles.len()
                invariant
                    0 <= i <= tiles@.len(),
                    slots@.len() == strad@.len(),
                    forall|r: int|
                        0 <= r < strad@.len() ==> slot_is(#[trigger] slots@[r], 
                            if neighbour_owner(tiles@, dead, strad@[r], 8) is Some {
                                neighbour_owner(tiles@, dead, strad@[r], 8)
                            } else {
                                fallback_owner(tiles@, dead, strad@[r], i as int)
                            },
                        ),
                decreases tiles@.len() - i,
            {
                let ghost before = slots@;
                let t = tiles[i].tile;
                if !(t.0 == dead.0 && t.1 == dead.1) {
                    fill_slots(&strad, &mut slots, &tiles[i].placements, i);
                    proof {
                        assert forall|r: int| 0 <= r < strad@.len() implies slot_is(#[trigger] slots@[r], 
                            if neighbour_owner(tiles@, dead, strad@[r], 8) is Some {
                                neighbour_owner(tiles@, dead, strad@[r], 8)
                            } else {
                                fallback_owner(tiles@, dead, strad@[r], i + 1)
                            },
                        ) by {
                            assert(slots@[r] == filled_slot(
                                before[r],
                                tiles@[i as int].placements@,
                                strad@[r],
                                i,
                            ));
                        }
                    }
                } else {
                    proof {
                        assert(tiles@[i as int].tile == dead);
                        assert forall|r: int| 0 <= r < strad@.len() implies slot_is(#[trigger] slots@[r], 
                            if neighbour_owner(tiles@, dead, strad@[r], 8) is Some {
                                neighbour_owner(tiles@, dead, strad@[r], 8)
                            } else {
                                fallback_owner(tiles@, dead, strad@[r], i + 1)
                            },
                        ) by {
                            assert(before[r] == slots@[r]);
                        }
                    }
                }
                i = i + 1;
            }
        } else {
            proof {
                assert forall|r: int| 0 <= r < strad@.len() implies slot_is(#[trigger] slots@[r], 
                    new_owner(tiles@, dead, strad@[r]),
                ) by {
                    assert(slots@[r] is Some);
                }
            }
        }
        proof {
            assert forall|r: int| 0 <= r < strad@.len() implies slot_is(#[trigger] slots@[r], 
                new_owner(tiles@, dead, strad@[r]),
            ) by {}
            assert forall|r: int| 0 <= r < ns implies (#[trigger] slots@[r] matches Some(li) ==> li
                < tiles@.len()) by {
                lemma_owner_bounds(tiles@, dead, strad@[r]);
            }
        }
        // Move each claimed straddler to its new owner.
        let ghost old_map = self.by_id@;
        let mut respawns: usize = 0;
        let mut q2: usize = 0;
        while q2 < ns
            invariant
                0 <= q2 <= ns,
                ns == strad@.len(),
                slots@.len() == ns,
                strad@.no_duplicates(),
                respawns <= q2,
                strad@ == straddler_order(old_map, uids@, dead),
                despawn@ == handed_entities(old_map, strad@.take(q2 as int), tiles@, dead),
                respawns == handed_respawns(old_map, strad@.take(q2 as int), tiles@, dead),
                self.pending_spawns == old(self).pending_spawns + respawns,
                old(self).pending_spawns + uids@.len() <= usize::MAX,
                ns <= uids@.len(),
                old_map == old(self).by_id@,
                self.by_id@.dom() == old_map.dom(),
                old(self).wf() ==> self.wf(),
                forall|r: int| 0 <= r < ns ==> slot_is(#[trigger] slots@[r], 
                    new_owner(tiles@, dead, strad@[r]),
                ),
                forall|r: int| 0 <= r < ns ==> (#[trigger] slots@[r] matches Some(li) ==> li
                    < tiles@.len()),
                forall|u: u32| strad@.contains(u) <==> is_straddler(old_map, uids@, dead, u),
                forall|u: u32|
                    #[trigger] old_map.contains_key(u) ==> after_handoff(
                        old_map[u],
                        self.by_id@[u],
                        if strad@.take(q2 as int).contains(u) && new_owner(tiles@, dead, u) is Some {
                            Some(tiles@[new_owner(tiles@, dead, u)->0].tile)
                        } else {
                            None
                        },
                    ),
            decreases ns - q2,
        {
            let u = strad[q2];
            let ghost cur = self.by_id@;
            proof {
                assert(strad@.take(q2 + 1).drop_last() =~= strad@.take(q2 as int));
                assert(strad@.take(q2 + 1).last() == u);
                assert(strad@.contains(u)) by {
                    assert(strad@[q2 as int] == u);
                }
                let t1 = strad@.take(q2 + 1);
                let t0 = strad@.take(q2 as int);
                assert forall|x: u32| t1.contains(x) <==> (t0.contains(x) || x == u) by {
                    if t1.contains(x) {
                        let k = choose|k: int| 0 <= k < t1.len() && t1[k] == x;
                        if k < q2 {
                            assert(t0[k] == x);
                        }
                    }
                    if t0.contains(x) {
                        let k = choose|k: int| 0 <= k < t0.len() && t0[k] == x;
                        assert(t1[k] == x);
                    }
                    if x == u {
                        assert(t1[q2 as int] == x);
                    }
                }
                assert(!t0.contains(u)) by {
                    if t0.contains(u) {
                        let k = choose|k: int| 0 <= k < t0.len() && t0[k] == u;
                        assert(strad@[k] == strad@[q2 as int]);
                    }
                }
            }
            match slots[q2] {
                Some(li) => {
                    match self.by_id.remove(&u) {
                        Some(p) => {
                            let mut p = p;
                            let ghost old_p = p;
                            proof {
                                assert(old_p == cur[u]);
                                assert(!strad@.take(q2 as int).contains(u));
                                assert(after_handoff(old_map[u], cur[u], None));
                                lemma_owner_bounds(tiles@, dead, u);
                                assert(new_owner(tiles@, dead, u) is Some);
                            }
                            proof {
                                lemma_pending_total_remove(cur, u);
                            }
                            p.owner = tiles[li].tile;
                            if p.spawned {
                                despawn.append(&mut p.entities);
                                p.spawned = false;
                                self.pending_spawns = self.pending_spawns + 1;
                                respawns = respawns + 1;
                            }
                            proof {
                                lemma_pending_total_insert(cur, u, p);
                            }
                            self.by_id.insert(u, p);
                            proof {
                                assert(self.by_id@ == cur.insert(u, p));
                                assert(old_p == cur[u]);
                                assert forall|x: u32| #[trigger] old_map.contains_key(x) implies after_handoff(
                                    old_map[x],
                                    self.by_id@[x],
                                    if strad@.take(q2 + 1).contains(x) && new_owner(tiles@, dead, x) is Some {
                                        Some(tiles@[new_owner(tiles@, dead, x)->0].tile)
                                    } else {
                                        None
                                    },
                                ) by {
                                    if x != u {
                                        assert(self.by_id@[x] == cur[x]);
                                    } else {
                                        assert(is_straddler(old_map, uids@, dead, u));
                                        lemma_owner_bounds(tiles@, dead, u);
                                        assert(slots@[q2 as int] == Some(li));
                                        assert(new_owner(tiles@, dead, u) is Some);
                                        assert(new_owner(tiles@, dead, u)->0 == li as int);
                                        assert(self.by_id@[u] == p);
                                        assert(after_handoff(old_map[u], cur[u], None));
                                        assert(p.owner == tiles@[li as int].tile);
                                    }
                                }
                            }
                        },
                        None => {
                            proof {
                                assert(false);
                            }
                        },
                    }
                },
                None => {
                    proof {
                        assert(new_owner(tiles@, dead, u) is None);
                        assert forall|x: u32| #[trigger] old_map.contains_key(x) implies after_handoff(
                            old_map[x],
                            self.by_id@[x],
                            if strad@.take(q2 + 1).contains(x) && new_owner(tiles@, dead, x) is Some {
                                Some(tiles@[new_owner(tiles@, dead, x)->0].tile)
                            } else {
                                None
                            },
                        ) by {
                        }
                    }
                },
            }
            q2 = q2 + 1;
        }
        proof {
            assert(strad@.take(ns as int) =~= strad@);
        }
        (despawn, respawns)
    }
}

/// An owner listing is an index into the listings.
proof fn lemma_owner_bounds(tiles: Seq<TileListing>, dead: (i32, i32), uid: u32)
    ensures
        new_owner(tiles, dead, uid) matches Some(i) ==> 0 <= i < tiles.len(),
{
    lemma_neighbour_owner_bounds(tiles, dead, uid, 8);
    lemma_fallback_owner_bounds(tiles, dead, uid, tiles.len() as int);
}

proof fn lemma_neighbour_owner_bounds(tiles: Seq<TileListing>, dead: (i32, i32), uid: u32, k: int)
    ensures
        neighbour_owner(tiles, dead, uid, k) matches Some(i) ==> 0 <= i < tiles.len(),
    decreases k,
{
    if k > 0 {
        lemma_neighbour_owner_bounds(tiles, dead, uid, k - 1);
        lemma_listing_at_bounds(tiles, neighbour(dead, k - 1));
    }
}

proof fn lemma_fallback_owner_bounds(tiles: Seq<TileListing>, dead: (i32, i32), uid: u32, n: int)
    requires
        n <= tiles.len(),
    ensures
        fallback_owner(tiles, dead, uid, n) matches Some(i) ==> 0 <= i < n,
    decreases n,
{
    if n > 0 {
        lemma_fallback_owner_bounds(tiles, dead, uid, n - 1);
    }
}

/// The doodads of `named` (whether each one's model name resolved) in `lo..hi`, in order, that
/// have a model.
pub open spec fn named_in_range(named: Seq<bool>, lo: int, hi: int) -> Seq<usize>
    decreases hi - lo,
{
    if hi <= lo {
        Seq::empty()
    } else {
        let rest = named_in_range(named, lo, hi - 1);
        if named[hi - 1] {
            rest.push((hi - 1) as usize)
        } else {
            rest
        }
    }
}

/// The doodads one set `(start, count)` of a model with `named.len()` doodads shows.
pub open spec fn set_doodads(named: Seq<bool>, set: (u32, u32)) -> Seq<usize> {
    let hi = if set.0 + set.1 <= named.len() {
        set.0 + set.1
    } else {
        named.len() as int
    };
    named_in_range(named, set.0 as int, hi)
}

/// A WMO placement's doodad props: set 0, always shown, then the placement's own set when it
/// names another one that exists; a doodad whose model name did not resolve is skipped.
pub open spec fn shown_doodads_spec(sets: Seq<(u32, u32)>, doodad_set: u16, named: Seq<bool>) -> Seq<
    usize,
> {
    let first = if sets.len() > 0 {
        set_doodads(named, sets[0])
    } else {
        Seq::empty()
    };
    let chosen = if doodad_set != 0 && (doodad_set as int) < sets.len() {
        set_doodads(named, sets[doodad_set as int])
    } else {
        Seq::empty()
    };
    first + chosen
}

/// The doodads of one set, in order.
fn set_range(named: &[bool], set: (u32, u32)) -> (out: Vec<usize>)
    ensures
        out@ == set_doodads(named@, set),
{
    let start = set.0 as u64;
    let end_req = set.0 as u64 + set.1 as u64;
    let len = named.len() as u64;
    let hi: u64 = if end_req <= len {
        end_req
    } else {
        len
    };
    let mut out: Vec<usize> = Vec::new();
    if start >= hi {
        proof {
            assert(named_in_range(named@, set.0 as int, hi as int) =~= Seq::<usize>::empty());
        }
        return out;
    }
    let mut i: u64 = start;
    proof {
        assert(named_in_range(named@, start as int, start as int) =~= Seq::<usize>::empty());
    }
    while i < hi
        invariant
            start <= i <= hi,
            hi <= len,
            len == named@.len(),
            start == set.0,
            out@ == named_in_range(named@, start as int, i as int),
        decreases hi - i,
    {
        if named[i as usize] {
            out.push(i as usize);
        }
        i = i + 1;
    }
    out
}

/// The doodad props a WMO placement shows, by index into the model's doodad list.
pub fn shown_doodads(sets: &[(u32, u32)], doodad_set: u16, named: &[bool]) -> (out: Vec<usize>)
    ensures
        out@ == shown_doodads_spec(sets@, doodad_set, named@),
{
    let mut out: Vec<usize> = if sets.len() > 0 {
        set_range(named, sets[0])
    } else {
        Vec::new()
    };
    let ghost first = out@;
    if doodad_set != 0 && (doodad_set as usize) < sets.len() {
        let mut more = set_range(named, sets[doodad_set as usize]);
        out.append(&mut more);
    }
    proof {
        assert(out@ =~= shown_doodads_spec(sets@, doodad_set, named@));
    }
    out
}

/// A reference taken and given back leaves the registry as it was: on a registered placement
/// (at least one reference), a bump followed by a release takes the release's keep branch
/// (more than one reference) and restores the entry, refcount included.
pub proof fn lemma_bump_then_release_restores<P, E>(m: Map<u32, Placement<P, E>>, uid: u32)
    requires
        m.contains_key(uid),
        1 <= m[uid].refs < u32::MAX,
    ensures
        ({
            let bumped = m.insert(uid, Placement { refs: (m[uid].refs + 1) as u32, ..m[uid] });
            &&& bumped[uid].refs > 1
            &&& bumped.insert(uid, Placement { refs: (bumped[uid].refs - 1) as u32, ..bumped[uid] })
                == m
        }),
{
    let bumped = m.insert(uid, Placement { refs: (m[uid].refs + 1) as u32, ..m[uid] });
    let back = bumped.insert(uid, Placement { refs: (bumped[uid].refs - 1) as u32, ..bumped[uid] });
    assert(back[uid] == m[uid]);
    assert(back =~= m);
}

} // verus!
