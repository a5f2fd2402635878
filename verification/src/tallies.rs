//! The keyed half of the world census: which placed parts outlived their placement (orphans),
//! why each part took the render path it did, which labelled objects draw, which gated parts
//! escaped the cull, and how busy the particle emitters are. Labels and path reasons arrive as
//! the host's interned ids, numbered in name order, so that ordering by id is ordering by name;
//! every tally is a list of distinct keys with their exact counts.
use crate::census::{escaped_spec, PartRecord};
use vstd::prelude::*;

verus! {

/// The label id for a part with no labelled object, after every name.
pub const UNLABELLED: u32 = 0xffff_ffff;

/// A part's placed object: the placement's uniqueId, its label id, and whether it is a map
/// placement (an ADT doodad or a WMO) rather than a creature or game object.
#[derive(Clone, Copy, Debug)]
pub struct ObjectTag {
    pub id: u32,
    pub label: u32,
    pub placed: bool,
}

/// What the census reads of a part beyond its counts: its object, whether its placement lists
/// it among its entities (`None`: no placement registry to ask), whether it is a retained-pass
/// fader exile, its render-path reason id, and whether it is a card.
#[derive(Clone, Copy, Debug)]
pub struct PartOrigin {
    pub object: Option<ObjectTag>,
    pub owned: Option<bool>,
    pub exile: bool,
    pub why: u32,
    pub card: bool,
}

/// The census's keyed tallies: each a list of distinct keys with their counts, in report order.
pub struct CensusTallies {
    /// Per orphaned object (`object_key` of its id and label): its orphaned parts.
    pub orphans: Vec<(u64, usize)>,
    /// Orphaned parts in all.
    pub orphan_parts: usize,
    /// Per render-path reason: its parts.
    pub why: Vec<(u64, usize)>,
    /// Per drawn labelled object (`flag_key` of its label and gated): its drawn parts.
    pub labels: Vec<(u64, usize)>,
    /// Per escaped label (`flag_key` of its label, or `UNLABELLED`, and card): its parts.
    pub escaped: Vec<(u64, usize)>,
}

/// An object's key: its id over its label.
pub open spec fn object_key(id: u32, label: u32) -> u64 {
    (id as int * 0x1_0000_0000 + label as int) as u64
}

/// A label's key with a flag: the label over the flag bit.
pub open spec fn flag_key(label: u32, flag: bool) -> u64 {
    (label as int * 2 + if flag {
        1int
    } else {
        0int
    }) as u64
}

/// How many times `k` occurs in `s`.
pub open spec fn occurrences(s: Seq<u64>, k: u64) -> nat
    decreases s.len(),
{
    if s.len() == 0 {
        0
    } else {
        occurrences(s.drop_last(), k) + if s.last() == k {
            1nat
        } else {
            0nat
        }
    }
}

/// `out` is the tally of `keys`: its keys are distinct, each with its exact count, and every
/// key of `keys` is among them.
pub open spec fn is_tally(out: Seq<(u64, usize)>, keys: Seq<u64>) -> bool {
    &&& forall|i: int, j: int| 0 <= i < j < out.len() ==> out[i].0 != out[j].0
    &&& forall|i: int| 0 <= i < out.len() ==> #[trigger] out[i].1 == occurrences(keys, out[i].0)
        && out[i].1 >= 1
    &&& forall|t: int| 0 <= t < keys.len() ==> has_key(out, #[trigger] keys[t])
}

/// Some entry of `out` is keyed `k`.
pub open spec fn has_key(out: Seq<(u64, usize)>, k: u64) -> bool {
    exists|i: int| 0 <= i < out.len() && out[i].0 == k
}

proof fn lemma_occurrences_step(s: Seq<u64>, i: int, k: u64)
    requires
        0 <= i < s.len(),
    ensures
        occurrences(s.take(i + 1), k) == occurrences(s.take(i), k) + if s[i] == k {
            1nat
        } else {
            0nat
        },
        occurrences(s.take(i), k) <= i,
{
    assert(s.take(i + 1).drop_last() =~= s.take(i));
    lemma_occurrences_bound(s.take(i), k);
}

proof fn lemma_occurrences_bound(s: Seq<u64>, k: u64)
    ensures
        occurrences(s, k) <= s.len(),
    decreases s.len(),
{
    if s.len() > 0 {
        lemma_occurrences_bound(s.drop_last(), k);
    }
}

/// Tallies `keys` by key, in order of first appearance.
pub fn key_tally(keys: &Vec<u64>) -> (out: Vec<(u64, usize)>)
    ensures
        is_tally(out@, keys@),
{
    let mut out: Vec<(u64, usize)> = Vec::new();
    let mut i: usize = 0;
    while i < keys.len()
        invariant
            0 <= i <= keys@.len(),
            is_tally(out@, keys@.take(i as int)),
        decreases keys@.len() - i,
    {
        let k = keys[i];
        let ghost s = keys@;
        let ghost o0 = out@;
        proof {
            assert(s.take(i as int + 1)[i as int] == k);
            assert forall|q: u64| #![auto] occurrences(s.take(i + 1), q) == occurrences(s.take(i as int), q)
                + if k == q {
                1nat
            } else {
                0nat
            } && occurrences(s.take(i as int), q) <= i by {
                lemma_occurrences_step(s, i as int, q);
            }
        }
        let mut j: usize = 0;
        let mut found = false;
        while !found && j < out.len()
            invariant
                0 <= j <= out@.len(),
                out@ == o0,
                found ==> j < out@.len() && out@[j as int].0 == k,
                !found ==> forall|m: int| 0 <= m < j ==> out@[m].0 != k,
            decreases 2 * (out@.len() - j) + if found {
                0int
            } else {
                1int
            },
        {
            if out[j].0 == k {
                found = true;
            } else {
                j = j + 1;
            }
        }
        if found {
            let n = out[j].1;
            proof {
                assert(n == occurrences(s.take(i as int), k));
            }
            out.set(j, (k, n + 1));
            proof {
                assert forall|t: int| 0 <= t < i + 1 implies has_key(out@, #[trigger] s.take(i + 1)[t]) by {
                    if t < i {
                        assert(s.take(i + 1)[t] == s.take(i as int)[t]);
                        let m = choose|m: int| 0 <= m < o0.len() && o0[m].0 == s.take(i as int)[t];
                        assert(out@[m].0 == o0[m].0);
                    } else {
                        assert(out@[j as int].0 == k);
                    }
                }
                assert forall|m: int| 0 <= m < out@.len() implies #[trigger] out@[m].1 == occurrences(
                    s.take(i + 1),
                    out@[m].0,
                ) && out@[m].1 >= 1 by {
                    if m != j {
                        assert(out@[m] == o0[m]);
                    }
                }
            }
        } else {
            proof {
                assert(occurrences(s.take(i as int), k) == 0) by {
                    if occurrences(s.take(i as int), k) > 0 {
                        lemma_occurrence_witness(s.take(i as int), k);
                        let t = choose|t: int| 0 <= t < i && s.take(i as int)[t] == k;
                        let m = choose|m: int| 0 <= m < o0.len() && o0[m].0 == #[trigger] s.take(i as int)[t];
                        assert(o0[m].0 == k);
                    }
                }
            }
            out.push((k, 1));
            proof {
                assert forall|t: int| 0 <= t < i + 1 implies has_key(out@, #[trigger] s.take(i + 1)[t]) by {
                    if t < i {
                        assert(s.take(i + 1)[t] == s.take(i as int)[t]);
                        let m = choose|m: int| 0 <= m < o0.len() && o0[m].0 == s.take(i as int)[t];
                        assert(out@[m].0 == o0[m].0);
                    } else {
                        assert(out@[o0.len() as int].0 == k);
                    }
                }
                assert forall|m: int| 0 <= m < out@.len() implies #[trigger] out@[m].1 == occurrences(
                    s.take(i + 1),
                    out@[m].0,
                ) && out@[m].1 >= 1 by {
                    if m < o0.len() {
                        assert(out@[m] == o0[m]);
                    }
                }
            }
        }
        i = i + 1;
    }
    proof {
        assert(keys@.take(i as int) =~= keys@);
    }
    out
}

/// A key that occurs has an index.
proof fn lemma_occurrence_witness(s: Seq<u64>, k: u64)
    requires
        occurrences(s, k) > 0,
    ensures
        exists|t: int| 0 <= t < s.len() && s[t] == k,
    decreases s.len(),
{
    if s.last() != k {
        lemma_occurrence_witness(s.drop_last(), k);
        let t = choose|t: int| 0 <= t < s.len() - 1 && s.drop_last()[t] == k;
        assert(s[t] == k);
    }
}

/// `a` ranks before `b` in a report: more parts first, then the smaller key; with
/// `flag_first`, entries whose key lacks the flag bit come before all that carry it.
pub open spec fn ranks_before(a: (u64, usize), b: (u64, usize), flag_first: bool) -> bool {
    if flag_first && a.0 % 2 != b.0 % 2 {
        a.0 % 2 < b.0 % 2
    } else {
        a.1 > b.1 || (a.1 == b.1 && a.0 < b.0)
    }
}

/// The keys of `t` are distinct.
pub open spec fn distinct_keys(t: Seq<(u64, usize)>) -> bool {
    forall|i: int, j: int| 0 <= i < j < t.len() ==> t[i].0 != t[j].0
}

/// More parts first, and equal counts by the smaller key.
pub open spec fn by_count_then_key(t: Seq<(u64, usize)>) -> bool {
    forall|i: int, j: int|
        0 <= i < j < t.len() ==> t[i].1 > t[j].1 || (t[i].1 == t[j].1 && t[i].0 < t[j].0)
}

/// Keys without the flag bit first; within each half, more parts first, then the smaller key.
pub open spec fn unflagged_first(t: Seq<(u64, usize)>) -> bool {
    forall|i: int, j: int|
        0 <= i < j < t.len() ==> t[i].0 % 2 < t[j].0 % 2 || (t[i].0 % 2 == t[j].0 % 2 && (t[i].1
            > t[j].1 || (t[i].1 == t[j].1 && t[i].0 < t[j].0)))
}

/// `t` is in report order.
pub open spec fn ranked(t: Seq<(u64, usize)>, flag_first: bool) -> bool {
    forall|i: int, j: int| 0 <= i < j < t.len() ==> ranks_before(t[i], t[j], flag_first)
}

proof fn lemma_ranks_total(a: (u64, usize), b: (u64, usize), flag_first: bool)
    requires
        a.0 != b.0,
    ensures
        ranks_before(a, b, flag_first) || ranks_before(b, a, flag_first),
        !(ranks_before(a, b, flag_first) && ranks_before(b, a, flag_first)),
{
}

proof fn lemma_ranks_trans(a: (u64, usize), b: (u64, usize), c: (u64, usize), flag_first: bool)
    requires
        ranks_before(a, b, flag_first),
        ranks_before(b, c, flag_first),
    ensures
        ranks_before(a, c, flag_first),
{
}

fn ranks_before_exec(a: (u64, usize), b: (u64, usize), flag_first: bool) -> (r: bool)
    ensures
        r == ranks_before(a, b, flag_first),
{
    if flag_first && a.0 % 2 != b.0 % 2 {
        a.0 % 2 < b.0 % 2
    } else {
        a.1 > b.1 || (a.1 == b.1 && a.0 < b.0)
    }
}

/// Puts a tally in report order: the same entries, ranked.
pub fn rank_tally(t: &Vec<(u64, usize)>, flag_first: bool) -> (out: Vec<(u64, usize)>)
    requires
        distinct_keys(t@),
    ensures
        out@.len() == t@.len(),
        forall|x: (u64, usize)| out@.contains(x) <==> t@.contains(x),
        distinct_keys(out@),
        ranked(out@, flag_first),
        !flag_first ==> by_count_then_key(out@),
        flag_first ==> unflagged_first(out@),
{
    let mut out: Vec<(u64, usize)> = Vec::new();
    let mut i: usize = 0;
    while i < t.len()
        invariant
            0 <= i <= t@.len(),
            distinct_keys(t@),
            out@.len() == i,
            forall|x: (u64, usize)| out@.contains(x) <==> t@.take(i as int).contains(x),
            distinct_keys(out@),
            ranked(out@, flag_first),
        decreases t@.len() - i,
    {
        let x = t[i];
        let ghost o0 = out@;
        let mut p: usize = 0;
        while p < out.len() && !ranks_before_exec(x, out[p], flag_first)
            invariant
                0 <= p <= out@.len(),
                out@ == o0,
                forall|m: int| 0 <= m < p ==> !ranks_before(x, #[trigger] out@[m], flag_first),
            decreases out@.len() - p,
        {
            p = p + 1;
        }
        proof {
            assert(t@.take(i + 1) =~= t@.take(i as int).push(x));
            assert forall|m: int| 0 <= m < o0.len() implies o0[m].0 != x.0 by {
                assert(o0.contains(o0[m]));
                assert(t@.take(i as int).contains(o0[m]));
                let k = choose|k: int| 0 <= k < i && t@.take(i as int)[k] == o0[m];
                assert(t@[k] == o0[m]);
                assert(t@[i as int] == x);
            }
        }
        out.insert(p, x);
        proof {
            let o1 = out@;
            assert(o1 =~= o0.subrange(0, p as int).push(x) + o0.subrange(p as int, o0.len() as int));
            assert forall|m: int| 0 <= m < o1.len() implies (if m < p {
                o1[m] == o0[m]
            } else if m == p {
                o1[m] == x
            } else {
                o1[m] == o0[m - 1]
            }) by {}
            assert forall|y: (u64, usize)| o1.contains(y) <==> t@.take(i + 1).contains(y) by {
                if o1.contains(y) {
                    let m = choose|m: int| 0 <= m < o1.len() && o1[m] == y;
                    if m < p {
                        assert(o0.contains(o0[m]));
                    } else if m > p {
                        assert(o0.contains(o0[m - 1]));
                    } else {
                        assert(t@.take(i + 1)[i as int] == x);
                    }
                }
                if t@.take(i + 1).contains(y) {
                    if y == x {
                        assert(o1[p as int] == x);
                    } else {
                        let ti = t@.take(i + 1);
                        let k = choose|k: int| 0 <= k < ti.len() && ti[k] == y;
                        assert(k < i);
                        assert(t@.take(i as int)[k] == y);
                        assert(o0.contains(y));
                        let m = choose|m: int| 0 <= m < o0.len() && o0[m] == y;
                        if m < p {
                            assert(o1[m] == y);
                        } else {
                            assert(o1[m + 1] == y);
                        }
                    }
                }
            }
            assert forall|a: int, b: int| 0 <= a < b < o1.len() implies o1[a].0 != o1[b].0
                && ranks_before(o1[a], o1[b], flag_first) by {
                if a < p && b < p {
                } else if a < p && b == p {
                    lemma_ranks_total(o0[a], x, flag_first);
                } else if a < p {
                    assert(o1[b] == o0[b - 1]);
                } else if a == p {
                    assert(o1[b] == o0[b - 1]);
                    if b - 1 > p {
                        lemma_ranks_trans(x, o0[p as int], o0[b - 1], flag_first);
                    }
                } else {
                    assert(o1[a] == o0[a - 1]);
                    assert(o1[b] == o0[b - 1]);
                }
            }
        }
        i = i + 1;
    }
    proof {
        assert(t@.take(i as int) =~= t@);
        lemma_ranked_order(out@, flag_first);
    }
    out
}

/// Report order, spelled out: by count then key, with the unflagged keys first when asked.
proof fn lemma_ranked_order(t: Seq<(u64, usize)>, flag_first: bool)
    requires
        ranked(t, flag_first),
        distinct_keys(t),
    ensures
        !flag_first ==> by_count_then_key(t),
        flag_first ==> unflagged_first(t),
{
    if flag_first {
        assert forall|i: int, j: int| 0 <= i < j < t.len() implies t[i].0 % 2 < t[j].0 % 2 || (t[i].0
            % 2 == t[j].0 % 2 && (t[i].1 > t[j].1 || (t[i].1 == t[j].1 && t[i].0 < t[j].0))) by {
            assert(ranks_before(t[i], t[j], flag_first));
        }
    } else {
        assert forall|i: int, j: int| 0 <= i < j < t.len() implies t[i].1 > t[j].1 || (t[i].1
            == t[j].1 && t[i].0 < t[j].0) by {
            assert(ranks_before(t[i], t[j], flag_first));
        }
    }
}

/// A tally in another order is still the tally.
proof fn lemma_tally_reordered(t: Seq<(u64, usize)>, r: Seq<(u64, usize)>, keys: Seq<u64>)
    requires
        is_tally(t, keys),
        forall|x: (u64, usize)| r.contains(x) <==> t.contains(x),
        distinct_keys(r),
    ensures
        is_tally(r, keys),
{
    assert forall|i: int| 0 <= i < r.len() implies #[trigger] r[i].1 == occurrences(keys, r[i].0)
        && r[i].1 >= 1 by {
        assert(r.contains(r[i]));
        assert(t.contains(r[i]));
        let j = choose|j: int| 0 <= j < t.len() && t[j] == r[i];
        assert(t[j].1 == occurrences(keys, t[j].0));
    }
    assert forall|k: int| 0 <= k < keys.len() implies has_key(r, #[trigger] keys[k]) by {
        let j = choose|j: int| 0 <= j < t.len() && t[j].0 == keys[k];
        assert(t.contains(t[j]));
        assert(r.contains(t[j]));
        let i = choose|i: int| 0 <= i < r.len() && r[i] == t[j];
        assert(r[i].0 == keys[k]);
    }
    assert(distinct_keys(r));
}

/// A part outlived its placement: a map placement's part its placement no longer lists (with
/// a registry to ask), unless it is a fader exile, which its fader seed accounts for.
pub open spec fn orphaned(o: PartOrigin) -> bool {
    &&& o.owned == Some(false)
    &&& o.object matches Some(t) && t.placed
    &&& !o.exile
}

/// The label a part's escape is filed under.
pub open spec fn escape_label(o: PartOrigin) -> u32 {
    match o.object {
        Some(t) => t.label,
        None => UNLABELLED,
    }
}

/// The orphan keys of a frame's parts, in order.
pub open spec fn orphan_keys(o: Seq<PartOrigin>) -> Seq<u64>
    decreases o.len(),
{
    if o.len() == 0 {
        Seq::empty()
    } else {
        let rest = orphan_keys(o.drop_last());
        let x = o.last();
        if orphaned(x) {
            rest.push(object_key(x.object->0.id, x.object->0.label))
        } else {
            rest
        }
    }
}

/// The render-path reason keys of a frame's parts.
pub open spec fn why_keys(o: Seq<PartOrigin>) -> Seq<u64> {
    o.map_values(|x: PartOrigin| x.why as u64)
}

/// The label keys of the drawn parts with an object, flagged by their gate.
pub open spec fn label_keys(p: Seq<PartRecord>, o: Seq<PartOrigin>) -> Seq<u64>
    decreases o.len(),
{
    if o.len() == 0 || p.len() == 0 {
        Seq::empty()
    } else {
        let rest = label_keys(p.drop_last(), o.drop_last());
        if p.last().drawn && o.last().object is Some {
            rest.push(flag_key(o.last().object->0.label, p.last().gated))
        } else {
            rest
        }
    }
}

/// The escape keys of the gated parts the cull should have hidden, flagged by card.
pub open spec fn escape_keys(p: Seq<PartRecord>, o: Seq<PartOrigin>) -> Seq<u64>
    decreases o.len(),
{
    if o.len() == 0 || p.len() == 0 {
        Seq::empty()
    } else {
        let rest = escape_keys(p.drop_last(), o.drop_last());
        if escaped_spec(p.last()) {
            rest.push(flag_key(escape_label(o.last()), o.last().card))
        } else {
            rest
        }
    }
}

/// Tallies a frame's parts by their origins: the orphans (and how many parts they hold), the
/// render-path reasons, the drawn labels and the escapes, each in report order (most parts
/// first, then by key; the labels ungated first).
pub fn census_tallies(parts: &[PartRecord], origins: &[PartOrigin]) -> (t: CensusTallies)
    requires
        parts@.len() == origins@.len(),
    ensures
        is_tally(t.orphans@, orphan_keys(origins@)),
        t.orphan_parts == orphan_keys(origins@).len(),
        is_tally(t.why@, why_keys(origins@)),
        is_tally(t.labels@, label_keys(parts@, origins@)),
        is_tally(t.escaped@, escape_keys(parts@, origins@)),
        ranked(t.orphans@, false),
        ranked(t.why@, false),
        ranked(t.labels@, true),
        ranked(t.escaped@, false),
        by_count_then_key(t.orphans@),
        by_count_then_key(t.why@),
        unflagged_first(t.labels@),
        by_count_then_key(t.escaped@),
{
    let mut orphan: Vec<u64> = Vec::new();
    let mut why: Vec<u64> = Vec::new();
    let mut labels: Vec<u64> = Vec::new();
    let mut esc: Vec<u64> = Vec::new();
    let mut i: usize = 0;
    while i < origins.len()
        invariant
            0 <= i <= origins@.len(),
            parts@.len() == origins@.len(),
            orphan@ == orphan_keys(origins@.take(i as int)),
            why@ == why_keys(origins@.take(i as int)),
            labels@ == label_keys(parts@.take(i as int), origins@.take(i as int)),
            esc@ == escape_keys(parts@.take(i as int), origins@.take(i as int)),
        decreases origins@.len() - i,
    {
        let o = origins[i];
        let p = parts[i];
        proof {
            assert(origins@.take(i + 1).drop_last() =~= origins@.take(i as int));
            assert(parts@.take(i + 1).drop_last() =~= parts@.take(i as int));
            assert(origins@.take(i + 1).last() == o);
            assert(parts@.take(i + 1).last() == p);
            assert(why_keys(origins@.take(i + 1)) =~= why_keys(origins@.take(i as int)).push(
                o.why as u64,
            ));
        }
        let orph = match o.owned {
            Some(listed) => !listed && !o.exile && match o.object {
                Some(t) => t.placed,
                None => false,
            },
            None => false,
        };
        if orph {
            let t = o.object.unwrap();
            orphan.push(t.id as u64 * 0x1_0000_0000u64 + t.label as u64);
        }
        why.push(o.why as u64);
        if p.drawn {
            if let Some(t) = o.object {
                labels.push(t.label as u64 * 2 + if p.gated { 1u64 } else { 0u64 });
            }
        }
        if crate::census::escaped(&p) {
            let l = match o.object {
                Some(t) => t.label,
                None => UNLABELLED,
            };
            esc.push(l as u64 * 2 + if o.card { 1u64 } else { 0u64 });
        }
        i = i + 1;
    }
    proof {
        assert(origins@.take(i as int) =~= origins@);
        assert(parts@.take(i as int) =~= parts@);
    }
    let orphan_parts = orphan.len();
    CensusTallies {
        orphans: ranked_tally(&orphan, false),
        orphan_parts,
        why: ranked_tally(&why, false),
        labels: ranked_tally(&labels, true),
        escaped: ranked_tally(&esc, false),
    }
}

/// Tallies `keys` and puts the tally in report order.
pub fn ranked_tally(keys: &Vec<u64>, flag_first: bool) -> (out: Vec<(u64, usize)>)
    ensures
        is_tally(out@, keys@),
        ranked(out@, flag_first),
        !flag_first ==> by_count_then_key(out@),
        flag_first ==> unflagged_first(out@),
{
    let t = key_tally(keys);
    proof {
        assert(distinct_keys(t@));
    }
    let r = rank_tally(&t, flag_first);
    proof {
        lemma_tally_reordered(t@, r@, keys@);
    }
    r
}

/// The particle emitters' counts from each emitter's live particles: the emitters, those with
/// any live particle, and the live particles in all.
pub open spec fn emitter_sums(live: Seq<usize>) -> (int, int, int)
    decreases live.len(),
{
    if live.len() == 0 {
        (0, 0, 0)
    } else {
        let r = emitter_sums(live.drop_last());
        (r.0 + 1, r.1 + if live.last() > 0 {
            1int
        } else {
            0int
        }, r.2 + live.last())
    }
}

proof fn lemma_emitter_sums_bounded(live: Seq<usize>)
    ensures
        emitter_sums(live).0 == live.len(),
        0 <= emitter_sums(live).1 <= live.len(),
        0 <= emitter_sums(live).2,
    decreases live.len(),
{
    if live.len() > 0 {
        lemma_emitter_sums_bounded(live.drop_last());
    }
}

proof fn lemma_emitter_sums_grow(live: Seq<usize>, i: int)
    requires
        0 <= i <= live.len(),
    ensures
        emitter_sums(live.take(i)).2 <= emitter_sums(live).2,
    decreases live.len(),
{
    if i < live.len() {
        assert(live.drop_last().take(i) =~= live.take(i));
        lemma_emitter_sums_grow(live.drop_last(), i);
    } else {
        assert(live.take(i) =~= live);
    }
}

/// Counts the emitters, the active ones and their live particles.
pub fn emitter_counts(live: &[usize]) -> (r: (usize, usize, usize))
    requires
        emitter_sums(live@).2 <= usize::MAX,
    ensures
        r.0 == emitter_sums(live@).0,
        r.1 == emitter_sums(live@).1,
        r.2 == emitter_sums(live@).2,
{
    let mut e: usize = 0;
    let mut a: usize = 0;
    let mut l: usize = 0;
    let mut i: usize = 0;
    while i < live.len()
        invariant
            0 <= i <= live@.len(),
            emitter_sums(live@).2 <= usize::MAX,
            e == emitter_sums(live@.take(i as int)).0,
            a == emitter_sums(live@.take(i as int)).1,
            l == emitter_sums(live@.take(i as int)).2,
        decreases live@.len() - i,
    {
        proof {
            assert(live@.take(i + 1).drop_last() =~= live@.take(i as int));
            lemma_emitter_sums_bounded(live@.take(i as int));
            lemma_emitter_sums_grow(live@, i + 1);
        }
        e = e + 1;
        if live[i] > 0 {
            a = a + 1;
        }
        l = l + live[i];
        i = i + 1;
    }
    proof {
        assert(live@.take(i as int) =~= live@);
    }
    (e, a, l)
}

} // verus!
