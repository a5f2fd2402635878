//! The distant low-detail terrain ring: which coarse tiles to drop and which to build this frame
//! as the view moves.
use vstd::prelude::*;

verus! {

/// Chebyshev tile radius of the ring. Hills out to the horizon far clip (about four tiles) still
/// rise above the horizon as silhouettes, so the ring reaches one further.
pub const WDL_RADIUS: u32 = 5;

/// New ring tiles built per frame, so a whole ring does not hitch a zone load.
pub const WDL_LOADS_PER_FRAME: usize = 8;

/// The entries of `s` that `other` does not hold, in order.
pub open spec fn missing_from(s: Seq<(u32, u32)>, other: Seq<(u32, u32)>) -> Seq<(u32, u32)> {
    s.filter(|c: (u32, u32)| !other.contains(c))
}

/// At most the first `n` entries of `s`.
pub open spec fn at_most(s: Seq<(u32, u32)>, n: int) -> Seq<(u32, u32)> {
    if s.len() <= n {
        s
    } else {
        s.take(n)
    }
}

fn holds(s: &[(u32, u32)], c: (u32, u32)) -> (r: bool)
    ensures
        r == s@.contains(c),
{
    let mut i: usize = 0;
    while i < s.len()
        invariant
            0 <= i <= s@.len(),
            forall|j: int| 0 <= j < i ==> s@[j] != c,
        decreases s@.len() - i,
    {
        if s[i].0 == c.0 && s[i].1 == c.1 {
            assert(s@[i as int] == c);
            return true;
        }
        i = i + 1;
    }
    false
}

/// The entries of `s` that `other` does not hold, in order, at most `cap` of them.
fn without(s: &[(u32, u32)], other: &[(u32, u32)], cap: usize) -> (out: Vec<(u32, u32)>)
    ensures
        out@ == at_most(missing_from(s@, other@), cap as int),
{
    let ghost pred = |c: (u32, u32)| !other@.contains(c);
    let mut out: Vec<(u32, u32)> = Vec::new();
    let mut i: usize = 0;
    while i < s.len() && out.len() < cap
        invariant
            0 <= i <= s@.len(),
            pred == (|c: (u32, u32)| !other@.contains(c)),
            out@ == s@.take(i as int).filter(pred),
            out@.len() <= cap,
        decreases s@.len() - i,
    {
        let c = s[i];
        proof {
            assert(s@.take(i + 1).drop_last() =~= s@.take(i as int));
            assert(s@.take(i + 1).last() == c);
            reveal(Seq::filter);
        }
        if !holds(other, c) {
            out.push(c);
        }
        i = i + 1;
    }
    proof {
        lemma_filter_prefix(s@, pred, i as int);
        if i == s@.len() {
            assert(s@.take(i as int) =~= s@);
        }
    }
    out
}

/// Filtering a prefix gives a prefix of the filter; once the prefix's filter has `n` entries it
/// is the first `n` of the whole filter.
proof fn lemma_filter_prefix(s: Seq<(u32, u32)>, p: spec_fn((u32, u32)) -> bool, i: int)
    requires
        0 <= i <= s.len(),
    ensures
        s.take(i).filter(p).len() <= s.filter(p).len(),
        s.take(i).filter(p) =~= s.filter(p).take(s.take(i).filter(p).len() as int),
    decreases s.len() - i,
{
    if i < s.len() {
        lemma_filter_prefix(s, p, i + 1);
        assert(s.take(i + 1).drop_last() =~= s.take(i));
        reveal(Seq::filter);
        let a = s.take(i).filter(p);
        let b = s.take(i + 1).filter(p);
        if p(s[i]) {
            assert(b =~= a.push(s[i]));
        } else {
            assert(b =~= a);
        }
        assert(a =~= b.take(a.len() as int));
    } else {
        assert(s.take(i) =~= s);
    }
}

/// This frame's ring change: the loaded tiles the new ring no longer wants, in load order, and
/// the wanted tiles not yet loaded, in the ring's order, at most [`WDL_LOADS_PER_FRAME`] of
/// them.
pub fn ring_changes(loaded: &[(u32, u32)], desired: &[(u32, u32)]) -> (r: (
    Vec<(u32, u32)>,
    Vec<(u32, u32)>,
))
    ensures
        r.0@ == missing_from(loaded@, desired@),
        r.1@ == at_most(missing_from(desired@, loaded@), WDL_LOADS_PER_FRAME as int),
{
    let stale = without(loaded, desired, loaded.len());
    proof {
        let m = missing_from(loaded@, desired@);
        assert(m.len() <= loaded@.len()) by {
            lemma_filter_len(loaded@, |c: (u32, u32)| !desired@.contains(c));
        }
    }
    let missing = without(desired, loaded, WDL_LOADS_PER_FRAME);
    (stale, missing)
}

proof fn lemma_filter_len(s: Seq<(u32, u32)>, p: spec_fn((u32, u32)) -> bool)
    ensures
        s.filter(p).len() <= s.len(),
    decreases s.len(),
{
    reveal(Seq::filter);
    if s.len() > 0 {
        lemma_filter_len(s.drop_last(), p);
    }
}

/// After a frame's change the ring holds only wanted tiles: a loaded tile not dropped as stale is
/// one the new ring wants, and a tile built this frame is a wanted one that was not loaded.
pub proof fn lemma_ring_keeps_only_wanted(loaded: Seq<(u32, u32)>, desired: Seq<(u32, u32)>, c: (
    u32,
    u32,
))
    ensures
        loaded.contains(c) && !missing_from(loaded, desired).contains(c) ==> desired.contains(c),
        at_most(missing_from(desired, loaded), WDL_LOADS_PER_FRAME as int).contains(c)
            ==> desired.contains(c) && !loaded.contains(c),
{
    let p1 = |x: (u32, u32)| !desired.contains(x);
    let p2 = |x: (u32, u32)| !loaded.contains(x);
    if loaded.contains(c) && !desired.contains(c) {
        let i = choose|i: int| 0 <= i < loaded.len() && loaded[i] == c;
        lemma_filter_keeps(loaded, p1, i);
    }
    let m = missing_from(desired, loaded);
    let a = at_most(m, WDL_LOADS_PER_FRAME as int);
    if a.contains(c) {
        let k = choose|k: int| 0 <= k < a.len() && a[k] == c;
        assert(m.contains(c)) by {
            assert(m[k] == c);
        }
        lemma_filter_only(desired, p2, c);
    }
}

/// An entry the predicate keeps is in the filter.
proof fn lemma_filter_keeps(s: Seq<(u32, u32)>, p: spec_fn((u32, u32)) -> bool, i: int)
    requires
        0 <= i < s.len(),
        p(s[i]),
    ensures
        s.filter(p).contains(s[i]),
    decreases s.len(),
{
    reveal(Seq::filter);
    if i < s.len() - 1 {
        lemma_filter_keeps(s.drop_last(), p, i);
        assert(s.drop_last()[i] == s[i]);
        let f = s.drop_last().filter(p);
        let k = choose|k: int| 0 <= k < f.len() && f[k] == s[i];
        if p(s.last()) {
            assert(s.filter(p) == f.push(s.last()));
            assert(s.filter(p)[k] == s[i]);
        } else {
            assert(s.filter(p) == f);
        }
    } else {
        assert(s.filter(p) == s.drop_last().filter(p).push(s.last()));
        assert(s.filter(p)[s.filter(p).len() - 1] == s[i]);
    }
}

/// Everything in the filter is an entry of the sequence the predicate keeps.
proof fn lemma_filter_only(s: Seq<(u32, u32)>, p: spec_fn((u32, u32)) -> bool, c: (u32, u32))
    requires
        s.filter(p).contains(c),
    ensures
        s.contains(c),
        p(c),
    decreases s.len(),
{
    reveal(Seq::filter);
    if s.len() > 0 {
        let f = s.drop_last().filter(p);
        if p(s.last()) && c == s.last() {
            assert(s[s.len() - 1] == c);
        } else {
            if p(s.last()) {
                assert(s.filter(p) == f.push(s.last()));
                let k = choose|k: int| 0 <= k < s.filter(p).len() && s.filter(p)[k] == c;
                assert(k < f.len());
                assert(f[k] == c);
            } else {
                assert(s.filter(p) == f);
            }
            lemma_filter_only(s.drop_last(), p, c);
            let j = choose|j: int| 0 <= j < s.drop_last().len() && s.drop_last()[j] == c;
            assert(s[j] == c);
        }
    }
}

} // verus!
