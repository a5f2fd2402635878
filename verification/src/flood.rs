//! The portal flood over one WMO's group graph: which groups the camera sees this frame, which of
//! them take the interior fog, and which doorways open deferred windows onto the open world.
//!
//! The graph walk is decided here; the geometry it asks about (whether a portal faces the eye and
//! what is left of the screen window past it, whether a group shows through a window) is floating
//! point and answered by the caller's [`FloodGeometry`]. Every question asked and its answer is
//! kept in the flood's trace, and the contracts speak of that trace: every admitted crossing's
//! step is walked, every step below the depth cap tries every portal of its group, the step
//! counter counts exactly the steps taken, nothing is drawn but by a step or the frustum, a
//! fogged group is always a drawn true interior, and a portal opens at most one window a frame.
use crate::portal::{
    is_exterior_group, is_true_interior, opens_a_window, DownRaySeeds, WmoGroupNav,
    WmoPortalInstance, WmoPortalRef, CALLBACK_PASS, EXTERIOR, EXTERIOR_LIT,
};
use vstd::prelude::*;

verus! {

/// Walk steps a frame, across every run of the walk: a runaway-graph backstop.
pub const MAX_ITERS: u32 = 65536;

/// Portal hops from a root before the walk stops descending: a cycle backstop.
pub const DEPTH_CAP: u32 = 10;

/// The deferred-window worklist the retail client holds; more windows than this is a defect
/// worth flagging.
pub const WORKLIST_CAP: usize = 16;

/// The geometry the flood asks about, answered by the caller in floating point. `R` is the
/// screen window the walk carries.
pub trait FloodGeometry<R> {
    /// The whole screen.
    fn full_screen(&self) -> R;

    /// Crossing portal reference `r` out of group `from` with window `rect`: the window onto the
    /// group across, or `None` when the portal faces away from the eye, projects to nothing, or
    /// clips the window away.
    fn cross(&mut self, rect: R, from: usize, r: WmoPortalRef) -> Option<R>;

    /// Whether exterior group `group` shows through deferred window `window`.
    fn in_window(&mut self, window: R, group: usize) -> bool;
}

/// One step on the walk's stack: the group to enter, the group it was entered from (its entry
/// portal is never re-crossed), the window, the depth, and whether the path kept an unbroken
/// chain of true interiors from its root.
#[derive(Clone, Copy)]
pub struct Step<R> {
    pub group: usize,
    pub came: usize,
    pub rect: R,
    pub depth: u32,
    pub chain: bool,
}

/// One portal crossing the walk tried: out of group `from`, through portal reference `via`,
/// carrying the window, depth and chain of the step it left, and the geometry's answer, the
/// window onto the group across or `None` when the geometry refused the crossing.
#[derive(Clone, Copy)]
pub struct Crossing<R> {
    pub from: usize,
    pub via: usize,
    pub rect: R,
    pub depth: u32,
    pub chain: bool,
    pub admitted: Option<R>,
}

/// The flood's per-frame state, shared by every run of the walk.
pub struct Flood<R> {
    /// Per group: in this frame's PVS.
    pub visible: Vec<bool>,
    /// Per group: drawn with the interior fog.
    pub interior_fog: Vec<bool>,
    /// The deferred exterior windows, one per doorway reached onto an EXTERIOR group.
    pub windows: Vec<R>,
    /// Per portal: it already opened a window this frame.
    pub portal_pushed: Vec<bool>,
    /// Every crossing tried this frame, in order, with the geometry's answer.
    pub crossings: Vec<Crossing<R>>,
    /// Walk steps taken this frame.
    pub iters: u32,
}

/// Where group `h`'s slice of the portal-ref table ends, clamped to the table.
pub open spec fn ref_end(nav: Seq<WmoGroupNav>, refs: Seq<WmoPortalRef>, h: int) -> int {
    let end = nav[h].ref_start + nav[h].ref_count;
    if end <= refs.len() {
        end
    } else {
        refs.len() as int
    }
}

/// The flood's sets cover the model's groups, and every fogged group is a drawn true interior.
pub open spec fn flood_wf<R>(f: Flood<R>, nav: Seq<WmoGroupNav>) -> bool {
    &&& f.visible@.len() == nav.len()
    &&& f.interior_fog@.len() == nav.len()
    &&& forall|g: int|
        0 <= g < nav.len() && #[trigger] f.interior_fog@[g] ==> f.visible@[g] && is_true_interior(
            nav,
            g,
        )
}

/// Portal reference `j` may be crossed out of a group entered through `came`: it names a group,
/// and not the one the step came from.
pub open spec fn eligible(refs: Seq<WmoPortalRef>, j: int, came: usize) -> bool {
    refs[j].group != 65535 && refs[j].group as usize != came
}

/// The step a crossing the geometry admitted pushes: into the group across, from the group
/// crossed out of, with the admitted window, one hop deeper, the interior chain kept only through
/// a true interior.
pub open spec fn pushed_step<R>(c: Crossing<R>, refs: Seq<WmoPortalRef>, nav: Seq<WmoGroupNav>) -> Step<R> {
    Step {
        group: refs[c.via as int].group as usize,
        came: c.from,
        rect: c.admitted->0,
        depth: (c.depth + 1) as u32,
        chain: c.chain && is_true_interior(nav, c.from as int),
    }
}

/// The steps the admitted crossings of `cr` pushed, in order.
pub open spec fn pushed_steps<R>(cr: Seq<Crossing<R>>, refs: Seq<WmoPortalRef>, nav: Seq<WmoGroupNav>) -> Seq<
    Step<R>,
>
    decreases cr.len(),
{
    if cr.len() == 0 {
        Seq::empty()
    } else {
        let rest = pushed_steps(cr.drop_last(), refs, nav);
        if cr.last().admitted is Some {
            rest.push(pushed_step(cr.last(), refs, nav))
        } else {
            rest
        }
    }
}

/// Crossing `c` was tried out of step `s` through reference `j`.
pub open spec fn tried_from<R>(c: Crossing<R>, s: Step<R>, j: int) -> bool {
    c.via == j && c.from == s.group && c.rect == s.rect && c.depth == s.depth && c.chain == s.chain
}

/// Every portal reference a step may cross out of its group was tried from it.
pub open spec fn explored<R>(cr: Seq<Crossing<R>>, nav: Seq<WmoGroupNav>, refs: Seq<WmoPortalRef>, s: Step<R>) -> bool {
    forall|j: int|
        nav[s.group as int].ref_start <= j < ref_end(nav, refs, s.group as int) && eligible(
            refs,
            j,
            s.came,
        ) ==> exists|i: int| 0 <= i < cr.len() && #[trigger] tried_from(cr[i], s, j)
}

/// A step the walk took in full: entered, and, below the depth cap, explored.
pub open spec fn handled<R>(
    visible: Seq<bool>,
    fog: Seq<bool>,
    cr: Seq<Crossing<R>>,
    nav: Seq<WmoGroupNav>,
    refs: Seq<WmoPortalRef>,
    s: Step<R>,
) -> bool {
    &&& entered(visible, fog, nav, s)
    &&& (s.group < nav.len() && s.depth < DEPTH_CAP ==> explored(cr, nav, refs, s))
}

/// A tried crossing is well placed: out of a drawn group, through a reference of that group's
/// slice that names a group, below the depth cap.
pub open spec fn crossing_sound<R>(c: Crossing<R>, visible: Seq<bool>, nav: Seq<WmoGroupNav>, refs: Seq<WmoPortalRef>) -> bool {
    &&& c.from < nav.len()
    &&& visible[c.from as int]
    &&& nav[c.from as int].ref_start <= c.via < ref_end(nav, refs, c.from as int)
    &&& refs[c.via as int].group != 65535
    &&& c.depth < DEPTH_CAP
}

/// An admitted crossing carries the interior chain into group `g`: it led there, its step was
/// on the chain, and it left a fogged true interior.
pub open spec fn chain_into<R>(
    c: Crossing<R>,
    refs: Seq<WmoPortalRef>,
    nav: Seq<WmoGroupNav>,
    fog: Seq<bool>,
    g: int,
) -> bool {
    &&& c.admitted is Some
    &&& refs[c.via as int].group == g
    &&& c.chain
    &&& is_true_interior(nav, c.from as int)
    &&& fog[c.from as int]
}

/// Group `g` took the interior fog by a path of true interiors: it is a root on the chain, or a
/// crossing carried the chain into it out of a fogged true interior.
pub open spec fn fog_reached<R>(
    fog: Seq<bool>,
    roots: Seq<Step<R>>,
    cr: Seq<Crossing<R>>,
    refs: Seq<WmoPortalRef>,
    nav: Seq<WmoGroupNav>,
    g: int,
) -> bool {
    ||| exists|s: Step<R>| #[trigger] roots.contains(s) && s.group == g && s.chain
    ||| exists|c: Crossing<R>| #[trigger] cr.contains(c) && chain_into(c, refs, nav, fog, g)
}

/// Every crossing on the chain out of a true interior left a fogged group.
pub open spec fn chains_kept<R>(cr: Seq<Crossing<R>>, nav: Seq<WmoGroupNav>, fog: Seq<bool>) -> bool {
    forall|i: int|
        0 <= i < cr.len() && (#[trigger] cr[i]).chain && is_true_interior(nav, cr[i].from as int)
            ==> fog[cr[i].from as int]
}

/// Fog reaching survives more fog, more roots and more crossings.
proof fn lemma_fog_reached_grows<R>(
    f1: Seq<bool>,
    f2: Seq<bool>,
    r1: Seq<Step<R>>,
    r2: Seq<Step<R>>,
    c1: Seq<Crossing<R>>,
    c2: Seq<Crossing<R>>,
    refs: Seq<WmoPortalRef>,
    nav: Seq<WmoGroupNav>,
    g: int,
)
    requires
        fog_reached(f1, r1, c1, refs, nav, g),
        f1.len() == nav.len(),
        forall|h: int| 0 <= h < nav.len() && f1[h] ==> f2[h],
        forall|s: Step<R>| r1.contains(s) ==> r2.contains(s),
        forall|c: Crossing<R>| c1.contains(c) ==> c2.contains(c),
    ensures
        fog_reached(f2, r2, c2, refs, nav, g),
{
    if exists|s: Step<R>| #[trigger] r1.contains(s) && s.group == g && s.chain {
        let s = choose|s: Step<R>| #[trigger] r1.contains(s) && s.group == g && s.chain;
        assert(r2.contains(s));
    } else {
        let c = choose|c: Crossing<R>| #[trigger] c1.contains(c) && chain_into(c, refs, nav, f1, g);
        assert(c2.contains(c));
        assert(chain_into(c, refs, nav, f2, g));
    }
}

/// Pushing onto a sequence keeps what it held and adds the new entry.
proof fn lemma_push_contains<A>(s: Seq<A>, x: A)
    ensures
        forall|y: A| s.contains(y) ==> #[trigger] s.push(x).contains(y),
        s.push(x).contains(x),
{
    assert forall|y: A| s.contains(y) implies #[trigger] s.push(x).contains(y) by {
        let k = choose|k: int| 0 <= k < s.len() && s[k] == y;
        assert(s.push(x)[k] == y);
    }
    assert(s.push(x)[s.len() as int] == x);
}

/// A pushed step is the step of some admitted crossing.
proof fn lemma_pushed_member<R>(cs: Seq<Crossing<R>>, refs: Seq<WmoPortalRef>, nav: Seq<WmoGroupNav>, m: int)
    requires
        0 <= m < pushed_steps(cs, refs, nav).len(),
    ensures
        exists|i: int|
            0 <= i < cs.len() && cs[i].admitted is Some && pushed_steps(cs, refs, nav)[m]
                == pushed_step(#[trigger] cs[i], refs, nav),
    decreases cs.len(),
{
    let rest = pushed_steps(cs.drop_last(), refs, nav);
    if m < rest.len() {
        lemma_pushed_member(cs.drop_last(), refs, nav, m);
        let i = choose|i: int|
            0 <= i < cs.drop_last().len() && cs.drop_last()[i].admitted is Some && rest[m]
                == pushed_step(#[trigger] cs.drop_last()[i], refs, nav);
        assert(cs[i] == cs.drop_last()[i]);
        assert(pushed_steps(cs, refs, nav)[m] == rest[m]);
        assert(pushed_step(cs[i], refs, nav) == pushed_steps(cs, refs, nav)[m]);
    } else {
        assert(cs.last().admitted is Some);
        assert(cs[cs.len() - 1] == cs.last());
    }
}

/// Some step of `steps` enters group `g`.
pub open spec fn steps_reach<R>(steps: Seq<Step<R>>, g: int) -> bool {
    exists|k: int| 0 <= k < steps.len() && #[trigger] steps[k].group == g
}

/// The number of `false` entries.
pub open spec fn count_unset(s: Seq<bool>) -> nat
    decreases s.len(),
{
    if s.len() == 0 {
        0
    } else {
        count_unset(s.drop_last()) + if s.last() {
            0nat
        } else {
            1nat
        }
    }
}

proof fn lemma_count_unset_set(s: Seq<bool>, i: int)
    requires
        0 <= i < s.len(),
        !s[i],
    ensures
        count_unset(s.update(i, true)) + 1 == count_unset(s),
    decreases s.len(),
{
    if i == s.len() - 1 {
        assert(s.update(i, true).drop_last() =~= s.drop_last());
    } else {
        assert(s.update(i, true).drop_last() =~= s.drop_last().update(i, true));
        lemma_count_unset_set(s.drop_last(), i);
    }
}

/// `a + b`, capped at the largest `u32`: the step counter's saturating sum.
pub open spec fn capped_sum(a: int, b: int) -> int {
    if a + b >= u32::MAX {
        u32::MAX as int
    } else {
        a + b
    }
}

/// A step has been entered: its group (when it names one) is visible, and fogged when its path
/// kept an unbroken interior chain into a true interior.
pub open spec fn entered<R>(visible: Seq<bool>, fog: Seq<bool>, nav: Seq<WmoGroupNav>, s: Step<R>) -> bool {
    s.group < nav.len() ==> visible[s.group as int] && (s.chain && is_true_interior(
        nav,
        s.group as int,
    ) ==> fog[s.group as int])
}

/// The walk's progress measure: steps left before the backstop.
pub open spec fn steps_left(iters: u32) -> int {
    if iters <= MAX_ITERS {
        MAX_ITERS + 1 - iters
    } else {
        0
    }
}

/// Handling stays true as the sets grow and more crossings are recorded.
proof fn lemma_handled_grows<R>(
    v1: Seq<bool>,
    f1: Seq<bool>,
    c1: Seq<Crossing<R>>,
    v2: Seq<bool>,
    f2: Seq<bool>,
    c2: Seq<Crossing<R>>,
    nav: Seq<WmoGroupNav>,
    refs: Seq<WmoPortalRef>,
    s: Step<R>,
)
    requires
        handled(v1, f1, c1, nav, refs, s),
        v1.len() == nav.len(),
        f1.len() == nav.len(),
        forall|g: int| 0 <= g < nav.len() && v1[g] ==> v2[g],
        forall|g: int| 0 <= g < nav.len() && f1[g] ==> f2[g],
        c1.len() <= c2.len(),
        forall|i: int| 0 <= i < c1.len() ==> c2[i] == c1[i],
    ensures
        handled(v2, f2, c2, nav, refs, s),
{
    if s.group < nav.len() && s.depth < DEPTH_CAP {
        assert forall|j: int|
            nav[s.group as int].ref_start <= j < ref_end(nav, refs, s.group as int) && eligible(
                refs,
                j,
                s.came,
            ) implies exists|i: int| 0 <= i < c2.len() && #[trigger] tried_from(c2[i], s, j) by {
            let i = choose|i: int| 0 <= i < c1.len() && #[trigger] tried_from(c1[i], s, j);
            assert(tried_from(c2[i], s, j));
        }
    }
}

/// Recording one more crossing extends the pushed steps by its step when it was admitted.
proof fn lemma_pushed_steps_push<R>(
    cr: Seq<Crossing<R>>,
    c0: int,
    c: Crossing<R>,
    refs: Seq<WmoPortalRef>,
    nav: Seq<WmoGroupNav>,
)
    requires
        0 <= c0 <= cr.len(),
    ensures
        pushed_steps(cr.push(c).subrange(c0, cr.len() as int + 1), refs, nav) == if c.admitted is Some {
            pushed_steps(cr.subrange(c0, cr.len() as int), refs, nav).push(pushed_step(c, refs, nav))
        } else {
            pushed_steps(cr.subrange(c0, cr.len() as int), refs, nav)
        },
{
    assert(cr.push(c).subrange(c0, cr.len() as int + 1).drop_last() =~= cr.subrange(c0, cr.len() as int));
    assert(cr.push(c).subrange(c0, cr.len() as int + 1).last() == c);
}

impl<R: Copy> Flood<R> {
    /// A fresh frame's flood over `groups` groups and `portals` portals: nothing visible, no fog,
    /// no windows, nothing crossed.
    pub fn new(groups: usize, portals: usize) -> (f: Flood<R>)
        ensures
            f.visible@ == Seq::new(groups as nat, |i: int| false),
            f.interior_fog@ == Seq::new(groups as nat, |i: int| false),
            f.windows@.len() == 0,
            f.portal_pushed@ == Seq::new(portals as nat, |i: int| false),
            f.crossings@.len() == 0,
            f.iters == 0,
    {
        Flood {
            visible: all_false(groups),
            interior_fog: all_false(groups),
            windows: Vec::new(),
            portal_pushed: all_false(portals),
            crossings: Vec::new(),
            iters: 0,
        }
    }

    /// Drains `stack`: each step marks its group visible (and fogged when its path kept an
    /// unbroken interior chain and it is a true interior), then, below the depth cap, tries
    /// every portal of the group but the sentinel and the one it came through, recording each
    /// try with the geometry's answer. A crossing the geometry admits is pushed with the clipped
    /// window; with `record_windows` (the inside leg's first pass), a crossing onto an EXTERIOR
    /// group also records its window, once per portal a frame.
    ///
    /// The steps of the walk are the ones handed in and the ones the admitted crossings pushed.
    /// Each counts one towards the backstop, and unless the backstop tripped each was taken in
    /// full: entered, and below the depth cap, explored.
    pub fn walk<G: FloodGeometry<R>>(
        &mut self,
        nav: &[WmoGroupNav],
        refs: &[WmoPortalRef],
        stack: &mut Vec<Step<R>>,
        record_windows: bool,
        geo: &mut G,
    )
        requires
            flood_wf(*old(self), nav@),
        ensures
            flood_wf(*final(self), nav@),
            final(stack)@.len() == 0,
            final(self).iters >= old(self).iters,
            final(self).portal_pushed@.len() == old(self).portal_pushed@.len(),
            forall|g: int| 0 <= g < nav@.len() && old(self).visible@[g] ==> final(self).visible@[g],
            forall|g: int|
                0 <= g < nav@.len() && old(self).interior_fog@[g] ==> final(self).interior_fog@[g],
            old(self).crossings@.len() <= final(self).crossings@.len(),
            forall|i: int|
                0 <= i < old(self).crossings@.len() ==> final(self).crossings@[i] == old(
                    self,
                ).crossings@[i],
            forall|i: int|
                old(self).crossings@.len() <= i < final(self).crossings@.len() ==> crossing_sound(
                    #[trigger] final(self).crossings@[i],
                    final(self).visible@,
                    nav@,
                    refs@,
                ),
            ({
                let steps = old(stack)@ + pushed_steps(
                    final(self).crossings@.subrange(
                        old(self).crossings@.len() as int,
                        final(self).crossings@.len() as int,
                    ),
                    refs@,
                    nav@,
                );
                &&& final(self).iters as int == capped_sum(old(self).iters as int, steps.len() as int)
                &&& final(self).iters <= MAX_ITERS ==> forall|k: int|
                    0 <= k < steps.len() ==> handled(
                        final(self).visible@,
                        final(self).interior_fog@,
                        final(self).crossings@,
                        nav@,
                        refs@,
                        #[trigger] steps[k],
                    )
                &&& forall|g: int|
                    0 <= g < nav@.len() && final(self).visible@[g] && !old(self).visible@[g]
                        ==> steps_reach(steps, g)
            }),
            chains_kept(
                final(self).crossings@.subrange(
                    old(self).crossings@.len() as int,
                    final(self).crossings@.len() as int,
                ),
                nav@,
                final(self).interior_fog@,
            ),
            forall|g: int|
                0 <= g < nav@.len() && #[trigger] final(self).interior_fog@[g] && !old(
                    self,
                ).interior_fog@[g] ==> fog_reached(
                    final(self).interior_fog@,
                    old(stack)@,
                    final(self).crossings@.subrange(
                        old(self).crossings@.len() as int,
                        final(self).crossings@.len() as int,
                    ),
                    refs@,
                    nav@,
                    g,
                ),
            forall|p: int|
                0 <= p < old(self).portal_pushed@.len() && old(self).portal_pushed@[p]
                    ==> final(self).portal_pushed@[p],
            final(self).windows@.len() + count_unset(final(self).portal_pushed@) == old(
                self,
            ).windows@.len() + count_unset(old(self).portal_pushed@),
            old(self).windows@.is_prefix_of(final(self).windows@),
            !record_windows ==> final(self).windows@ == old(self).windows@
                && final(self).portal_pushed@ == old(self).portal_pushed@,
    {
        let ghost roots = stack@;
        let ghost v0 = self.visible@;
        let ghost f0 = self.interior_fog@;
        let ghost w0 = self.windows@;
        let ghost p0 = self.portal_pushed@;
        let ghost it0 = self.iters;
        let ghost cr0 = self.crossings@;
        let ghost c0 = self.crossings@.len() as int;
        let ghost mut popped: int = 0;
        while stack.len() > 0
            invariant
                flood_wf(*self, nav@),
                self.iters >= it0,
                self.portal_pushed@.len() == p0.len(),
                v0.len() == nav@.len(),
                f0.len() == nav@.len(),
                forall|g: int| 0 <= g < nav@.len() && v0[g] ==> self.visible@[g],
                forall|g: int| 0 <= g < nav@.len() && f0[g] ==> self.interior_fog@[g],
                c0 == cr0.len(),
                c0 <= self.crossings@.len(),
                forall|i: int| 0 <= i < c0 ==> self.crossings@[i] == cr0[i],
                forall|i: int|
                    c0 <= i < self.crossings@.len() ==> crossing_sound(
                        #[trigger] self.crossings@[i],
                        self.visible@,
                        nav@,
                        refs@,
                    ),
                ({
                    let steps = roots + pushed_steps(
                        self.crossings@.subrange(c0, self.crossings@.len() as int),
                        refs@,
                        nav@,
                    );
                    &&& 0 <= popped
                    &&& popped + stack@.len() == steps.len()
                    &&& self.iters as int == capped_sum(it0 as int, popped)
                    &&& forall|k: int| 0 <= k < stack@.len() ==> steps.contains(#[trigger] stack@[k])
                    &&& forall|g: int|
                        0 <= g < nav@.len() && self.visible@[g] && !v0[g] ==> steps_reach(steps, g)
                    &&& self.iters <= MAX_ITERS ==> forall|k: int|
                        0 <= k < steps.len() ==> stack@.contains(#[trigger] steps[k]) || handled(
                            self.visible@,
                            self.interior_fog@,
                            self.crossings@,
                            nav@,
                            refs@,
                            steps[k],
                        )
                }),
                chains_kept(self.crossings@.subrange(c0, self.crossings@.len() as int), nav@, self.interior_fog@),
                forall|h: int|
                    0 <= h < nav@.len() && #[trigger] self.interior_fog@[h] && !f0[h] ==> fog_reached(
                        self.interior_fog@,
                        roots,
                        self.crossings@.subrange(c0, self.crossings@.len() as int),
                        refs@,
                        nav@,
                        h,
                    ),
                forall|p: int| 0 <= p < p0.len() && p0[p] ==> self.portal_pushed@[p],
                self.windows@.len() + count_unset(self.portal_pushed@) == w0.len() + count_unset(p0),
                w0.is_prefix_of(self.windows@),
                !record_windows ==> self.windows@ == w0 && self.portal_pushed@ == p0,
            decreases steps_left(self.iters), stack@.len(),
        {
            let ghost sp = stack@;
            let ghost vb = self.visible@;
            let ghost fb = self.interior_fog@;
            let ghost crb = self.crossings@;
            let ghost itb = self.iters;
            let ghost steps = roots + pushed_steps(
                self.crossings@.subrange(c0, self.crossings@.len() as int),
                refs@,
                nav@,
            );
            let step = stack.pop().unwrap();
            proof {
                assert(step == sp.last());
                assert(sp.contains(step)) by {
                    assert(sp[sp.len() - 1] == step);
                }
                assert(steps.contains(sp[sp.len() - 1]));
                assert forall|k: int| 0 <= k < stack@.len() implies stack@[k] == sp[k] by {}
                assert forall|k: int| 0 <= k < stack@.len() implies steps.contains(#[trigger] stack@[k]) by {
                    assert(stack@[k] == sp[k]);
                }
                popped = popped + 1;
            }
            let ghost old_left = steps_left(self.iters);
            self.iters = self.iters.saturating_add(1);
            let g = step.group;
            if self.iters > MAX_ITERS || g >= nav.len() {
                proof {
                    if self.iters <= MAX_ITERS {
                        assert forall|k: int| 0 <= k < steps.len() implies stack@.contains(
                            #[trigger] steps[k],
                        ) || handled(
                            self.visible@,
                            self.interior_fog@,
                            self.crossings@,
                            nav@,
                            refs@,
                            steps[k],
                        ) by {
                            if steps[k] != step && sp.contains(steps[k]) {
                                let m = choose|m: int| 0 <= m < sp.len() && sp[m] == steps[k];
                                assert(m < sp.len() - 1);
                                assert(stack@[m] == steps[k]);
                            }
                        }
                    }
                }
                continue;
            }
            let interior = nav[g].flags & (EXTERIOR | EXTERIOR_LIT) == 0;
            self.visible.set(g, true);
            if step.chain && interior {
                self.interior_fog.set(g, true);
            }
            proof {
                assert forall|h: int|
                    0 <= h < nav@.len() && #[trigger] self.interior_fog@[h] implies self.visible@[h]
                        && is_true_interior(nav@, h) by {}
                assert(entered(self.visible@, self.interior_fog@, nav@, step));
                assert(steps_reach(steps, g as int)) by {
                    let m = choose|m: int| 0 <= m < steps.len() && steps[m] == step;
                }
                let sub = self.crossings@.subrange(c0, self.crossings@.len() as int);
                assert forall|i: int|
                    0 <= i < sub.len() && (#[trigger] sub[i]).chain && is_true_interior(nav@, sub[i].from as int)
                        implies self.interior_fog@[sub[i].from as int] by {
                    assert(fb[sub[i].from as int]);
                }
                assert forall|h: int|
                    0 <= h < nav@.len() && #[trigger] self.interior_fog@[h] && !f0[h] implies fog_reached(
                        self.interior_fog@,
                        roots,
                        sub,
                        refs@,
                        nav@,
                        h,
                    ) by {
                    if fb[h] {
                        lemma_fog_reached_grows(fb, self.interior_fog@, roots, roots, sub, sub, refs@, nav@, h);
                    } else {
                        assert(h == g);
                        assert(step.chain && is_true_interior(nav@, g as int));
                        let m = choose|m: int| 0 <= m < steps.len() && steps[m] == step;
                        if m < roots.len() {
                            assert(roots[m] == step);
                            assert(roots.contains(step));
                        } else {
                            let ps = pushed_steps(sub, refs@, nav@);
                            assert(steps[m] == ps[m - roots.len()]);
                            lemma_pushed_member(sub, refs@, nav@, m - roots.len());
                            let i = choose|i: int|
                                0 <= i < sub.len() && sub[i].admitted is Some && ps[m - roots.len()]
                                    == pushed_step(#[trigger] sub[i], refs@, nav@);
                            assert(sub[i].chain && is_true_interior(nav@, sub[i].from as int));
                            assert(fb[sub[i].from as int]);
                            assert(sub.contains(sub[i]));
                            assert(chain_into(sub[i], refs@, nav@, self.interior_fog@, h));
                        }
                    }
                }
                assert(itb <= MAX_ITERS);
                assert forall|k: int| 0 <= k < steps.len() && !stack@.contains(#[trigger] steps[k])
                    && steps[k] != step implies handled(
                    self.visible@,
                    self.interior_fog@,
                    self.crossings@,
                    nav@,
                    refs@,
                    steps[k],
                ) by {
                    if sp.contains(steps[k]) {
                        let m = choose|m: int| 0 <= m < sp.len() && sp[m] == steps[k];
                        assert(m < sp.len() - 1);
                        assert(stack@[m] == steps[k]);
                    }
                    lemma_handled_grows(vb, fb, crb, self.visible@, self.interior_fog@, self.crossings@, nav@, refs@, steps[k]);
                }
                assert forall|i: int|
                    c0 <= i < self.crossings@.len() implies crossing_sound(
                        #[trigger] self.crossings@[i],
                        self.visible@,
                        nav@,
                        refs@,
                    ) by {
                    assert(crossing_sound(crb[i], vb, nav@, refs@));
                }
            }
            if step.depth >= DEPTH_CAP {
                proof {
                    assert(handled(self.visible@, self.interior_fog@, self.crossings@, nav@, refs@, step));
                }
                continue;
            }
            let chain_on = step.chain && interior;
            let start = nav[g].ref_start as usize;
            let count = nav[g].ref_count as usize;
            let end = if start + count <= refs.len() {
                start + count
            } else {
                refs.len()
            };
            let mut j = start;
            while j < end
                invariant
                    start <= j,
                    j <= end || end < start,
                    g < nav@.len(),
                    g == step.group,
                    chain_on == (step.chain && is_true_interior(nav@, g as int)),
                    self.visible@[g as int],
                    entered(self.visible@, self.interior_fog@, nav@, step),
                    start == nav@[g as int].ref_start,
                    end == ref_end(nav@, refs@, g as int),
                    step.depth < DEPTH_CAP,
                    flood_wf(*self, nav@),
                    self.iters >= it0,
                    self.iters <= MAX_ITERS,
                    steps_left(self.iters) < old_left,
                    self.portal_pushed@.len() == p0.len(),
                    v0.len() == nav@.len(),
                    f0.len() == nav@.len(),
                    forall|h: int| 0 <= h < nav@.len() && v0[h] ==> self.visible@[h],
                    forall|h: int| 0 <= h < nav@.len() && f0[h] ==> self.interior_fog@[h],
                    c0 == cr0.len(),
                    c0 <= self.crossings@.len(),
                    forall|i: int| 0 <= i < c0 ==> self.crossings@[i] == cr0[i],
                    forall|i: int|
                        c0 <= i < self.crossings@.len() ==> crossing_sound(
                            #[trigger] self.crossings@[i],
                            self.visible@,
                            nav@,
                            refs@,
                        ),
                    forall|jj: int|
                        start <= jj < j && eligible(refs@, jj, step.came) ==> exists|i: int|
                            0 <= i < self.crossings@.len() && #[trigger] tried_from(
                                self.crossings@[i],
                                step,
                                jj,
                            ),
                    ({
                        let steps = roots + pushed_steps(
                            self.crossings@.subrange(c0, self.crossings@.len() as int),
                            refs@,
                            nav@,
                        );
                        &&& 0 <= popped
                        &&& popped + stack@.len() == steps.len()
                        &&& self.iters as int == capped_sum(it0 as int, popped)
                        &&& forall|k: int| 0 <= k < stack@.len() ==> steps.contains(#[trigger] stack@[k])
                        &&& steps.contains(step)
                        &&& forall|h: int|
                            0 <= h < nav@.len() && self.visible@[h] && !v0[h] ==> steps_reach(steps, h)
                        &&& forall|k: int|
                            0 <= k < steps.len() ==> stack@.contains(#[trigger] steps[k]) || steps[k]
                                == step || handled(
                                self.visible@,
                                self.interior_fog@,
                                self.crossings@,
                                nav@,
                                refs@,
                                steps[k],
                            )
                    }),
                    chains_kept(self.crossings@.subrange(c0, self.crossings@.len() as int), nav@, self.interior_fog@),
                    forall|h: int|
                        0 <= h < nav@.len() && #[trigger] self.interior_fog@[h] && !f0[h] ==> fog_reached(
                            self.interior_fog@,
                            roots,
                            self.crossings@.subrange(c0, self.crossings@.len() as int),
                            refs@,
                            nav@,
                            h,
                        ),
                    forall|p: int| 0 <= p < p0.len() && p0[p] ==> self.portal_pushed@[p],
                    self.windows@.len() + count_unset(self.portal_pushed@) == w0.len()
                        + count_unset(p0),
                    w0.is_prefix_of(self.windows@),
                    !record_windows ==> self.windows@ == w0 && self.portal_pushed@ == p0,
                decreases end - j,
            {
                let r = refs[j];
                let to = r.group as usize;
                if r.group != 65535u16 && to != step.came {
                    let ghost crs = self.crossings@;
                    let ghost sb = stack@;
                    let ghost steps_b = roots + pushed_steps(crs.subrange(c0, crs.len() as int), refs@, nav@);
                    let answer = geo.cross(step.rect, g, r);
                    let c = Crossing {
                        from: g,
                        via: j,
                        rect: step.rect,
                        depth: step.depth,
                        chain: step.chain,
                        admitted: answer,
                    };
                    self.crossings.push(c);
                    proof {
                        lemma_pushed_steps_push(crs, c0, c, refs@, nav@);
                        assert(self.crossings@ == crs.push(c));
                        let sub0 = crs.subrange(c0, crs.len() as int);
                        let sub1 = self.crossings@.subrange(c0, self.crossings@.len() as int);
                        assert(sub1 =~= sub0.push(c));
                        lemma_push_contains(sub0, c);
                        assert forall|h: int|
                            0 <= h < nav@.len() && #[trigger] self.interior_fog@[h] && !f0[h] implies fog_reached(
                                self.interior_fog@,
                                roots,
                                sub1,
                                refs@,
                                nav@,
                                h,
                            ) by {
                            lemma_fog_reached_grows(self.interior_fog@, self.interior_fog@, roots, roots, sub0, sub1, refs@, nav@, h);
                        }
                        assert forall|i: int|
                            0 <= i < sub1.len() && (#[trigger] sub1[i]).chain && is_true_interior(nav@, sub1[i].from as int)
                                implies self.interior_fog@[sub1[i].from as int] by {
                            if i < sub0.len() {
                                assert(sub1[i] == sub0[i]);
                            }
                        }
                        assert(tried_from(self.crossings@[crs.len() as int], step, j as int));
                        assert forall|k: int| 0 <= k < steps_b.len() && !sb.contains(#[trigger] steps_b[k])
                            && steps_b[k] != step implies handled(
                            self.visible@,
                            self.interior_fog@,
                            self.crossings@,
                            nav@,
                            refs@,
                            steps_b[k],
                        ) by {
                            lemma_handled_grows(self.visible@, self.interior_fog@, crs, self.visible@, self.interior_fog@, self.crossings@, nav@, refs@, steps_b[k]);
                        }
                        assert forall|jj: int|
                            start <= jj < j + 1 && eligible(refs@, jj, step.came) implies exists|i: int|
                                0 <= i < self.crossings@.len() && #[trigger] tried_from(
                                    self.crossings@[i],
                                    step,
                                    jj,
                                ) by {
                            if jj < j {
                                let i = choose|i: int| 0 <= i < crs.len() && #[trigger] tried_from(crs[i], step, jj);
                                assert(tried_from(self.crossings@[i], step, jj));
                            }
                        }
                        assert forall|i: int|
                            c0 <= i < self.crossings@.len() implies crossing_sound(
                                #[trigger] self.crossings@[i],
                                self.visible@,
                                nav@,
                                refs@,
                            ) by {
                            if i < crs.len() {
                                assert(self.crossings@[i] == crs[i]);
                            }
                        }
                    }
                    match answer {
                        Some(inter) => {
                            if record_windows && opens_a_window(nav, to) {
                                let p = r.portal as usize;
                                if p < self.portal_pushed.len() && !self.portal_pushed[p] {
                                    proof {
                                        lemma_count_unset_set(self.portal_pushed@, p as int);
                                    }
                                    let ghost wb = self.windows@;
                                    self.portal_pushed.set(p, true);
                                    self.windows.push(inter);
                                    proof {
                                        assert(w0.is_prefix_of(self.windows@)) by {
                                            assert(w0.is_prefix_of(wb));
                                            assert forall|i: int| 0 <= i < w0.len() implies w0[i]
                                                == self.windows@[i] by {
                                                assert(self.windows@[i] == wb[i]);
                                            }
                                        }
                                    }
                                }
                            }
                            let ns = Step { group: to, came: g, rect: inter, depth: step.depth + 1, chain: chain_on };
                            proof {
                                assert(ns == pushed_step(c, refs@, nav@));
                            }
                            stack.push(ns);
                            proof {
                                let steps_n = steps_b.push(ns);
                                assert(roots + pushed_steps(self.crossings@.subrange(c0, self.crossings@.len() as int), refs@, nav@) =~= steps_n);
                                assert forall|k: int| 0 <= k < stack@.len() implies steps_n.contains(#[trigger] stack@[k]) by {
                                    if k < sb.len() {
                                        assert(stack@[k] == sb[k]);
                                        assert(steps_b.contains(sb[k]));
                                        let m = choose|m: int| 0 <= m < steps_b.len() && steps_b[m] == sb[k];
                                        assert(steps_n[m] == sb[k]);
                                    } else {
                                        assert(steps_n[steps_b.len() as int] == ns);
                                    }
                                }
                                assert(steps_n.contains(step)) by {
                                    let m = choose|m: int| 0 <= m < steps_b.len() && steps_b[m] == step;
                                    assert(steps_n[m] == step);
                                }
                                assert forall|h: int|
                                    0 <= h < nav@.len() && self.visible@[h] && !v0[h] implies steps_reach(steps_n, h) by {
                                    assert(steps_reach(steps_b, h));
                                    let m = choose|m: int| 0 <= m < steps_b.len() && #[trigger] steps_b[m].group == h;
                                    assert(steps_n[m] == steps_b[m]);
                                }
                                assert forall|k: int| 0 <= k < steps_n.len() implies stack@.contains(#[trigger] steps_n[k])
                                    || steps_n[k] == step || handled(
                                    self.visible@,
                                    self.interior_fog@,
                                    self.crossings@,
                                    nav@,
                                    refs@,
                                    steps_n[k],
                                ) by {
                                    if k == steps_b.len() {
                                        assert(stack@[sb.len() as int] == ns);
                                    } else {
                                        assert(steps_n[k] == steps_b[k]);
                                        if sb.contains(steps_b[k]) {
                                            let m = choose|m: int| 0 <= m < sb.len() && sb[m] == steps_b[k];
                                            assert(stack@[m] == steps_b[k]);
                                        }
                                    }
                                }
                            }
                        },
                        None => {
                            proof {
                                assert(roots + pushed_steps(self.crossings@.subrange(c0, self.crossings@.len() as int), refs@, nav@) =~= steps_b);
                            }
                        },
                    }
                }
                j = j + 1;
            }
            proof {
                assert(explored(self.crossings@, nav@, refs@, step));
                assert(handled(self.visible@, self.interior_fog@, self.crossings@, nav@, refs@, step));
            }
        }
        proof {
            assert(self.crossings@.subrange(0, c0) =~= cr0);
        }
    }
}

/// One deferred window's test of one candidate group: whether the group shows through it.
#[derive(Clone, Copy, Debug)]
pub struct Admission {
    pub window: usize,
    pub group: usize,
    pub shown: bool,
}

/// What one flood publishes: this frame's PVS and interior-fog bits per group, the deferred
/// exterior windows, the walk steps taken, and the frame's trace: the roots every walk started
/// from, every portal crossing tried with the geometry's answer, and every window test.
pub struct GroupPvs<R> {
    pub visible: Vec<bool>,
    pub interior_fog: Vec<bool>,
    pub windows: Vec<R>,
    pub iters: u32,
    pub roots: Vec<Step<R>>,
    pub crossings: Vec<Crossing<R>>,
    pub admissions: Vec<Admission>,
}

/// A seed root: on the inside leg the camera's group or the one across a portal it stands in,
/// on the interior chain; on the outside leg an EXTERIOR group, off the chain.
pub open spec fn seed_root<R>(s: Step<R>, seeds: DownRaySeeds, nav: Seq<WmoGroupNav>) -> bool {
    ||| (seeds.in_group matches Some(c) && (s.group == c || seeds.across == Some(s.group)) && s.chain)
    ||| (seeds.in_group is None && is_exterior_group(nav, s.group as int) && !s.chain)
}

/// Group `g` is one of the camera's containing groups: the down-ray's group or the one across the
/// portal the camera stands in.
pub open spec fn camera_group(seeds: DownRaySeeds, g: int) -> bool {
    match seeds.in_group {
        Some(c) => c as int == g || (seeds.across matches Some(a) && a as int == g),
        None => false,
    }
}

/// A root some walk started from: full depth budget, no entry portal, and either a seed root or
/// a group a deferred window showed, carrying that window.
pub open spec fn root_ok<R>(
    s: Step<R>,
    seeds: DownRaySeeds,
    nav: Seq<WmoGroupNav>,
    windows: Seq<R>,
    adm: Seq<Admission>,
) -> bool {
    &&& s.came == usize::MAX
    &&& s.depth == 0
    &&& (seed_root(s, seeds, nav) || exists|i: int|
        0 <= i < adm.len() && #[trigger] adm[i].shown && adm[i].group == s.group && adm[i].window
            < windows.len() && s.rect == windows[adm[i].window as int] && !s.chain)
}

/// Some root enters group `g` on the chain or off it, as `chain` says.
pub open spec fn rooted<R>(roots: Seq<Step<R>>, g: int, chain: bool) -> bool {
    exists|k: int| 0 <= k < roots.len() && #[trigger] roots[k].group == g && roots[k].chain == chain
}

/// A pass-two candidate: an EXTERIOR group without the callback flag.
pub open spec fn window_candidate(nav: Seq<WmoGroupNav>, g: int) -> bool {
    is_exterior_group(nav, g) && nav[g].flags & CALLBACK_PASS == 0
}

/// Some window test at or past index `lo` showed `r`'s group through window `w`.
pub open spec fn shown_root<R>(adm: Seq<Admission>, lo: int, r: Step<R>, w: int) -> bool {
    exists|i: int| lo <= i < adm.len() && adm[i].shown && adm[i].group == r.group && adm[i].window == w
}

/// Window `w` was tested against group `g`.
pub open spec fn tested(adm: Seq<Admission>, w: int, g: int) -> bool {
    exists|i: int| 0 <= i < adm.len() && #[trigger] adm[i].window == w && adm[i].group == g
}

/// What a frame's flood guarantees of what it publishes.
///
/// - One bit per group; a fogged group is a drawn true interior; at most one window per portal,
///   and none unless a non-EXTERIOR group claims the camera.
/// - The trace: every crossing tried leaves a drawn group through a reference of its slice;
///   every root is a seed root or a group a window showed; the seed's groups are roots (on the
///   outside leg, every EXTERIOR group); every window was tested against every pass-two
///   candidate, and each group it showed is a root carrying it.
/// - The step counter is exactly the roots plus the admitted crossings, capped.
/// - Unless the backstop tripped, every root and every admitted crossing's step was taken in
///   full: entered, and below the depth cap, every portal of its group tried.
/// - A drawn group is a root's, an admitted crossing's, or a callback group the frustum holds;
///   and every callback group the frustum holds is drawn.
pub open spec fn pvs_sound<R>(
    pvs: GroupPvs<R>,
    nav: Seq<WmoGroupNav>,
    refs: Seq<WmoPortalRef>,
    portals: usize,
    seeds: DownRaySeeds,
    framed: Seq<bool>,
) -> bool {
    let v = pvs.visible@;
    let fog = pvs.interior_fog@;
    let rs = pvs.roots@;
    let cr = pvs.crossings@;
    let adm = pvs.admissions@;
    let steps = rs + pushed_steps(cr, refs, nav);
    &&& v.len() == nav.len()
    &&& fog.len() == nav.len()
    &&& forall|g: int| 0 <= g < nav.len() && #[trigger] fog[g] ==> v[g] && is_true_interior(nav, g)
    &&& pvs.windows@.len() <= portals
    &&& !crate::portal::claims_spec(nav, seeds.in_group) ==> pvs.windows@.len() == 0
    &&& forall|i: int| 0 <= i < cr.len() ==> crossing_sound(#[trigger] cr[i], v, nav, refs)
    &&& forall|k: int| 0 <= k < rs.len() ==> root_ok(#[trigger] rs[k], seeds, nav, pvs.windows@, adm)
    &&& (seeds.in_group matches Some(c) ==> rooted(rs, c as int, true))
    &&& (seeds.in_group is Some && seeds.across is Some ==> rooted(rs, seeds.across->0 as int, true))
    &&& (seeds.in_group is None ==> forall|g: int| #[trigger] is_exterior_group(nav, g) ==> rooted(rs, g, false))
    &&& forall|i: int|
        0 <= i < adm.len() ==> (#[trigger] adm[i]).window < pvs.windows@.len() && window_candidate(
            nav,
            adm[i].group as int,
        )
    &&& forall|i: int|
        0 <= i < adm.len() && #[trigger] adm[i].shown ==> exists|k: int|
            0 <= k < rs.len() && rs[k].group == adm[i].group && rs[k].rect
                == pvs.windows@[adm[i].window as int] && !rs[k].chain
    &&& forall|w: int, g: int|
        0 <= w < pvs.windows@.len() && window_candidate(nav, g) ==> #[trigger] tested(adm, w, g)
    &&& pvs.iters as int == capped_sum(0, steps.len() as int)
    &&& pvs.iters <= MAX_ITERS ==> forall|k: int|
        0 <= k < steps.len() ==> handled(v, fog, cr, nav, refs, #[trigger] steps[k])
    &&& forall|g: int|
        0 <= g < nav.len() && #[trigger] v[g] ==> steps_reach(steps, g) || (nav[g].flags
            & CALLBACK_PASS != 0 && g < framed.len() && framed[g])
    &&& forall|g: int|
        0 <= g < nav.len() && nav[g].flags & CALLBACK_PASS != 0 && g < framed.len()
            && #[trigger] framed[g] ==> v[g]
    &&& forall|i: int|
        0 <= i < cr.len() && (#[trigger] cr[i]).chain && is_true_interior(nav, cr[i].from as int)
            ==> fog[cr[i].from as int]
    &&& forall|g: int|
        0 <= g < nav.len() && #[trigger] fog[g] ==> camera_group(seeds, g) || exists|i: int|
            0 <= i < cr.len() && (#[trigger] cr[i]).admitted is Some && refs[cr[i].via as int].group == g
                && cr[i].chain && is_true_interior(nav, cr[i].from as int) && fog[cr[i].from as int]
}

/// The pushed steps of two runs of crossings are the first run's, then the second's.
proof fn lemma_pushed_steps_concat<R>(
    a: Seq<Crossing<R>>,
    b: Seq<Crossing<R>>,
    refs: Seq<WmoPortalRef>,
    nav: Seq<WmoGroupNav>,
)
    ensures
        pushed_steps(a + b, refs, nav) == pushed_steps(a, refs, nav) + pushed_steps(b, refs, nav),
    decreases b.len(),
{
    if b.len() == 0 {
        assert(a + b =~= a);
        assert(pushed_steps(a, refs, nav) + pushed_steps(b, refs, nav) =~= pushed_steps(a, refs, nav));
    } else {
        lemma_pushed_steps_concat(a, b.drop_last(), refs, nav);
        assert((a + b).drop_last() =~= a + b.drop_last());
        assert((a + b).last() == b.last());
        if b.last().admitted is Some {
            assert(pushed_steps(a, refs, nav) + pushed_steps(b, refs, nav) =~= (pushed_steps(a, refs, nav)
                + pushed_steps(b.drop_last(), refs, nav)).push(pushed_step(b.last(), refs, nav)));
        } else {
            assert(pushed_steps(a, refs, nav) + pushed_steps(b, refs, nav) =~= pushed_steps(a, refs, nav)
                + pushed_steps(b.drop_last(), refs, nav));
        }
    }
}

/// What a frame's walks have done so far: the sets, the crossings tried, the step count and
/// the steps taken in full.
pub open spec fn frame_walked<R>(
    f: Flood<R>,
    rs: Seq<Step<R>>,
    nav: Seq<WmoGroupNav>,
    refs: Seq<WmoPortalRef>,
) -> bool {
    let steps = rs + pushed_steps(f.crossings@, refs, nav);
    &&& flood_wf(f, nav)
    &&& forall|i: int| 0 <= i < f.crossings@.len() ==> crossing_sound(#[trigger] f.crossings@[i], f.visible@, nav, refs)
    &&& f.iters as int == capped_sum(0, steps.len() as int)
    &&& f.iters <= MAX_ITERS ==> forall|k: int|
        0 <= k < steps.len() ==> handled(f.visible@, f.interior_fog@, f.crossings@, nav, refs, #[trigger] steps[k])
    &&& chains_kept(f.crossings@, nav, f.interior_fog@)
    &&& forall|g: int|
        0 <= g < nav.len() && #[trigger] f.interior_fog@[g] ==> fog_reached(
            f.interior_fog@,
            rs,
            f.crossings@,
            refs,
            nav,
            g,
        )
}

/// Everything a frame's walks have done so far, and nothing drawn but by a step.
pub open spec fn frame_so_far<R>(
    f: Flood<R>,
    rs: Seq<Step<R>>,
    nav: Seq<WmoGroupNav>,
    refs: Seq<WmoPortalRef>,
) -> bool {
    &&& frame_walked(f, rs, nav, refs)
    &&& forall|g: int|
        0 <= g < nav.len() && #[trigger] f.visible@[g] ==> steps_reach(rs + pushed_steps(f.crossings@, refs, nav), g)
}

/// One more walk from `ws` keeps the frame's account: its roots join the frame's, its crossings
/// follow the frame's.
proof fn lemma_walk_extends<R>(
    f1: Flood<R>,
    f2: Flood<R>,
    rs: Seq<Step<R>>,
    ws: Seq<Step<R>>,
    nav: Seq<WmoGroupNav>,
    refs: Seq<WmoPortalRef>,
)
    requires
        frame_so_far(f1, rs, nav, refs),
        flood_wf(f2, nav),
        f2.iters >= f1.iters,
        forall|g: int| 0 <= g < nav.len() && f1.visible@[g] ==> f2.visible@[g],
        forall|g: int| 0 <= g < nav.len() && f1.interior_fog@[g] ==> f2.interior_fog@[g],
        f1.crossings@.len() <= f2.crossings@.len(),
        forall|i: int| 0 <= i < f1.crossings@.len() ==> f2.crossings@[i] == f1.crossings@[i],
        forall|i: int|
            f1.crossings@.len() <= i < f2.crossings@.len() ==> crossing_sound(
                #[trigger] f2.crossings@[i],
                f2.visible@,
                nav,
                refs,
            ),
        ({
            let wsteps = ws + pushed_steps(
                f2.crossings@.subrange(f1.crossings@.len() as int, f2.crossings@.len() as int),
                refs,
                nav,
            );
            &&& f2.iters as int == capped_sum(f1.iters as int, wsteps.len() as int)
            &&& f2.iters <= MAX_ITERS ==> forall|k: int|
                0 <= k < wsteps.len() ==> handled(
                    f2.visible@,
                    f2.interior_fog@,
                    f2.crossings@,
                    nav,
                    refs,
                    #[trigger] wsteps[k],
                )
            &&& forall|g: int|
                0 <= g < nav.len() && #[trigger] f2.visible@[g] && !f1.visible@[g] ==> steps_reach(wsteps, g)
        }),
        chains_kept(
            f2.crossings@.subrange(f1.crossings@.len() as int, f2.crossings@.len() as int),
            nav,
            f2.interior_fog@,
        ),
        forall|g: int|
            0 <= g < nav.len() && #[trigger] f2.interior_fog@[g] && !f1.interior_fog@[g] ==> fog_reached(
                f2.interior_fog@,
                ws,
                f2.crossings@.subrange(f1.crossings@.len() as int, f2.crossings@.len() as int),
                refs,
                nav,
                g,
            ),
    ensures
        frame_so_far(f2, rs + ws, nav, refs),
{
    let c1 = f1.crossings@;
    let c2 = f2.crossings@;
    let nb = c2.subrange(c1.len() as int, c2.len() as int);
    assert(c2 =~= c1 + nb);
    lemma_pushed_steps_concat(c1, nb, refs, nav);
    let pa = pushed_steps(c1, refs, nav);
    let pb = pushed_steps(nb, refs, nav);
    let s1 = rs + pa;
    let ws2 = ws + pb;
    let s2 = (rs + ws) + pushed_steps(c2, refs, nav);
    assert(s2 =~= (rs + ws) + (pa + pb));
    assert forall|i: int| 0 <= i < c2.len() implies crossing_sound(#[trigger] c2[i], f2.visible@, nav, refs) by {
        if i < c1.len() {
            assert(crossing_sound(c1[i], f1.visible@, nav, refs));
        }
    }
    if f2.iters <= MAX_ITERS {
        assert(f1.iters <= MAX_ITERS);
        assert forall|k: int| 0 <= k < s2.len() implies handled(
            f2.visible@,
            f2.interior_fog@,
            c2,
            nav,
            refs,
            #[trigger] s2[k],
        ) by {
            if k < rs.len() {
                assert(s2[k] == s1[k]);
                lemma_handled_grows(f1.visible@, f1.interior_fog@, c1, f2.visible@, f2.interior_fog@, c2, nav, refs, s1[k]);
            } else if k < rs.len() + ws.len() {
                assert(s2[k] == ws2[k - rs.len()]);
            } else if k < rs.len() + ws.len() + pa.len() {
                assert(s2[k] == s1[k - ws.len()]);
                lemma_handled_grows(f1.visible@, f1.interior_fog@, c1, f2.visible@, f2.interior_fog@, c2, nav, refs, s1[k - ws.len()]);
            } else {
                assert(s2[k] == ws2[k - rs.len() - pa.len()]);
            }
        }
    }
    assert forall|i: int|
        0 <= i < c2.len() && (#[trigger] c2[i]).chain && is_true_interior(nav, c2[i].from as int)
            implies f2.interior_fog@[c2[i].from as int] by {
        if i < c1.len() {
            assert(c2[i] == c1[i]);
            assert(f1.interior_fog@[c1[i].from as int]);
        } else {
            assert(c2[i] == nb[i - c1.len()]);
        }
    }
    assert forall|s: Step<R>| rs.contains(s) implies (rs + ws).contains(s) by {
        let k = choose|k: int| 0 <= k < rs.len() && rs[k] == s;
        assert((rs + ws)[k] == s);
    }
    assert forall|s: Step<R>| ws.contains(s) implies (rs + ws).contains(s) by {
        let k = choose|k: int| 0 <= k < ws.len() && ws[k] == s;
        assert((rs + ws)[rs.len() + k] == s);
    }
    assert forall|c: Crossing<R>| c1.contains(c) implies c2.contains(c) by {
        let k = choose|k: int| 0 <= k < c1.len() && c1[k] == c;
        assert(c2[k] == c);
    }
    assert forall|c: Crossing<R>| nb.contains(c) implies c2.contains(c) by {
        let k = choose|k: int| 0 <= k < nb.len() && nb[k] == c;
        assert(c2[c1.len() + k] == c);
    }
    assert forall|g: int| 0 <= g < nav.len() && #[trigger] f2.interior_fog@[g] implies fog_reached(
        f2.interior_fog@,
        rs + ws,
        c2,
        refs,
        nav,
        g,
    ) by {
        if f1.interior_fog@[g] {
            lemma_fog_reached_grows(f1.interior_fog@, f2.interior_fog@, rs, rs + ws, c1, c2, refs, nav, g);
        } else {
            lemma_fog_reached_grows(f2.interior_fog@, f2.interior_fog@, ws, rs + ws, nb, c2, refs, nav, g);
        }
    }
    assert forall|g: int| 0 <= g < nav.len() && #[trigger] f2.visible@[g] implies steps_reach(s2, g) by {
        if f1.visible@[g] {
            let k = choose|k: int| 0 <= k < s1.len() && #[trigger] s1[k].group == g;
            if k < rs.len() {
                assert(s2[k] == s1[k]);
            } else {
                assert(s2[k + ws.len()] == s1[k]);
            }
        } else {
            let k = choose|k: int| 0 <= k < ws2.len() && #[trigger] ws2[k].group == g;
            if k < ws.len() {
                assert(ws2[k] == ws[k]);
                assert((rs + ws)[rs.len() + k] == ws[k]);
                assert(s2[rs.len() + k] == ws2[k]);
            } else {
                assert(ws2[k] == pb[k - ws.len()]);
                assert((pa + pb)[pa.len() + k - ws.len()] == pb[k - ws.len()]);
                assert(s2[rs.len() + pa.len() + k] == ws2[k]);
            }
        }
    }
}

/// The portal flood of one placement for one frame. The seed's groups are walked first, each a
/// full-screen root (over no surface, every EXTERIOR group is); only on the inside leg (the
/// camera claimed by a non-EXTERIOR group) does that walk record deferred windows. Each window
/// is then tested against every EXTERIOR, non-callback group, and the walk replayed from each it
/// shows; last, each callback-pass group the walks left dark is drawn if it lies in the camera
/// frustum (`framed`, per group, the caller's frustum test of its box).
pub fn compute_pvs<R: Copy, G: FloodGeometry<R>>(
    nav: &[WmoGroupNav],
    refs: &[WmoPortalRef],
    portals: usize,
    seeds: DownRaySeeds,
    framed: &[bool],
    geo: &mut G,
) -> (pvs: GroupPvs<R>)
    ensures
        pvs_sound(pvs, nav@, refs@, portals, seeds, framed@),
{
    let mut flood: Flood<R> = Flood::new(nav.len(), portals);
    let full = geo.full_screen();
    let inside_leg = crate::portal::claims_camera(nav, seeds.in_group);
    let mut stack: Vec<Step<R>> = Vec::new();
    match seeds.in_group {
        Some(c) => {
            stack.push(Step { group: c, came: usize::MAX, rect: full, depth: 0, chain: true });
            if let Some(a) = seeds.across {
                stack.push(Step { group: a, came: usize::MAX, rect: full, depth: 0, chain: true });
            }
        },
        None => {
            let roots = crate::portal::outside_roots(nav);
            let mut i: usize = 0;
            while i < roots.len()
                invariant
                    0 <= i <= roots@.len(),
                    roots@ == crate::portal::groups_where(nav@, crate::portal::outside_root_flags()),
                    stack@.len() == i,
                    forall|k: int| 0 <= k < i ==> #[trigger] stack@[k] == (Step {
                        group: roots@[k],
                        came: usize::MAX,
                        rect: full,
                        depth: 0,
                        chain: false,
                    }),
                decreases roots@.len() - i,
            {
                stack.push(Step { group: roots[i], came: usize::MAX, rect: full, depth: 0, chain: false });
                i = i + 1;
            }
        },
    }
    let mut trace_roots: Vec<Step<R>> = copy_steps(&stack);
    let ghost seeded = stack@;
    proof {
        assert(count_unset(flood.portal_pushed@) == portals) by {
            lemma_count_unset_all(portals as nat);
        }
        assert(seeded == trace_roots@);
        match seeds.in_group {
            Some(c) => {
                assert(seeded[0].group == c && seeded[0].chain);
                assert(rooted(seeded, c as int, true));
                if seeds.across is Some {
                    assert(seeded[1].group == seeds.across.unwrap() && seeded[1].chain);
                    assert(rooted(seeded, seeds.across.unwrap() as int, true));
                }
            },
            None => {
                let gw = crate::portal::groups_where(nav@, crate::portal::outside_root_flags());
                assert forall|g: int| #[trigger] is_exterior_group(nav@, g) implies rooted(seeded, g, false) by {
                    lemma_groups_where_complete(nav@, crate::portal::outside_root_flags(), g);
                    let k = choose|k: int| 0 <= k < gw.len() && gw[k] == g;
                    assert(seeded[k].group == g && !seeded[k].chain);
                }
                assert forall|k: int| 0 <= k < seeded.len() implies is_exterior_group(nav@, #[trigger] seeded[k].group as int) by {
                    assert(gw[k] == seeded[k].group);
                    assert(gw.contains(seeded[k].group));
                    lemma_outside_root_is_exterior(nav@, seeded[k].group);
                }
            },
        }
        assert forall|k: int| 0 <= k < seeded.len() implies seed_root(#[trigger] seeded[k], seeds, nav@)
            && seeded[k].came == usize::MAX && seeded[k].depth == 0 by {}
        assert(frame_so_far(flood, Seq::<Step<R>>::empty(), nav@, refs@)) by {
            assert(Seq::<Step<R>>::empty() + pushed_steps(flood.crossings@, refs@, nav@) =~= Seq::<Step<R>>::empty());
        }
    }
    let ghost fl0 = flood;
    flood.walk(nav, refs, &mut stack, inside_leg, geo);
    proof {
        assert(fl0.crossings@.len() == 0);
        lemma_walk_extends(fl0, flood, Seq::<Step<R>>::empty(), seeded, nav@, refs@);
        assert(Seq::<Step<R>>::empty() + seeded =~= trace_roots@);
        assert(flood.windows@.len() <= portals);
    }
    let mut worklist: Vec<R> = Vec::new();
    std::mem::swap(&mut worklist, &mut flood.windows);
    let candidates = crate::portal::pass2_candidates(nav);
    let mut admissions: Vec<Admission> = Vec::new();
    let mut w: usize = 0;
    while w < worklist.len()
        invariant
            0 <= w <= worklist@.len(),
            nav@.len() <= usize::MAX,
            worklist@.len() <= portals,
            !crate::portal::claims_spec(nav@, seeds.in_group) ==> worklist@.len() == 0,
            candidates@ == crate::portal::groups_where(nav@, crate::portal::pass2_flags()),
            frame_so_far(flood, trace_roots@, nav@, refs@),
            forall|k: int| 0 <= k < trace_roots@.len() ==> root_ok(#[trigger] trace_roots@[k], seeds, nav@, worklist@, admissions@),
            forall|k: int| 0 <= k < seeded.len() ==> trace_roots@[k] == seeded[k],
            seeded.len() <= trace_roots@.len(),
            seeds.in_group matches Some(c) ==> rooted(seeded, c as int, true),
            seeds.in_group is Some && seeds.across is Some ==> rooted(seeded, seeds.across->0 as int, true),
            seeds.in_group is None ==> forall|g: int| #[trigger] is_exterior_group(nav@, g) ==> rooted(seeded, g, false),
            forall|i: int|
                0 <= i < admissions@.len() ==> (#[trigger] admissions@[i]).window < w
                    && window_candidate(nav@, admissions@[i].group as int),
            forall|i: int|
                0 <= i < admissions@.len() && #[trigger] admissions@[i].shown ==> exists|k: int|
                    0 <= k < trace_roots@.len() && trace_roots@[k].group == admissions@[i].group
                        && trace_roots@[k].rect == worklist@[admissions@[i].window as int]
                        && !trace_roots@[k].chain,
            forall|ww: int, g: int|
                0 <= ww < w && window_candidate(nav@, g) ==> #[trigger] tested(admissions@, ww, g),
        decreases worklist@.len() - w,
    {
        let rect = worklist[w];
        let mut roots: Vec<Step<R>> = Vec::new();
        let ghost tr0 = trace_roots@;
        let ghost ad0 = admissions@;
        let mut c: usize = 0;
        while c < candidates.len()
            invariant
                0 <= c <= candidates@.len(),
                w < worklist@.len(),
                rect == worklist@[w as int],
                nav@.len() <= usize::MAX,
                candidates@ == crate::portal::groups_where(nav@, crate::portal::pass2_flags()),
                trace_roots@ == tr0 + roots@,
                admissions@.len() >= ad0.len(),
                forall|i: int| 0 <= i < ad0.len() ==> admissions@[i] == ad0[i],
                forall|k: int|
                    0 <= k < roots@.len() ==> (#[trigger] roots@[k]).came == usize::MAX && roots@[k].depth == 0
                        && !roots@[k].chain && roots@[k].rect == rect && shown_root(
                        admissions@,
                        ad0.len() as int,
                        roots@[k],
                        w as int,
                    ),
                forall|i: int|
                    ad0.len() <= i < admissions@.len() ==> (#[trigger] admissions@[i]).window == w
                        && window_candidate(nav@, admissions@[i].group as int),
                forall|i: int|
                    ad0.len() <= i < admissions@.len() && #[trigger] admissions@[i].shown ==> exists|k: int|
                        0 <= k < roots@.len() && roots@[k].group == admissions@[i].group,
                forall|k: int| 0 <= k < c ==> #[trigger] tested(admissions@, w as int, candidates@[k] as int),
            decreases candidates@.len() - c,
        {
            let cand = candidates[c];
            proof {
                lemma_pass2_member(nav@, c as int);
            }
            let shown = geo.in_window(rect, cand);
            let ghost adb = admissions@;
            admissions.push(Admission { window: w, group: cand, shown });
            proof {
                assert forall|k: int| 0 <= k < roots@.len() implies shown_root(
                    admissions@,
                    ad0.len() as int,
                    #[trigger] roots@[k],
                    w as int,
                ) by {
                    assert(shown_root(adb, ad0.len() as int, roots@[k], w as int));
                    let i = choose|i: int|
                        ad0.len() <= i < adb.len() && adb[i].shown && adb[i].group == roots@[k].group
                            && adb[i].window == w;
                    assert(admissions@[i] == adb[i]);
                }
                assert(admissions@[adb.len() as int].window == w && admissions@[adb.len() as int].group == cand);
                assert(tested(admissions@, w as int, cand as int));
                assert forall|k: int| 0 <= k < c implies #[trigger] tested(admissions@, w as int, candidates@[k] as int) by {
                    assert(tested(adb, w as int, candidates@[k] as int));
                    let i = choose|i: int| 0 <= i < adb.len() && #[trigger] adb[i].window == w && adb[i].group == candidates@[k];
                    assert(admissions@[i] == adb[i]);
                }
            }
            if shown {
                let st = Step { group: cand, came: usize::MAX, rect, depth: 0, chain: false };
                let ghost rb = roots@;
                roots.push(st);
                trace_roots.push(st);
                proof {
                    assert(trace_roots@ =~= tr0 + roots@);
                    let ni = adb.len() as int;
                    assert(admissions@[ni].shown && admissions@[ni].group == cand && admissions@[ni].window == w);
                    assert(roots@[roots@.len() - 1].group == cand);
                    assert forall|k: int| 0 <= k < roots@.len() implies (#[trigger] roots@[k]).came == usize::MAX
                        && roots@[k].depth == 0 && !roots@[k].chain && roots@[k].rect == rect && shown_root(
                        admissions@,
                        ad0.len() as int,
                        roots@[k],
                        w as int,
                    ) by {
                        if k == roots@.len() - 1 {
                            assert(ad0.len() <= ni < admissions@.len());
                        }
                    }
                    assert forall|i: int|
                        ad0.len() <= i < admissions@.len() && #[trigger] admissions@[i].shown implies exists|k: int|
                            0 <= k < roots@.len() && roots@[k].group == admissions@[i].group by {
                        if i == ni {
                            assert(roots@[roots@.len() - 1].group == admissions@[i].group);
                        } else {
                            assert(admissions@[i] == adb[i]);
                            assert(adb[i].shown);
                            let k = choose|k: int| 0 <= k < rb.len() && rb[k].group == adb[i].group;
                            assert(roots@[k] == rb[k]);
                            assert(roots@[k].group == admissions@[i].group);
                        }
                    }
                }
            }
            c = c + 1;
        }
        proof {
            assert forall|ww: int, g: int|
                0 <= ww < w + 1 && window_candidate(nav@, g) implies #[trigger] tested(admissions@, ww, g) by {
                if ww < w {
                    assert(tested(ad0, ww, g));
                    let i = choose|i: int| 0 <= i < ad0.len() && #[trigger] ad0[i].window == ww && ad0[i].group == g;
                    assert(admissions@[i] == ad0[i]);
                } else {
                    let f = nav@[g].flags;
                    assert(f & 0x8u32 != 0 && f & 0x10000u32 == 0 ==> f & (0x8u32 | 0x10000u32) == 0x8u32)
                        by (bit_vector);
                    lemma_groups_where_complete(nav@, crate::portal::pass2_flags(), g);
                    let k = choose|k: int| 0 <= k < candidates@.len() && candidates@[k] == g;
                    assert(tested(admissions@, w as int, candidates@[k] as int));
                }
            }
            assert forall|k: int| 0 <= k < trace_roots@.len() implies root_ok(#[trigger] trace_roots@[k], seeds, nav@, worklist@, admissions@) by {
                if k < tr0.len() {
                    assert(trace_roots@[k] == tr0[k]);
                    assert(root_ok(tr0[k], seeds, nav@, worklist@, ad0));
                    if !seed_root(tr0[k], seeds, nav@) {
                        let i = choose|i: int|
                            0 <= i < ad0.len() && #[trigger] ad0[i].shown && ad0[i].group == tr0[k].group
                                && ad0[i].window < worklist@.len() && tr0[k].rect == worklist@[ad0[i].window as int]
                                && !tr0[k].chain;
                        assert(admissions@[i] == ad0[i]);
                    }
                } else {
                    let r = roots@[k - tr0.len()];
                    assert(trace_roots@[k] == r);
                    assert(shown_root(admissions@, ad0.len() as int, r, w as int));
                    let i = choose|i: int|
                        ad0.len() <= i < admissions@.len() && admissions@[i].shown && admissions@[i].group
                            == r.group && admissions@[i].window == w;
                    assert(admissions@[i].shown);
                }
            }
            assert forall|i: int|
                0 <= i < admissions@.len() && #[trigger] admissions@[i].shown implies exists|k: int|
                    0 <= k < trace_roots@.len() && trace_roots@[k].group == admissions@[i].group
                        && trace_roots@[k].rect == worklist@[admissions@[i].window as int]
                        && !trace_roots@[k].chain by {
                if i < ad0.len() {
                    assert(admissions@[i] == ad0[i]);
                    let k = choose|k: int|
                        0 <= k < tr0.len() && tr0[k].group == ad0[i].group && tr0[k].rect
                            == worklist@[ad0[i].window as int] && !tr0[k].chain;
                    assert(trace_roots@[k] == tr0[k]);
                } else {
                    let k = choose|k: int| 0 <= k < roots@.len() && roots@[k].group == admissions@[i].group;
                    assert(trace_roots@[tr0.len() + k] == roots@[k]);
                    assert(roots@[k].rect == rect);
                }
            }
            assert forall|i: int| 0 <= i < admissions@.len() implies (#[trigger] admissions@[i]).window < w + 1
                && window_candidate(nav@, admissions@[i].group as int) by {
                if i < ad0.len() {
                    assert(admissions@[i] == ad0[i]);
                }
            }
            assert forall|k: int| 0 <= k < seeded.len() implies trace_roots@[k] == seeded[k] by {
                assert(trace_roots@[k] == tr0[k]);
            }
        }
        let ghost rs = roots@;
        let ghost fb = flood;
        flood.walk(nav, refs, &mut roots, false, geo);
        proof {
            lemma_walk_extends(fb, flood, tr0, rs, nav@, refs@);
        }
        w = w + 1;
    }
    let ghost wl = worklist@;
    flood.windows = worklist;
    let mut g: usize = 0;
    while g < nav.len()
        invariant
            0 <= g <= nav@.len(),
            flood.windows@ == wl,
            flood.windows@.len() <= portals,
            !crate::portal::claims_spec(nav@, seeds.in_group) ==> flood.windows@.len() == 0,
            frame_walked(flood, trace_roots@, nav@, refs@),
            forall|h: int|
                0 <= h < g && nav@[h].flags & CALLBACK_PASS != 0 && h < framed@.len()
                    && #[trigger] framed@[h] ==> flood.visible@[h],
            forall|h: int|
                0 <= h < nav@.len() && #[trigger] flood.visible@[h] ==> steps_reach(
                    trace_roots@ + pushed_steps(flood.crossings@, refs@, nav@),
                    h,
                ) || (nav@[h].flags & CALLBACK_PASS != 0 && h < framed@.len() && framed@[h]),
        decreases nav@.len() - g,
    {
        if !flood.visible[g] && nav[g].flags & CALLBACK_PASS != 0 && g < framed.len() && framed[g] {
            let ghost fb = flood;
            flood.visible.set(g, true);
            proof {
                let steps = trace_roots@ + pushed_steps(flood.crossings@, refs@, nav@);
                assert forall|i: int| 0 <= i < flood.crossings@.len() implies crossing_sound(
                    #[trigger] flood.crossings@[i],
                    flood.visible@,
                    nav@,
                    refs@,
                ) by {
                    assert(crossing_sound(fb.crossings@[i], fb.visible@, nav@, refs@));
                }
                if flood.iters <= MAX_ITERS {
                    assert forall|k: int| 0 <= k < steps.len() implies handled(
                        flood.visible@,
                        flood.interior_fog@,
                        flood.crossings@,
                        nav@,
                        refs@,
                        #[trigger] steps[k],
                    ) by {
                        lemma_handled_grows(fb.visible@, fb.interior_fog@, fb.crossings@, flood.visible@, flood.interior_fog@, flood.crossings@, nav@, refs@, steps[k]);
                    }
                }
                assert forall|h: int| 0 <= h < nav@.len() && #[trigger] flood.visible@[h] implies steps_reach(steps, h)
                    || (nav@[h].flags & CALLBACK_PASS != 0 && h < framed@.len() && framed@[h]) by {
                    if h != g {
                        assert(fb.visible@[h]);
                    }
                }
            }
        }
        g = g + 1;
    }
    let pvs = GroupPvs {
        visible: flood.visible,
        interior_fog: flood.interior_fog,
        windows: flood.windows,
        iters: flood.iters,
        roots: trace_roots,
        crossings: flood.crossings,
        admissions,
    };
    proof {
        let rs = pvs.roots@;
        let cr = pvs.crossings@;
        let fog = pvs.interior_fog@;
        assert forall|g: int| 0 <= g < nav@.len() && #[trigger] fog[g] implies camera_group(seeds, g) || exists|i: int|
            0 <= i < cr.len() && (#[trigger] cr[i]).admitted is Some && refs@[cr[i].via as int].group == g
                && cr[i].chain && is_true_interior(nav@, cr[i].from as int) && fog[cr[i].from as int] by {
            assert(fog_reached(fog, rs, cr, refs@, nav@, g));
            if exists|s: Step<R>| #[trigger] rs.contains(s) && s.group == g && s.chain {
                let s = choose|s: Step<R>| #[trigger] rs.contains(s) && s.group == g && s.chain;
                let k = choose|k: int| 0 <= k < rs.len() && rs[k] == s;
                assert(root_ok(rs[k], seeds, nav@, pvs.windows@, pvs.admissions@));
            } else {
                let c = choose|c: Crossing<R>| #[trigger] cr.contains(c) && chain_into(c, refs@, nav@, fog, g);
                let i = choose|i: int| 0 <= i < cr.len() && cr[i] == c;
                assert(cr[i].admitted is Some);
            }
        }
        match seeds.in_group {
            Some(c) => {
                let k = choose|k: int| 0 <= k < seeded.len() && #[trigger] seeded[k].group == c && seeded[k].chain == true;
                assert(rs[k] == seeded[k]);
                if seeds.across is Some {
                    let a = seeds.across.unwrap();
                    let k2 = choose|k: int| 0 <= k < seeded.len() && #[trigger] seeded[k].group == a && seeded[k].chain == true;
                    assert(rs[k2] == seeded[k2]);
                }
            },
            None => {
                assert forall|h: int| #[trigger] is_exterior_group(nav@, h) implies rooted(rs, h, false) by {
                    let k = choose|k: int| 0 <= k < seeded.len() && #[trigger] seeded[k].group == h && seeded[k].chain == false;
                    assert(rs[k] == seeded[k]);
                }
            },
        }
    }
    pvs
}

/// Copies a stack of steps.
fn copy_steps<R: Copy>(s: &Vec<Step<R>>) -> (c: Vec<Step<R>>)
    ensures
        c@ == s@,
{
    let mut c: Vec<Step<R>> = Vec::new();
    let mut i: usize = 0;
    while i < s.len()
        invariant
            0 <= i <= s@.len(),
            c@ == s@.take(i as int),
        decreases s@.len() - i,
    {
        c.push(s[i]);
        proof {
            assert(c@ =~= s@.take(i + 1));
        }
        i = i + 1;
    }
    proof {
        assert(s@.take(i as int) =~= s@);
    }
    c
}

/// Copies a set of bits.
fn copy_bits(s: &Vec<bool>) -> (c: Vec<bool>)
    ensures
        c@ == s@,
{
    let mut c: Vec<bool> = Vec::new();
    let mut i: usize = 0;
    while i < s.len()
        invariant
            0 <= i <= s@.len(),
            c@ == s@.take(i as int),
        decreases s@.len() - i,
    {
        c.push(s[i]);
        proof {
            assert(c@ =~= s@.take(i + 1));
        }
        i = i + 1;
    }
    proof {
        assert(s@.take(i as int) =~= s@);
    }
    c
}

/// One placement's frame: a model without a portal graph (no portal references or no portals)
/// is held all-visible and fog-free, its liquid set untouched; any other is flooded, the result
/// published, and every group drawn this frame latched into the liquid set for good. Returns
/// whether the placement changed, and the flood (`None` for a held model).
pub fn flood_placement<R: Copy, G: FloodGeometry<R>>(
    inst: &mut WmoPortalInstance,
    nav: &[WmoGroupNav],
    refs: &[WmoPortalRef],
    portals: usize,
    seeds: DownRaySeeds,
    framed: &[bool],
    geo: &mut G,
) -> (r: (bool, Option<GroupPvs<R>>))
    ensures
        refs@.len() == 0 || portals == 0 ==> {
            &&& r.1 is None
            &&& final(inst).visible@ == Seq::new(nav@.len(), |i: int| true)
            &&& final(inst).interior_fog@ == Seq::new(nav@.len(), |i: int| false)
            &&& final(inst).liquid_visited@ == old(inst).liquid_visited@
        },
        refs@.len() > 0 && portals > 0 ==> {
            &&& r.1 is Some
            &&& pvs_sound(r.1->0, nav@, refs@, portals, seeds, framed@)
            &&& final(inst).visible@ == r.1->0.visible@
            &&& final(inst).interior_fog@ == r.1->0.interior_fog@
            &&& final(inst).liquid_visited@.len() == nav@.len()
            &&& forall|g: int|
                0 <= g < nav@.len() ==> #[trigger] final(inst).liquid_visited@[g] == ((
                old(inst).liquid_visited@.len() == nav@.len() && old(inst).liquid_visited@[g])
                    || final(inst).visible@[g])
        },
        final(inst).name_set == old(inst).name_set,
        r.0 == (old(inst).visible@ != final(inst).visible@ || old(inst).interior_fog@
            != final(inst).interior_fog@ || old(inst).liquid_visited@ != final(inst).liquid_visited@),
{
    let groups = nav.len();
    if refs.len() == 0 || portals == 0 {
        let changed = inst.hold_unculled(groups);
        return (changed, None);
    }
    let pvs = compute_pvs(nav, refs, portals, seeds, framed, geo);
    let vis = copy_bits(&pvs.visible);
    let fog = copy_bits(&pvs.interior_fog);
    let sets_changed = inst.publish(vis, fog);
    let ghost mid = *inst;
    let latched = inst.latch_liquid_visited(groups);
    proof {
        assert(mid.visible@.len() == groups);
    }
    (sets_changed || latched, Some(pvs))
}


/// Every bit of a fresh set is clear.
proof fn lemma_count_unset_all(n: nat)
    ensures
        count_unset(Seq::new(n, |i: int| false)) == n,
    decreases n,
{
    if n > 0 {
        lemma_count_unset_all((n - 1) as nat);
        assert(Seq::new(n, |i: int| false).drop_last() =~= Seq::new((n - 1) as nat, |i: int| false));
    }
}

/// Membership in a flag-filtered group list.
proof fn lemma_groups_where_member(nav: Seq<WmoGroupNav>, pred: spec_fn(u32) -> bool, k: int)
    requires
        0 <= k < crate::portal::groups_where(nav, pred).len(),
        nav.len() <= usize::MAX,
    ensures
        crate::portal::groups_where(nav, pred)[k] < nav.len(),
        pred(nav[crate::portal::groups_where(nav, pred)[k] as int].flags),
    decreases nav.len(),
{
    let rest = crate::portal::groups_where(nav.drop_last(), pred);
    if k < rest.len() {
        lemma_groups_where_member(nav.drop_last(), pred, k);
        assert(nav.drop_last()[rest[k] as int] == nav[rest[k] as int]);
        if pred(nav.last().flags) {
            assert(crate::portal::groups_where(nav, pred)[k] == rest[k]);
        }
    } else {
        assert(pred(nav.last().flags));
        assert(crate::portal::groups_where(nav, pred)[k] == (nav.len() - 1) as usize);
    }
}

/// Every group whose flags pass the test is listed.
proof fn lemma_groups_where_complete(nav: Seq<WmoGroupNav>, pred: spec_fn(u32) -> bool, g: int)
    requires
        0 <= g < nav.len(),
        nav.len() <= usize::MAX,
        pred(nav[g].flags),
    ensures
        exists|k: int|
            0 <= k < crate::portal::groups_where(nav, pred).len()
                && crate::portal::groups_where(nav, pred)[k] == g,
    decreases nav.len(),
{
    let rest = crate::portal::groups_where(nav.drop_last(), pred);
    let all = crate::portal::groups_where(nav, pred);
    if g == nav.len() - 1 {
        assert(nav.last() == nav[g]);
        assert(all == rest.push(g as usize));
        assert(all[all.len() - 1] == g);
    } else {
        assert(nav.drop_last()[g] == nav[g]);
        lemma_groups_where_complete(nav.drop_last(), pred, g);
        let k = choose|k: int| 0 <= k < rest.len() && rest[k] == g;
        if pred(nav.last().flags) {
            assert(all[k] == rest[k]);
        }
    }
}

/// A pass-2 candidate is an EXTERIOR group without the callback flag.
proof fn lemma_pass2_member(nav: Seq<WmoGroupNav>, k: int)
    requires
        0 <= k < crate::portal::groups_where(nav, crate::portal::pass2_flags()).len(),
        nav.len() <= usize::MAX,
    ensures
        ({
            let g = crate::portal::groups_where(nav, crate::portal::pass2_flags())[k] as int;
            is_exterior_group(nav, g) && nav[g].flags & CALLBACK_PASS == 0
        }),
{
    lemma_groups_where_member(nav, crate::portal::pass2_flags(), k);
    let g = crate::portal::groups_where(nav, crate::portal::pass2_flags())[k] as int;
    let f = nav[g].flags;
    assert(f & (0x8u32 | 0x10000u32) == 0x8u32 ==> f & 0x8u32 != 0 && f & 0x10000u32 == 0)
        by (bit_vector);
}

/// An outside-leg root is an EXTERIOR group.
proof fn lemma_outside_root_is_exterior(nav: Seq<WmoGroupNav>, g: usize)
    requires
        crate::portal::groups_where(nav, crate::portal::outside_root_flags()).contains(g),
        nav.len() <= usize::MAX,
    ensures
        is_exterior_group(nav, g as int),
{
    let gw = crate::portal::groups_where(nav, crate::portal::outside_root_flags());
    let k = choose|k: int| 0 <= k < gw.len() && gw[k] == g;
    lemma_groups_where_member(nav, crate::portal::outside_root_flags(), k);
}

/// `n` cleared bits.
fn all_false(n: usize) -> (v: Vec<bool>)
    ensures
        v@ == Seq::new(n as nat, |i: int| false),
{
    let mut v: Vec<bool> = Vec::new();
    let mut i: usize = 0;
    while i < n
        invariant
            0 <= i <= n,
            v@ == Seq::new(i as nat, |k: int| false),
        decreases n - i,
    {
        v.push(false);
        proof {
            assert(v@ =~= Seq::new((i + 1) as nat, |k: int| false));
        }
        i = i + 1;
    }
    v
}

} // verus!
