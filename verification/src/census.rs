//! The numeric half of the world census: what a frame's model parts add up to, per subsystem
//! column, drawn or resident, and how the exterior cull fared on the parts it gates.
use vstd::prelude::*;

verus! {

/// Which subsystem a model part belongs to.
#[derive(Clone, Copy, Debug, PartialEq, Eq, Structural)]
pub enum ModelKind {
    Doodad,
    Wmo,
    Creature,
    GameObject,
}

/// The census column of a kind.
pub open spec fn kind_slot(kind: ModelKind) -> int {
    match kind {
        ModelKind::Doodad => 0,
        ModelKind::Wmo => 1,
        ModelKind::Creature => 2,
        ModelKind::GameObject => 3,
    }
}

/// The census's own index for a kind: the column order is fixed, since other tools diff it.
pub fn kind_index(kind: ModelKind) -> (i: usize)
    ensures
        i == kind_slot(kind),
        i < 4,
{
    match kind {
        ModelKind::Doodad => 0,
        ModelKind::Wmo => 1,
        ModelKind::Creature => 2,
        ModelKind::GameObject => 3,
    }
}

/// The name of a kind's census column.
pub fn column_name(kind: ModelKind) -> (s: &'static str)
    ensures
        s@ == (match kind {
            ModelKind::Doodad => "doodad"@,
            ModelKind::Wmo => "wmo"@,
            ModelKind::Creature => "creature"@,
            ModelKind::GameObject => "gameobject"@,
        }),
{
    match kind {
        ModelKind::Doodad => "doodad",
        ModelKind::Wmo => "wmo",
        ModelKind::Creature => "creature",
        ModelKind::GameObject => "gameobject",
    }
}

/// One model part as the census reads it.
#[derive(Clone, Copy, Debug)]
pub struct PartRecord {
    pub kind: ModelKind,
    /// The render world draws it this frame.
    pub drawn: bool,
    /// Under the exterior cull.
    pub gated: bool,
    /// Its own visibility is set hidden.
    pub hidden: bool,
    /// It has a bound; the cull admits an unbounded part unconditionally.
    pub bounded: bool,
    /// It belongs to the camera's own placement, which is supposed to draw.
    pub exempt: bool,
    /// Its visibility class lists a class twice.
    pub stacked: bool,
}

/// A gated part the cull should have hidden: bounded, not exempt, and still not hidden.
pub open spec fn escaped_spec(p: PartRecord) -> bool {
    p.gated && !p.hidden && p.bounded && !p.exempt
}

/// Whether a gated part escaped the cull.
pub fn escaped(p: &PartRecord) -> (r: bool)
    ensures
        r == escaped_spec(*p),
{
    p.gated && !p.hidden && p.bounded && !p.exempt
}

/// A frame's counts.
#[derive(Clone, Copy, Debug)]
pub struct CensusCounts {
    pub submeshes: usize,
    pub drawn: usize,
    pub stacked_parts: usize,
    /// Drawn parts per column.
    pub visible: [usize; 4],
    /// Drawn and gated parts per column.
    pub visible_gated: [usize; 4],
    /// Parts per column, drawn or not.
    pub resident: [usize; 4],
    pub tagged: usize,
    pub hidden: usize,
    pub exempt: usize,
    pub no_aabb: usize,
    pub escaped: usize,
}

/// How many parts of `s` satisfy `f`.
pub open spec fn count_where(s: Seq<PartRecord>, f: spec_fn(PartRecord) -> bool) -> nat
    decreases s.len(),
{
    if s.len() == 0 {
        0
    } else {
        count_where(s.drop_last(), f) + if f(s.last()) {
            1nat
        } else {
            0nat
        }
    }
}

proof fn lemma_count_where_bound(s: Seq<PartRecord>, f: spec_fn(PartRecord) -> bool)
    ensures
        count_where(s, f) <= s.len(),
    decreases s.len(),
{
    if s.len() > 0 {
        lemma_count_where_bound(s.drop_last(), f);
    }
}

/// The counts' defining predicates.
pub open spec fn is_drawn() -> spec_fn(PartRecord) -> bool {
    |p: PartRecord| p.drawn
}

pub open spec fn is_stacked() -> spec_fn(PartRecord) -> bool {
    |p: PartRecord| p.stacked
}

pub open spec fn is_tagged() -> spec_fn(PartRecord) -> bool {
    |p: PartRecord| p.gated
}

pub open spec fn is_tagged_hidden() -> spec_fn(PartRecord) -> bool {
    |p: PartRecord| p.gated && p.hidden
}

pub open spec fn is_tagged_exempt() -> spec_fn(PartRecord) -> bool {
    |p: PartRecord| p.gated && p.exempt
}

pub open spec fn is_tagged_unbounded() -> spec_fn(PartRecord) -> bool {
    |p: PartRecord| p.gated && !p.bounded
}

pub open spec fn is_escaped() -> spec_fn(PartRecord) -> bool {
    |p: PartRecord| escaped_spec(p)
}

pub open spec fn in_column(k: int) -> spec_fn(PartRecord) -> bool {
    |p: PartRecord| kind_slot(p.kind) == k
}

pub open spec fn visible_in(k: int) -> spec_fn(PartRecord) -> bool {
    |p: PartRecord| p.drawn && kind_slot(p.kind) == k
}

pub open spec fn visible_gated_in(k: int) -> spec_fn(PartRecord) -> bool {
    |p: PartRecord| p.drawn && p.gated && kind_slot(p.kind) == k
}

/// The counts of a frame's parts, each the number of parts its predicate holds of.
pub open spec fn counts_match(c: CensusCounts, s: Seq<PartRecord>) -> bool {
    &&& c.submeshes == s.len()
    &&& c.drawn == count_where(s, is_drawn())
    &&& c.stacked_parts == count_where(s, is_stacked())
    &&& c.tagged == count_where(s, is_tagged())
    &&& c.hidden == count_where(s, is_tagged_hidden())
    &&& c.exempt == count_where(s, is_tagged_exempt())
    &&& c.no_aabb == count_where(s, is_tagged_unbounded())
    &&& c.escaped == count_where(s, is_escaped())
    &&& forall|k: int|
        0 <= k < 4 ==> {
            &&& #[trigger] c.resident[k] == count_where(s, in_column(k))
            &&& c.visible[k] == count_where(s, visible_in(k))
            &&& c.visible_gated[k] == count_where(s, visible_gated_in(k))
        }
}

proof fn lemma_count_step(s: Seq<PartRecord>, i: int, f: spec_fn(PartRecord) -> bool)
    requires
        0 <= i < s.len(),
    ensures
        count_where(s.take(i + 1), f) == count_where(s.take(i), f) + if f(s[i]) {
            1nat
        } else {
            0nat
        },
        count_where(s.take(i), f) <= i,
{
    assert(s.take(i + 1).drop_last() =~= s.take(i));
    lemma_count_where_bound(s.take(i), f);
}

/// Adds `b` to a counter already bounded by the parts seen.
fn bump(n: usize, b: bool) -> (r: usize)
    requires
        b ==> n < usize::MAX,
    ensures
        r == n + if b {
            1int
        } else {
            0int
        },
{
    if b {
        n + 1
    } else {
        n
    }
}

/// Tallies a frame's model parts.
pub fn tally(parts: &[PartRecord]) -> (c: CensusCounts)
    ensures
        counts_match(c, parts@),
{
    let mut c = CensusCounts {
        submeshes: 0,
        drawn: 0,
        stacked_parts: 0,
        visible: [0, 0, 0, 0],
        visible_gated: [0, 0, 0, 0],
        resident: [0, 0, 0, 0],
        tagged: 0,
        hidden: 0,
        exempt: 0,
        no_aabb: 0,
        escaped: 0,
    };
    let mut i: usize = 0;
    proof {
        assert(parts@.take(0) =~= Seq::<PartRecord>::empty());
    }
    while i < parts.len()
        invariant
            0 <= i <= parts@.len(),
            counts_match(c, parts@.take(i as int)),
        decreases parts@.len() - i,
    {
        let p = parts[i];
        let k = kind_index(p.kind);
        let ghost s = parts@;
        let ghost ii = i as int;
        proof {
            assert(s[ii] == p);
            lemma_count_step(s, ii, is_drawn());
            lemma_count_step(s, ii, is_stacked());
            lemma_count_step(s, ii, is_tagged());
            lemma_count_step(s, ii, is_tagged_hidden());
            lemma_count_step(s, ii, is_tagged_exempt());
            lemma_count_step(s, ii, is_tagged_unbounded());
            lemma_count_step(s, ii, is_escaped());
            assert forall|j: int| 0 <= j < 4 implies {
                &&& count_where(s.take(ii + 1), #[trigger] in_column(j)) == count_where(
                    s.take(ii),
                    in_column(j),
                ) + if kind_slot(p.kind) == j {
                    1nat
                } else {
                    0nat
                }
                &&& count_where(s.take(ii + 1), visible_in(j)) == count_where(
                    s.take(ii),
                    visible_in(j),
                ) + if p.drawn && kind_slot(p.kind) == j {
                    1nat
                } else {
                    0nat
                }
                &&& count_where(s.take(ii + 1), visible_gated_in(j)) == count_where(
                    s.take(ii),
                    visible_gated_in(j),
                ) + if p.drawn && p.gated && kind_slot(p.kind) == j {
                    1nat
                } else {
                    0nat
                }
                &&& count_where(s.take(ii), in_column(j)) <= ii
                &&& count_where(s.take(ii), visible_in(j)) <= ii
                &&& count_where(s.take(ii), visible_gated_in(j)) <= ii
            } by {
                lemma_count_step(s, ii, in_column(j));
                lemma_count_step(s, ii, visible_in(j));
                lemma_count_step(s, ii, visible_gated_in(j));
            }
            assert(c.resident[k as int] == count_where(s.take(ii), in_column(k as int)));
            assert(c.visible[k as int] == count_where(s.take(ii), visible_in(k as int)));
            assert(c.visible_gated[k as int] == count_where(
                s.take(ii),
                visible_gated_in(k as int),
            ));
        }
        let ghost c0 = c;
        c.submeshes = c.submeshes + 1;
        c.stacked_parts = bump(c.stacked_parts, p.stacked);
        c.resident[k] = c.resident[k] + 1;
        c.drawn = bump(c.drawn, p.drawn);
        if p.gated {
            c.tagged = c.tagged + 1;
            c.hidden = bump(c.hidden, p.hidden);
            c.no_aabb = bump(c.no_aabb, !p.bounded);
            c.exempt = bump(c.exempt, p.exempt);
            c.escaped = bump(c.escaped, escaped(&p));
        }
        if p.drawn {
            c.visible[k] = c.visible[k] + 1;
            c.visible_gated[k] = bump(c.visible_gated[k], p.gated);
        }
        proof {
            assert forall|j: int| 0 <= j < 4 implies {
                &&& #[trigger] c.resident[j] == count_where(s.take(ii + 1), in_column(j))
                &&& c.visible[j] == count_where(s.take(ii + 1), visible_in(j))
                &&& c.visible_gated[j] == count_where(s.take(ii + 1), visible_gated_in(j))
            } by {
                lemma_count_step(s, ii, in_column(j));
                lemma_count_step(s, ii, visible_in(j));
                lemma_count_step(s, ii, visible_gated_in(j));
                if j != k {
                    assert(c.resident[j] == c0.resident[j]);
                    assert(c.visible[j] == c0.visible[j]);
                    assert(c.visible_gated[j] == c0.visible_gated[j]);
                }
            }
            assert(c.submeshes == s.take(ii + 1).len());
            assert(c.drawn == count_where(s.take(ii + 1), is_drawn()));
            assert(c.stacked_parts == count_where(s.take(ii + 1), is_stacked()));
            assert(c.tagged == count_where(s.take(ii + 1), is_tagged()));
            assert(c.hidden == count_where(s.take(ii + 1), is_tagged_hidden()));
            assert(c.exempt == count_where(s.take(ii + 1), is_tagged_exempt()));
            assert(c.no_aabb == count_where(s.take(ii + 1), is_tagged_unbounded()));
            assert(c.escaped == count_where(s.take(ii + 1), is_escaped()));
        }
        i = i + 1;
    }
    proof {
        assert(parts@.take(i as int) =~= parts@);
    }
    c
}

/// Every part lands in exactly one column: the columns' resident counts add up to the parts,
/// and their drawn counts to the drawn parts.
pub proof fn lemma_columns_partition(c: CensusCounts, parts: Seq<PartRecord>)
    requires
        counts_match(c, parts),
    ensures
        c.resident[0] + c.resident[1] + c.resident[2] + c.resident[3] == c.submeshes,
        c.visible[0] + c.visible[1] + c.visible[2] + c.visible[3] == c.drawn,
{
    lemma_column_sums(parts);
    assert(c.resident[0] == count_where(parts, in_column(0)));
    assert(c.resident[1] == count_where(parts, in_column(1)));
    assert(c.resident[2] == count_where(parts, in_column(2)));
    assert(c.resident[3] == count_where(parts, in_column(3)));
}

proof fn lemma_column_sums(s: Seq<PartRecord>)
    ensures
        count_where(s, in_column(0)) + count_where(s, in_column(1)) + count_where(s, in_column(2))
            + count_where(s, in_column(3)) == s.len(),
        count_where(s, visible_in(0)) + count_where(s, visible_in(1)) + count_where(
            s,
            visible_in(2),
        ) + count_where(s, visible_in(3)) == count_where(s, is_drawn()),
    decreases s.len(),
{
    if s.len() > 0 {
        lemma_column_sums(s.drop_last());
    }
}

} // verus!
