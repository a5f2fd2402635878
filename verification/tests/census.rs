use benilla_world::census::{column_name, escaped, kind_index, tally, ModelKind, PartRecord};

fn part(kind: ModelKind) -> PartRecord {
    PartRecord {
        kind,
        drawn: true,
        gated: false,
        hidden: false,
        bounded: true,
        exempt: false,
        stacked: false,
    }
}

/// The column order is fixed: other tools diff it.
#[test]
fn the_columns_keep_their_order() {
    let kinds = [
        ModelKind::Doodad,
        ModelKind::Wmo,
        ModelKind::Creature,
        ModelKind::GameObject,
    ];
    let names: Vec<&str> = kinds.iter().map(|&k| column_name(k)).collect();
    assert_eq!(names, ["doodad", "wmo", "creature", "gameobject"]);
    for (i, k) in kinds.into_iter().enumerate() {
        assert_eq!(kind_index(k), i);
    }
}

/// A frame's counts, per column and over the cull's gated parts.
#[test]
fn a_frame_tallies_per_column_and_per_gate() {
    let mut hidden_gated = part(ModelKind::Doodad);
    hidden_gated.gated = true;
    hidden_gated.hidden = true;
    hidden_gated.drawn = false;
    let mut escapee = part(ModelKind::Wmo);
    escapee.gated = true;
    let mut exempt = part(ModelKind::Wmo);
    exempt.gated = true;
    exempt.exempt = true;
    let mut unbounded = part(ModelKind::Wmo);
    unbounded.gated = true;
    unbounded.bounded = false;
    let mut stacked = part(ModelKind::Creature);
    stacked.stacked = true;
    stacked.drawn = false;
    let parts = [
        part(ModelKind::Doodad),
        hidden_gated,
        escapee,
        exempt,
        unbounded,
        stacked,
        part(ModelKind::GameObject),
    ];
    assert!(escaped(&escapee));
    assert!(!escaped(&exempt) && !escaped(&unbounded) && !escaped(&hidden_gated));
    let c = tally(&parts);
    assert_eq!(c.submeshes, 7);
    assert_eq!(c.drawn, 5);
    assert_eq!(c.stacked_parts, 1);
    assert_eq!(c.resident, [2, 3, 1, 1]);
    assert_eq!(c.visible, [1, 3, 0, 1]);
    assert_eq!(c.visible_gated, [0, 3, 0, 0]);
    assert_eq!(c.tagged, 4);
    assert_eq!(c.hidden, 1);
    assert_eq!(c.exempt, 1);
    assert_eq!(c.no_aabb, 1);
    assert_eq!(c.escaped, 1);
    assert_eq!(c.resident.iter().sum::<usize>(), c.submeshes);
    assert_eq!(c.visible.iter().sum::<usize>(), c.drawn);
}

#[test]
fn an_empty_frame_counts_nothing() {
    let c = tally(&[]);
    assert_eq!(c.submeshes, 0);
    assert_eq!(c.resident, [0; 4]);
}
