use benilla_world::census::{ModelKind, PartRecord};
use benilla_world::tallies::{census_tallies, emitter_counts, ObjectTag, PartOrigin, UNLABELLED};

fn part(drawn: bool, gated: bool) -> PartRecord {
    PartRecord {
        kind: ModelKind::Doodad,
        drawn,
        gated,
        hidden: false,
        bounded: true,
        exempt: false,
        stacked: false,
    }
}

fn origin(object: Option<(u32, u32, bool)>, owned: Option<bool>, why: u32) -> PartOrigin {
    PartOrigin {
        object: object.map(|(id, label, placed)| ObjectTag { id, label, placed }),
        owned,
        exile: false,
        why,
        card: false,
    }
}

fn count(t: &[(u64, usize)], key: u64) -> usize {
    t.iter().find(|(k, _)| *k == key).map_or(0, |(_, n)| *n)
}

/// Orphans are a map placement's parts its placement no longer lists; a creature's part, an
/// exile, or a frame without a registry is none.
#[test]
fn orphans_are_unlisted_map_placement_parts() {
    let parts = vec![part(true, false); 6];
    let mut exile = origin(Some((7, 3, true)), Some(false), 0);
    exile.exile = true;
    let origins = vec![
        origin(Some((7, 3, true)), Some(false), 0),
        origin(Some((7, 3, true)), Some(false), 0),
        origin(Some((7, 3, true)), Some(true), 0),
        origin(Some((9, 4, false)), Some(false), 1),
        origin(Some((8, 5, true)), None, 1),
        exile,
    ];
    let t = census_tallies(&parts, &origins);
    assert_eq!(t.orphan_parts, 2);
    assert_eq!(t.orphans, vec![((7u64 << 32) | 3, 2)]);
    assert_eq!(count(&t.why, 0), 4);
    assert_eq!(count(&t.why, 1), 2);
    assert_eq!(t.why, vec![(0, 4), (1, 2)], "most parts first");
}

/// Drawn labelled parts tally by label and gate; escapes by label (or unlabelled) and card.
#[test]
fn labels_and_escapes_tally_by_key() {
    let parts = vec![part(true, true), part(true, false), part(false, true), part(true, true)];
    let mut card = origin(None, None, 0);
    card.card = true;
    let origins = vec![
        origin(Some((1, 10, true)), None, 0),
        origin(Some((1, 10, true)), None, 0),
        origin(Some((2, 11, true)), None, 0),
        card,
    ];
    let t = census_tallies(&parts, &origins);
    assert_eq!(count(&t.labels, 10 * 2 + 1), 1);
    assert_eq!(count(&t.labels, 10 * 2), 1);
    assert_eq!(t.labels.len(), 2, "an undrawn part and an unlabelled one are not labels");
    assert_eq!(count(&t.escaped, 10 * 2), 1);
    assert_eq!(count(&t.escaped, 11 * 2), 1);
    assert_eq!(count(&t.escaped, UNLABELLED as u64 * 2 + 1), 1);
    assert_eq!(t.escaped.len(), 3);
    assert_eq!(t.labels, vec![(20, 1), (21, 1)], "ungated labels first");
    assert_eq!(
        t.escaped,
        vec![(20, 1), (22, 1), (UNLABELLED as u64 * 2 + 1, 1)],
        "equal counts by key"
    );
}

/// Emitters, those with any live particle, and the particles in all.
#[test]
fn emitters_count_their_live_particles() {
    assert_eq!(emitter_counts(&[0, 3, 0, 5]), (4, 2, 8));
    assert_eq!(emitter_counts(&[]), (0, 0, 0));
}
