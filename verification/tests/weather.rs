use benilla_world::weather::{density_gain_index, WeatherKind, WeatherType};

/// The `weatherDensity` gains, by table row.
const DENSITY_GAIN: [f32; 4] = [0.1, 0.33, 0.66, 1.0];

#[test]
fn weather_density_gain_table() {
    let gain = |wd: u8| DENSITY_GAIN[density_gain_index(wd)];
    assert!((gain(3) - 1.0).abs() < 1e-6);
    for (wd, k) in [(0u8, 0.1f32), (1, 0.33), (2, 0.66), (3, 1.0)] {
        assert!((gain(wd) - k).abs() < 1e-6);
    }
    assert!((gain(200) - 1.0).abs() < 1e-6);
}

#[test]
fn type_change_cuts_same_type_drains() {
    let mut s = WeatherType::new();
    s.apply_kind(WeatherKind::Rain);
    let seq = s.cut_seq;
    assert!(!s.apply_kind(WeatherKind::Rain));
    assert_eq!(s.cut_seq, seq);
    assert_eq!(s.effect_kind, WeatherKind::Rain);
    assert!(s.spawns(WeatherKind::Rain));
    assert!(s.apply_kind(WeatherKind::Fine));
    assert_eq!(s.cut_seq, seq + 1);
    assert_eq!(s.effect_kind, WeatherKind::Fine);
    assert!(!s.spawns(WeatherKind::Rain));
}

/// Unknown wire values are fine weather.
#[test]
fn wire_values_name_the_kinds() {
    assert_eq!(WeatherKind::from_wire(0), WeatherKind::Fine);
    assert_eq!(WeatherKind::from_wire(1), WeatherKind::Rain);
    assert_eq!(WeatherKind::from_wire(2), WeatherKind::Snow);
    assert_eq!(WeatherKind::from_wire(3), WeatherKind::Sand);
    assert_eq!(WeatherKind::from_wire(77), WeatherKind::Fine);
    assert_eq!(WeatherKind::default(), WeatherKind::Fine);
}

/// The cut sequence wraps rather than overflows.
#[test]
fn the_cut_sequence_wraps() {
    let mut s = WeatherType {
        kind: WeatherKind::Snow,
        effect_kind: WeatherKind::Snow,
        cut_seq: u32::MAX,
    };
    assert!(s.apply_kind(WeatherKind::Sand));
    assert_eq!(s.cut_seq, 0);
    assert_eq!(s.kind, WeatherKind::Sand);
}

use benilla_world::weather::{pool_bound, spawn_room, PACKET_CAP};

/// Snow's field is bounded higher than rain's and sand's; a full pool takes nothing more.
#[test]
fn the_pool_ceiling_leaves_room_down_to_zero() {
    assert_eq!(pool_bound(WeatherKind::Snow), 0x20000);
    assert_eq!(pool_bound(WeatherKind::Rain), 0xC000);
    assert_eq!(pool_bound(WeatherKind::Sand), 0xC000);
    assert_eq!(spawn_room(WeatherKind::Rain, 100, 28), 0xC000 - 128);
    assert_eq!(spawn_room(WeatherKind::Rain, 0xC000, 5), 0);
    assert_eq!(spawn_room(WeatherKind::Snow, 0, PACKET_CAP), 0x20000 - 0x1800);
}
