use benilla_world::rng::next_u32;
use benilla_world::session::{
    announces_map_change, map_id_from_env_value, render_thread_qos, translating, turning,
    QosClass, DEFAULT_MAP_ID,
};
use benilla_world::text::parse_u32;

#[test]
fn only_a_flip_between_seen_maps_announces() {
    assert!(!announces_map_change(None, 0));
    assert!(!announces_map_change(Some(1), 1));
    assert!(announces_map_change(Some(0), 1));
}

#[test]
fn the_start_map_reads_the_environment() {
    assert_eq!(map_id_from_env_value(None), Ok(DEFAULT_MAP_ID));
    assert_eq!(map_id_from_env_value(Some("530")), Ok(530));
    assert_eq!(map_id_from_env_value(Some("kalimdor")), Err(()));
    assert_eq!(map_id_from_env_value(Some("-1")), Err(()));
}

#[test]
fn movement_bits_split_translation_from_turning() {
    assert!(translating(0x1) && translating(0x8) && !translating(0x30));
    assert!(turning(0x10) && turning(0x20) && !turning(0xf));
    assert!(!translating(0) && !turning(0));
}

#[test]
fn the_render_thread_is_reclassed_only_on_change() {
    assert_eq!(render_thread_qos(false, None), Some(QosClass::UserInteractive));
    assert_eq!(render_thread_qos(false, Some(QosClass::UserInteractive)), None);
    assert_eq!(
        render_thread_qos(true, Some(QosClass::UserInteractive)),
        Some(QosClass::Default)
    );
    assert_eq!(render_thread_qos(true, Some(QosClass::Default)), None);
    assert_eq!(QosClass::UserInteractive.raw(), 0x21);
    assert_eq!(QosClass::UserInitiated.raw(), 0x19);
    assert_eq!(QosClass::Default.raw(), 0x15);
}

/// One xorshift32 step from 1, then the state carries on; zero stays zero.
#[test]
fn xorshift_steps_from_its_state() {
    let mut s = 1u32;
    assert_eq!(next_u32(&mut s), 270369);
    assert_eq!(s, 270369);
    let second = next_u32(&mut s);
    assert_eq!(second, s);
    assert_ne!(second, 270369);
    let mut z = 0u32;
    assert_eq!(next_u32(&mut z), 0);
}

/// The decimal reader agrees with `str::parse::<u32>`.
#[test]
fn parse_agrees_with_the_standard_library() {
    for s in ["0", "42", "+7", "4294967295", "4294967296", "", "+", "-1", "1 ", "0x10", "007"] {
        assert_eq!(parse_u32(s), s.parse::<u32>().ok(), "{s:?}");
    }
}
