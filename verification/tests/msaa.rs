use benilla_world::msaa::{
    clamp_to_supported, msaa_level_from_env, MsaaFormats, MsaaLevel, MsaaSetting, MSAA_MAX,
    MSAA_MIN,
};

#[test]
fn the_default_is_the_references_one_sample_which_means_none() {
    let literal = MsaaSetting { samples: 1 };
    assert_eq!(literal.level(), MsaaLevel::Off);
    assert_eq!(MSAA_MIN, 1);
    assert_eq!(MSAA_MAX, 16);
}

#[test]
fn an_unsupported_count_steps_down_to_the_nearest_the_device_offers() {
    let upto4 = [1, 2, 4];
    assert_eq!(clamp_to_supported(8, &upto4), 4);
    assert_eq!(clamp_to_supported(16, &upto4), 4);
    assert_eq!(clamp_to_supported(4, &upto4), 4);
    assert_eq!(clamp_to_supported(3, &upto4), 2);
    assert_eq!(clamp_to_supported(1, &upto4), 1);
}

#[test]
fn a_supported_count_is_never_stepped_up_and_never_touched() {
    let all = [1, 2, 4, 8, 16];
    for n in all {
        assert_eq!(clamp_to_supported(n, &all), n, "{n}x should pass through");
    }
    assert_eq!(clamp_to_supported(6, &all), 4);
    assert_eq!(clamp_to_supported(15, &all), 8);
}

#[test]
fn a_device_that_offers_nothing_still_boots_at_one_sample() {
    assert_eq!(clamp_to_supported(8, &[]), 1);
    assert_eq!(clamp_to_supported(1, &[]), 1);
    assert_eq!(MsaaSetting { samples: 1 }.level(), MsaaLevel::Off);
}

#[test]
fn the_device_list_steps_down_and_an_empty_one_has_no_opinion() {
    let apple = MsaaFormats {
        formats: vec![(32, 32, 1), (32, 32, 2), (32, 32, 4)],
    };
    assert_eq!(apple.clamp(4), 4, "a count it offers is untouched");
    assert_eq!(apple.clamp(3), 2, "down to the nearest offered, never up");
    assert_eq!(apple.clamp(8), 4, "unoffered 8x panics the render thread");
    assert_eq!(apple.clamp(16), 4);
    assert_eq!(apple.clamp(1), 1);

    let headless = MsaaFormats::default();
    assert!(headless.formats.is_empty());
    for n in [1, 2, 4, 8, 16] {
        assert_eq!(headless.clamp(n), n, "no adapter, no opinion");
    }
}

#[test]
fn a_sample_count_rounds_down_never_up() {
    let level = |n| MsaaSetting { samples: n }.level();
    assert_eq!(level(1), MsaaLevel::Off);
    assert_eq!(level(2), MsaaLevel::Sample2);
    assert_eq!(level(3), MsaaLevel::Sample2);
    assert_eq!(level(4), MsaaLevel::Sample4);
    assert_eq!(level(7), MsaaLevel::Sample4);
    assert_eq!(level(8), MsaaLevel::Sample8);
    assert_eq!(level(16), MsaaLevel::Sample8);
    assert_eq!(level(0), MsaaLevel::Off);
}

/// `$WOW_MSAA`: unset or garbage is one sample, `off` is one, a number clamps into range.
#[test]
fn the_environment_value_parses_and_clamps() {
    assert_eq!(MsaaSetting::from_env_value(None).samples, 1);
    assert_eq!(MsaaSetting::from_env_value(Some("off")).samples, 1);
    assert_eq!(MsaaSetting::from_env_value(Some("4")).samples, 4);
    assert_eq!(MsaaSetting::from_env_value(Some("+8")).samples, 8);
    assert_eq!(MsaaSetting::from_env_value(Some("0")).samples, 1);
    assert_eq!(MsaaSetting::from_env_value(Some("64")).samples, 16);
    assert_eq!(MsaaSetting::from_env_value(Some("4x")).samples, 1);
    assert_eq!(MsaaSetting::from_env_value(Some("")).samples, 1);
    assert_eq!(MsaaSetting::from_env_value(Some("99999999999")).samples, 1);
}

/// The camera level the environment asks for: 4x when unset, `off`, `0` and `1` none, `2` 2x,
/// anything else 4x.
#[test]
fn the_environment_level_falls_back_to_four_samples() {
    assert_eq!(msaa_level_from_env(None), MsaaLevel::Sample4);
    assert_eq!(msaa_level_from_env(Some("off")), MsaaLevel::Off);
    assert_eq!(msaa_level_from_env(Some("0")), MsaaLevel::Off);
    assert_eq!(msaa_level_from_env(Some("1")), MsaaLevel::Off);
    assert_eq!(msaa_level_from_env(Some("2")), MsaaLevel::Sample2);
    assert_eq!(msaa_level_from_env(Some("8")), MsaaLevel::Sample4);
    assert_eq!(msaa_level_from_env(Some("junk")), MsaaLevel::Sample4);
}

use benilla_world::msaa::supported_counts;

/// A device offering 1, 2 and 4 samples on every target lists them in order, and the dropdown
/// carries its bit depths with each.
#[test]
fn the_device_menu_lists_what_every_target_supports() {
    let mut offered = [false; 16];
    offered[0] = true;
    offered[1] = true;
    offered[3] = true;
    let counts = supported_counts(&offered);
    assert_eq!(counts, vec![1, 2, 4]);
    let menu = MsaaFormats::from_counts(32, 32, &counts);
    assert_eq!(menu.formats, vec![(32, 32, 1), (32, 32, 2), (32, 32, 4)]);
    assert_eq!(menu.clamp(8), 4);
    assert!(supported_counts(&[false; 16]).is_empty());
}
