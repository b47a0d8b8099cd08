use osu_dump::cli::BeatmapMode;
use osu_dump::utils::all_or_modes_to_api_values;
use osu_dump::utils::get_mode_string;
use osu_dump::utils::mode_to_api_value;
use osu_dump::utils::PrebuiltFilter;

#[test]
fn each_mode_has_its_name_at_the_service() {
    assert_eq!(mode_to_api_value(&BeatmapMode::Standard), "osu");
    assert_eq!(mode_to_api_value(&BeatmapMode::Mania), "mania");
    assert_eq!(mode_to_api_value(&BeatmapMode::Taiko), "taiko");
    assert_eq!(mode_to_api_value(&BeatmapMode::Catch), "fruits");
}

#[test]
fn no_modes_stand_for_all_modes() {
    assert_eq!(all_or_modes_to_api_values(&Vec::new()), vec!["osu", "mania", "taiko", "fruits"]);
}

#[test]
fn modes_are_named_in_their_order() {
    assert_eq!(all_or_modes_to_api_values(&vec![BeatmapMode::Catch]), vec!["fruits"]);
    assert_eq!(
        all_or_modes_to_api_values(&vec![
            BeatmapMode::Taiko,
            BeatmapMode::Standard,
            BeatmapMode::Taiko,
            BeatmapMode::Mania,
        ]),
        vec!["taiko", "osu", "taiko", "mania"]
    );
}

#[test]
fn report_names_of_modes() {
    assert_eq!(get_mode_string("osu"), "standard");
    assert_eq!(get_mode_string("taiko"), "taiko");
    assert_eq!(get_mode_string("mania"), "mania");
    assert_eq!(get_mode_string("fruits"), "catch");
    assert_eq!(get_mode_string("catch"), "unknown mode");
    assert_eq!(get_mode_string("standard"), "unknown mode");
    assert_eq!(get_mode_string(""), "unknown mode");
    assert_eq!(get_mode_string("Osu"), "unknown mode");
    assert_eq!(get_mode_string("osu "), "unknown mode");
}

#[test]
fn allowlist_admits_exactly_its_names() {
    let filter = PrebuiltFilter::allow_values(vec!["osu".to_string(), "taiko".to_string()]);
    assert!(filter.allows(&"osu".to_string()));
    assert!(filter.allows(&"taiko".to_string()));
    assert!(!filter.allows(&"mania".to_string()));
    assert!(!filter.allows(&"".to_string()));
    assert!(!filter.allows(&"osu!".to_string()));
}

#[test]
fn empty_allowlist_admits_nothing() {
    let filter = PrebuiltFilter::allow_values(Vec::new());
    assert!(!filter.allows(&"osu".to_string()));
    assert!(!filter.allows(&"".to_string()));
}

#[test]
fn blocklist_admits_all_but_its_names() {
    let filter = PrebuiltFilter::new(vec!["osu".to_string(), "osu".to_string()], false);
    assert!(!filter.allows(&"osu".to_string()));
    assert!(filter.allows(&"taiko".to_string()));
    assert!(filter.allows(&"".to_string()));
    let nothing_banned = PrebuiltFilter::new(Vec::new(), false);
    assert!(nothing_banned.allows(&"osu".to_string()));
}

#[test]
fn filter_of_all_modes_admits_the_four_names() {
    let filter = PrebuiltFilter::allow_values(all_or_modes_to_api_values(&Vec::new()));
    for name in ["osu", "mania", "taiko", "fruits"] {
        assert!(filter.allows(&name.to_string()));
    }
    assert!(!filter.allows(&"catch".to_string()));
}
