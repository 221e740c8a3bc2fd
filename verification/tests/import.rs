use gd_gear_compare::import::{import_grim_gleaner_profile, GrimGleanerProfile};

fn profile() -> GrimGleanerProfile {
    GrimGleanerProfile {
        name: String::new(),
        weights: Vec::new(),
        resistance_cap_enabled: false,
        resistance_cap_weights: Vec::new(),
        skill_weights: Vec::new(),
        masteries: Vec::new(),
    }
}

fn w(stat: &str, weight: Option<u8>) -> (String, Option<u8>) {
    (stat.to_string(), weight)
}

#[test]
fn imports_plain_weights_unchanged() {
    let mut p = profile();
    p.name = "Fire / Burn Vire's Might Shieldbreaker".to_string();
    p.weights = vec![w("fire_resistance", Some(2)), w("fire_damage_percent", Some(4))];
    p.masteries = vec![Some(String::new()), Some(String::new())];

    let result = import_grim_gleaner_profile(p);
    assert_eq!(result.weights.get("fire_resistance"), Some(2));
    assert_eq!(result.weights.get("fire_damage_percent"), Some(4));
    assert_eq!(result.summary.imported_stat_count, 2);
    assert_eq!(result.summary.resistance_overrides_applied, 0);
    assert_eq!(result.summary.skipped_skill_weight_count, 0);
    assert_eq!(result.summary.skipped_mastery_count, 0);
    assert_eq!(result.summary.invalid_weight_count, 0);
    assert_eq!(result.summary.profile_name, "Fire / Burn Vire's Might Shieldbreaker");
}

#[test]
fn resistance_cap_weights_are_ignored_when_cap_mode_disabled() {
    let mut p = profile();
    p.weights = vec![w("fire_resistance", Some(2))];
    p.resistance_cap_weights = vec![w("fire_resistance", Some(4))];
    let result = import_grim_gleaner_profile(p);
    assert_eq!(result.weights.get("fire_resistance"), Some(2));
    assert_eq!(result.summary.resistance_overrides_applied, 0);
}

#[test]
fn resistance_cap_weights_override_plain_weight_when_cap_mode_enabled() {
    let mut p = profile();
    p.weights = vec![w("fire_resistance", Some(2))];
    p.resistance_cap_enabled = true;
    p.resistance_cap_weights = vec![w("fire_resistance", Some(4))];
    let result = import_grim_gleaner_profile(p);
    assert_eq!(result.weights.get("fire_resistance"), Some(4));
    assert_eq!(result.summary.resistance_overrides_applied, 1);
}

#[test]
fn out_of_range_numeric_weight_is_clamped_not_dropped() {
    // The profile's 9 and -3 are rounded and clamped into 0..=4 where the
    // JSON numbers are read, before the library sees them (that is float
    // work, outside the library); what reaches the import is 4 and 0, and
    // both must be kept, not dropped as invalid.
    let mut p = profile();
    p.weights = vec![w("fire_resistance", Some(4)), w("cold_resistance", Some(0))];
    let result = import_grim_gleaner_profile(p);
    assert_eq!(result.weights.get("fire_resistance"), Some(4));
    assert_eq!(result.weights.get("cold_resistance"), Some(0));
    assert_eq!(result.summary.invalid_weight_count, 0);
}

#[test]
fn non_numeric_weight_is_dropped_and_counted_invalid() {
    // "a lot" is no number
    let mut p = profile();
    p.weights = vec![w("fire_resistance", None), w("cold_resistance", Some(3))];
    let result = import_grim_gleaner_profile(p);
    assert_eq!(result.weights.get("fire_resistance"), None);
    assert_eq!(result.weights.get("cold_resistance"), Some(3));
    assert_eq!(result.summary.invalid_weight_count, 1);
    assert_eq!(result.summary.imported_stat_count, 1);
}

#[test]
fn skill_weights_and_masteries_are_reported_as_skipped_not_imported() {
    let mut p = profile();
    p.skill_weights = vec![
        "records/skills/playerclass02/passive1.dbr".to_string(),
        "records/skills/playerclass09/viremight1.dbr".to_string(),
    ];
    p.masteries = vec![Some("playerclass02".to_string()), Some("playerclass09".to_string())];
    let result = import_grim_gleaner_profile(p);
    assert!(result.weights.is_empty());
    assert_eq!(result.summary.skipped_skill_weight_count, 2);
    assert_eq!(result.summary.skipped_mastery_count, 2);
}

#[test]
fn empty_mastery_slots_are_not_counted_as_skipped() {
    let mut p = profile();
    p.masteries = vec![Some("playerclass02".to_string()), Some(String::new())];
    let result = import_grim_gleaner_profile(p);
    assert_eq!(result.summary.skipped_mastery_count, 1);
}

#[test]
fn missing_optional_fields_default_sensibly() {
    let mut p = profile();
    p.weights = vec![w("fire_resistance", Some(2))];
    let result = import_grim_gleaner_profile(p);
    assert_eq!(result.weights.get("fire_resistance"), Some(2));
    assert_eq!(result.summary.profile_name, "(unnamed profile)");
}

#[test]
fn blank_names_and_slots_are_white_space_only() {
    let mut p = profile();
    p.name = " \t\u{3000}".to_string();
    p.masteries = vec![Some(" \n".to_string()), None, Some(" x ".to_string())];
    let result = import_grim_gleaner_profile(p);
    assert_eq!(result.summary.profile_name, "(unnamed profile)");
    assert_eq!(result.summary.skipped_mastery_count, 1);
}

#[test]
fn invalid_cap_weights_count_only_with_cap_mode_on() {
    let mut p = profile();
    p.weights = vec![w("a", None), w("b", Some(1))];
    p.resistance_cap_weights = vec![w("b", None), w("c", Some(2))];
    let off = import_grim_gleaner_profile(GrimGleanerProfile { resistance_cap_enabled: false, ..p.clone() });
    assert_eq!(off.summary.invalid_weight_count, 1);
    assert_eq!(off.summary.imported_stat_count, 1);
    let on = import_grim_gleaner_profile(GrimGleanerProfile { resistance_cap_enabled: true, ..p });
    assert_eq!(on.summary.invalid_weight_count, 2);
    assert_eq!(on.summary.resistance_overrides_applied, 1);
    assert_eq!(on.summary.imported_stat_count, 2);
    assert_eq!(on.weights.get("b"), Some(1));
    assert_eq!(on.weights.get("c"), Some(2));
}

#[test]
fn each_stat_gets_its_last_valid_cap_weight_else_its_last_valid_plain_weight() {
    let mut p = profile();
    p.weights = vec![
        w("fire_resistance", Some(1)),
        w("cold_resistance", Some(2)),
        w("fire_resistance", Some(3)),
        w("cold_resistance", None),
    ];
    p.resistance_cap_enabled = true;
    p.resistance_cap_weights = vec![
        w("cold_resistance", Some(4)),
        w("cold_resistance", None),
        w("lightning_resistance", None),
    ];
    let result = import_grim_gleaner_profile(p);
    assert_eq!(result.weights.get("fire_resistance"), Some(3));
    assert_eq!(result.weights.get("cold_resistance"), Some(4));
    assert_eq!(result.weights.get("lightning_resistance"), None);
    assert_eq!(result.summary.imported_stat_count, 2);
    assert_eq!(result.summary.invalid_weight_count, 3);
    assert_eq!(result.summary.resistance_overrides_applied, 1);
}
