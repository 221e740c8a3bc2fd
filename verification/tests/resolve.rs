use std::collections::HashMap;

use gd_gear_compare::catalog::Catalog;
use gd_gear_compare::resolve::{resolve_item, ResolvedItem};
use gd_gear_compare::save_parser::RawEquippedItem;
use gd_gear_compare::stats::{Magnitude, StatTerm};

const EQUIPMENT: &str = r#"{"items": [{
    "display_name": "Test Ring",
    "variants": [{
        "record_path": "records/items/test_ring.dbr",
        "properties": [{"property_id": "fire_resistance", "attributes": {"percent": "20.000000"}}]
    }]
}]}"#;

const AFFIXES: &str = r#"{"affixes": [{
    "display_name": "of Embers",
    "tiers": [{
        "record_path": "records/affixes/of_embers.dbr",
        "properties": [{"property_id": "fire_damage_percent", "attributes": {"damage_percent": "15.000000"}}]
    }]
}]}"#;

const RELICS: &str = r#"{"items": [{
    "display_name": "Test Relic",
    "variants": [{
        "record_path": "records/relics/test_relic.dbr",
        "properties": [{"property_id": "offensive_ability", "attributes": {"value": "50.000000"}}]
    }]
}]}"#;

const EMPTY_ITEMS: &str = r#"{"items": []}"#;

fn build_test_catalog() -> Catalog {
    Catalog::load(EQUIPMENT, AFFIXES, RELICS, EMPTY_ITEMS, EMPTY_ITEMS).expect("test catalog loads")
}

fn raw_item(base: &str, prefix: &str, relic: &str) -> RawEquippedItem {
    RawEquippedItem {
        slot_index: 0,
        base_name: base.to_string(),
        prefix_name: prefix.to_string(),
        suffix_name: String::new(),
        modifier_name: String::new(),
        relic_bonus: relic.to_string(),
        component_name: String::new(),
        augment_name: String::new(),
    }
}

fn value_of(m: &Magnitude) -> f64 {
    match m {
        Magnitude::Number(t) => t.parse::<f64>().unwrap(),
        Magnitude::Midpoint(a, b) => (a.parse::<f64>().unwrap() + b.parse::<f64>().unwrap()) / 2.0,
        Magnitude::Unit => 1.0,
    }
}

fn part_stats(terms: &[StatTerm]) -> HashMap<String, f64> {
    let mut stats = HashMap::new();
    for t in terms {
        *stats.entry(t.stat.clone()).or_insert(0.0) += value_of(&t.magnitude);
    }
    stats
}

fn merge(into: &mut HashMap<String, f64>, from: &HashMap<String, f64>) {
    for (k, v) in from {
        *into.entry(k.clone()).or_insert(0.0) += v;
    }
}

fn stats_of(item: &ResolvedItem) -> HashMap<String, f64> {
    let mut stats = HashMap::new();
    for part in &item.part_stats {
        merge(&mut stats, &part_stats(part));
    }
    stats
}

fn sum_all(items: &[ResolvedItem]) -> HashMap<String, f64> {
    let mut totals = HashMap::new();
    for item in items {
        merge(&mut totals, &stats_of(item));
    }
    totals
}

#[test]
fn resolves_and_merges_stats_across_base_prefix_and_relic() {
    let catalog = build_test_catalog();
    let raw = raw_item(
        "records/items/test_ring.dbr",
        "records/affixes/of_embers.dbr",
        "records/relics/test_relic.dbr",
    );
    let resolved = resolve_item(&catalog, &raw);
    let stats = stats_of(&resolved);

    assert!(!resolved.unresolved);
    assert_eq!(resolved.display_name, "Test Ring");
    assert_eq!(stats.get("fire_resistance"), Some(&20.0));
    assert_eq!(stats.get("fire_damage_percent"), Some(&15.0));
    assert_eq!(stats.get("offensive_ability"), Some(&50.0));
}

#[test]
fn unknown_base_item_is_flagged_unresolved_not_dropped() {
    let catalog = build_test_catalog();
    let raw = raw_item("records/items/does_not_exist.dbr", "", "");
    let resolved = resolve_item(&catalog, &raw);

    assert!(resolved.unresolved);
    assert_eq!(resolved.display_name, "records/items/does_not_exist.dbr");
    assert!(stats_of(&resolved).is_empty());
}

#[test]
fn empty_part_paths_are_skipped_without_error() {
    let catalog = build_test_catalog();
    let raw = raw_item("records/items/test_ring.dbr", "", "");
    let resolved = resolve_item(&catalog, &raw);
    let stats = stats_of(&resolved);

    assert!(!resolved.unresolved);
    assert_eq!(stats.get("fire_resistance"), Some(&20.0));
    assert_eq!(stats.get("fire_damage_percent"), None);
}

#[test]
fn sum_all_totals_stats_across_the_whole_loadout() {
    let catalog = build_test_catalog();
    let ring_a = resolve_item(&catalog, &raw_item("records/items/test_ring.dbr", "", ""));
    let ring_b = resolve_item(&catalog, &raw_item("records/items/test_ring.dbr", "", ""));
    let totals = sum_all(&[ring_a, ring_b]);
    assert_eq!(totals.get("fire_resistance"), Some(&40.0));
}

#[test]
fn resolve_path_merges_item_fields_and_drops_the_variant_list() {
    let catalog = build_test_catalog();
    let record = catalog.resolve_path("records/items/test_ring.dbr").unwrap();
    assert!(record.member("display_name").and_then(|v| v.as_str()).is_some());
    assert!(record.member("record_path").is_some());
    assert!(record.member("variants").is_none());
    assert!(catalog.resolve_path("").is_none());
    assert!(catalog.resolve_path("records/nowhere.dbr").is_none());
}

#[test]
fn a_variant_overrides_its_item_fields_and_a_later_record_wins() {
    let equipment = r#"{"items": [
        {"display_name": "Old", "variants": [{"record_path": "x.dbr", "display_name": "Variant Name"}]},
        {"display_name": "New", "variants": [{"record_path": "x.dbr"}]}
    ]}"#;
    let catalog = Catalog::load(equipment, EMPTY_ITEMS, EMPTY_ITEMS, EMPTY_ITEMS, EMPTY_ITEMS).unwrap();
    let resolved = resolve_item(&catalog, &raw_item("x.dbr", "", ""));
    assert_eq!(resolved.display_name, "New");
}

#[test]
fn equipment_is_looked_up_before_affixes() {
    let affixes = r#"{"items": [{"display_name": "Affix", "variants": [{"record_path": "records/items/test_ring.dbr"}]}]}"#;
    let catalog = Catalog::load(EQUIPMENT, affixes, EMPTY_ITEMS, EMPTY_ITEMS, EMPTY_ITEMS).unwrap();
    let resolved = resolve_item(&catalog, &raw_item("records/items/test_ring.dbr", "", ""));
    assert_eq!(resolved.display_name, "Test Ring");
}

#[test]
fn a_catalog_text_that_is_not_json_is_an_error() {
    assert!(Catalog::load(EQUIPMENT, "{", EMPTY_ITEMS, EMPTY_ITEMS, EMPTY_ITEMS).is_err());
}

#[test]
fn a_base_without_display_name_is_shown_by_its_path() {
    let equipment = r#"{"items": [{"variants": [{"record_path": "y.dbr"}]}]}"#;
    let catalog = Catalog::load(equipment, EMPTY_ITEMS, EMPTY_ITEMS, EMPTY_ITEMS, EMPTY_ITEMS).unwrap();
    let resolved = resolve_item(&catalog, &raw_item("y.dbr", "", ""));
    assert!(!resolved.unresolved);
    assert_eq!(resolved.display_name, "y.dbr");
    assert_eq!(resolved.part_stats.len(), 1);
    assert!(resolved.part_stats[0].is_empty());
}
