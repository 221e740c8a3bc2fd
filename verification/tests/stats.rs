use std::collections::HashMap;

use gd_gear_compare::json::JsonValue;
use gd_gear_compare::stats::{extract_stats, max_possible_score, Magnitude, PrioWeights, StatTerm};
use gd_gear_compare::text::is_number;

fn value_of(m: &Magnitude) -> f64 {
    match m {
        Magnitude::Number(t) => t.parse::<f64>().unwrap(),
        Magnitude::Midpoint(a, b) => (a.parse::<f64>().unwrap() + b.parse::<f64>().unwrap()) / 2.0,
        Magnitude::Unit => 1.0,
    }
}

fn sum_terms(terms: &[StatTerm]) -> HashMap<String, f64> {
    let mut stats = HashMap::new();
    for t in terms {
        *stats.entry(t.stat.clone()).or_insert(0.0) += value_of(&t.magnitude);
    }
    stats
}

fn stats_of(json: &str) -> HashMap<String, f64> {
    let doc = JsonValue::from_text(json).unwrap();
    sum_terms(&extract_stats(&doc))
}

fn weights(pairs: &[(&str, u8)]) -> PrioWeights {
    let mut w = PrioWeights::new();
    for (k, v) in pairs {
        w.insert(k.to_string(), *v);
    }
    w
}

#[test]
fn primary_magnitude_prefers_percent_key() {
    let stats = stats_of(
        r#"{"properties": [{"property_id": "fire_resistance", "attributes": {"percent": "24.000000"}}]}"#,
    );
    assert_eq!(stats.get("fire_resistance"), Some(&24.0));
    assert_eq!(stats.len(), 1);
}

#[test]
fn primary_magnitude_averages_min_max_pair_when_no_direct_key() {
    let stats = stats_of(
        r#"{"properties": [{"property_id": "flat_fire_damage",
            "attributes": {"damage_min": "20.000000", "damage_max": "60.000000"}}]}"#,
    );
    assert_eq!(stats.get("flat_fire_damage"), Some(&40.0));
}

#[test]
fn secondary_attributes_are_kept_qualified_not_dropped() {
    let stats = stats_of(
        r#"{"properties": [{"property_id": "target_resistance_reduction_flat",
            "attributes": {"duration_seconds": "5.000000", "reduction_flat": "10.000000"}}]}"#,
    );
    assert_eq!(stats.get("target_resistance_reduction_flat"), None);
    assert_eq!(stats.get("target_resistance_reduction_flat:duration_seconds"), Some(&5.0));
    assert_eq!(stats.get("target_resistance_reduction_flat:reduction_flat"), Some(&10.0));
}

#[test]
fn primary_and_secondary_attributes_coexist_on_one_property() {
    let stats = stats_of(
        r#"{"properties": [{"property_id": "some_proc",
            "attributes": {"percent": "15.000000", "chance_percent": "25.000000"}}]}"#,
    );
    assert_eq!(stats.get("some_proc"), Some(&15.0));
    assert_eq!(stats.get("some_proc:chance_percent"), Some(&25.0));
}

#[test]
fn repeated_property_id_across_variants_sums() {
    let stats = stats_of(
        r#"{"properties": [
            {"property_id": "fire_resistance", "attributes": {"percent": "10.000000"}},
            {"property_id": "fire_resistance", "attributes": {"percent": "6.000000"}}]}"#,
    );
    assert_eq!(stats.get("fire_resistance"), Some(&16.0));
}

#[test]
fn skill_bonus_resolves_to_the_actual_skill_name_and_rank() {
    let stats = stats_of(
        r#"{"properties": [{"property_id": "skill_bonus", "attributes": {
            "display_name": "Military Conditioning", "skill_level": "2",
            "skill_reference": "records/skills/playerclass01/passive1.dbr"}}]}"#,
    );
    assert_eq!(stats.get("skill_bonus:Military Conditioning"), Some(&2.0));
    assert_eq!(stats.get("skill_bonus:skill_level"), None);
}

#[test]
fn granted_item_skill_resolves_to_the_skill_name_with_no_fake_rank() {
    let stats = stats_of(
        r#"{"properties": [{"property_id": "granted_item_skill", "attributes": {
            "display_name": "Bloody Pox", "level_equation": "itemLevel/4+1",
            "skill_reference": "records/skills/itemskills/legendary/item_bloodypox.dbr"}}]}"#,
    );
    assert_eq!(stats.get("granted_item_skill:Bloody Pox"), Some(&1.0));
}

#[test]
fn missing_properties_array_yields_empty_stats() {
    assert!(stats_of(r#"{"display_name": "Nothing Here"}"#).is_empty());
}

#[test]
fn lines_come_out_in_order_with_their_number_texts() {
    let doc = JsonValue::from_text(
        r#"{"properties": [{"property_id": "p", "attributes": {
            "b_max": "9", "a_min": "x", "chance": "1e2", "note": "n/a", "value": 3}}]}"#,
    )
    .unwrap();
    let terms = extract_stats(&doc);
    // `value` is a number, not a text: no direct primary; the first `_min`
    // is not a number, so the `_max` alone is the primary magnitude
    assert_eq!(terms.len(), 3);
    assert_eq!(terms[0].stat, "p");
    assert!(matches!(&terms[0].magnitude, Magnitude::Number(t) if t == "9"));
    // `value` is present, so the bounds are still listed as secondary lines
    assert_eq!(terms[1].stat, "p:b_max");
    assert_eq!(terms[2].stat, "p:chance");
    assert!(matches!(&terms[2].magnitude, Magnitude::Number(t) if t == "1e2"));
}

#[test]
fn number_texts_follow_the_float_grammar() {
    for ok in [
        "24.000000", "-3", "+0.5", ".5", "5.", "1e5", "1E-5", "inf", "-Infinity", "NaN", "1.e5",
        "-.5E+3", "INF", "007",
    ] {
        assert!(is_number(ok), "{ok}");
        assert!(ok.parse::<f64>().is_ok(), "{ok}");
    }
    for bad in [
        "", ".", "e5", "1e", "1e+", " 1", "1 ", "1_0", "0x10", "--1", "1.2.3", "infinit", "+", "-",
        "nan(1)", ".e1", "1e5.0",
    ] {
        assert!(!is_number(bad), "{bad}");
        assert!(bad.parse::<f64>().is_err(), "{bad}");
    }
}

#[test]
fn max_possible_score_uses_only_top_five_weights() {
    let w = weights(&[("a", 4), ("b", 4), ("c", 3), ("d", 2), ("e", 1), ("f", 1)]);
    assert!((max_possible_score(&w) as f64 - 155.0).abs() < 1e-9);
}

#[test]
fn max_possible_score_ignores_zero_weights() {
    let w = weights(&[("a", 4), ("ignored", 0)]);
    assert!((max_possible_score(&w) as f64 - 43.0).abs() < 1e-9);
}

#[test]
fn max_possible_score_is_zero_for_empty_weights() {
    assert_eq!(max_possible_score(&PrioWeights::new()) as f64, 0.0);
}

#[test]
fn max_possible_score_picks_the_largest_wherever_they_are() {
    let w = weights(&[("a", 1), ("b", 0), ("c", 2), ("d", 4), ("e", 1), ("f", 3), ("g", 2)]);
    // 4, 3, 2, 2, 1 -> 43 + 33 + 23 + 23 + 13
    assert_eq!(max_possible_score(&w), 135);
}

#[test]
fn weights_keep_one_value_per_stat() {
    let mut w = PrioWeights::new();
    w.insert("fire_resistance".to_string(), 2);
    w.insert("cold_resistance".to_string(), 3);
    w.insert("fire_resistance".to_string(), 4);
    assert_eq!(w.len(), 2);
    assert_eq!(w.get("fire_resistance"), Some(4));
    assert_eq!(w.get("cold_resistance"), Some(3));
    assert_eq!(w.get("physique"), None);
    assert!(!w.is_empty());
}

#[test]
fn max_possible_score_is_the_same_whatever_order_the_weights_were_set() {
    let a = weights(&[("a", 1), ("b", 4), ("c", 0), ("d", 3)]);
    let b = weights(&[("d", 3), ("c", 0), ("b", 4), ("a", 1)]);
    assert_eq!(max_possible_score(&a), max_possible_score(&b));
    assert_eq!(max_possible_score(&a), 43 + 33 + 13);
}

#[test]
fn max_possible_score_is_zero_when_every_weight_is_zero() {
    let w = weights(&[("a", 0), ("b", 0)]);
    assert_eq!(max_possible_score(&w), 0);
}

#[test]
fn stat_lines_of_joined_properties_are_the_lines_of_each_part() {
    let p1 = r#"{"property_id": "fire", "attributes": {"percent": "10"}}"#;
    let p2 = r#"{"property_id": "cold", "attributes": {"flat": "5", "chance": "20"}}"#;
    let one = extract_stats(&JsonValue::from_text(&format!(r#"{{"properties": [{p1}]}}"#)).unwrap());
    let two = extract_stats(&JsonValue::from_text(&format!(r#"{{"properties": [{p2}]}}"#)).unwrap());
    let both = extract_stats(
        &JsonValue::from_text(&format!(r#"{{"properties": [{p1}, {p2}]}}"#)).unwrap(),
    );
    let names = |ts: &[StatTerm]| ts.iter().map(|t| t.stat.clone()).collect::<Vec<_>>();
    let mut joined = names(&one);
    joined.extend(names(&two));
    assert_eq!(names(&both), joined);
    assert_eq!(names(&both), vec!["fire", "cold", "cold:chance"]);
    let empty = extract_stats(&JsonValue::from_text(r#"{"properties": []}"#).unwrap());
    assert!(empty.is_empty());
}
