use gd_gear_compare::save_parser::{
    default_save_dir, list_characters, read_equipped_items, read_inventory_items,
    read_stash_items, DirEntryInfo, RawInventoryItem,
};

fn sample(base: &str, prefix: &str, seed: u64) -> RawInventoryItem {
    RawInventoryItem {
        source: "Bag 1".to_string(),
        base_name: base.to_string(),
        prefix_name: prefix.to_string(),
        suffix_name: String::new(),
        modifier_name: String::new(),
        transmute_name: String::new(),
        relic_bonus: String::new(),
        component_name: String::new(),
        augment_name: String::new(),
        seed,
        component_seed: 0,
        augment_seed: 0,
    }
}

#[test]
fn identity_key_matches_for_identical_items() {
    let a = sample("records/items/gearhead/b014a_head.dbr", "records/items/lootaffixes/prefix/x.dbr", 12345);
    let b = sample("records/items/gearhead/b014a_head.dbr", "records/items/lootaffixes/prefix/x.dbr", 12345);
    assert_eq!(a.identity_key(), b.identity_key());
}

#[test]
fn identity_key_differs_on_seed_alone() {
    let a = sample("records/items/materia/compa_aethercrystal.dbr", "", 111);
    let b = sample("records/items/materia/compa_aethercrystal.dbr", "", 222);
    assert_ne!(a.identity_key(), b.identity_key());
}

#[test]
fn identity_key_differs_on_affix_alone() {
    let a = sample("records/items/gearhead/b014a_head.dbr", "records/items/lootaffixes/prefix/x.dbr", 1);
    let b = sample("records/items/gearhead/b014a_head.dbr", "records/items/lootaffixes/prefix/y.dbr", 1);
    assert_ne!(a.identity_key(), b.identity_key());
}

#[test]
fn identity_key_ignores_source_alone() {
    let mut in_bag = sample("records/items/gearhead/b014a_head.dbr", "", 1);
    in_bag.source = "Bag 1".to_string();
    let mut in_stash = in_bag.clone();
    in_stash.source = "Stash Tab 3".to_string();
    assert_eq!(in_bag.identity_key(), in_stash.identity_key());
}

#[test]
fn as_equipped_carries_resolvable_fields_through_unchanged() {
    let raw = sample("records/items/gearhead/b014a_head.dbr", "records/items/lootaffixes/prefix/x.dbr", 1);
    let equipped = raw.as_equipped();
    assert_eq!(equipped.base_name, raw.base_name);
    assert_eq!(equipped.prefix_name, raw.prefix_name);
    assert_eq!(equipped.suffix_name, raw.suffix_name);
}

#[test]
fn identity_key_is_paths_then_seeds_joined_with_bars() {
    let mut item = sample("base.dbr", "prefix.dbr", 12345);
    item.component_seed = 7;
    item.augment_seed = 18446744073709551615;
    assert_eq!(
        item.identity_key(),
        "base.dbr|prefix.dbr|||||||12345|7|18446744073709551615"
    );
}

#[test]
fn identity_key_tells_apart_paths_that_hold_a_bar() {
    let a = sample("a|b", "", 1);
    let b = sample("a", "b|", 1);
    assert_ne!(a.identity_key(), b.identity_key());
}

#[test]
fn identity_key_escapes_bar_and_backslash() {
    let mut item = sample("a|b", "c\\d", 3);
    item.suffix_name = "\\|".to_string();
    assert_eq!(
        item.identity_key(),
        "a\\|b|c\\\\d|\\\\\\|||||||3|0|0"
    );
}

#[test]
fn as_equipped_is_slot_zero_and_keeps_every_part() {
    let mut raw = sample("b.dbr", "p.dbr", 9);
    raw.suffix_name = "s.dbr".to_string();
    raw.modifier_name = "m.dbr".to_string();
    raw.relic_bonus = "r.dbr".to_string();
    raw.component_name = "c.dbr".to_string();
    raw.augment_name = "a.dbr".to_string();
    let e = raw.as_equipped();
    assert_eq!(e.slot_index, 0);
    assert_eq!(e.modifier_name, "m.dbr");
    assert_eq!(e.relic_bonus, "r.dbr");
    assert_eq!(e.component_name, "c.dbr");
    assert_eq!(e.augment_name, "a.dbr");
}

const SAVE: &str = r#"{
  "inv": {
    "equipment": [
      {"item": {"base_name": "records/items/gearhead/helm.dbr", "prefix_name": "records/p.dbr"}},
      {"item": null},
      {"other": 1},
      {"item": {"base_name": "records/items/gearrelic/relic.dbr", "relic_bonus": "records/bonus.dbr"}}
    ],
    "use_alternate": 1,
    "weapon1": [{"item": {"base_name": "records/items/weapon/sword.dbr"}}],
    "weapon2": [
      {"item": {"base_name": "records/items/weapon/axe.dbr", "suffix_name": "records/s.dbr"}},
      {"item": {"base_name": ""}}
    ],
    "sacks": [
      {"items": [
        {"item": {"base_name": "records/items/a.dbr", "seed": 111, "component_seed": 5}},
        {"item": {"base_name": ""}},
        {"x": 1}
      ]},
      {"nothing": true},
      {"items": [{"item": {"base_name": "records/items/b.dbr", "transmute_name": "records/t.dbr", "seed": -4}}]}
    ]
  },
  "stash": {
    "tabs": [
      {"items": []},
      {"items": [{"item": {"base_name": "records/items/c.dbr", "augment_seed": 9}}]}
    ]
  }
}"#;

#[test]
fn equipped_items_take_body_slots_then_the_active_weapon_set() {
    let items = read_equipped_items(SAVE).unwrap();
    assert_eq!(items.len(), 3);
    assert_eq!(items[0].slot_index, 0);
    assert_eq!(items[0].base_name, "records/items/gearhead/helm.dbr");
    assert_eq!(items[0].prefix_name, "records/p.dbr");
    assert_eq!(items[0].suffix_name, "");
    assert_eq!(items[1].slot_index, 3);
    assert_eq!(items[1].relic_bonus, "records/bonus.dbr");
    // use_alternate = 1: the second weapon set; its empty off-hand is skipped
    assert_eq!(items[2].slot_index, 12);
    assert_eq!(items[2].base_name, "records/items/weapon/axe.dbr");
    assert_eq!(items[2].suffix_name, "records/s.dbr");
}

#[test]
fn equipped_items_use_first_weapon_set_without_alternate() {
    let save = r#"{"inv": {"equipment": [], "weapon1": [{"item": null}, {"item": {"base_name": "w.dbr"}}]}}"#;
    let items = read_equipped_items(save).unwrap();
    assert_eq!(items.len(), 1);
    assert_eq!(items[0].slot_index, 13);
    assert_eq!(items[0].base_name, "w.dbr");
}

#[test]
fn equipped_items_need_an_equipment_array() {
    let err = read_equipped_items(r#"{"inv": {}}"#).unwrap_err();
    assert_eq!(err, "save JSON missing inv.equipment (unexpected save format)");
}

#[test]
fn malformed_save_json_is_reported() {
    let err = read_equipped_items("not json").unwrap_err();
    assert!(err.starts_with("save JSON malformed: "));
    let err = read_inventory_items("{").unwrap_err();
    assert!(err.starts_with("save JSON malformed: "));
}

#[test]
fn inventory_items_are_named_by_bag_and_keep_seeds() {
    let items = read_inventory_items(SAVE).unwrap();
    assert_eq!(items.len(), 2);
    assert_eq!(items[0].source, "Bag 1");
    assert_eq!(items[0].base_name, "records/items/a.dbr");
    assert_eq!(items[0].seed, 111);
    assert_eq!(items[0].component_seed, 5);
    assert_eq!(items[0].augment_seed, 0);
    assert_eq!(items[1].source, "Bag 3");
    assert_eq!(items[1].transmute_name, "records/t.dbr");
    // a negative seed is no u64: read as 0
    assert_eq!(items[1].seed, 0);
}

#[test]
fn stash_items_are_named_by_tab() {
    let items = read_stash_items(SAVE).unwrap();
    assert_eq!(items.len(), 1);
    assert_eq!(items[0].source, "Stash Tab 2");
    assert_eq!(items[0].base_name, "records/items/c.dbr");
    assert_eq!(items[0].augment_seed, 9);
}

#[test]
fn missing_sacks_or_tabs_are_errors() {
    assert_eq!(
        read_inventory_items(r#"{"inv": {"sacks": 3}}"#).unwrap_err(),
        "save JSON missing inv.sacks (unexpected save format)"
    );
    assert_eq!(
        read_stash_items(r#"{"inv": {}}"#).unwrap_err(),
        "save JSON missing stash.tabs (unexpected save format)"
    );
}

#[test]
fn default_save_dir_is_under_documents() {
    let parts = default_save_dir(Some("C:\\Users\\me".to_string())).unwrap();
    assert_eq!(parts, vec!["C:\\Users\\me", "Documents", "My Games", "Grim Dawn", "save", "main"]);
    assert!(default_save_dir(None).is_none());
}

#[test]
fn list_characters_keeps_underscored_folders_sorted() {
    let entries = vec![
        DirEntryInfo { name: Some("_Zed".to_string()), is_dir: true },
        DirEntryInfo { name: Some("_Alice".to_string()), is_dir: true },
        DirEntryInfo { name: Some("notes".to_string()), is_dir: true },
        DirEntryInfo { name: Some("_file".to_string()), is_dir: false },
        DirEntryInfo { name: None, is_dir: true },
        DirEntryInfo { name: Some("_Bob".to_string()), is_dir: true },
        DirEntryInfo { name: Some("_A".to_string()), is_dir: true },
    ];
    assert_eq!(list_characters(&entries), vec!["_A", "_Alice", "_Bob", "_Zed"]);
}
