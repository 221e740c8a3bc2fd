//! The item/affix catalog (equipment, affixes, relics, augments,
//! components), indexed by DBR record path, and the resolution of a raw
//! save item's record paths into its display name and stat lines.

use vstd::prelude::*;

use crate::json::{
    entries_lookup, json_entries_model, json_list_model, json_parse, lemma_entries_lookup_found,
    lemma_entries_lookup_missing, lemma_entries_model,
    lemma_entries_model_push, lemma_list_model, parse_json, text_eq, Json, JsonValue,
};



verus! {

/// Index of the first member named `key`, or -1.
pub open spec fn key_position(es: Seq<(Seq<char>, Json)>, key: Seq<char>) -> int
    decreases es.len(),
{
    if es.len() == 0 {
        -1
    } else if es[0].0 == key {
        0
    } else {
        let p = key_position(es.drop_first(), key);
        if p < 0 {
            -1
        } else {
            p + 1
        }
    }
}

/// `es` with the member `key` set to `value`: replaced where it is, else
/// added at the end (`serde_json::Map::insert`).
pub open spec fn with_member(es: Seq<(Seq<char>, Json)>, key: Seq<char>, value: Json) -> Seq<
    (Seq<char>, Json),
> {
    let p = key_position(es, key);
    if p >= 0 {
        es.update(p, (key, value))
    } else {
        es.push((key, value))
    }
}

/// `es` with every member of `ins` set, in order.
pub open spec fn with_members(es: Seq<(Seq<char>, Json)>, ins: Seq<(Seq<char>, Json)>) -> Seq<
    (Seq<char>, Json),
>
    decreases ins.len(),
{
    if ins.len() == 0 {
        es
    } else {
        let before = with_members(es, ins.drop_last());
        with_member(before, ins.last().0, ins.last().1)
    }
}

/// `es` without the member `key`.
pub open spec fn without_member(es: Seq<(Seq<char>, Json)>, key: Seq<char>) -> Seq<
    (Seq<char>, Json),
>
    decreases es.len(),
{
    if es.len() == 0 {
        Seq::empty()
    } else {
        let before = without_member(es.drop_last(), key);
        if es.last().0 == key {
            before
        } else {
            before.push(es.last())
        }
    }
}

/// The catalog record of one variant: the item's own members (its list of
/// variants, under `nested`, left out) with the variant's members set over
/// them.
pub open spec fn merged_record(item: Json, variant: Json, nested: Seq<char>) -> Json {
    match item {
        Json::Object(ies) => Json::Object(
            with_members(
                without_member(ies, nested),
                match variant {
                    Json::Object(ves) => ves,
                    _ => Seq::empty(),
                },
            ),
        ),
        other => other,
    }
}

/// The records of the first `n` variants of `item`: one per variant with
/// a string `record_path`.
pub open spec fn variants_records(item: Json, variants: Seq<Json>, nested: Seq<char>, n: int) -> Seq<
    (Seq<char>, Json),
>
    decreases n,
{
    if n <= 0 {
        Seq::empty()
    } else {
        let before = variants_records(item, variants, nested, n - 1);
        match variants[n - 1].member("record_path"@) {
            Some(Json::Str(path)) => before.push(
                (path, merged_record(item, variants[n - 1], nested)),
            ),
            _ => before,
        }
    }
}

/// The records of one item (none without an array of variants under
/// `nested`).
pub open spec fn item_records(item: Json, nested: Seq<char>) -> Seq<(Seq<char>, Json)> {
    match item.member(nested) {
        Some(Json::Array(vs)) => variants_records(item, vs, nested, vs.len() as int),
        _ => Seq::empty(),
    }
}

/// The records of the first `n` items, in order.
pub open spec fn items_records(items: Seq<Json>, nested: Seq<char>, n: int) -> Seq<
    (Seq<char>, Json),
>
    decreases n,
{
    if n <= 0 {
        Seq::empty()
    } else {
        items_records(items, nested, n - 1) + item_records(items[n - 1], nested)
    }
}

/// The records of the list `list` of a catalog document, each entry with
/// its variants under `nested` (none without such a list).
pub open spec fn group_records(doc: Json, list: Seq<char>, nested: Seq<char>) -> Seq<
    (Seq<char>, Json),
> {
    match doc.member(list) {
        Some(Json::Array(items)) => items_records(items, nested, items.len() as int),
        _ => Seq::empty(),
    }
}

/// The records of a catalog document, keyed by record path, in document
/// order: those of its `items` (variants under `variants`), then those of
/// its `affixes` (tiers under `tiers`).
pub open spec fn catalog_records(doc: Json) -> Seq<(Seq<char>, Json)> {
    group_records(doc, "items"@, "variants"@) + group_records(doc, "affixes"@, "tiers"@)
}

/// The record under `key`: the last one indexed under it, as a map that
/// is filled in order keeps it.
pub open spec fn lookup_last(es: Seq<(Seq<char>, Json)>, key: Seq<char>) -> Option<Json>
    decreases es.len(),
{
    if es.len() == 0 {
        None
    } else if es.last().0 == key {
        Some(es.last().1)
    } else {
        lookup_last(es.drop_last(), key)
    }
}

// ---------------------------------------------------------------------------
// what a variant's record holds

/// No two members share a name (as in any parsed JSON object).
pub open spec fn distinct_names(es: Seq<(Seq<char>, Json)>) -> bool {
    forall|i: int, j: int| 0 <= i < j < es.len() ==> es[i].0 != es[j].0
}

/// Looking up a name after appending a member.
proof fn lemma_lookup_push(es: Seq<(Seq<char>, Json)>, x: (Seq<char>, Json), k: Seq<char>)
    ensures
        entries_lookup(es.push(x), k) == match entries_lookup(es, k) {
            Some(v) => Some(v),
            None => if x.0 == k {
                Some(x.1)
            } else {
                None
            },
        },
    decreases es.len(),
{
    if es.len() > 0 {
        assert(es.push(x)[0] == es[0]);
        assert(es.push(x).drop_first() =~= es.drop_first().push(x));
        lemma_lookup_push(es.drop_first(), x, k);
    } else {
        assert(es.push(x)[0] == x);
        assert(es.push(x).drop_first() =~= Seq::<(Seq<char>, Json)>::empty());
        assert(entries_lookup(es.push(x).drop_first(), k) is None);
    }
}

/// What `key_position` finds.
proof fn lemma_key_position(es: Seq<(Seq<char>, Json)>, key: Seq<char>)
    ensures
        key_position(es, key) >= 0 ==> key_position(es, key) < es.len() && es[key_position(
            es,
            key,
        )].0 == key && forall|j: int| 0 <= j < key_position(es, key) ==> es[j].0 != key,
        key_position(es, key) < 0 ==> key_position(es, key) == -1 && forall|j: int|
            0 <= j < es.len() ==> es[j].0 != key,
    decreases es.len(),
{
    if es.len() > 0 {
        lemma_key_position(es.drop_first(), key);
        let p = key_position(es.drop_first(), key);
        if es[0].0 != key {
            assert forall|j: int| 0 < j < es.len() && (p < 0 || j <= p) implies es[j].0
                != key || j == p + 1 by {
                assert(es[j] == es.drop_first()[j - 1]);
            }
        }
    }
}

/// Setting a member: its name now gives the new value, other names are
/// unaffected.
proof fn lemma_lookup_with_member(
    es: Seq<(Seq<char>, Json)>,
    key: Seq<char>,
    value: Json,
    k: Seq<char>,
)
    ensures
        entries_lookup(with_member(es, key, value), k) == if k == key {
            Some(value)
        } else {
            entries_lookup(es, k)
        },
{
    lemma_key_position(es, key);
    let p = key_position(es, key);
    if p >= 0 {
        let us = es.update(p, (key, value));
        if k == key {
            assert forall|j: int| 0 <= j < p implies us[j].0 != key by {
                assert(us[j] == es[j]);
            }
            lemma_entries_lookup_found(us, key, p);
        } else {
            // the members named `k` are where they were
            if exists|i: int| 0 <= i < es.len() && es[i].0 == k {
                let i0 = choose|i: int| 0 <= i < es.len() && es[i].0 == k;
                lemma_first_index(es, k, i0);
                let i = choose|i: int|
                    0 <= i < es.len() && es[i].0 == k && forall|j: int|
                        0 <= j < i ==> es[j].0 != k;
                lemma_entries_lookup_found(es, k, i);
                assert(us[i] == es[i]);
                assert forall|j: int| 0 <= j < i implies us[j].0 != k by {
                    if j != p {
                        assert(us[j] == es[j]);
                    }
                }
                lemma_entries_lookup_found(us, k, i);
            } else {
                lemma_entries_lookup_missing(es, k);
                assert forall|j: int| 0 <= j < us.len() implies us[j].0 != k by {
                    if j != p {
                        assert(us[j] == es[j]);
                    }
                }
                lemma_entries_lookup_missing(us, k);
            }
        }
    } else {
        lemma_entries_lookup_missing(es, key);
        lemma_lookup_push(es, (key, value), k);
    }
}

/// A name that occurs has a first occurrence.
proof fn lemma_first_index(es: Seq<(Seq<char>, Json)>, k: Seq<char>, i0: int)
    requires
        0 <= i0 < es.len(),
        es[i0].0 == k,
    ensures
        exists|i: int|
            0 <= i < es.len() && es[i].0 == k && forall|j: int| 0 <= j < i ==> es[j].0 != k,
    decreases i0,
{
    if exists|j: int| 0 <= j < i0 && es[j].0 == k {
        let j = choose|j: int| 0 <= j < i0 && es[j].0 == k;
        lemma_first_index(es, k, j);
    } else {
        assert(0 <= i0 < es.len() && es[i0].0 == k && forall|j: int| 0 <= j < i0 ==> es[j].0
            != k);
    }
}

/// Setting members in order: a name gives the value of its last member
/// set, else what it gave before.
proof fn lemma_lookup_with_members(
    es: Seq<(Seq<char>, Json)>,
    ins: Seq<(Seq<char>, Json)>,
    k: Seq<char>,
)
    ensures
        entries_lookup(with_members(es, ins), k) == match lookup_last(ins, k) {
            Some(v) => Some(v),
            None => entries_lookup(es, k),
        },
    decreases ins.len(),
{
    if ins.len() > 0 {
        lemma_lookup_with_members(es, ins.drop_last(), k);
        lemma_lookup_with_member(
            with_members(es, ins.drop_last()),
            ins.last().0,
            ins.last().1,
            k,
        );
    }
}

/// Without repeated names, the last member of a name is its only one.
proof fn lemma_lookup_last_distinct(es: Seq<(Seq<char>, Json)>, k: Seq<char>)
    requires
        distinct_names(es),
    ensures
        lookup_last(es, k) == entries_lookup(es, k),
    decreases es.len(),
{
    if es.len() > 0 {
        let init = es.drop_last();
        let last = es.last();
        assert(distinct_names(init));
        lemma_lookup_last_distinct(init, k);
        assert(es =~= init.push(last));
        lemma_lookup_push(init, last, k);
        if last.0 == k {
            assert forall|j: int| 0 <= j < init.len() implies init[j].0 != k by {
                assert(es[j].0 != es[es.len() - 1].0);
            }
            lemma_entries_lookup_missing(init, k);
        }
    }
}

/// Dropping a name keeps every other name's first member.
proof fn lemma_lookup_without(es: Seq<(Seq<char>, Json)>, nested: Seq<char>, k: Seq<char>)
    ensures
        entries_lookup(without_member(es, nested), k) == if k == nested {
            None
        } else {
            entries_lookup(es, k)
        },
    decreases es.len(),
{
    if es.len() > 0 {
        let init = es.drop_last();
        let last = es.last();
        lemma_lookup_without(init, nested, k);
        assert(es =~= init.push(last));
        lemma_lookup_push(init, last, k);
        if last.0 != nested {
            lemma_lookup_push(without_member(init, nested), last, k);
        }
    }
}

/// The record of a variant holds each of the variant's own members; the
/// item's other members, except its list of variants, show through.
pub proof fn law_variant_record_members(item: Json, variant: Json, nested: Seq<char>, k: Seq<char>)
    requires
        item is Object,
        variant is Object,
        distinct_names(variant->Object_0),
    ensures
        merged_record(item, variant, nested).member(k) == match variant.member(k) {
            Some(v) => Some(v),
            None => if k == nested {
                None
            } else {
                item.member(k)
            },
        },
{
    let ies = item->Object_0;
    let ves = variant->Object_0;
    lemma_lookup_with_members(without_member(ies, nested), ves, k);
    lemma_lookup_last_distinct(ves, k);
    lemma_lookup_without(ies, nested, k);
}

/// The model of a catalog: the records of each of its five documents.
pub struct CatalogModel {
    pub equipment: Seq<(Seq<char>, Json)>,
    pub affixes: Seq<(Seq<char>, Json)>,
    pub relics: Seq<(Seq<char>, Json)>,
    pub augments: Seq<(Seq<char>, Json)>,
    pub components: Seq<(Seq<char>, Json)>,
}

/// The record of a DBR path: looked up in equipment, then affixes, relics,
/// augments and components; none for an empty path.
pub open spec fn resolve_spec(cat: CatalogModel, path: Seq<char>) -> Option<Json> {
    if path.len() == 0 {
        None
    } else {
        match lookup_last(cat.equipment, path) {
            Some(v) => Some(v),
            None => match lookup_last(cat.affixes, path) {
                Some(v) => Some(v),
                None => match lookup_last(cat.relics, path) {
                    Some(v) => Some(v),
                    None => match lookup_last(cat.augments, path) {
                        Some(v) => Some(v),
                        None => lookup_last(cat.components, path),
                    },
                },
            },
        }
    }
}

/// Some record of `es` is indexed under `path`.
pub open spec fn indexes(es: Seq<(Seq<char>, Json)>, path: Seq<char>) -> bool {
    exists|i: int| 0 <= i < es.len() && #[trigger] es[i].0 == path
}

/// The record at `i` is the last one of `es` indexed under `path`.
pub open spec fn last_record_at(es: Seq<(Seq<char>, Json)>, path: Seq<char>, i: int) -> bool {
    &&& 0 <= i < es.len()
    &&& es[i].0 == path
    &&& forall|j: int| i < j < es.len() ==> #[trigger] es[j].0 != path
}

proof fn lemma_lookup_last_at(es: Seq<(Seq<char>, Json)>, path: Seq<char>, i: int)
    requires
        last_record_at(es, path, i),
    ensures
        lookup_last(es, path) == Some(es[i].1),
    decreases es.len(),
{
    if i < es.len() - 1 {
        assert(es[es.len() - 1].0 != path);
        let init = es.drop_last();
        assert forall|j: int| i < j < init.len() implies #[trigger] init[j].0 != path by {
            assert(init[j] == es[j]);
        }
        lemma_lookup_last_at(init, path, i);
    }
}

proof fn lemma_lookup_last_some(es: Seq<(Seq<char>, Json)>, path: Seq<char>)
    ensures
        lookup_last(es, path) is Some <==> indexes(es, path),
    decreases es.len(),
{
    if es.len() > 0 {
        let init = es.drop_last();
        lemma_lookup_last_some(init, path);
        if indexes(init, path) {
            let i = choose|i: int| 0 <= i < init.len() && #[trigger] init[i].0 == path;
            assert(es[i] == init[i]);
        }
        if indexes(es, path) && es.last().0 != path {
            let i = choose|i: int| 0 <= i < es.len() && #[trigger] es[i].0 == path;
            assert(init[i] == es[i]);
        }
        if es.last().0 == path {
            assert(es[es.len() - 1].0 == path);
        }
    }
}

/// What resolving a path finds: something exactly when the path is not
/// empty and some document indexes it; and then the last record under it
/// in the first document, in the order equipment, affixes, relics,
/// augments, components, that indexes it.
pub proof fn law_resolve_path_finds_indexed_records(cat: CatalogModel, path: Seq<char>)
    ensures
        resolve_spec(cat, path) is Some <==> path.len() > 0 && (indexes(cat.equipment, path)
            || indexes(cat.affixes, path) || indexes(cat.relics, path) || indexes(
            cat.augments,
            path,
        ) || indexes(cat.components, path)),
        forall|i: int|
            path.len() > 0 && #[trigger] last_record_at(cat.equipment, path, i) ==> resolve_spec(
                cat,
                path,
            ) == Some(cat.equipment[i].1),
        forall|i: int|
            path.len() > 0 && !indexes(cat.equipment, path) && #[trigger] last_record_at(
                cat.affixes,
                path,
                i,
            ) ==> resolve_spec(cat, path) == Some(cat.affixes[i].1),
        forall|i: int|
            path.len() > 0 && !indexes(cat.equipment, path) && !indexes(cat.affixes, path)
                && #[trigger] last_record_at(cat.relics, path, i) ==> resolve_spec(cat, path)
                == Some(cat.relics[i].1),
        forall|i: int|
            path.len() > 0 && !indexes(cat.equipment, path) && !indexes(cat.affixes, path)
                && !indexes(cat.relics, path) && #[trigger] last_record_at(cat.augments, path, i)
                ==> resolve_spec(cat, path) == Some(cat.augments[i].1),
        forall|i: int|
            path.len() > 0 && !indexes(cat.equipment, path) && !indexes(cat.affixes, path)
                && !indexes(cat.relics, path) && !indexes(cat.augments, path)
                && #[trigger] last_record_at(cat.components, path, i) ==> resolve_spec(cat, path)
                == Some(cat.components[i].1),
{
    lemma_lookup_last_some(cat.equipment, path);
    lemma_lookup_last_some(cat.affixes, path);
    lemma_lookup_last_some(cat.relics, path);
    lemma_lookup_last_some(cat.augments, path);
    lemma_lookup_last_some(cat.components, path);
    assert forall|i: int| #[trigger] last_record_at(cat.equipment, path, i) implies lookup_last(
        cat.equipment,
        path,
    ) == Some(cat.equipment[i].1) by {
        lemma_lookup_last_at(cat.equipment, path, i);
    }
    assert forall|i: int| #[trigger] last_record_at(cat.affixes, path, i) implies lookup_last(
        cat.affixes,
        path,
    ) == Some(cat.affixes[i].1) by {
        lemma_lookup_last_at(cat.affixes, path, i);
    }
    assert forall|i: int| #[trigger] last_record_at(cat.relics, path, i) implies lookup_last(
        cat.relics,
        path,
    ) == Some(cat.relics[i].1) by {
        lemma_lookup_last_at(cat.relics, path, i);
    }
    assert forall|i: int| #[trigger] last_record_at(cat.augments, path, i) implies lookup_last(
        cat.augments,
        path,
    ) == Some(cat.augments[i].1) by {
        lemma_lookup_last_at(cat.augments, path, i);
    }
    assert forall|i: int| #[trigger] last_record_at(cat.components, path, i) implies lookup_last(
        cat.components,
        path,
    ) == Some(cat.components[i].1) by {
        lemma_lookup_last_at(cat.components, path, i);
    }
}

proof fn lemma_variants_records_hold(item: Json, vs: Seq<Json>, nested: Seq<char>, n: int, v: int, path: Seq<char>)
    requires
        0 <= v < n <= vs.len(),
        vs[v].member("record_path"@) == Some(Json::Str(path)),
    ensures
        variants_records(item, vs, nested, n).contains((path, merged_record(item, vs[v], nested))),
    decreases n,
{
    let x = (path, merged_record(item, vs[v], nested));
    let before = variants_records(item, vs, nested, n - 1);
    if v == n - 1 {
        assert(variants_records(item, vs, nested, n) == before.push(x));
        assert(before.push(x)[before.len() as int] == x);
    } else {
        lemma_variants_records_hold(item, vs, nested, n - 1, v, path);
        let i = choose|i: int| 0 <= i < before.len() && before[i] == x;
        assert(variants_records(item, vs, nested, n)[i] == x);
    }
}

proof fn lemma_items_records_hold(
    items: Seq<Json>,
    nested: Seq<char>,
    n: int,
    k: int,
    vs: Seq<Json>,
    v: int,
    path: Seq<char>,
)
    requires
        0 <= k < n <= items.len(),
        items[k].member(nested) == Some(Json::Array(vs)),
        0 <= v < vs.len(),
        vs[v].member("record_path"@) == Some(Json::Str(path)),
    ensures
        items_records(items, nested, n).contains((path, merged_record(items[k], vs[v], nested))),
    decreases n,
{
    let x = (path, merged_record(items[k], vs[v], nested));
    let before = items_records(items, nested, n - 1);
    let more = item_records(items[n - 1], nested);
    assert(items_records(items, nested, n) == before + more);
    if k == n - 1 {
        lemma_variants_records_hold(items[k], vs, nested, vs.len() as int, v, path);
        let i = choose|i: int| 0 <= i < more.len() && more[i] == x;
        assert((before + more)[before.len() + i] == x);
    } else {
        lemma_items_records_hold(items, nested, n - 1, k, vs, v, path);
        let i = choose|i: int| 0 <= i < before.len() && before[i] == x;
        assert((before + more)[i] == x);
    }
}

/// What a catalog document indexes: every variant with a string
/// `record_path` of every entry of its `items` (and every tier of every
/// entry of its `affixes`) is indexed under that path, as the entry's
/// members with the variant's (or tier's) set over them.
pub proof fn law_catalog_indexes_every_variant(
    doc: Json,
    list: Seq<char>,
    nested: Seq<char>,
    items: Seq<Json>,
    k: int,
    vs: Seq<Json>,
    v: int,
    path: Seq<char>,
)
    requires
        (list == "items"@ && nested == "variants"@) || (list == "affixes"@ && nested == "tiers"@),
        doc.member(list) == Some(Json::Array(items)),
        0 <= k < items.len(),
        items[k].member(nested) == Some(Json::Array(vs)),
        0 <= v < vs.len(),
        vs[v].member("record_path"@) == Some(Json::Str(path)),
    ensures
        catalog_records(doc).contains((path, merged_record(items[k], vs[v], nested))),
{
    let x = (path, merged_record(items[k], vs[v], nested));
    let a = group_records(doc, "items"@, "variants"@);
    let b = group_records(doc, "affixes"@, "tiers"@);
    assert(catalog_records(doc) == a + b);
    reveal_strlit("items");
    reveal_strlit("affixes");
    assert("items"@ != "affixes"@) by {
        assert("items"@[0] != "affixes"@[0]);
    }
    lemma_items_records_hold(items, nested, items.len() as int, k, vs, v, path);
    let g = items_records(items, nested, items.len() as int);
    let i = choose|i: int| 0 <= i < g.len() && g[i] == x;
    if list == "items"@ {
        assert(a == g);
        assert((a + b)[i] == x);
    } else {
        assert(b == g);
        assert((a + b)[a.len() + i] == x);
    }
}

/// What loading the five catalog texts gives: the catalog of the parsed
/// documents, or the error of the first text that does not parse.
pub open spec fn load_spec(
    equipment: Seq<char>,
    affixes: Seq<char>,
    relics: Seq<char>,
    augments: Seq<char>,
    components: Seq<char>,
) -> Result<CatalogModel, Seq<char>> {
    match (
        json_parse(equipment),
        json_parse(affixes),
        json_parse(relics),
        json_parse(augments),
        json_parse(components),
    ) {
        (Err(e), _, _, _, _) => Err(e),
        (Ok(_), Err(e), _, _, _) => Err(e),
        (Ok(_), Ok(_), Err(e), _, _) => Err(e),
        (Ok(_), Ok(_), Ok(_), Err(e), _) => Err(e),
        (Ok(_), Ok(_), Ok(_), Ok(_), Err(e)) => Err(e),
        (Ok(a), Ok(b), Ok(c), Ok(d), Ok(e)) => Ok(
            CatalogModel {
                equipment: catalog_records(a),
                affixes: catalog_records(b),
                relics: catalog_records(c),
                augments: catalog_records(d),
                components: catalog_records(e),
            },
        ),
    }
}

/// The item/affix data, indexed by DBR record path.
pub struct Catalog {
    equipment_by_path: Vec<(String, JsonValue)>,
    affixes_by_path: Vec<(String, JsonValue)>,
    relics_by_path: Vec<(String, JsonValue)>,
    augments_by_path: Vec<(String, JsonValue)>,
    components_by_path: Vec<(String, JsonValue)>,
}

impl View for Catalog {
    type V = CatalogModel;

    closed spec fn view(&self) -> CatalogModel {
        CatalogModel {
            equipment: json_entries_model(self.equipment_by_path@),
            affixes: json_entries_model(self.affixes_by_path@),
            relics: json_entries_model(self.relics_by_path@),
            augments: json_entries_model(self.augments_by_path@),
            components: json_entries_model(self.components_by_path@),
        }
    }
}

proof fn lemma_key_position_found(es: Seq<(Seq<char>, Json)>, key: Seq<char>, i: int)
    requires
        0 <= i < es.len(),
        es[i].0 == key,
        forall|j: int| 0 <= j < i ==> es[j].0 != key,
    ensures
        key_position(es, key) == i,
    decreases i,
{
    if i > 0 {
        lemma_key_position_found(es.drop_first(), key, i - 1);
    }
}

proof fn lemma_key_position_missing(es: Seq<(Seq<char>, Json)>, key: Seq<char>)
    requires
        forall|j: int| 0 <= j < es.len() ==> es[j].0 != key,
    ensures
        key_position(es, key) == -1,
    decreases es.len(),
{
    if es.len() > 0 {
        lemma_key_position_missing(es.drop_first(), key);
    }
}

/// Sets the member `key` of `out` to `value` (see `with_member`).
fn set_member(out: &mut Vec<(String, JsonValue)>, key: String, value: JsonValue)
    ensures
        json_entries_model(final(out)@) == with_member(
            json_entries_model(old(out)@),
            key@,
            value@,
        ),
{
    let ghost m = json_entries_model(out@);
    proof {
        lemma_entries_model(out@);
    }
    let mut i: usize = 0;
    while i < out.len()
        invariant
            out@ == old(out)@,
            m == json_entries_model(out@),
            m.len() == out.len(),
            forall|k: int|
                0 <= k < out.len() ==> #[trigger] m[k] == (out@[k].0@, out@[k].1@),
            0 <= i <= out.len(),
            forall|j: int| 0 <= j < i ==> m[j].0 != key@,
        decreases out.len() - i,
    {
        assert(m[i as int] == (out@[i as int].0@, out@[i as int].1@));
        if text_eq(out[i].0.as_str(), key.as_str()) {
            proof {
                lemma_key_position_found(m, key@, i as int);
            }
            let ghost kv = key@;
            let ghost vv = value@;
            let ghost old_out = out@;
            out.set(i, (key, value));
            proof {
                lemma_entries_model(out@);
                assert forall|k: int| 0 <= k < out.len() implies #[trigger] json_entries_model(
                    out@,
                )[k] == m.update(i as int, (kv, vv))[k] by {
                    if k != i {
                        assert(out@[k] == old_out[k]);
                        assert(m[k] == (old_out[k].0@, old_out[k].1@));
                    }
                }
                assert(json_entries_model(out@) =~= m.update(i as int, (kv, vv)));
            }
            return ;
        }
        i = i + 1;
    }
    proof {
        lemma_key_position_missing(m, key@);
    }
    let ghost old_out = out@;
    let entry = (key, value);
    out.push(entry);
    proof {
        lemma_entries_model_push(old_out, entry);
    }
}

/// The record of one variant (see `merged_record`).
fn merge_record(item: &JsonValue, variant: &JsonValue, nested: &str) -> (r: JsonValue)
    ensures
        r@ == merged_record(item@, variant@, nested@),
{
    let ies = match item.as_object() {
        Some(es) => es,
        None => {
            return item.copy();
        },
    };
    // the item's members, without `variants`
    let mut out: Vec<(String, JsonValue)> = Vec::new();
    let ghost im = json_entries_model(ies@);
    proof {
        lemma_entries_model(ies@);
    }
    let mut i: usize = 0;
    while i < ies.len()
        invariant
            im == json_entries_model(ies@),
            im.len() == ies.len(),
            forall|k: int| 0 <= k < ies.len() ==> #[trigger] im[k] == (ies@[k].0@, ies@[k].1@),
            0 <= i <= ies.len(),
            json_entries_model(out@) == without_member(im.take(i as int), nested@),
        decreases ies.len() - i,
    {
        assert(im[i as int] == (ies@[i as int].0@, ies@[i as int].1@));
        assert(im.take(i + 1).drop_last() =~= im.take(i as int));
        assert(im.take(i + 1).last() == im[i as int]);
        if !text_eq(ies[i].0.as_str(), nested) {
            let c = ies[i].1.copy();
            let entry = (ies[i].0.clone(), c);
            let ghost old_out = out@;
            out.push(entry);
            proof {
                lemma_entries_model_push(old_out, entry);
            }
        }
        i = i + 1;
    }
    assert(im.take(ies.len() as int) =~= im);
    // then the variant's members over them
    match variant.as_object() {
        Some(ves) => {
            let ghost base = json_entries_model(out@);
            let ghost vm = json_entries_model(ves@);
            proof {
                lemma_entries_model(ves@);
                assert(vm.take(0) =~= Seq::<(Seq<char>, Json)>::empty());
            }
            let mut j: usize = 0;
            while j < ves.len()
                invariant
                    vm == json_entries_model(ves@),
                    vm.len() == ves.len(),
                    forall|k: int|
                        0 <= k < ves.len() ==> #[trigger] vm[k] == (ves@[k].0@, ves@[k].1@),
                    0 <= j <= ves.len(),
                    json_entries_model(out@) == with_members(base, vm.take(j as int)),
                decreases ves.len() - j,
            {
                assert(vm[j as int] == (ves@[j as int].0@, ves@[j as int].1@));
                assert(vm.take(j + 1).drop_last() =~= vm.take(j as int));
                assert(vm.take(j + 1).last() == vm[j as int]);
                let c = ves[j].1.copy();
                set_member(&mut out, ves[j].0.clone(), c);
                j = j + 1;
            }
            assert(vm.take(ves.len() as int) =~= vm);
        },
        None => {
            proof {
                assert(!(variant@ is Object));
            }
        },
    }
    JsonValue::Object(out)
}

/// Appends the records of the list `list` of a catalog document to `out`
/// (see `group_records`).
fn index_group(doc: &JsonValue, list: &str, nested: &str, out: &mut Vec<(String, JsonValue)>)
    ensures
        json_entries_model(final(out)@) == json_entries_model(old(out)@) + group_records(
            doc@,
            list@,
            nested@,
        ),
{
    let ghost start = json_entries_model(out@);
    let items = match doc.member(list) {
        Some(v) => match v.as_array() {
            Some(a) => a,
            None => {
                proof {
                    assert(!(v@ is Array));
                }
                assert(start =~= start + Seq::<(Seq<char>, Json)>::empty());
                return ;
            },
        },
        None => {
            assert(start =~= start + Seq::<(Seq<char>, Json)>::empty());
            return ;
        },
    };
    let ghost ims = json_list_model(items@);
    proof {
        lemma_list_model(items@);
        assert(start =~= start + items_records(ims, nested@, 0));
    }
    let mut i: usize = 0;
    while i < items.len()
        invariant
            ims == json_list_model(items@),
            ims.len() == items.len(),
            forall|k: int| 0 <= k < items.len() ==> #[trigger] ims[k] == items@[k]@,
            0 <= i <= items.len(),
            json_entries_model(out@) == start + items_records(ims, nested@, i as int),
        decreases items.len() - i,
    {
        let item = &items[i];
        assert(ims[i as int] == item@);
        let ghost before = json_entries_model(out@);
        match item.member(nested) {
            Some(v) => match v.as_array() {
                Some(vs) => {
                    let ghost vms = json_list_model(vs@);
                    proof {
                        lemma_list_model(vs@);
                        assert(before =~= before + variants_records(item@, vms, nested@, 0));
                    }
                    let mut j: usize = 0;
                    while j < vs.len()
                        invariant
                            vms == json_list_model(vs@),
                            vms.len() == vs.len(),
                            forall|k: int| 0 <= k < vs.len() ==> #[trigger] vms[k] == vs@[k]@,
                            0 <= j <= vs.len(),
                            json_entries_model(out@) == before + variants_records(
                                item@,
                                vms,
                                nested@,
                                j as int,
                            ),
                        decreases vs.len() - j,
                    {
                        assert(vms[j as int] == vs@[j as int]@);
                        match vs[j].member("record_path") {
                            Some(p) => match p.as_str() {
                                Some(path) => {
                                    let record = merge_record(item, &vs[j], nested);
                                    let ghost entry = (path@, record@);
                                    let ghost old_out = out@;
                                    let pair = (path.clone(), record);
                                    out.push(pair);
                                    proof {
                                        lemma_entries_model_push(old_out, pair);
                                        assert((before + variants_records(
                                            item@,
                                            vms,
                                            nested@,
                                            j as int,
                                        )).push(entry) =~= before + variants_records(
                                            item@,
                                            vms,
                                            nested@,
                                            j as int,
                                        ).push(entry));
                                    }
                                },
                                None => {
                                    proof {
                                        assert(!(p@ is Str));
                                    }
                                },
                            },
                            None => {},
                        }
                        j = j + 1;
                    }
                },
                None => {
                    proof {
                        assert(!(v@ is Array));
                        assert(json_entries_model(out@) =~= before + Seq::<
                            (Seq<char>, Json),
                        >::empty());
                    }
                },
            },
            None => {
                assert(json_entries_model(out@) =~= before + Seq::<(Seq<char>, Json)>::empty());
            },
        }
        assert(start + items_records(ims, nested@, i + 1) =~= start + items_records(
            ims,
            nested@,
            i as int,
        ) + item_records(ims[i as int], nested@));
        i = i + 1;
    }
}

/// Indexes a catalog document by record path (see `catalog_records`).
fn index_by_record_path(doc: &JsonValue) -> (r: Vec<(String, JsonValue)>)
    ensures
        json_entries_model(r@) == catalog_records(doc@),
{
    let mut out: Vec<(String, JsonValue)> = Vec::new();
    assert(json_entries_model(out@) =~= Seq::<(Seq<char>, Json)>::empty());
    index_group(doc, "items", "variants", &mut out);
    index_group(doc, "affixes", "tiers", &mut out);
    assert(Seq::<(Seq<char>, Json)>::empty() + group_records(doc@, "items"@, "variants"@)
        =~= group_records(doc@, "items"@, "variants"@));
    out
}

/// The record indexed last under `key` in `es`.
fn lookup<'a>(es: &'a Vec<(String, JsonValue)>, key: &str) -> (r: Option<&'a JsonValue>)
    ensures
        match r {
            Some(v) => lookup_last(json_entries_model(es@), key@) == Some(v@),
            None => lookup_last(json_entries_model(es@), key@) is None,
        },
{
    let ghost m = json_entries_model(es@);
    proof {
        lemma_entries_model(es@);
        assert(m.take(m.len() as int) =~= m);
    }
    let mut i: usize = es.len();
    while i > 0
        invariant
            m == json_entries_model(es@),
            m.len() == es.len(),
            forall|k: int| 0 <= k < es.len() ==> #[trigger] m[k] == (es@[k].0@, es@[k].1@),
            0 <= i <= es.len(),
            lookup_last(m, key@) == lookup_last(m.take(i as int), key@),
        decreases i,
    {
        let k = i - 1;
        assert(m[k as int] == (es@[k as int].0@, es@[k as int].1@));
        assert(m.take(i as int).last() == m[k as int]);
        assert(m.take(i as int).drop_last() =~= m.take(k as int));
        if text_eq(es[k].0.as_str(), key) {
            return Some(&es[k].1);
        }
        i = k;
    }
    None
}

impl Catalog {
    /// Indexes the five parsed catalog documents (see `catalog_records`).
    pub fn from_documents(
        equipment: &JsonValue,
        affixes: &JsonValue,
        relics: &JsonValue,
        augments: &JsonValue,
        components: &JsonValue,
    ) -> (r: Catalog)
        ensures
            r@ == (CatalogModel {
                equipment: catalog_records(equipment@),
                affixes: catalog_records(affixes@),
                relics: catalog_records(relics@),
                augments: catalog_records(augments@),
                components: catalog_records(components@),
            }),
    {
        Catalog {
            equipment_by_path: index_by_record_path(equipment),
            affixes_by_path: index_by_record_path(affixes),
            relics_by_path: index_by_record_path(relics),
            augments_by_path: index_by_record_path(augments),
            components_by_path: index_by_record_path(components),
        }
    }

    /// Builds the catalog from the text of its five JSON documents
    /// (equipment, affixes, relics, augments, components); the error of the
    /// first document that does not parse otherwise.
    pub fn load(
        equipment: &str,
        affixes: &str,
        relics: &str,
        augments: &str,
        components: &str,
    ) -> (r: Result<Catalog, String>)
        ensures
            match r {
                Ok(c) => load_spec(equipment@, affixes@, relics@, augments@, components@) == Ok::<
                    _,
                    Seq<char>,
                >(c@),
                Err(e) => load_spec(equipment@, affixes@, relics@, augments@, components@)
                    == Err::<CatalogModel, _>(e@),
            },
    {
        let a = match parse_json(equipment) {
            Ok(d) => d,
            Err(e) => {
                return Err(e);
            },
        };
        let b = match parse_json(affixes) {
            Ok(d) => d,
            Err(e) => {
                return Err(e);
            },
        };
        let c = match parse_json(relics) {
            Ok(d) => d,
            Err(e) => {
                return Err(e);
            },
        };
        let d = match parse_json(augments) {
            Ok(d) => d,
            Err(e) => {
                return Err(e);
            },
        };
        let e = match parse_json(components) {
            Ok(d) => d,
            Err(e) => {
                return Err(e);
            },
        };
        let cat = Catalog::from_documents(&a, &b, &c, &d, &e);
        Ok(cat)
    }

    /// The catalog record of a base item, affix, relic, augment or
    /// component DBR path (see `resolve_spec`).
    pub fn resolve_path(&self, record_path: &str) -> (r: Option<&JsonValue>)
        ensures
            match r {
                Some(v) => resolve_spec(self@, record_path@) == Some(v@),
                None => resolve_spec(self@, record_path@) is None,
            },
    {
        if record_path.unicode_len() == 0 {
            return None;
        }
        match lookup(&self.equipment_by_path, record_path) {
            Some(v) => Some(v),
            None => match lookup(&self.affixes_by_path, record_path) {
                Some(v) => Some(v),
                None => match lookup(&self.relics_by_path, record_path) {
                    Some(v) => Some(v),
                    None => match lookup(&self.augments_by_path, record_path) {
                        Some(v) => Some(v),
                        None => lookup(&self.components_by_path, record_path),
                    },
                },
            },
        }
    }
}

} // verus!
