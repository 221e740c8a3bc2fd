//! Resolves a raw save item's DBR paths against the catalog: the item's
//! display name, whether its base item is known, and the stat lines that
//! each of its parts (base, prefix, suffix, relic, component, augment)
//! contributes.

use vstd::prelude::*;
use vstd::string::*;

use crate::catalog::{resolve_spec, Catalog, CatalogModel};
use crate::json::Json;
use crate::save_parser::{EquippedItemModel, RawEquippedItem};
use crate::stats::{extract_stats, stat_terms, term_models, StatTerm, StatTermModel};

verus! {

/// A save item resolved against the catalog. `part_stats` holds, for each
/// part of the item found in the catalog (in the order base, prefix,
/// suffix, relic, component, augment), that part's stat lines; the item's
/// stats are their sum.
#[derive(Debug, Clone)]
pub struct ResolvedItem {
    pub slot_index: usize,
    pub display_name: String,
    pub base_record_path: String,
    pub part_stats: Vec<Vec<StatTerm>>,
    /// The base item itself is not in the catalog (very new or unique
    /// items): shown as a warning rather than dropped.
    pub unresolved: bool,
}

pub struct ResolvedItemModel {
    pub slot_index: usize,
    pub display_name: Seq<char>,
    pub base_record_path: Seq<char>,
    pub part_stats: Seq<Seq<StatTermModel>>,
    pub unresolved: bool,
}

pub open spec fn part_models(parts: Seq<Vec<StatTerm>>) -> Seq<Seq<StatTermModel>> {
    parts.map_values(|ts: Vec<StatTerm>| term_models(ts@))
}

impl View for ResolvedItem {
    type V = ResolvedItemModel;

    open spec fn view(&self) -> ResolvedItemModel {
        ResolvedItemModel {
            slot_index: self.slot_index,
            display_name: self.display_name@,
            base_record_path: self.base_record_path@,
            part_stats: part_models(self.part_stats@),
            unresolved: self.unresolved,
        }
    }
}

/// The DBR paths of an item that carry stats, in resolution order.
pub open spec fn item_parts(raw: EquippedItemModel) -> Seq<Seq<char>> {
    seq![
        raw.base_name,
        raw.prefix_name,
        raw.suffix_name,
        raw.relic_bonus,
        raw.component_name,
        raw.augment_name,
    ]
}

/// The stat lines of the first `n` parts: one entry per non-empty part
/// found in the catalog.
pub open spec fn parts_stats(cat: CatalogModel, parts: Seq<Seq<char>>, n: int) -> Seq<
    Seq<StatTermModel>,
>
    decreases n,
{
    if n <= 0 {
        Seq::empty()
    } else {
        let before = parts_stats(cat, parts, n - 1);
        if parts[n - 1].len() == 0 {
            before
        } else {
            match resolve_spec(cat, parts[n - 1]) {
                Some(record) => before.push(stat_terms(record)),
                None => before,
            }
        }
    }
}

/// The display name: the base record's `display_name`, else the base
/// path itself; empty when the item has no base path.
pub open spec fn display_name_of(cat: CatalogModel, base: Seq<char>) -> Seq<char> {
    if base.len() == 0 {
        Seq::empty()
    } else {
        match resolve_spec(cat, base) {
            Some(record) => match record.member("display_name"@) {
                Some(Json::Str(name)) => name,
                _ => base,
            },
            None => base,
        }
    }
}

pub open spec fn resolve_item_spec(cat: CatalogModel, raw: EquippedItemModel) -> ResolvedItemModel {
    ResolvedItemModel {
        slot_index: raw.slot_index,
        display_name: display_name_of(cat, raw.base_name),
        base_record_path: raw.base_name,
        part_stats: parts_stats(cat, item_parts(raw), 6),
        unresolved: raw.base_name.len() > 0 && resolve_spec(cat, raw.base_name) is None,
    }
}

/// The stat lines that the part at `path` contributes: those of its
/// catalog record, when the path is not empty and the catalog has one.
pub open spec fn part_lines(cat: CatalogModel, path: Seq<char>) -> Option<Seq<StatTermModel>> {
    if path.len() > 0 && resolve_spec(cat, path) is Some {
        Some(stat_terms(resolve_spec(cat, path)->Some_0))
    } else {
        None
    }
}

pub open spec fn found(lines: Option<Seq<StatTermModel>>) -> nat {
    if lines is Some {
        1
    } else {
        0
    }
}

/// `lines` is what `path` contributes.
pub open spec fn contributed_by(cat: CatalogModel, path: Seq<char>, lines: Seq<StatTermModel>) -> bool {
    part_lines(cat, path) == Some(lines)
}

/// What a resolved item's stats are made of: every one of its base,
/// prefix, suffix, relic, component and augment paths that the catalog
/// resolves contributes its record's stat lines, one entry per such part
/// and nothing else. The item keeps its slot and base path; it is marked
/// unresolved exactly when it has a base path that the catalog does not
/// know, and its name is the base record's `display_name` text, else the
/// base path (empty without one).
pub proof fn law_resolved_parts_carry_their_stat_lines(cat: CatalogModel, raw: EquippedItemModel)
    ensures
        resolve_item_spec(cat, raw).slot_index == raw.slot_index,
        resolve_item_spec(cat, raw).base_record_path == raw.base_name,
        resolve_item_spec(cat, raw).unresolved <==> raw.base_name.len() > 0 && resolve_spec(
            cat,
            raw.base_name,
        ) is None,
        raw.base_name.len() == 0 ==> resolve_item_spec(cat, raw).display_name.len() == 0,
        raw.base_name.len() > 0 ==> resolve_item_spec(cat, raw).display_name == match resolve_spec(
            cat,
            raw.base_name,
        ) {
            Some(record) => match record.member("display_name"@) {
                Some(Json::Str(name)) => name,
                _ => raw.base_name,
            },
            None => raw.base_name,
        },
        ({
            let ps = resolve_item_spec(cat, raw).part_stats;
            &&& part_lines(cat, raw.base_name) matches Some(l) ==> ps.contains(l)
            &&& part_lines(cat, raw.prefix_name) matches Some(l) ==> ps.contains(l)
            &&& part_lines(cat, raw.suffix_name) matches Some(l) ==> ps.contains(l)
            &&& part_lines(cat, raw.relic_bonus) matches Some(l) ==> ps.contains(l)
            &&& part_lines(cat, raw.component_name) matches Some(l) ==> ps.contains(l)
            &&& part_lines(cat, raw.augment_name) matches Some(l) ==> ps.contains(l)
            &&& ps.len() == found(part_lines(cat, raw.base_name)) + found(
                part_lines(cat, raw.prefix_name),
            ) + found(part_lines(cat, raw.suffix_name)) + found(part_lines(cat, raw.relic_bonus))
                + found(part_lines(cat, raw.component_name)) + found(
                part_lines(cat, raw.augment_name),
            )
            &&& forall|i: int|
                0 <= i < ps.len() ==> {
                    ||| contributed_by(cat, raw.base_name, #[trigger] ps[i])
                    ||| contributed_by(cat, raw.prefix_name, ps[i])
                    ||| contributed_by(cat, raw.suffix_name, ps[i])
                    ||| contributed_by(cat, raw.relic_bonus, ps[i])
                    ||| contributed_by(cat, raw.component_name, ps[i])
                    ||| contributed_by(cat, raw.augment_name, ps[i])
                }
        }),
{
    let parts = item_parts(raw);
    let s0 = parts_stats(cat, parts, 0);
    let s1 = parts_stats(cat, parts, 1);
    let s2 = parts_stats(cat, parts, 2);
    let s3 = parts_stats(cat, parts, 3);
    let s4 = parts_stats(cat, parts, 4);
    let s5 = parts_stats(cat, parts, 5);
    let s6 = parts_stats(cat, parts, 6);
    assert(s0.len() == 0);
    assert(s1 == match part_lines(cat, parts[0]) { Some(l) => s0.push(l), None => s0 });
    assert(s2 == match part_lines(cat, parts[1]) { Some(l) => s1.push(l), None => s1 });
    assert(s3 == match part_lines(cat, parts[2]) { Some(l) => s2.push(l), None => s2 });
    assert(s4 == match part_lines(cat, parts[3]) { Some(l) => s3.push(l), None => s3 });
    assert(s5 == match part_lines(cat, parts[4]) { Some(l) => s4.push(l), None => s4 });
    assert(s6 == match part_lines(cat, parts[5]) { Some(l) => s5.push(l), None => s5 });
    lemma_pushes_keep(cat, parts, 6);
}

/// `lines` is what one of the first `n` of `parts` contributes.
pub open spec fn contributed_by_one_of(
    cat: CatalogModel,
    parts: Seq<Seq<char>>,
    n: int,
    lines: Seq<StatTermModel>,
) -> bool {
    exists|k: int| 0 <= k < n && #[trigger] contributed_by(cat, parts[k], lines)
}

proof fn lemma_pushes_keep(cat: CatalogModel, parts: Seq<Seq<char>>, n: int)
    requires
        0 <= n <= parts.len(),
    ensures
        forall|k: int|
            0 <= k < n && #[trigger] part_lines(cat, parts[k]) is Some ==> parts_stats(
                cat,
                parts,
                n,
            ).contains(part_lines(cat, parts[k])->Some_0),
        forall|i: int|
            0 <= i < parts_stats(cat, parts, n).len() ==> #[trigger] contributed_by_one_of(
                cat,
                parts,
                n,
                parts_stats(cat, parts, n)[i],
            ),
    decreases n,
{
    if n > 0 {
        lemma_pushes_keep(cat, parts, n - 1);
        let before = parts_stats(cat, parts, n - 1);
        let all = parts_stats(cat, parts, n);
        assert(all == match part_lines(cat, parts[n - 1]) {
            Some(l) => before.push(l),
            None => before,
        });
        assert forall|k: int|
            0 <= k < n && #[trigger] part_lines(cat, parts[k]) is Some implies all.contains(
            part_lines(cat, parts[k])->Some_0,
        ) by {
            if k < n - 1 {
                let i = choose|i: int| 0 <= i < before.len() && before[i] == part_lines(
                    cat,
                    parts[k],
                )->Some_0;
                assert(all[i] == before[i]);
            } else {
                assert(all[before.len() as int] == part_lines(cat, parts[k])->Some_0);
            }
        }
        assert forall|i: int| 0 <= i < all.len() implies #[trigger] contributed_by_one_of(
            cat,
            parts,
            n,
            all[i],
        ) by {
            if i < before.len() {
                assert(all[i] == before[i]);
                assert(contributed_by_one_of(cat, parts, n - 1, before[i]));
                let k = choose|k: int| 0 <= k < n - 1 && #[trigger] contributed_by(cat, parts[k], before[i]);
                assert(contributed_by(cat, parts[k], all[i]));
            } else {
                assert(contributed_by(cat, parts[n - 1], all[i]));
            }
        }
    }
}

/// Resolves one part into `parts` (nothing for an empty or unknown path).
fn resolve_part(catalog: &Catalog, path: &String, parts: &mut Vec<Vec<StatTerm>>)
    ensures
        part_models(final(parts)@) == if path@.len() == 0 {
            part_models(old(parts)@)
        } else {
            match resolve_spec(catalog@, path@) {
                Some(record) => part_models(old(parts)@).push(stat_terms(record)),
                None => part_models(old(parts)@),
            }
        },
{
    if path.unicode_len() == 0 {
        return ;
    }
    match catalog.resolve_path(path.as_str()) {
        Some(record) => {
            let terms = extract_stats(record);
            let ghost prev = part_models(parts@);
            parts.push(terms);
            assert(part_models(parts@) =~= prev.push(term_models(terms@)));
        },
        None => {},
    }
}

/// Resolves an item's base, prefix, suffix, relic, component and augment
/// paths against the catalog (see `resolve_item_spec`).
pub fn resolve_item(catalog: &Catalog, raw: &RawEquippedItem) -> (r: ResolvedItem)
    ensures
        r@ == resolve_item_spec(catalog@, raw@),
{
    let ghost ps = item_parts(raw@);
    let mut parts: Vec<Vec<StatTerm>> = Vec::new();
    assert(part_models(parts@) =~= parts_stats(catalog@, ps, 0));
    resolve_part(catalog, &raw.base_name, &mut parts);
    assert(part_models(parts@) == parts_stats(catalog@, ps, 1));
    resolve_part(catalog, &raw.prefix_name, &mut parts);
    assert(part_models(parts@) == parts_stats(catalog@, ps, 2));
    resolve_part(catalog, &raw.suffix_name, &mut parts);
    assert(part_models(parts@) == parts_stats(catalog@, ps, 3));
    resolve_part(catalog, &raw.relic_bonus, &mut parts);
    assert(part_models(parts@) == parts_stats(catalog@, ps, 4));
    resolve_part(catalog, &raw.component_name, &mut parts);
    assert(part_models(parts@) == parts_stats(catalog@, ps, 5));
    resolve_part(catalog, &raw.augment_name, &mut parts);
    assert(part_models(parts@) == parts_stats(catalog@, ps, 6));
    let mut display_name = String::new();
    let mut unresolved = false;
    if raw.base_name.unicode_len() > 0 {
        match catalog.resolve_path(raw.base_name.as_str()) {
            Some(record) => match record.member("display_name") {
                Some(v) => match v.as_str() {
                    Some(name) => {
                        display_name = name.clone();
                    },
                    None => {
                        proof {
                            assert(!(v@ is Str));
                        }
                        display_name = raw.base_name.clone();
                    },
                },
                None => {
                    display_name = raw.base_name.clone();
                },
            },
            None => {
                unresolved = true;
                display_name = raw.base_name.clone();
            },
        }
    }
    ResolvedItem {
        slot_index: raw.slot_index,
        display_name,
        base_record_path: raw.base_name.clone(),
        part_stats: parts,
        unresolved,
    }
}

} // verus!
