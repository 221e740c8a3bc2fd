//! Converts a grim_gleaner build profile into this tool's priority weights.
//!
//! Both tools weight the same stat ids, so the plain `weights` map carries
//! over directly. With resistance cap mode on, `resistance_cap_weights`
//! override the plain weight of their stat (this tool has one weight per
//! stat). Per-skill weights and masteries have no equivalent yet: they
//! are counted in the summary, not dropped silently.

use vstd::prelude::*;
use vstd::string::*;

use crate::stats::PrioWeights;
use crate::text::{is_blank, is_blank_text};

verus! {

/// A grim_gleaner profile, as read from its JSON: each weight already
/// taken to a star value (`None` where the JSON value was not a finite
/// number), the ids of the per-skill weights, and each mastery slot's text
/// (`None` where the slot was not a string).
#[derive(Debug, Clone)]
pub struct GrimGleanerProfile {
    pub name: String,
    pub weights: Vec<(String, Option<u8>)>,
    pub resistance_cap_enabled: bool,
    pub resistance_cap_weights: Vec<(String, Option<u8>)>,
    pub skill_weights: Vec<String>,
    pub masteries: Vec<Option<String>>,
}

/// What an import did.
#[derive(Debug, Clone)]
pub struct ImportSummary {
    pub profile_name: String,
    pub imported_stat_count: usize,
    pub resistance_overrides_applied: usize,
    pub skipped_skill_weight_count: usize,
    pub skipped_mastery_count: usize,
    /// Weight entries whose value was not a finite number, dropped
    /// (out-of-range numbers are clamped instead).
    pub invalid_weight_count: usize,
}

#[derive(Debug)]
pub struct ImportResult {
    pub weights: PrioWeights,
    pub summary: ImportSummary,
}

pub open spec fn weight_entries(ws: Seq<(String, Option<u8>)>) -> Seq<(Seq<char>, Option<u8>)> {
    ws.map_values(|e: (String, Option<u8>)| (e.0@, e.1))
}

/// `m` with every valid weight of `ws` set, in order.
pub open spec fn apply_weights(m: Map<Seq<char>, u8>, ws: Seq<(Seq<char>, Option<u8>)>) -> Map<
    Seq<char>,
    u8,
>
    decreases ws.len(),
{
    if ws.len() == 0 {
        m
    } else {
        let before = apply_weights(m, ws.drop_last());
        match ws.last().1 {
            Some(w) => before.insert(ws.last().0, w),
            None => before,
        }
    }
}

/// How many entries of `ws` are invalid.
pub open spec fn invalid_count(ws: Seq<(Seq<char>, Option<u8>)>) -> nat
    decreases ws.len(),
{
    if ws.len() == 0 {
        0
    } else {
        invalid_count(ws.drop_last()) + if ws.last().1 is None {
            1nat
        } else {
            0nat
        }
    }
}

/// How many entries of `ws` are valid.
pub open spec fn valid_count(ws: Seq<(Seq<char>, Option<u8>)>) -> nat
    decreases ws.len(),
{
    if ws.len() == 0 {
        0
    } else {
        valid_count(ws.drop_last()) + if ws.last().1 is Some {
            1nat
        } else {
            0nat
        }
    }
}

/// How many mastery slots name a mastery (a string that is not blank).
pub open spec fn named_masteries(ms: Seq<Option<String>>) -> nat
    decreases ms.len(),
{
    if ms.len() == 0 {
        0
    } else {
        named_masteries(ms.drop_last()) + match ms.last() {
            Some(s) => if is_blank_text(s@) {
                0nat
            } else {
                1nat
            },
            None => 0nat,
        }
    }
}

/// The weights an import gives: the valid plain weights, then (with cap
/// mode on) the valid cap weights over them.
pub open spec fn imported_weights(p: GrimGleanerProfile) -> Map<Seq<char>, u8> {
    let plain = apply_weights(Map::empty(), weight_entries(p.weights@));
    if p.resistance_cap_enabled {
        apply_weights(plain, weight_entries(p.resistance_cap_weights@))
    } else {
        plain
    }
}

/// The name shown for a profile: its own, or "(unnamed profile)" when it
/// is blank.
pub open spec fn profile_name_of(name: Seq<char>) -> Seq<char> {
    if is_blank_text(name) {
        "(unnamed profile)"@
    } else {
        name
    }
}

pub open spec fn summary_matches(s: ImportSummary, p: GrimGleanerProfile) -> bool {
    &&& s.profile_name@ == profile_name_of(p.name@)
    &&& s.imported_stat_count == imported_weights(p).len()
    &&& s.resistance_overrides_applied == if p.resistance_cap_enabled {
        valid_count(weight_entries(p.resistance_cap_weights@))
    } else {
        0
    }
    &&& s.skipped_skill_weight_count == p.skill_weights.len()
    &&& s.skipped_mastery_count == named_masteries(p.masteries@)
    &&& s.invalid_weight_count == invalid_count(weight_entries(p.weights@)) + if p.resistance_cap_enabled {
        invalid_count(weight_entries(p.resistance_cap_weights@))
    } else {
        0
    }
}

/// The weight that the last valid entry of `ws` for stat `k` gives, if any.
pub open spec fn last_valid_weight(ws: Seq<(Seq<char>, Option<u8>)>, k: Seq<char>) -> Option<u8>
    decreases ws.len(),
{
    if ws.len() == 0 {
        None
    } else if ws.last().0 == k && ws.last().1 is Some {
        ws.last().1
    } else {
        last_valid_weight(ws.drop_last(), k)
    }
}

/// The weight an import gives stat `k`: its last valid cap weight when cap
/// mode is on and there is one, else its last valid plain weight, if any.
pub open spec fn imported_weight_of(p: GrimGleanerProfile, k: Seq<char>) -> Option<u8> {
    let cap = last_valid_weight(weight_entries(p.resistance_cap_weights@), k);
    if p.resistance_cap_enabled && cap is Some {
        cap
    } else {
        last_valid_weight(weight_entries(p.weights@), k)
    }
}

/// Setting the valid weights of `ws` over `m`, as seen from one stat.
proof fn lemma_apply_lookup(m: Map<Seq<char>, u8>, ws: Seq<(Seq<char>, Option<u8>)>, k: Seq<char>)
    ensures
        apply_weights(m, ws).contains_key(k) <==> (last_valid_weight(ws, k) is Some
            || m.contains_key(k)),
        apply_weights(m, ws).contains_key(k) ==> apply_weights(m, ws)[k] == match last_valid_weight(
            ws,
            k,
        ) {
            Some(w) => w,
            None => m[k],
        },
    decreases ws.len(),
{
    if ws.len() > 0 {
        lemma_apply_lookup(m, ws.drop_last(), k);
    }
}

/// Which stats an import weights, and how: a stat gets a weight exactly
/// when it has a valid plain weight or, with cap mode on, a valid cap
/// weight; its weight is the last valid cap weight (cap mode on), else the
/// last valid plain weight. Invalid entries play no part.
pub proof fn law_imported_weight_of_each_stat(p: GrimGleanerProfile, k: Seq<char>)
    ensures
        imported_weights(p).contains_key(k) <==> imported_weight_of(p, k) is Some,
        imported_weights(p).contains_key(k) ==> imported_weights(p)[k]
            == imported_weight_of(p, k)->Some_0,
{
    let plain = apply_weights(Map::empty(), weight_entries(p.weights@));
    lemma_apply_lookup(Map::empty(), weight_entries(p.weights@), k);
    if p.resistance_cap_enabled {
        lemma_apply_lookup(plain, weight_entries(p.resistance_cap_weights@), k);
    }
}

/// The last valid entry for a stat decides its weight.
proof fn lemma_apply_last(m: Map<Seq<char>, u8>, ws: Seq<(Seq<char>, Option<u8>)>, i: int)
    requires
        0 <= i < ws.len(),
        ws[i].1 is Some,
        forall|j: int| i < j < ws.len() ==> ws[j].0 != ws[i].0 || ws[j].1 is None,
    ensures
        apply_weights(m, ws).contains_key(ws[i].0),
        apply_weights(m, ws)[ws[i].0] == ws[i].1->Some_0,
    decreases ws.len(),
{
    if i < ws.len() - 1 {
        let init = ws.drop_last();
        assert(init[i] == ws[i]);
        lemma_apply_last(m, init, i);
    }
}

/// With resistance cap mode off, the cap weights play no part: the result
/// is the valid plain weights.
pub proof fn law_cap_weights_ignored_when_cap_mode_off(p: GrimGleanerProfile)
    requires
        !p.resistance_cap_enabled,
    ensures
        imported_weights(p) == apply_weights(Map::empty(), weight_entries(p.weights@)),
{
}

/// With resistance cap mode on, a valid cap weight overrides the plain
/// weight of its stat (the last valid cap weight of a stat wins).
pub proof fn law_cap_weight_overrides_plain_weight(p: GrimGleanerProfile, i: int)
    requires
        p.resistance_cap_enabled,
        0 <= i < p.resistance_cap_weights.len(),
        p.resistance_cap_weights@[i].1 is Some,
        forall|j: int|
            i < j < p.resistance_cap_weights.len() ==> p.resistance_cap_weights@[j].0@
                != p.resistance_cap_weights@[i].0@ || p.resistance_cap_weights@[j].1 is None,
    ensures
        imported_weights(p).contains_key(p.resistance_cap_weights@[i].0@),
        imported_weights(p)[p.resistance_cap_weights@[i].0@]
            == p.resistance_cap_weights@[i].1->Some_0,
{
    let ws = weight_entries(p.resistance_cap_weights@);
    lemma_apply_last(apply_weights(Map::empty(), weight_entries(p.weights@)), ws, i);
}

/// A plain weight that is valid, and not overridden, is imported as is.
pub proof fn law_plain_weight_imported(p: GrimGleanerProfile, i: int)
    requires
        0 <= i < p.weights.len(),
        p.weights@[i].1 is Some,
        forall|j: int|
            i < j < p.weights.len() ==> p.weights@[j].0@ != p.weights@[i].0@
                || p.weights@[j].1 is None,
        p.resistance_cap_enabled ==> forall|j: int|
            0 <= j < p.resistance_cap_weights.len() ==> p.resistance_cap_weights@[j].0@
                != p.weights@[i].0@ || p.resistance_cap_weights@[j].1 is None,
    ensures
        imported_weights(p).contains_key(p.weights@[i].0@),
        imported_weights(p)[p.weights@[i].0@] == p.weights@[i].1->Some_0,
{
    let plain = apply_weights(Map::empty(), weight_entries(p.weights@));
    lemma_apply_last(Map::empty(), weight_entries(p.weights@), i);
    if p.resistance_cap_enabled {
        lemma_apply_untouched(plain, weight_entries(p.resistance_cap_weights@), p.weights@[i].0@);
    }
}

/// Entries that never validly name `k` leave its weight alone.
proof fn lemma_apply_untouched(m: Map<Seq<char>, u8>, ws: Seq<(Seq<char>, Option<u8>)>, k: Seq<char>)
    requires
        forall|j: int| 0 <= j < ws.len() ==> ws[j].0 != k || ws[j].1 is None,
    ensures
        apply_weights(m, ws).contains_key(k) == m.contains_key(k),
        m.contains_key(k) ==> apply_weights(m, ws)[k] == m[k],
    decreases ws.len(),
{
    if ws.len() > 0 {
        let init = ws.drop_last();
        assert forall|j: int| 0 <= j < init.len() implies init[j].0 != k || init[j].1 is None by {
            assert(init[j] == ws[j]);
        }
        lemma_apply_untouched(m, init, k);
        assert(ws.last() == ws[ws.len() - 1]);
    }
}

proof fn lemma_counts(ws: Seq<(Seq<char>, Option<u8>)>)
    ensures
        invalid_count(ws) + valid_count(ws) == ws.len(),
    decreases ws.len(),
{
    if ws.len() > 0 {
        lemma_counts(ws.drop_last());
    }
}

/// Sets every valid weight of `ws` into `weights`; returns how many were
/// valid and how many were not.
fn apply_into(weights: &mut PrioWeights, ws: &Vec<(String, Option<u8>)>) -> (r: (usize, usize))
    ensures
        final(weights)@ == apply_weights(old(weights)@, weight_entries(ws@)),
        r.0 == valid_count(weight_entries(ws@)),
        r.1 == invalid_count(weight_entries(ws@)),
{
    let ghost es = weight_entries(ws@);
    let ghost start = weights@;
    let mut valid: usize = 0;
    let mut invalid: usize = 0;
    let mut i: usize = 0;
    while i < ws.len()
        invariant
            es == weight_entries(ws@),
            start == old(weights)@,
            0 <= i <= ws.len(),
            weights@ == apply_weights(start, es.take(i as int)),
            valid == valid_count(es.take(i as int)),
            invalid == invalid_count(es.take(i as int)),
        decreases ws.len() - i,
    {
        proof {
            assert(es.take(i + 1).drop_last() =~= es.take(i as int));
            assert(es.take(i + 1).last() == (ws@[i as int].0@, ws@[i as int].1));
            lemma_counts(es.take(i as int));
        }
        match ws[i].1 {
            Some(w) => {
                weights.insert(ws[i].0.clone(), w);
                valid = valid + 1;
            },
            None => {
                invalid = invalid + 1;
            },
        }
        i = i + 1;
    }
    assert(es.take(ws.len() as int) =~= es);
    (valid, invalid)
}

/// Converts a grim_gleaner profile to this tool's weights (see
/// `imported_weights`), with a summary of what was imported, overridden,
/// skipped and dropped.
pub fn import_grim_gleaner_profile(profile: GrimGleanerProfile) -> (r: ImportResult)
    requires
        profile.weights.len() + profile.resistance_cap_weights.len() <= usize::MAX,
    ensures
        r.weights@ == imported_weights(profile),
        summary_matches(r.summary, profile),
{
    let mut weights = PrioWeights::new();
    let (_, invalid_plain) = apply_into(&mut weights, &profile.weights);
    let mut overrides: usize = 0;
    let mut invalid_cap: usize = 0;
    if profile.resistance_cap_enabled {
        let (valid, invalid) = apply_into(&mut weights, &profile.resistance_cap_weights);
        overrides = valid;
        invalid_cap = invalid;
    }
    proof {
        lemma_counts(weight_entries(profile.weights@));
        lemma_counts(weight_entries(profile.resistance_cap_weights@));
    }
    let mut masteries: usize = 0;
    let mut i: usize = 0;
    while i < profile.masteries.len()
        invariant
            0 <= i <= profile.masteries.len(),
            masteries == named_masteries(profile.masteries@.take(i as int)),
            masteries <= i,
        decreases profile.masteries.len() - i,
    {
        assert(profile.masteries@.take(i + 1).drop_last() =~= profile.masteries@.take(i as int));
        match &profile.masteries[i] {
            Some(s) => {
                if !is_blank(s.as_str()) {
                    masteries = masteries + 1;
                }
            },
            None => {},
        }
        i = i + 1;
    }
    assert(profile.masteries@.take(profile.masteries.len() as int) =~= profile.masteries@);
    let profile_name = if is_blank(profile.name.as_str()) {
        String::from_str("(unnamed profile)")
    } else {
        profile.name.clone()
    };
    let imported = weights.len();
    ImportResult {
        weights,
        summary: ImportSummary {
            profile_name,
            imported_stat_count: imported,
            resistance_overrides_applied: overrides,
            skipped_skill_weight_count: profile.skill_weights.len(),
            skipped_mastery_count: masteries,
            invalid_weight_count: invalid_plain + invalid_cap,
        },
    }
}

} // verus!
