//! Stat extraction: which stat lines a resolved catalog item (its JSON
//! `properties` array) carries, under which stat key, and where each
//! line's number comes from.

use vstd::prelude::*;
use vstd::string::*;

use crate::json::{
    entries_lookup, json_entries_model, json_list_model, json_model, lemma_entries_model,
    lemma_list_model, text_eq, Json, JsonValue,
};
use crate::text::{ends_with, has_suffix, is_number, is_number_text};

verus! {

/// Where the number of a stat line comes from.
#[derive(Debug, Clone)]
pub enum Magnitude {
    /// The number written in this text.
    Number(String),
    /// The mean of the numbers written in a `*_min` and a `*_max` text.
    Midpoint(String, String),
    /// A flat 1: the skill is granted, with no rank to add.
    Unit,
}

/// One stat line of an item: the stat key it adds to and its number.
#[derive(Debug, Clone)]
pub struct StatTerm {
    pub stat: String,
    pub magnitude: Magnitude,
}

pub enum MagnitudeModel {
    Number(Seq<char>),
    Midpoint(Seq<char>, Seq<char>),
    Unit,
}

pub struct StatTermModel {
    pub stat: Seq<char>,
    pub magnitude: MagnitudeModel,
}

impl View for Magnitude {
    type V = MagnitudeModel;

    open spec fn view(&self) -> MagnitudeModel {
        match self {
            Magnitude::Number(t) => MagnitudeModel::Number(t@),
            Magnitude::Midpoint(a, b) => MagnitudeModel::Midpoint(a@, b@),
            Magnitude::Unit => MagnitudeModel::Unit,
        }
    }
}

impl View for StatTerm {
    type V = StatTermModel;

    open spec fn view(&self) -> StatTermModel {
        StatTermModel { stat: self.stat@, magnitude: self.magnitude@ }
    }
}

pub open spec fn term_models(terms: Seq<StatTerm>) -> Seq<StatTermModel> {
    terms.map_values(|t: StatTerm| t@)
}

/// Every text a magnitude names is a number that `str::parse::<f64>`
/// accepts.
pub open spec fn magnitude_is_numeric(m: MagnitudeModel) -> bool {
    match m {
        MagnitudeModel::Number(t) => is_number_text(t),
        MagnitudeModel::Midpoint(a, b) => is_number_text(a) && is_number_text(b),
        MagnitudeModel::Unit => true,
    }
}

/// The text of a string value that reads as a number.
pub open spec fn number_text(v: Json) -> Option<Seq<char>> {
    match v {
        Json::Str(s) => if is_number_text(s) {
            Some(s)
        } else {
            None
        },
        _ => None,
    }
}

/// The attribute `key`, when it reads as a number.
pub open spec fn attribute_number(attrs: Seq<(Seq<char>, Json)>, key: Seq<char>) -> Option<
    Seq<char>,
> {
    match entries_lookup(attrs, key) {
        Some(v) => number_text(v),
        None => None,
    }
}

/// The attribute keys that each hold a property's own number: they all
/// stand for the bare property id.
pub open spec fn is_primary_key(k: Seq<char>) -> bool {
    k == "value"@ || k == "percent"@ || k == "flat"@ || k == "damage_percent"@
}

/// The first of `value`, `percent`, `flat`, `damage_percent` that reads as
/// a number.
pub open spec fn direct_primary(attrs: Seq<(Seq<char>, Json)>) -> Option<Seq<char>> {
    match attribute_number(attrs, "value"@) {
        Some(t) => Some(t),
        None => match attribute_number(attrs, "percent"@) {
            Some(t) => Some(t),
            None => match attribute_number(attrs, "flat"@) {
                Some(t) => Some(t),
                None => attribute_number(attrs, "damage_percent"@),
            },
        },
    }
}

/// The value of the first attribute whose key ends with `suffix`.
pub open spec fn first_with_suffix(attrs: Seq<(Seq<char>, Json)>, suffix: Seq<char>) -> Option<
    Json,
>
    decreases attrs.len(),
{
    if attrs.len() == 0 {
        None
    } else if has_suffix(attrs[0].0, suffix) {
        Some(attrs[0].1)
    } else {
        first_with_suffix(attrs.drop_first(), suffix)
    }
}

/// The number of the first `*_min` (or `*_max`) attribute, if it reads as
/// one.
pub open spec fn bound_number(attrs: Seq<(Seq<char>, Json)>, suffix: Seq<char>) -> Option<
    Seq<char>,
> {
    match first_with_suffix(attrs, suffix) {
        Some(v) => number_text(v),
        None => None,
    }
}

/// The primary magnitude of a property: a direct key, else the mean of a
/// `*_min`/`*_max` pair, else whichever of the two is there.
pub open spec fn primary_magnitude(attrs: Seq<(Seq<char>, Json)>) -> Option<MagnitudeModel> {
    match direct_primary(attrs) {
        Some(t) => Some(MagnitudeModel::Number(t)),
        None => match (bound_number(attrs, "_min"@), bound_number(attrs, "_max"@)) {
            (Some(a), Some(b)) => Some(MagnitudeModel::Midpoint(a, b)),
            (Some(a), None) => Some(MagnitudeModel::Number(a)),
            (None, Some(b)) => Some(MagnitudeModel::Number(b)),
            (None, None) => None,
        },
    }
}

/// Some primary key is present (whatever its value).
pub open spec fn has_primary_key(attrs: Seq<(Seq<char>, Json)>) -> bool {
    exists|i: int| 0 <= i < attrs.len() && is_primary_key(#[trigger] attrs[i].0)
}

pub open spec fn qualified(id: Seq<char>, key: Seq<char>) -> Seq<char> {
    id + seq![':'] + key
}

/// The secondary lines of the first `n` attributes: every other attribute
/// that reads as a number, under `id:key`; the `*_min`/`*_max` pair is
/// left out when `skip_bounds` (it already made the primary magnitude).
pub open spec fn secondary_terms(
    id: Seq<char>,
    attrs: Seq<(Seq<char>, Json)>,
    skip_bounds: bool,
    n: int,
) -> Seq<StatTermModel>
    decreases n,
{
    if n <= 0 {
        Seq::empty()
    } else {
        let before = secondary_terms(id, attrs, skip_bounds, n - 1);
        let key = attrs[n - 1].0;
        if is_primary_key(key) || (skip_bounds && (has_suffix(key, "_min"@) || has_suffix(
            key,
            "_max"@,
        ))) {
            before
        } else {
            match number_text(attrs[n - 1].1) {
                Some(t) => before.push(
                    StatTermModel { stat: qualified(id, key), magnitude: MagnitudeModel::Number(t) },
                ),
                None => before,
            }
        }
    }
}

/// Whether a property id names a skill (its rank added, or the skill
/// granted).
pub open spec fn is_skill_property(id: Seq<char>) -> bool {
    id == "skill_bonus"@ || id == "granted_item_skill"@
}

/// The lines of a property with a string `property_id` and an object of
/// `attributes`.
pub open spec fn property_lines(id: Seq<char>, attrs: Seq<(Seq<char>, Json)>) -> Seq<
    StatTermModel,
> {
    match entries_lookup(attrs, "display_name"@) {
        Some(Json::Str(name)) if is_skill_property(id) => seq![
            StatTermModel {
                stat: qualified(id, name),
                magnitude: match attribute_number(attrs, "skill_level"@) {
                    Some(t) => MagnitudeModel::Number(t),
                    None => MagnitudeModel::Unit,
                },
            },
        ],
        _ => {
            let primary = primary_magnitude(attrs);
            let head = match primary {
                Some(m) => seq![StatTermModel { stat: id, magnitude: m }],
                None => Seq::empty(),
            };
            head + secondary_terms(
                id,
                attrs,
                primary is Some && !has_primary_key(attrs),
                attrs.len() as int,
            )
        },
    }
}

/// The lines of one property; none without a string id and an object of
/// attributes.
pub open spec fn property_terms(prop: Json) -> Seq<StatTermModel> {
    match prop.member("property_id"@) {
        Some(Json::Str(id)) => match prop.member("attributes"@) {
            Some(Json::Object(attrs)) => property_lines(id, attrs),
            _ => Seq::empty(),
        },
        _ => Seq::empty(),
    }
}

/// The lines of the first `n` properties, in order.
pub open spec fn properties_terms(props: Seq<Json>, n: int) -> Seq<StatTermModel>
    decreases n,
{
    if n <= 0 {
        Seq::empty()
    } else {
        properties_terms(props, n - 1) + property_terms(props[n - 1])
    }
}

/// The stat lines of a resolved item: those of every entry of its
/// `properties` array (none without one).
pub open spec fn stat_terms(resolved: Json) -> Seq<StatTermModel> {
    match resolved.member("properties"@) {
        Some(Json::Array(props)) => properties_terms(props, props.len() as int),
        _ => Seq::empty(),
    }
}

/// A resolved item that holds nothing but the `properties` array `props`.
pub open spec fn properties_doc(props: Seq<Json>) -> Json {
    Json::Object(seq![("properties"@, Json::Array(props))])
}

proof fn lemma_properties_prefix(a: Seq<Json>, b: Seq<Json>, n: int)
    requires
        0 <= n <= a.len(),
    ensures
        properties_terms(a + b, n) == properties_terms(a, n),
    decreases n,
{
    if n > 0 {
        lemma_properties_prefix(a, b, n - 1);
        assert((a + b)[n - 1] == a[n - 1]);
    }
}

proof fn lemma_properties_concat(a: Seq<Json>, b: Seq<Json>, m: int)
    requires
        0 <= m <= b.len(),
    ensures
        properties_terms(a + b, a.len() + m) == properties_terms(a, a.len() as int)
            + properties_terms(b, m),
    decreases m,
{
    if m == 0 {
        lemma_properties_prefix(a, b, a.len() as int);
        assert(properties_terms(a, a.len() as int) + Seq::<StatTermModel>::empty() =~= properties_terms(
            a,
            a.len() as int,
        ));
    } else {
        lemma_properties_concat(a, b, m - 1);
        assert((a + b)[a.len() + m - 1] == b[m - 1]);
        assert(properties_terms(a + b, a.len() + m) =~= properties_terms(a, a.len() as int) + (
        properties_terms(b, m - 1) + property_terms(b[m - 1])));
    }
}

/// Stat lines add up over the `properties` array: an item whose array is
/// the entries of two items' arrays, one after the other, has the lines of
/// the first item and then those of the second; an empty array has none.
pub proof fn law_stat_lines_of_joined_properties(p1: Seq<Json>, p2: Seq<Json>)
    ensures
        stat_terms(properties_doc(p1 + p2)) == stat_terms(properties_doc(p1)) + stat_terms(
            properties_doc(p2),
        ),
        stat_terms(properties_doc(Seq::empty())) == Seq::<StatTermModel>::empty(),
{
    reveal_strlit("properties");
    assert(properties_doc(p1 + p2).member("properties"@) == Some(Json::Array(p1 + p2)));
    assert(properties_doc(p1).member("properties"@) == Some(Json::Array(p1)));
    assert(properties_doc(p2).member("properties"@) == Some(Json::Array(p2)));
    assert(properties_doc(Seq::empty()).member("properties"@) == Some(
        Json::Array(Seq::<Json>::empty()),
    ));
    lemma_properties_concat(p1, p2, p2.len() as int);
}

/// The ordinary numeric attribute at `a` of a property's attributes: its
/// key is none of `value`, `percent`, `flat`, `damage_percent`, does not
/// end in `_min` or `_max`, and its value is a text that reads as a number.
pub open spec fn ordinary_numeric_attribute(attrs: Seq<(Seq<char>, Json)>, a: int) -> bool {
    let key = attrs[a].0;
    &&& 0 <= a < attrs.len()
    &&& key != "value"@ && key != "percent"@ && key != "flat"@ && key != "damage_percent"@
    &&& !has_suffix(key, "_min"@) && !has_suffix(key, "_max"@)
    &&& attrs[a].1 matches Json::Str(t) && is_number_text(t)
}

proof fn lemma_secondary_keeps_ordinary(
    id: Seq<char>,
    attrs: Seq<(Seq<char>, Json)>,
    skip_bounds: bool,
    n: int,
    a: int,
)
    requires
        ordinary_numeric_attribute(attrs, a),
        a < n <= attrs.len(),
    ensures
        secondary_terms(id, attrs, skip_bounds, n).contains(
            StatTermModel {
                stat: id + seq![':'] + attrs[a].0,
                magnitude: MagnitudeModel::Number(attrs[a].1->Str_0),
            },
        ),
    decreases n,
{
    let line = StatTermModel {
        stat: id + seq![':'] + attrs[a].0,
        magnitude: MagnitudeModel::Number(attrs[a].1->Str_0),
    };
    let before = secondary_terms(id, attrs, skip_bounds, n - 1);
    let all = secondary_terms(id, attrs, skip_bounds, n);
    if a == n - 1 {
        assert(all == before.push(line));
        assert(all[before.len() as int] == line);
    } else {
        lemma_secondary_keeps_ordinary(id, attrs, skip_bounds, n - 1, a);
        let i = choose|i: int| 0 <= i < before.len() && before[i] == line;
        assert(all == before || all == before.push(all.last()));
        assert(all[i] == line);
    }
}

proof fn lemma_properties_terms_keep(props: Seq<Json>, n: int, j: int, x: StatTermModel)
    requires
        0 <= j < n <= props.len(),
        property_terms(props[j]).contains(x),
    ensures
        properties_terms(props, n).contains(x),
    decreases n,
{
    let before = properties_terms(props, n - 1);
    let more = property_terms(props[n - 1]);
    assert(properties_terms(props, n) == before + more);
    if j == n - 1 {
        let i = choose|i: int| 0 <= i < more.len() && more[i] == x;
        assert((before + more)[before.len() + i] == x);
    } else {
        lemma_properties_terms_keep(props, n - 1, j, x);
        let i = choose|i: int| 0 <= i < before.len() && before[i] == x;
        assert((before + more)[i] == x);
    }
}

/// Every ordinary numeric attribute of a property (see
/// `ordinary_numeric_attribute`) gives a stat line `property_id:key` with
/// its number, whatever made the property's primary magnitude (a direct
/// key, a `_min`/`_max` pair, or nothing); only a skill property with a
/// skill name gives its one skill line instead.
pub proof fn law_ordinary_attributes_give_qualified_lines(
    resolved: Json,
    props: Seq<Json>,
    j: int,
    id: Seq<char>,
    attrs: Seq<(Seq<char>, Json)>,
    a: int,
)
    requires
        resolved.member("properties"@) == Some(Json::Array(props)),
        0 <= j < props.len(),
        props[j].member("property_id"@) == Some(Json::Str(id)),
        props[j].member("attributes"@) == Some(Json::Object(attrs)),
        !(id == "skill_bonus"@ || id == "granted_item_skill"@) || !(entries_lookup(
            attrs,
            "display_name"@,
        ) matches Some(Json::Str(_))),
        ordinary_numeric_attribute(attrs, a),
    ensures
        stat_terms(resolved).contains(
            StatTermModel {
                stat: id + seq![':'] + attrs[a].0,
                magnitude: MagnitudeModel::Number(attrs[a].1->Str_0),
            },
        ),
{
    let line = StatTermModel {
        stat: id + seq![':'] + attrs[a].0,
        magnitude: MagnitudeModel::Number(attrs[a].1->Str_0),
    };
    let primary = primary_magnitude(attrs);
    let head = match primary {
        Some(m) => seq![StatTermModel { stat: id, magnitude: m }],
        None => Seq::<StatTermModel>::empty(),
    };
    let sb = primary is Some && !has_primary_key(attrs);
    let sec = secondary_terms(id, attrs, sb, attrs.len() as int);
    lemma_secondary_keeps_ordinary(id, attrs, sb, attrs.len() as int, a);
    assert(property_lines(id, attrs) == head + sec);
    let i = choose|i: int| 0 <= i < sec.len() && sec[i] == line;
    assert((head + sec)[head.len() + i] == line);
    assert(property_terms(props[j]).contains(line));
    lemma_properties_terms_keep(props, props.len() as int, j, line);
}

/// The attribute `key` is the text `t`, which reads as a number.
pub open spec fn numeric_member(attrs: Seq<(Seq<char>, Json)>, key: Seq<char>, t: Seq<char>) -> bool {
    entries_lookup(attrs, key) == Some(Json::Str(t)) && is_number_text(t)
}

/// The attribute `key` is not a text that reads as a number.
pub open spec fn not_numeric_member(attrs: Seq<(Seq<char>, Json)>, key: Seq<char>) -> bool {
    forall|t: Seq<char>| !#[trigger] numeric_member(attrs, key, t)
}

/// The attribute at `p` is the first whose key ends in `suffix`, and its
/// value is the text `t`, which reads as a number.
pub open spec fn first_bound_is(
    attrs: Seq<(Seq<char>, Json)>,
    suffix: Seq<char>,
    p: int,
    t: Seq<char>,
) -> bool {
    &&& 0 <= p < attrs.len()
    &&& has_suffix(attrs[p].0, suffix)
    &&& forall|q: int| 0 <= q < p ==> !has_suffix(#[trigger] attrs[q].0, suffix)
    &&& attrs[p].1 == Json::Str(t)
    &&& is_number_text(t)
}

/// The first attribute whose key ends in `suffix`, if any, is not a text
/// that reads as a number.
pub open spec fn no_bound(attrs: Seq<(Seq<char>, Json)>, suffix: Seq<char>) -> bool {
    forall|p: int, t: Seq<char>| !#[trigger] first_bound_is(attrs, suffix, p, t)
}

proof fn lemma_first_with_suffix_at(attrs: Seq<(Seq<char>, Json)>, suffix: Seq<char>, p: int)
    requires
        0 <= p < attrs.len(),
        has_suffix(attrs[p].0, suffix),
        forall|q: int| 0 <= q < p ==> !has_suffix(#[trigger] attrs[q].0, suffix),
    ensures
        first_with_suffix(attrs, suffix) == Some(attrs[p].1),
    decreases p,
{
    if p > 0 {
        assert(!has_suffix(attrs[0].0, suffix));
        let rest = attrs.drop_first();
        assert forall|q: int| 0 <= q < p - 1 implies !has_suffix(#[trigger] rest[q].0, suffix) by {
            assert(rest[q] == attrs[q + 1]);
        }
        assert(rest[p - 1] == attrs[p]);
        lemma_first_with_suffix_at(rest, suffix, p - 1);
    }
}

proof fn lemma_first_with_suffix_found(attrs: Seq<(Seq<char>, Json)>, suffix: Seq<char>)
    ensures
        first_with_suffix(attrs, suffix) matches Some(v) ==> exists|p: int|
            0 <= p < attrs.len() && has_suffix(attrs[p].0, suffix) && (forall|q: int|
                0 <= q < p ==> !has_suffix(#[trigger] attrs[q].0, suffix)) && attrs[p].1 == v,
    decreases attrs.len(),
{
    if attrs.len() > 0 && !has_suffix(attrs[0].0, suffix) {
        let rest = attrs.drop_first();
        lemma_first_with_suffix_found(rest, suffix);
        if first_with_suffix(rest, suffix) is Some {
            let v = first_with_suffix(rest, suffix)->Some_0;
            let p = choose|p: int|
                0 <= p < rest.len() && has_suffix(rest[p].0, suffix) && (forall|q: int|
                    0 <= q < p ==> !has_suffix(#[trigger] rest[q].0, suffix)) && rest[p].1 == v;
            assert(attrs[p + 1] == rest[p]);
            assert forall|q: int| 0 <= q < p + 1 implies !has_suffix(#[trigger] attrs[q].0, suffix) by {
                if q > 0 {
                    assert(attrs[q] == rest[q - 1]);
                }
            }
        }
    } else if attrs.len() > 0 {
        assert(0 <= 0 < attrs.len() && has_suffix(attrs[0].0, suffix) && (forall|q: int|
            0 <= q < 0 ==> !has_suffix(#[trigger] attrs[q].0, suffix)));
    }
}

/// What the bound number of a suffix is, told by the first attribute with
/// that suffix.
proof fn lemma_bound_number(attrs: Seq<(Seq<char>, Json)>, suffix: Seq<char>)
    ensures
        forall|p: int, t: Seq<char>|
            #[trigger] first_bound_is(attrs, suffix, p, t) ==> bound_number(attrs, suffix) == Some(t),
        no_bound(attrs, suffix) ==> bound_number(attrs, suffix) is None,
{
    assert forall|p: int, t: Seq<char>| #[trigger] first_bound_is(attrs, suffix, p, t) implies bound_number(
        attrs,
        suffix,
    ) == Some(t) by {
        lemma_first_with_suffix_at(attrs, suffix, p);
    }
    if no_bound(attrs, suffix) && bound_number(attrs, suffix) is Some {
        lemma_first_with_suffix_found(attrs, suffix);
        let v = first_with_suffix(attrs, suffix)->Some_0;
        let p = choose|p: int|
            0 <= p < attrs.len() && has_suffix(attrs[p].0, suffix) && (forall|q: int|
                0 <= q < p ==> !has_suffix(#[trigger] attrs[q].0, suffix)) && attrs[p].1 == v;
        let t = bound_number(attrs, suffix)->Some_0;
        assert(first_bound_is(attrs, suffix, p, t));
    }
}

/// The magnitude that a property's line under its bare id has, told by
/// its attributes: the first of `value`, `percent`, `flat`,
/// `damage_percent` that reads as a number; failing all four, the mean of
/// the first `*_min` and the first `*_max` attribute when both read as
/// numbers, or whichever of the two does.
pub open spec fn primary_line_is(attrs: Seq<(Seq<char>, Json)>, m: MagnitudeModel) -> bool {
    let direct_none = not_numeric_member(attrs, "value"@) && not_numeric_member(attrs, "percent"@)
        && not_numeric_member(attrs, "flat"@) && not_numeric_member(attrs, "damage_percent"@);
    ||| m matches MagnitudeModel::Number(t) && numeric_member(attrs, "value"@, t)
    ||| m matches MagnitudeModel::Number(t) && not_numeric_member(attrs, "value"@)
        && numeric_member(attrs, "percent"@, t)
    ||| m matches MagnitudeModel::Number(t) && not_numeric_member(attrs, "value"@)
        && not_numeric_member(attrs, "percent"@) && numeric_member(attrs, "flat"@, t)
    ||| m matches MagnitudeModel::Number(t) && not_numeric_member(attrs, "value"@)
        && not_numeric_member(attrs, "percent"@) && not_numeric_member(attrs, "flat"@)
        && numeric_member(attrs, "damage_percent"@, t)
    ||| m matches MagnitudeModel::Midpoint(a, b) && direct_none && (exists|p: int, q: int|
        #[trigger] first_bound_is(attrs, "_min"@, p, a) && #[trigger] first_bound_is(
            attrs,
            "_max"@,
            q,
            b,
        ))
    ||| m matches MagnitudeModel::Number(a) && direct_none && no_bound(attrs, "_max"@) && (exists|
        p: int,
    | #[trigger] first_bound_is(attrs, "_min"@, p, a))
    ||| m matches MagnitudeModel::Number(b) && direct_none && no_bound(attrs, "_min"@) && (exists|
        q: int,
    | #[trigger] first_bound_is(attrs, "_max"@, q, b))
}

proof fn lemma_attribute_number(attrs: Seq<(Seq<char>, Json)>, key: Seq<char>)
    ensures
        attribute_number(attrs, key) matches Some(t) ==> numeric_member(attrs, key, t),
        attribute_number(attrs, key) is None ==> not_numeric_member(attrs, key),
{
}

/// A property's line under its bare id has the magnitude its attributes
/// give (see `primary_line_is`), and it is the property's first line; when
/// they give none there is no such line first. Only a skill property with
/// a skill name gives its one skill line instead.
pub proof fn law_primary_line_follows_the_attributes(prop: Json, id: Seq<char>, attrs: Seq<(Seq<char>, Json)>)
    requires
        prop.member("property_id"@) == Some(Json::Str(id)),
        prop.member("attributes"@) == Some(Json::Object(attrs)),
        !(id == "skill_bonus"@ || id == "granted_item_skill"@) || !(entries_lookup(
            attrs,
            "display_name"@,
        ) matches Some(Json::Str(_))),
    ensures
        forall|m: MagnitudeModel|
            #[trigger] primary_line_is(attrs, m) ==> property_terms(prop).len() > 0
                && property_terms(prop)[0] == (StatTermModel { stat: id, magnitude: m }),
{
    lemma_attribute_number(attrs, "value"@);
    lemma_attribute_number(attrs, "percent"@);
    lemma_attribute_number(attrs, "flat"@);
    lemma_attribute_number(attrs, "damage_percent"@);
    lemma_bound_number(attrs, "_min"@);
    lemma_bound_number(attrs, "_max"@);
    let primary = primary_magnitude(attrs);
    let head = match primary {
        Some(m) => seq![StatTermModel { stat: id, magnitude: m }],
        None => Seq::<StatTermModel>::empty(),
    };
    let sb = primary is Some && !has_primary_key(attrs);
    let sec = secondary_terms(id, attrs, sb, attrs.len() as int);
    assert(property_terms(prop) == head + sec);
    assert forall|m: MagnitudeModel| #[trigger] primary_line_is(attrs, m) implies property_terms(
        prop,
    ).len() > 0 && property_terms(prop)[0] == (StatTermModel { stat: id, magnitude: m }) by {
        assert(primary == Some(m));
        assert((head + sec)[0] == head[0]);
    }
}

/// The text of `v` when it is a string that reads as a number.
fn number_of(v: &JsonValue) -> (r: Option<String>)
    ensures
        match r {
            Some(t) => number_text(v@) == Some(t@),
            None => number_text(v@) is None,
        },
{
    match v.as_str() {
        Some(s) => {
            proof {
                assert(v@ == Json::Str(s@));
            }
            if is_number(s.as_str()) {
                Some(s.clone())
            } else {
                None
            }
        },
        None => {
            proof {
                assert(!(v@ is Str));
            }
            None
        },
    }
}

/// The attribute `key` of `attrs`, when it reads as a number.
fn number_member(attrs: &JsonValue, key: &str) -> (r: Option<String>)
    requires
        attrs@ is Object,
    ensures
        match r {
            Some(t) => attribute_number(attrs@->Object_0, key@) == Some(t@),
            None => attribute_number(attrs@->Object_0, key@) is None,
        },
{
    match attrs.member(key) {
        Some(v) => number_of(v),
        None => None,
    }
}

fn is_primary(key: &str) -> (r: bool)
    ensures
        r == is_primary_key(key@),
{
    text_eq(key, "value") || text_eq(key, "percent") || text_eq(key, "flat") || text_eq(
        key,
        "damage_percent",
    )
}

/// `id:key`.
fn qualify(id: &str, key: &str) -> (r: String)
    ensures
        r@ == qualified(id@, key@),
{
    let mut s = String::from_str(id);
    s.append(":");
    s.append(key);
    proof {
        reveal_strlit(":");
    }
    s
}

/// The number of the first attribute whose key ends with `suffix`.
fn bound_of(entries: &Vec<(String, JsonValue)>, suffix: &str) -> (r: Option<String>)
    ensures
        match r {
            Some(t) => bound_number(json_entries_model(entries@), suffix@) == Some(t@),
            None => bound_number(json_entries_model(entries@), suffix@) is None,
        },
{
    let ghost es = json_entries_model(entries@);
    proof {
        lemma_entries_model(entries@);
        assert(es.skip(0) =~= es);
    }
    let mut i: usize = 0;
    while i < entries.len()
        invariant
            es == json_entries_model(entries@),
            es.len() == entries.len(),
            forall|k: int|
                0 <= k < entries.len() ==> #[trigger] es[k] == (
                    entries@[k].0@,
                    json_model(entries@[k].1),
                ),
            0 <= i <= entries.len(),
            first_with_suffix(es, suffix@) == first_with_suffix(es.skip(i as int), suffix@),
        decreases entries.len() - i,
    {
        assert(es[i as int] == (entries@[i as int].0@, json_model(entries@[i as int].1)));
        assert(es.skip(i as int)[0] == es[i as int]);
        assert(es.skip(i as int).drop_first() =~= es.skip(i + 1));
        if ends_with(entries[i].0.as_str(), suffix) {
            return number_of(&entries[i].1);
        }
        i = i + 1;
    }
    None
}

/// The stat lines of a resolved catalog item (see `stat_terms`), in order:
/// for each property, a skill line for `skill_bonus`/`granted_item_skill`
/// with a skill name, else the primary magnitude under the bare property id
/// and every other numeric attribute under `property_id:attribute_key`.
pub fn extract_stats(resolved: &JsonValue) -> (r: Vec<StatTerm>)
    ensures
        term_models(r@) == stat_terms(resolved@),
        forall|i: int| 0 <= i < r.len() ==> magnitude_is_numeric(#[trigger] r@[i]@.magnitude),
{
    let mut terms: Vec<StatTerm> = Vec::new();
    let props = match resolved.member("properties") {
        Some(v) => match v.as_array() {
            Some(a) => a,
            None => {
                proof {
                    assert(!(v@ is Array));
                }
                return terms;
            },
        },
        None => {
            return terms;
        },
    };
    let ghost ps = json_list_model(props@);
    proof {
        lemma_list_model(props@);
    }
    let mut i: usize = 0;
    while i < props.len()
        invariant
            ps == json_list_model(props@),
            ps.len() == props.len(),
            forall|k: int| 0 <= k < props.len() ==> #[trigger] ps[k] == props@[k]@,
            0 <= i <= props.len(),
            term_models(terms@) == properties_terms(ps, i as int),
            forall|k: int|
                0 <= k < terms.len() ==> magnitude_is_numeric(#[trigger] terms@[k]@.magnitude),
        decreases props.len() - i,
    {
        assert(ps[i as int] == props@[i as int]@);
        property_lines_into(&props[i], &mut terms);
        i = i + 1;
    }
    terms
}

/// Appends the lines of one property to `terms`.
fn property_lines_into(prop: &JsonValue, terms: &mut Vec<StatTerm>)
    requires
        forall|k: int|
            0 <= k < old(terms).len() ==> magnitude_is_numeric(#[trigger] old(terms)@[k]@.magnitude),
    ensures
        term_models(final(terms)@) == term_models(old(terms)@) + property_terms(prop@),
        forall|k: int|
            0 <= k < final(terms).len() ==> magnitude_is_numeric(
                #[trigger] final(terms)@[k]@.magnitude,
            ),
{
    let id = match prop.member("property_id") {
        Some(v) => match v.as_str() {
            Some(s) => s,
            None => {
                proof {
                    assert(!(v@ is Str));
                }
                assert(term_models(terms@) =~= term_models(terms@) + Seq::<StatTermModel>::empty());
                return ;
            },
        },
        None => {
            assert(term_models(terms@) =~= term_models(terms@) + Seq::<StatTermModel>::empty());
            return ;
        },
    };
    let attrs = match prop.member("attributes") {
        Some(v) => v,
        None => {
            assert(term_models(terms@) =~= term_models(terms@) + Seq::<StatTermModel>::empty());
            return ;
        },
    };
    let entries = match attrs.as_object() {
        Some(es) => es,
        None => {
            proof {
                assert(!(attrs@ is Object));
            }
            assert(term_models(terms@) =~= term_models(terms@) + Seq::<StatTermModel>::empty());
            return ;
        },
    };
    let ghost es = json_entries_model(entries@);
    assert(attrs@ == Json::Object(es));
    assert(property_terms(prop@) == property_lines(id@, es));
    let ghost before = term_models(terms@);
    // skill ranks and granted skills, under the skill's own name
    let skill = text_eq(id.as_str(), "skill_bonus") || text_eq(id.as_str(), "granted_item_skill");
    if skill {
        match attrs.member("display_name") {
            Some(dn) => match dn.as_str() {
                Some(name) => {
                    assert(entries_lookup(es, "display_name"@) == Some(Json::Str(name@)));
                    let magnitude = match number_member(attrs, "skill_level") {
                        Some(t) => Magnitude::Number(t),
                        None => Magnitude::Unit,
                    };
                    let term = StatTerm { stat: qualify(id.as_str(), name.as_str()), magnitude };
                    terms.push(term);
                    assert(term_models(terms@) =~= before + seq![term@]);
                    return ;
                },
                None => {
                    assert(!(dn@ is Str));
                },
            },
            None => {},
        }
    }
    assert(property_lines(id@, es) == {
        let primary = primary_magnitude(es);
        let head = match primary {
            Some(m) => seq![StatTermModel { stat: id@, magnitude: m }],
            None => Seq::empty(),
        };
        head + secondary_terms(id@, es, primary is Some && !has_primary_key(es), es.len() as int)
    });
    // the primary magnitude, under the bare property id
    let mut direct = number_member(attrs, "value");
    if direct.is_none() {
        direct = number_member(attrs, "percent");
    }
    if direct.is_none() {
        direct = number_member(attrs, "flat");
    }
    if direct.is_none() {
        direct = number_member(attrs, "damage_percent");
    }
    let primary: Option<Magnitude> = match direct {
        Some(t) => Some(Magnitude::Number(t)),
        None => {
            let low = bound_of(entries, "_min");
            let high = bound_of(entries, "_max");
            match (low, high) {
                (Some(a), Some(b)) => Some(Magnitude::Midpoint(a, b)),
                (Some(a), None) => Some(Magnitude::Number(a)),
                (None, Some(b)) => Some(Magnitude::Number(b)),
                (None, None) => None,
            }
        },
    };
    let has_primary = primary.is_some();
    assert(has_primary == primary_magnitude(es) is Some);
    match primary {
        Some(m) => {
            let term = StatTerm { stat: id.clone(), magnitude: m };
            assert(Some(term@.magnitude) == primary_magnitude(es));
            terms.push(term);
            assert(term_models(terms@) =~= before + seq![term@]);
        },
        None => {
            assert(term_models(terms@) =~= before + Seq::<StatTermModel>::empty());
        },
    }
    // any primary key present, whatever its value?
    let mut any_primary_key = false;
    let mut j: usize = 0;
    proof {
        lemma_entries_model(entries@);
    }
    while j < entries.len()
        invariant
            es == json_entries_model(entries@),
            es.len() == entries.len(),
            forall|k: int|
                0 <= k < entries.len() ==> #[trigger] es[k] == (
                    entries@[k].0@,
                    json_model(entries@[k].1),
                ),
            0 <= j <= entries.len(),
            any_primary_key <==> exists|k: int| 0 <= k < j && is_primary_key(#[trigger] es[k].0),
        decreases entries.len() - j,
    {
        assert(es[j as int].0 == entries@[j as int].0@);
        if is_primary(entries[j].0.as_str()) {
            any_primary_key = true;
        }
        j = j + 1;
    }
    let skip_bounds = has_primary && !any_primary_key;
    assert(skip_bounds == (primary_magnitude(es) is Some && !has_primary_key(es)));
    let ghost head = term_models(terms@);
    // every other attribute that reads as a number, under `id:key`
    let mut k: usize = 0;
    while k < entries.len()
        invariant
            es == json_entries_model(entries@),
            es.len() == entries.len(),
            forall|x: int|
                0 <= x < entries.len() ==> #[trigger] es[x] == (
                    entries@[x].0@,
                    json_model(entries@[x].1),
                ),
            0 <= k <= entries.len(),
            term_models(terms@) == head + secondary_terms(id@, es, skip_bounds, k as int),
            forall|x: int|
                0 <= x < terms.len() ==> magnitude_is_numeric(#[trigger] terms@[x]@.magnitude),
        decreases entries.len() - k,
    {
        assert(es[k as int] == (entries@[k as int].0@, json_model(entries@[k as int].1)));
        let key = entries[k].0.as_str();
        let skip = is_primary(key) || (skip_bounds && (ends_with(key, "_min") || ends_with(
            key,
            "_max",
        )));
        if !skip {
            match number_of(&entries[k].1) {
                Some(t) => {
                    let term = StatTerm { stat: qualify(id.as_str(), key), magnitude: Magnitude::Number(t) };
                    let ghost prev = term_models(terms@);
                    terms.push(term);
                    assert(term_models(terms@) =~= prev.push(term@));
                    assert((head + secondary_terms(id@, es, skip_bounds, k as int)).push(term@)
                        =~= head + secondary_terms(id@, es, skip_bounds, k as int).push(term@));
                },
                None => {},
            }
        }
        k = k + 1;
    }
    assert(term_models(terms@) =~= before + (head.skip(before.len() as int) + secondary_terms(
        id@,
        es,
        skip_bounds,
        es.len() as int,
    )));
}

// ---------------------------------------------------------------------------
// priority weights

/// Bounds of one star weight (0 = ignored, 4 = top priority).
pub const MIN_STAR_WEIGHT: u8 = 0;

pub const MAX_STAR_WEIGHT: u8 = 4;

/// The map that a list of (stat, weight) pairs with distinct stats stands
/// for.
pub open spec fn pairs_map(ps: Seq<(Seq<char>, u8)>) -> Map<Seq<char>, u8>
    decreases ps.len(),
{
    if ps.len() == 0 {
        Map::empty()
    } else {
        pairs_map(ps.drop_last()).insert(ps.last().0, ps.last().1)
    }
}

pub open spec fn distinct_keys(ps: Seq<(Seq<char>, u8)>) -> bool {
    forall|i: int, j: int| 0 <= i < j < ps.len() ==> ps[i].0 != ps[j].0
}

/// User-set priority weights: star weight per stat key, each stat at most
/// once. Held as a list of pairs with distinct stats, so that every method
/// is proved against the map that the list stands for.
#[derive(Debug)]
pub struct PrioWeights {
    entries: Vec<(String, u8)>,
}

impl PrioWeights {
    /// The (stat, weight) pairs, in the order the stats were first set.
    pub closed spec fn pair_seq(&self) -> Seq<(Seq<char>, u8)> {
        self.entries@.map_values(|e: (String, u8)| (e.0@, e.1))
    }

    /// The weights alone, in the same order.
    pub open spec fn weight_seq(&self) -> Seq<u8> {
        self.pair_seq().map_values(|p: (Seq<char>, u8)| p.1)
    }

    #[verifier::type_invariant]
    spec fn inv(&self) -> bool {
        distinct_keys(self.pair_seq())
    }
}

impl View for PrioWeights {
    type V = Map<Seq<char>, u8>;

    open spec fn view(&self) -> Map<Seq<char>, u8> {
        pairs_map(self.pair_seq())
    }
}

/// What the map of distinct pairs holds.
pub proof fn lemma_pairs_map(ps: Seq<(Seq<char>, u8)>)
    requires
        distinct_keys(ps),
    ensures
        pairs_map(ps).dom().finite(),
        pairs_map(ps).dom().len() == ps.len(),
        forall|i: int|
            0 <= i < ps.len() ==> #[trigger] pairs_map(ps).contains_key(ps[i].0) && pairs_map(
                ps,
            )[ps[i].0] == ps[i].1,
        forall|k: Seq<char>|
            #[trigger] pairs_map(ps).contains_key(k) ==> exists|i: int|
                0 <= i < ps.len() && ps[i].0 == k,
    decreases ps.len(),
{
    if ps.len() > 0 {
        let init = ps.drop_last();
        assert(distinct_keys(init));
        lemma_pairs_map(init);
        let last = ps.last();
        assert(!pairs_map(init).contains_key(last.0)) by {
            if pairs_map(init).contains_key(last.0) {
                let i = choose|i: int| 0 <= i < init.len() && init[i].0 == last.0;
                assert(ps[i].0 == ps[ps.len() - 1].0);
            }
        }
        assert(pairs_map(ps).dom() =~= pairs_map(init).dom().insert(last.0));
        assert forall|k: Seq<char>| #[trigger] pairs_map(ps).contains_key(k) implies exists|i: int|
            0 <= i < ps.len() && ps[i].0 == k by {
            if k != last.0 {
                let i = choose|i: int| 0 <= i < init.len() && init[i].0 == k;
                assert(ps[i].0 == k);
            } else {
                assert(ps[ps.len() - 1].0 == k);
            }
        }
        assert forall|i: int| 0 <= i < ps.len() implies #[trigger] pairs_map(ps).contains_key(
            ps[i].0,
        ) && pairs_map(ps)[ps[i].0] == ps[i].1 by {
            if i < ps.len() - 1 {
                assert(init[i] == ps[i]);
                assert(ps[i].0 != last.0);
            }
        }
    }
}

/// Setting the weight of a stat that is already there, at its place.
proof fn lemma_pairs_map_update(ps: Seq<(Seq<char>, u8)>, i: int, w: u8)
    requires
        distinct_keys(ps),
        0 <= i < ps.len(),
    ensures
        distinct_keys(ps.update(i, (ps[i].0, w))),
        pairs_map(ps.update(i, (ps[i].0, w))) == pairs_map(ps).insert(ps[i].0, w),
{
    let qs = ps.update(i, (ps[i].0, w));
    assert(distinct_keys(qs));
    lemma_pairs_map(ps);
    lemma_pairs_map(qs);
    assert forall|k: Seq<char>| #[trigger] pairs_map(qs).contains_key(k) <==> pairs_map(
        ps,
    ).insert(ps[i].0, w).contains_key(k) by {
        if pairs_map(qs).contains_key(k) {
            let j = choose|j: int| 0 <= j < qs.len() && qs[j].0 == k;
            assert(ps[j].0 == k);
        }
        if pairs_map(ps).contains_key(k) {
            let j = choose|j: int| 0 <= j < ps.len() && ps[j].0 == k;
            assert(qs[j].0 == k);
        }
        if k == ps[i].0 {
            assert(qs[i].0 == k);
        }
    }
    assert forall|k: Seq<char>| #[trigger] pairs_map(qs).contains_key(k) implies pairs_map(qs)[k]
        == pairs_map(ps).insert(ps[i].0, w)[k] by {
        let j = choose|j: int| 0 <= j < qs.len() && qs[j].0 == k;
        assert(pairs_map(qs)[qs[j].0] == qs[j].1);
        if j != i {
            assert(ps[j] == qs[j]);
            assert(pairs_map(ps)[ps[j].0] == ps[j].1);
        }
    }
    assert(pairs_map(qs) =~= pairs_map(ps).insert(ps[i].0, w));
}

impl PrioWeights {
    /// No weights.
    pub fn new() -> (r: PrioWeights)
        ensures
            r@ == Map::<Seq<char>, u8>::empty(),
    {
        let r = PrioWeights { entries: Vec::new() };
        assert(r.pair_seq() =~= Seq::<(Seq<char>, u8)>::empty());
        r
    }

    /// Sets the weight of `stat` (replacing any weight it had).
    pub fn insert(&mut self, stat: String, weight: u8)
        ensures
            final(self)@ == old(self)@.insert(stat@, weight),
    {
        proof {
            use_type_invariant(&*self);
        }
        let ghost ps = self.pair_seq();
        let mut i: usize = 0;
        while i < self.entries.len()
            invariant
                ps == self.pair_seq(),
                ps == old(self).pair_seq(),
                ps.len() == self.entries.len(),
                distinct_keys(ps),
                0 <= i <= self.entries.len(),
                forall|j: int| 0 <= j < i ==> ps[j].0 != stat@,
            decreases self.entries.len() - i,
        {
            assert(ps[i as int] == (self.entries@[i as int].0@, self.entries@[i as int].1));
            if crate::json::text_eq(self.entries[i].0.as_str(), stat.as_str()) {
                proof {
                    lemma_pairs_map_update(ps, i as int, weight);
                }
                let mut entries: Vec<(String, u8)> = Vec::new();
                std::mem::swap(&mut entries, &mut self.entries);
                let key = entries[i].0.clone();
                entries.set(i, (key, weight));
                assert(entries@.map_values(|e: (String, u8)| (e.0@, e.1)) =~= ps.update(
                    i as int,
                    (ps[i as int].0, weight),
                ));
                self.entries = entries;
                return ;
            }
            i = i + 1;
        }
        let ghost sv = stat@;
        let mut entries: Vec<(String, u8)> = Vec::new();
        std::mem::swap(&mut entries, &mut self.entries);
        entries.push((stat, weight));
        assert(entries@.map_values(|e: (String, u8)| (e.0@, e.1)) =~= ps.push((sv, weight)));
        assert(ps.push((sv, weight)).drop_last() =~= ps);
        self.entries = entries;
    }

    /// The weight of `stat`, if it has one.
    pub fn get(&self, stat: &str) -> (r: Option<u8>)
        ensures
            r == (if self@.contains_key(stat@) {
                Some(self@[stat@])
            } else {
                None
            }),
    {
        proof {
            use_type_invariant(self);
            lemma_pairs_map(self.pair_seq());
        }
        let ghost ps = self.pair_seq();
        let mut i: usize = 0;
        while i < self.entries.len()
            invariant
                ps == self.pair_seq(),
                ps.len() == self.entries.len(),
                distinct_keys(ps),
                0 <= i <= self.entries.len(),
                forall|j: int| 0 <= j < i ==> ps[j].0 != stat@,
            decreases self.entries.len() - i,
        {
            assert(ps[i as int] == (self.entries@[i as int].0@, self.entries@[i as int].1));
            if crate::json::text_eq(self.entries[i].0.as_str(), stat) {
                proof {
                    lemma_pairs_map(ps);
                }
                return Some(self.entries[i].1);
            }
            i = i + 1;
        }
        proof {
            lemma_pairs_map(ps);
            if pairs_map(ps).contains_key(stat@) {
                let j = choose|j: int| 0 <= j < ps.len() && ps[j].0 == stat@;
                assert(false);
            }
        }
        None
    }

    /// How many stats have a weight.
    pub fn len(&self) -> (r: usize)
        ensures
            r == self@.len(),
    {
        proof {
            use_type_invariant(self);
            lemma_pairs_map(self.pair_seq());
        }
        self.entries.len()
    }

    pub fn is_empty(&self) -> (r: bool)
        ensures
            r == (self@.len() == 0),
    {
        self.len() == 0
    }

    /// The (stat, weight) pairs, in the order the stats were first set;
    /// they are exactly the map.
    pub fn pairs(&self) -> (r: &Vec<(String, u8)>)
        ensures
            r@.map_values(|e: (String, u8)| (e.0@, e.1)) == self.pair_seq(),
            distinct_keys(self.pair_seq()),
            self@ == pairs_map(self.pair_seq()),
    {
        proof {
            use_type_invariant(self);
        }
        &self.entries
    }
}

/// How many of the best-weighted priorities a strong, realistic item hits.
pub const REALISTIC_HITS_PER_ITEM: usize = 5;

/// Index of the first largest weight.
pub open spec fn max_index(ws: Seq<u8>) -> int
    decreases ws.len(),
{
    if ws.len() <= 1 {
        0
    } else {
        let j = max_index(ws.drop_last());
        if ws.last() > ws[j] {
            ws.len() - 1
        } else {
            j
        }
    }
}

/// The score of the `k` largest weights, each counted as a hit at a solid
/// roll: `weight * 10 + 3`.
pub open spec fn top_score(ws: Seq<u8>, k: nat) -> nat
    decreases k,
{
    if k == 0 || ws.len() == 0 {
        0
    } else {
        let i = max_index(ws);
        (ws[i] * 10 + 3) as nat + top_score(ws.remove(i), (k - 1) as nat)
    }
}

/// The non-zero weights, in order.
pub open spec fn positive_weights(ws: Seq<u8>) -> Seq<u8>
    decreases ws.len(),
{
    if ws.len() == 0 {
        Seq::empty()
    } else {
        let before = positive_weights(ws.drop_last());
        if ws.last() > 0 {
            before.push(ws.last())
        } else {
            before
        }
    }
}

proof fn lemma_max_index(ws: Seq<u8>)
    requires
        ws.len() > 0,
    ensures
        0 <= max_index(ws) < ws.len(),
        forall|j: int| 0 <= j < ws.len() ==> #[trigger] ws[j] <= ws[max_index(ws)],
    decreases ws.len(),
{
    if ws.len() > 1 {
        let init = ws.drop_last();
        lemma_max_index(init);
        assert forall|j: int| 0 <= j < ws.len() implies #[trigger] ws[j] <= ws[max_index(ws)] by {
            if j < ws.len() - 1 {
                assert(ws[j] == init[j]);
            }
            assert(ws[max_index(init)] == init[max_index(init)]);
        }
    }
}

proof fn lemma_top_score_bound(ws: Seq<u8>, k: nat)
    ensures
        top_score(ws, k) <= k * 2553,
    decreases k,
{
    if k > 0 && ws.len() > 0 {
        lemma_max_index(ws);
        lemma_top_score_bound(ws.remove(max_index(ws)), (k - 1) as nat);
    }
}

proof fn lemma_empty_multiset_count<A>(s: Seq<A>, x: A)
    requires
        s.len() == 0,
    ensures
        s.to_multiset().count(x) == 0,
{
    broadcast use vstd::seq_lib::to_multiset_contains;

    assert(!s.contains(x));
}

/// How often a weight occurs among the non-zero weights.
proof fn lemma_positive_count(s: Seq<u8>, x: u8)
    ensures
        positive_weights(s).to_multiset().count(x) == if x > 0 {
            s.to_multiset().count(x)
        } else {
            0
        },
    decreases s.len(),
{
    broadcast use vstd::seq_lib::to_multiset_build;

    if s.len() == 0 {
        lemma_empty_multiset_count(s, x);
        lemma_empty_multiset_count(positive_weights(s), x);
    } else {
        let init = s.drop_last();
        lemma_positive_count(init, x);
        assert(s =~= init.push(s.last()));
        assert(s.to_multiset() =~= init.to_multiset().insert(s.last()));
        if s.last() > 0 {
            assert(positive_weights(s).to_multiset() =~= positive_weights(init).to_multiset().insert(
                s.last(),
            ));
        }
    }
}

/// The largest element only depends on which elements there are.
proof fn lemma_max_same_multiset(a: Seq<u8>, b: Seq<u8>)
    requires
        a.to_multiset() == b.to_multiset(),
        a.len() > 0,
    ensures
        b.len() == a.len(),
        a[max_index(a)] == b[max_index(b)],
{
    broadcast use vstd::seq_lib::to_multiset_contains, vstd::seq_lib::to_multiset_len;

    vstd::seq_lib::to_multiset_len(a);
    vstd::seq_lib::to_multiset_len(b);
    lemma_max_index(a);
    lemma_max_index(b);
    let x = a[max_index(a)];
    let y = b[max_index(b)];
    assert(a.contains(x));
    assert(b.to_multiset().count(x) > 0);
    assert(b.contains(x));
    let j = choose|j: int| 0 <= j < b.len() && b[j] == x;
    assert(b[j] <= y);
    assert(b.contains(y));
    assert(a.to_multiset().count(y) > 0);
    assert(a.contains(y));
    let i = choose|i: int| 0 <= i < a.len() && a[i] == y;
    assert(a[i] <= x);
}

/// The score of the largest weights only depends on which weights there
/// are.
proof fn lemma_top_score_same_multiset(a: Seq<u8>, b: Seq<u8>, k: nat)
    requires
        a.to_multiset() == b.to_multiset(),
    ensures
        top_score(a, k) == top_score(b, k),
    decreases k,
{
    broadcast use vstd::seq_lib::to_multiset_len, vstd::seq_lib::to_multiset_remove;

    vstd::seq_lib::to_multiset_len(a);
    vstd::seq_lib::to_multiset_len(b);
    if k > 0 && a.len() > 0 {
        lemma_max_same_multiset(a, b);
        lemma_max_index(a);
        lemma_max_index(b);
        let i = max_index(a);
        let j = max_index(b);
        assert(a.remove(i).to_multiset() == a.to_multiset().remove(a[i]));
        assert(b.remove(j).to_multiset() == b.to_multiset().remove(b[j]));
        lemma_top_score_same_multiset(a.remove(i), b.remove(j), (k - 1) as nat);
    }
}

/// Mapping elements keeps equal multisets equal.
proof fn lemma_map_same_multiset<A, B>(s: Seq<A>, t: Seq<A>, f: spec_fn(A) -> B)
    requires
        s.to_multiset() == t.to_multiset(),
    ensures
        s.map_values(f).to_multiset() == t.map_values(f).to_multiset(),
    decreases s.len(),
{
    broadcast use {
        vstd::seq_lib::to_multiset_len,
        vstd::seq_lib::to_multiset_build,
        vstd::seq_lib::to_multiset_remove,
        vstd::seq_lib::to_multiset_contains,
        vstd::multiset::group_multiset_axioms,
    };

    vstd::seq_lib::to_multiset_len(s);
    vstd::seq_lib::to_multiset_len(t);
    if s.len() == 0 {
        assert(s.map_values(f) =~= t.map_values(f));
    } else {
        let x = s.last();
        let init = s.drop_last();
        assert(s =~= init.push(x));
        assert(s.to_multiset() == init.to_multiset().insert(x));
        assert(s.contains(x));
        assert(t.to_multiset().count(x) > 0);
        assert(t.contains(x));
        let j = choose|j: int| 0 <= j < t.len() && t[j] == x;
        let rest = t.remove(j);
        assert(rest.to_multiset() == t.to_multiset().remove(x));
        assert(init.to_multiset() =~= rest.to_multiset());
        lemma_map_same_multiset(init, rest, f);
        assert(s.map_values(f) =~= init.map_values(f).push(f(x)));
        assert(rest.map_values(f) =~= t.map_values(f).remove(j));
        assert(t.map_values(f).remove(j).to_multiset() == t.map_values(f).to_multiset().remove(
            f(x),
        ));
        assert(t.map_values(f).contains(f(x))) by {
            assert(t.map_values(f)[j] == f(x));
        }
        assert(t.map_values(f).to_multiset().count(f(x)) > 0);
        assert(s.map_values(f).to_multiset() =~= t.map_values(f).to_multiset());
    }
}

/// In a list of pairs with distinct stats, a pair occurs once if the map
/// holds it, else never.
proof fn lemma_pair_count(ps: Seq<(Seq<char>, u8)>, p: (Seq<char>, u8))
    requires
        distinct_keys(ps),
    ensures
        ps.to_multiset().count(p) == if pairs_map(ps).contains_key(p.0) && pairs_map(ps)[p.0]
            == p.1 {
            1nat
        } else {
            0nat
        },
    decreases ps.len(),
{
    broadcast use vstd::seq_lib::to_multiset_build;

    if ps.len() == 0 {
        lemma_empty_multiset_count(ps, p);
    } else {
        let init = ps.drop_last();
        let last = ps.last();
        assert(distinct_keys(init));
        lemma_pair_count(init, p);
        assert(ps =~= init.push(last));
        assert(ps.to_multiset() =~= init.to_multiset().insert(last));
        lemma_pairs_map(init);
        if p.0 == last.0 {
            assert(!pairs_map(init).contains_key(last.0)) by {
                if pairs_map(init).contains_key(last.0) {
                    let i = choose|i: int| 0 <= i < init.len() && init[i].0 == last.0;
                    assert(ps[i].0 == ps[ps.len() - 1].0);
                }
            }
        }
    }
}

/// Two weight sets that are the same map hold the same weights, however
/// their stats were ordered.
proof fn lemma_same_map_same_weights(a: Seq<(Seq<char>, u8)>, b: Seq<(Seq<char>, u8)>)
    requires
        distinct_keys(a),
        distinct_keys(b),
        pairs_map(a) == pairs_map(b),
    ensures
        a.map_values(|p: (Seq<char>, u8)| p.1).to_multiset() == b.map_values(
            |p: (Seq<char>, u8)| p.1,
        ).to_multiset(),
{
    assert forall|p: (Seq<char>, u8)| a.to_multiset().count(p) == b.to_multiset().count(p) by {
        lemma_pair_count(a, p);
        lemma_pair_count(b, p);
    }
    assert(a.to_multiset() =~= b.to_multiset());
    lemma_map_same_multiset(a, b, |p: (Seq<char>, u8)| p.1);
}

/// The weights of a list of (stat, weight) pairs, in order.
pub open spec fn listed_weights(ps: Seq<(Seq<char>, u8)>) -> Seq<u8> {
    ps.map_values(|p: (Seq<char>, u8)| p.1)
}

/// The best realistic score of the weights listed in `ps`: the five largest
/// non-zero weights (fewer where there are fewer), `weight * 10 + 3` apiece.
pub open spec fn listing_score(ps: Seq<(Seq<char>, u8)>) -> nat {
    top_score(positive_weights(listed_weights(ps)), REALISTIC_HITS_PER_ITEM as nat)
}

/// The best realistic score depends only on the weights map: two listings
/// of one map, whatever the order of their stats, have the same score.
pub proof fn law_max_possible_score_depends_only_on_weights(
    ps: Seq<(Seq<char>, u8)>,
    qs: Seq<(Seq<char>, u8)>,
)
    requires
        distinct_keys(ps),
        distinct_keys(qs),
        pairs_map(ps) == pairs_map(qs),
    ensures
        listing_score(ps) == listing_score(qs),
{
    lemma_same_map_same_weights(ps, qs);
    let wa = listed_weights(ps);
    let wb = listed_weights(qs);
    assert forall|x: u8| positive_weights(wa).to_multiset().count(x) == positive_weights(
        wb,
    ).to_multiset().count(x) by {
        lemma_positive_count(wa, x);
        lemma_positive_count(wb, x);
    }
    assert(positive_weights(wa).to_multiset() =~= positive_weights(wb).to_multiset());
    lemma_top_score_same_multiset(positive_weights(wa), positive_weights(wb), 5);
}

/// No non-zero weight is left exactly when every weight is zero.
proof fn lemma_positive_weights_empty(ws: Seq<u8>)
    ensures
        positive_weights(ws).len() == 0 <==> forall|i: int| 0 <= i < ws.len() ==> ws[i] == 0,
    decreases ws.len(),
{
    if ws.len() > 0 {
        let init = ws.drop_last();
        lemma_positive_weights_empty(init);
        if positive_weights(ws).len() == 0 {
            assert forall|i: int| 0 <= i < ws.len() implies ws[i] == 0 by {
                if i < ws.len() - 1 {
                    assert(ws[i] == init[i]);
                }
            }
        }
        if forall|i: int| 0 <= i < ws.len() ==> ws[i] == 0 {
            assert(ws[ws.len() - 1] == 0);
            assert forall|i: int| 0 <= i < init.len() implies init[i] == 0 by {
                assert(init[i] == ws[i]);
            }
        }
    }
}

/// A listing scores zero exactly when every weight in it is zero.
proof fn lemma_listing_score_zero(ps: Seq<(Seq<char>, u8)>)
    requires
        distinct_keys(ps),
    ensures
        listing_score(ps) == 0 <==> forall|k: Seq<char>|
            #[trigger] pairs_map(ps).contains_key(k) ==> pairs_map(ps)[k] == 0,
{
    let ws = listed_weights(ps);
    let pos = positive_weights(ws);
    lemma_positive_weights_empty(ws);
    lemma_pairs_map(ps);
    if pos.len() > 0 {
        assert(listing_score(ps) >= 3);
        let i = choose|i: int| 0 <= i < ws.len() && ws[i] != 0;
        assert(ws[i] == ps[i].1);
        assert(pairs_map(ps).contains_key(ps[i].0));
    } else {
        assert(listing_score(ps) == 0);
        assert forall|k: Seq<char>| #[trigger] pairs_map(ps).contains_key(k) implies pairs_map(
            ps,
        )[k] == 0 by {
            let i = choose|i: int| 0 <= i < ps.len() && ps[i].0 == k;
            assert(ws[i] == ps[i].1);
        }
    }
}

/// The theoretical score of a strong, realistic item: it hits the five
/// highest-weighted priorities (weight 0 never counts), each at a solid
/// roll, `weight * 10 + 3` apiece.
pub fn max_possible_score(weights: &PrioWeights) -> (r: u64)
    ensures
        forall|ps: Seq<(Seq<char>, u8)>|
            distinct_keys(ps) && pairs_map(ps) == weights@ ==> r == #[trigger] listing_score(ps),
        r == 0 <==> forall|k: Seq<char>|
            #[trigger] weights@.contains_key(k) ==> weights@[k] == 0,
{
    let r = top_weight_score(weights);
    proof {
        use_type_invariant(weights);
        let own = weights.pair_seq();
        assert(listed_weights(own) == weights.weight_seq());
        assert forall|ps: Seq<(Seq<char>, u8)>|
            distinct_keys(ps) && pairs_map(ps) == weights@ implies r == #[trigger] listing_score(
            ps,
        ) by {
            law_max_possible_score_depends_only_on_weights(own, ps);
        }
        assert(r == listing_score(own));
        assert(weights@ == pairs_map(own));
        lemma_listing_score_zero(own);
    }
    r
}

/// The score of the five largest non-zero weights, in the order `weights`
/// keeps them.
fn top_weight_score(weights: &PrioWeights) -> (r: u64)
    ensures
        r == top_score(positive_weights(weights.weight_seq()), REALISTIC_HITS_PER_ITEM as nat),
{
    let pairs = weights.pairs();
    let ghost ws = weights.weight_seq();
    let mut stars: Vec<u8> = Vec::new();
    let mut i: usize = 0;
    while i < pairs.len()
        invariant
            ws == pairs@.map_values(|e: (String, u8)| (e.0@, e.1)).map_values(
                |p: (Seq<char>, u8)| p.1,
            ),
            ws.len() == pairs.len(),
            0 <= i <= pairs.len(),
            stars@ == positive_weights(ws.take(i as int)),
        decreases pairs.len() - i,
    {
        assert(ws[i as int] == pairs@[i as int].1);
        assert(ws.take(i + 1).drop_last() =~= ws.take(i as int));
        assert(ws.take(i + 1).last() == ws[i as int]);
        if pairs[i].1 > 0 {
            stars.push(pairs[i].1);
        }
        i = i + 1;
    }
    assert(ws.take(ws.len() as int) =~= ws);
    let ghost all = stars@;
    let mut total: u64 = 0;
    let mut round: usize = 0;
    proof {
        lemma_top_score_bound(all, 5);
    }
    while round < REALISTIC_HITS_PER_ITEM && stars.len() > 0
        invariant
            0 <= round <= 5,
            total + top_score(stars@, (5 - round) as nat) == top_score(all, 5),
            total <= round * 2553,
        decreases 5 - round,
    {
        // the first largest remaining weight
        let mut best: usize = 0;
        let mut j: usize = 1;
        while j < stars.len()
            invariant
                stars.len() > 0,
                1 <= j <= stars.len(),
                best == max_index(stars@.take(j as int)),
                0 <= best < j,
            decreases stars.len() - j,
        {
            proof {
                lemma_max_index(stars@.take(j as int));
                assert(stars@.take(j + 1).drop_last() =~= stars@.take(j as int));
                assert(stars@.take(j as int)[best as int] == stars@[best as int]);
            }
            if stars[j] > stars[best] {
                best = j;
            }
            j = j + 1;
        }
        assert(stars@.take(stars.len() as int) =~= stars@);
        proof {
            lemma_top_score_bound(stars@.remove(best as int), (5 - round - 1) as nat);
        }
        let w = stars[best] as u64;
        total = total + w * 10 + 3;
        stars.remove(best);
        round = round + 1;
    }
    total
}

} // verus!
