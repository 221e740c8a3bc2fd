//! Reads a character save's JSON document: the equipped gear (the 12 body
//! slots plus the active weapon set), the items in the personal inventory
//! bags and the items in the personal stash tabs, each as raw DBR record
//! paths for the catalog to resolve.

use vstd::prelude::*;
use vstd::string::*;

use crate::json::{
    json_list_model, json_parse, lemma_list_model, parse_json, Json, JsonValue,
};
use crate::text::{
    chars_of, decimal, decimal_text, lemma_decimal_injective,
    starts_with, starts_with_char,
};

verus! {

/// One equipped item as read straight from the save: base item plus any
/// prefix/suffix/modifier/relic/component/augment DBR paths, each a real
/// record path or empty when that part of the item is unused.
#[derive(Debug, Clone)]
pub struct RawEquippedItem {
    pub slot_index: usize,
    pub base_name: String,
    pub prefix_name: String,
    pub suffix_name: String,
    pub modifier_name: String,
    pub relic_bonus: String,
    pub component_name: String,
    pub augment_name: String,
}

/// One item in a personal inventory bag or a personal stash tab: the DBR
/// paths of an equipped item plus the transmute, the roll seeds, and a
/// human-readable `source` ("Bag 1", "Stash Tab 3"). The seeds tell two
/// drops of the same affix combination apart; `source` is not part of an
/// item's identity, since moving an item does not make it new.
#[derive(Debug, Clone)]
pub struct RawInventoryItem {
    pub source: String,
    pub base_name: String,
    pub prefix_name: String,
    pub suffix_name: String,
    pub modifier_name: String,
    pub transmute_name: String,
    pub relic_bonus: String,
    pub component_name: String,
    pub augment_name: String,
    pub seed: u64,
    pub component_seed: u64,
    pub augment_seed: u64,
}

/// The model of a `RawEquippedItem`.
pub struct EquippedItemModel {
    pub slot_index: usize,
    pub base_name: Seq<char>,
    pub prefix_name: Seq<char>,
    pub suffix_name: Seq<char>,
    pub modifier_name: Seq<char>,
    pub relic_bonus: Seq<char>,
    pub component_name: Seq<char>,
    pub augment_name: Seq<char>,
}

/// The model of a `RawInventoryItem`.
pub struct InventoryItemModel {
    pub source: Seq<char>,
    pub base_name: Seq<char>,
    pub prefix_name: Seq<char>,
    pub suffix_name: Seq<char>,
    pub modifier_name: Seq<char>,
    pub transmute_name: Seq<char>,
    pub relic_bonus: Seq<char>,
    pub component_name: Seq<char>,
    pub augment_name: Seq<char>,
    pub seed: u64,
    pub component_seed: u64,
    pub augment_seed: u64,
}

impl View for RawEquippedItem {
    type V = EquippedItemModel;

    open spec fn view(&self) -> EquippedItemModel {
        EquippedItemModel {
            slot_index: self.slot_index,
            base_name: self.base_name@,
            prefix_name: self.prefix_name@,
            suffix_name: self.suffix_name@,
            modifier_name: self.modifier_name@,
            relic_bonus: self.relic_bonus@,
            component_name: self.component_name@,
            augment_name: self.augment_name@,
        }
    }
}

impl View for RawInventoryItem {
    type V = InventoryItemModel;

    open spec fn view(&self) -> InventoryItemModel {
        InventoryItemModel {
            source: self.source@,
            base_name: self.base_name@,
            prefix_name: self.prefix_name@,
            suffix_name: self.suffix_name@,
            modifier_name: self.modifier_name@,
            transmute_name: self.transmute_name@,
            relic_bonus: self.relic_bonus@,
            component_name: self.component_name@,
            augment_name: self.augment_name@,
            seed: self.seed,
            component_seed: self.component_seed,
            augment_seed: self.augment_seed,
        }
    }
}

pub open spec fn equipped_models(items: Seq<RawEquippedItem>) -> Seq<EquippedItemModel> {
    items.map_values(|x: RawEquippedItem| x@)
}

pub open spec fn inventory_models(items: Seq<RawInventoryItem>) -> Seq<InventoryItemModel> {
    items.map_values(|x: RawInventoryItem| x@)
}

// ---------------------------------------------------------------------------
// identity of a bag/stash item

pub open spec fn bar() -> Seq<char> {
    seq!['|']
}

/// The characters that the identity key escapes: the separator `|` and the
/// escape character `\` itself.
pub open spec fn is_special(c: char) -> bool {
    c == '\\' || c == '|'
}

/// One character of a part as it stands in the key: a special character
/// behind a `\`, any other as it is.
pub open spec fn escape_char(c: char) -> Seq<char> {
    if is_special(c) {
        seq!['\\', c]
    } else {
        seq![c]
    }
}

/// A part as it stands in the key, character by character.
pub open spec fn escaped(s: Seq<char>) -> Seq<char>
    decreases s.len(),
{
    if s.len() == 0 {
        Seq::empty()
    } else {
        escape_char(s[0]) + escaped(s.drop_first())
    }
}

/// The escaped `parts`, with a `|` between consecutive parts.
pub open spec fn encoded(parts: Seq<Seq<char>>) -> Seq<char>
    decreases parts.len(),
{
    if parts.len() == 0 {
        Seq::empty()
    } else if parts.len() == 1 {
        escaped(parts[0])
    } else {
        escaped(parts[0]) + bar() + encoded(parts.drop_first())
    }
}

/// The parts of an item's identity: every DBR path, then every seed.
pub open spec fn identity_parts(m: InventoryItemModel) -> Seq<Seq<char>> {
    seq![
        m.base_name,
        m.prefix_name,
        m.suffix_name,
        m.modifier_name,
        m.transmute_name,
        m.relic_bonus,
        m.component_name,
        m.augment_name,
        decimal(m.seed as nat),
        decimal(m.component_seed as nat),
        decimal(m.augment_seed as nat),
    ]
}

/// The identity string of an item.
pub open spec fn identity_text(m: InventoryItemModel) -> Seq<char> {
    encoded(identity_parts(m))
}

/// Two items agree on every part of their identity (`source` is not one).
pub open spec fn same_identity(a: InventoryItemModel, b: InventoryItemModel) -> bool {
    &&& a.base_name == b.base_name
    &&& a.prefix_name == b.prefix_name
    &&& a.suffix_name == b.suffix_name
    &&& a.modifier_name == b.modifier_name
    &&& a.transmute_name == b.transmute_name
    &&& a.relic_bonus == b.relic_bonus
    &&& a.component_name == b.component_name
    &&& a.augment_name == b.augment_name
    &&& a.seed == b.seed
    &&& a.component_seed == b.component_seed
    &&& a.augment_seed == b.augment_seed
}

/// What may follow an escaped part in the key: nothing, or a separator.
pub open spec fn part_boundary(t: Seq<char>) -> bool {
    t.len() == 0 || t[0] == '|'
}

proof fn lemma_escaped_single(c: char)
    ensures
        escaped(seq![c]) == escape_char(c),
{
    let one = seq![c];
    assert(one[0] == c);
    assert(one.drop_first() =~= Seq::<char>::empty());
    assert(escaped(one.drop_first()) == Seq::<char>::empty());
    assert(escaped(one) == escape_char(c) + escaped(one.drop_first()));
    assert(escape_char(c) + Seq::<char>::empty() =~= escape_char(c));
}

/// Escaping distributes over concatenation.
proof fn lemma_escaped_append(a: Seq<char>, b: Seq<char>)
    ensures
        escaped(a + b) == escaped(a) + escaped(b),
    decreases a.len(),
{
    if a.len() == 0 {
        assert(a + b =~= b);
        assert(escaped(a) + escaped(b) =~= escaped(b));
    } else {
        lemma_escaped_append(a.drop_first(), b);
        assert((a + b).drop_first() =~= a.drop_first() + b);
        assert((a + b)[0] == a[0]);
        assert(escaped(a + b) =~= escape_char(a[0]) + escaped(a.drop_first() + b));
        assert(escape_char(a[0]) + (escaped(a.drop_first()) + escaped(b)) =~= escaped(a)
            + escaped(b));
    }
}

/// A text without special characters stands in the key as it is.
proof fn lemma_escaped_plain(s: Seq<char>)
    requires
        forall|j: int| 0 <= j < s.len() ==> !is_special(#[trigger] s[j]),
    ensures
        escaped(s) == s,
    decreases s.len(),
{
    if s.len() > 0 {
        assert forall|j: int| 0 <= j < s.drop_first().len() implies !is_special(
            #[trigger] s.drop_first()[j],
        ) by {
            assert(s.drop_first()[j] == s[j + 1]);
        }
        lemma_escaped_plain(s.drop_first());
        assert(!is_special(s[0]));
        assert(seq![s[0]] + s.drop_first() =~= s);
    }
}

/// An escaped part followed by the end of the key or by a separator is
/// read back uniquely: the first separator that no `\` escapes ends it.
proof fn lemma_escaped_prefix(a: Seq<char>, t1: Seq<char>, b: Seq<char>, t2: Seq<char>)
    requires
        part_boundary(t1),
        part_boundary(t2),
        escaped(a) + t1 == escaped(b) + t2,
    ensures
        a == b,
        t1 == t2,
    decreases a.len() + b.len(),
{
    let s = escaped(a) + t1;
    if a.len() == 0 && b.len() == 0 {
        assert(escaped(a) + t1 =~= t1);
        assert(escaped(b) + t2 =~= t2);
        assert(a =~= b);
    } else if a.len() == 0 {
        assert(escaped(a) + t1 =~= t1);
        let eb = escape_char(b[0]);
        assert(escaped(b) == eb + escaped(b.drop_first()));
        assert(s[0] == eb[0]);
        assert(eb[0] != '|');
    } else if b.len() == 0 {
        assert(escaped(b) + t2 =~= t2);
        let ea = escape_char(a[0]);
        assert(escaped(a) == ea + escaped(a.drop_first()));
        assert(s[0] == ea[0]);
        assert(ea[0] != '|');
    } else {
        let ea = escape_char(a[0]);
        let eb = escape_char(b[0]);
        let ra = escaped(a.drop_first());
        let rb = escaped(b.drop_first());
        assert(s =~= ea + (ra + t1));
        assert(s =~= eb + (rb + t2));
        assert(s[0] == ea[0]);
        assert(s[0] == eb[0]);
        if is_special(a[0]) {
            assert(s[1] == ea[1]);
            assert(s[1] == eb[1]);
        }
        assert(a[0] == b[0]);
        assert(ra + t1 =~= s.skip(ea.len() as int));
        assert(rb + t2 =~= s.skip(eb.len() as int));
        lemma_escaped_prefix(a.drop_first(), t1, b.drop_first(), t2);
        assert(a =~= seq![a[0]] + a.drop_first());
        assert(b =~= seq![b[0]] + b.drop_first());
    }
}

/// Lists of parts of one length with the same encoding are the same list.
proof fn lemma_encoded_injective(a: Seq<Seq<char>>, b: Seq<Seq<char>>)
    requires
        a.len() == b.len(),
        encoded(a) == encoded(b),
    ensures
        a == b,
    decreases a.len(),
{
    if a.len() == 1 {
        assert(escaped(a[0]) + Seq::<char>::empty() =~= escaped(a[0]));
        assert(escaped(b[0]) + Seq::<char>::empty() =~= escaped(b[0]));
        lemma_escaped_prefix(a[0], Seq::empty(), b[0], Seq::empty());
        assert(a =~= b);
    } else if a.len() > 1 {
        let ta = bar() + encoded(a.drop_first());
        let tb = bar() + encoded(b.drop_first());
        assert(encoded(a) =~= escaped(a[0]) + ta);
        assert(encoded(b) =~= escaped(b[0]) + tb);
        lemma_escaped_prefix(a[0], ta, b[0], tb);
        assert(encoded(a.drop_first()) =~= ta.drop_first());
        assert(encoded(b.drop_first()) =~= tb.drop_first());
        lemma_encoded_injective(a.drop_first(), b.drop_first());
        assert forall|i: int| 0 <= i < a.len() implies a[i] == b[i] by {
            if i > 0 {
                assert(a[i] == a.drop_first()[i - 1]);
                assert(b[i] == b.drop_first()[i - 1]);
            }
        }
        assert(a =~= b);
    }
}

/// Appending one more part to a non-empty list adds a separator and the
/// escaped part.
proof fn lemma_encoded_push(p: Seq<Seq<char>>, x: Seq<char>)
    requires
        p.len() >= 1,
    ensures
        encoded(p.push(x)) == encoded(p) + bar() + escaped(x),
    decreases p.len(),
{
    let q = p.push(x);
    assert(q[0] == p[0]);
    if p.len() == 1 {
        assert(q.drop_first() =~= seq![x]);
        assert(encoded(seq![x]) == escaped(x));
    } else {
        assert(q.drop_first() =~= p.drop_first().push(x));
        lemma_encoded_push(p.drop_first(), x);
        assert(encoded(q) =~= escaped(p[0]) + bar() + (encoded(p.drop_first()) + bar()
            + escaped(x)));
        assert(encoded(p) =~= escaped(p[0]) + bar() + encoded(p.drop_first()));
    }
}

/// Two items have the same identity key exactly when they agree on every
/// DBR path and every roll seed: a duplicate drop of one affix combination
/// with another seed, or an item differing in one affix, gets another key,
/// and where an item sits (`source`) plays no part.
pub proof fn law_identity_keys_equal_exactly_for_same_identity(
    a: InventoryItemModel,
    b: InventoryItemModel,
)
    ensures
        identity_text(a) == identity_text(b) <==> same_identity(a, b),
{
    let pa = identity_parts(a);
    let pb = identity_parts(b);
    if same_identity(a, b) {
        assert(pa =~= pb);
    }
    if identity_text(a) == identity_text(b) {
        lemma_encoded_injective(pa, pb);
        assert(pa[0] == pb[0]);
        assert(pa[1] == pb[1]);
        assert(pa[2] == pb[2]);
        assert(pa[3] == pb[3]);
        assert(pa[4] == pb[4]);
        assert(pa[5] == pb[5]);
        assert(pa[6] == pb[6]);
        assert(pa[7] == pb[7]);
        assert(pa[8] == pb[8]);
        assert(pa[9] == pb[9]);
        assert(pa[10] == pb[10]);
        lemma_decimal_injective(a.seed as nat, b.seed as nat);
        lemma_decimal_injective(a.component_seed as nat, b.component_seed as nat);
        lemma_decimal_injective(a.augment_seed as nat, b.augment_seed as nat);
    }
}

/// Appends `s` to `out` as it stands in the key: runs of ordinary
/// characters as they are, each special character behind a `\`.
fn push_escaped(out: &mut String, s: &str)
    ensures
        final(out)@ == old(out)@ + escaped(s@),
{
    let ghost before: Seq<char> = out@;
    let n = s.unicode_len();
    let mut start: usize = 0;
    let mut i: usize = 0;
    while i < n
        invariant
            n == s@.len(),
            start <= i <= n,
            out@ == before + escaped(s@.take(start as int)),
            forall|j: int| start <= j < i ==> !is_special(#[trigger] s@[j]),
        decreases n - i,
    {
        let c = s.get_char(i);
        if c == '\\' || c == '|' {
            let run = s.substring_char(start, i);
            out.append(run);
            if c == '\\' {
                out.append("\\\\");
            } else {
                out.append("\\|");
            }
            proof {
                reveal_strlit("\\\\");
                reveal_strlit("\\|");
                let head = s@.take(start as int);
                assert forall|j: int| 0 <= j < run@.len() implies !is_special(
                    #[trigger] run@[j],
                ) by {
                    assert(run@[j] == s@[start + j]);
                }
                lemma_escaped_plain(run@);
                lemma_escaped_single(c);
                assert(s@.take(i + 1) =~= head + run@ + seq![c]);
                lemma_escaped_append(head + run@, seq![c]);
                lemma_escaped_append(head, run@);
                assert(out@ =~= before + escaped(s@.take(i + 1)));
            }
            start = i + 1;
        }
        i = i + 1;
    }
    let run = s.substring_char(start, n);
    out.append(run);
    proof {
        let head = s@.take(start as int);
        assert forall|j: int| 0 <= j < run@.len() implies !is_special(#[trigger] run@[j]) by {
            assert(run@[j] == s@[start + j]);
        }
        lemma_escaped_plain(run@);
        assert(s@ =~= head + run@);
        lemma_escaped_append(head, run@);
    }
}

/// `parts`, escaped, with a `|` between consecutive parts.
fn join_escaped(parts: &Vec<String>) -> (r: String)
    ensures
        r@ == encoded(parts@.map_values(|p: String| p@)),
{
    let ghost views = parts@.map_values(|p: String| p@);
    let mut out = String::new();
    if parts.len() == 0 {
        assert(views.len() == 0);
        return out;
    }
    push_escaped(&mut out, parts[0].as_str());
    proof {
        assert(views.take(1).len() == 1);
        assert(views.take(1)[0] == views[0]);
        assert(encoded(views.take(1)) == escaped(views[0]));
    }
    let mut i: usize = 1;
    while i < parts.len()
        invariant
            views == parts@.map_values(|p: String| p@),
            1 <= i <= parts.len(),
            out@ == encoded(views.take(i as int)),
        decreases parts.len() - i,
    {
        out.append("|");
        push_escaped(&mut out, parts[i].as_str());
        proof {
            reveal_strlit("|");
            assert(views.take(i + 1) =~= views.take(i as int).push(views[i as int]));
            lemma_encoded_push(views.take(i as int), views[i as int]);
        }
        i = i + 1;
    }
    assert(views.take(parts.len() as int) =~= views);
    out
}

impl RawInventoryItem {
    /// A stable identity string for "have we seen this exact item before":
    /// every DBR path and every roll seed, joined with `|`, and not the
    /// `source`. A `|` or `\` inside a path is written behind a `\`, so
    /// that no two different items share a key.
    pub fn identity_key(&self) -> (r: String)
        ensures
            r@ == identity_text(self@),
    {
        let mut parts: Vec<String> = Vec::new();
        parts.push(self.base_name.clone());
        parts.push(self.prefix_name.clone());
        parts.push(self.suffix_name.clone());
        parts.push(self.modifier_name.clone());
        parts.push(self.transmute_name.clone());
        parts.push(self.relic_bonus.clone());
        parts.push(self.component_name.clone());
        parts.push(self.augment_name.clone());
        parts.push(decimal_text(self.seed));
        parts.push(decimal_text(self.component_seed));
        parts.push(decimal_text(self.augment_seed));
        let r = join_escaped(&parts);
        assert(parts@.map_values(|p: String| p@) =~= identity_parts(self@));
        r
    }

    /// The item as an equipped item, for the same catalog resolution as
    /// equipped gear: every resolvable DBR path carried over unchanged, and
    /// slot 0, since the item is not in any slot.
    pub fn as_equipped(&self) -> (r: RawEquippedItem)
        ensures
            r@ == (EquippedItemModel {
                slot_index: 0,
                base_name: self.base_name@,
                prefix_name: self.prefix_name@,
                suffix_name: self.suffix_name@,
                modifier_name: self.modifier_name@,
                relic_bonus: self.relic_bonus@,
                component_name: self.component_name@,
                augment_name: self.augment_name@,
            }),
    {
        RawEquippedItem {
            slot_index: 0,
            base_name: self.base_name.clone(),
            prefix_name: self.prefix_name.clone(),
            suffix_name: self.suffix_name.clone(),
            modifier_name: self.modifier_name.clone(),
            relic_bonus: self.relic_bonus.clone(),
            component_name: self.component_name.clone(),
            augment_name: self.augment_name.clone(),
        }
    }
}

// ---------------------------------------------------------------------------
// reading the save document

/// The text of the string member `key` of `item`, or empty.
pub open spec fn field_text(item: Json, key: Seq<char>) -> Seq<char> {
    match item.member(key) {
        Some(Json::Str(s)) => s,
        _ => Seq::empty(),
    }
}

/// The non-negative integer member `key` of `item`, or 0.
pub open spec fn field_count(item: Json, key: Seq<char>) -> u64 {
    match item.member(key) {
        Some(v) => match v.u64_value() {
            Some(n) => n,
            None => 0,
        },
        None => 0,
    }
}

/// The item held in an equipment slot: its `item` member, unless missing
/// or null.
pub open spec fn slot_item(slot: Json) -> Option<Json> {
    match slot.member("item"@) {
        Some(Json::Null) => None,
        other => other,
    }
}

pub open spec fn equipped_from(slot_index: usize, item: Json) -> EquippedItemModel {
    EquippedItemModel {
        slot_index,
        base_name: field_text(item, "base_name"@),
        prefix_name: field_text(item, "prefix_name"@),
        suffix_name: field_text(item, "suffix_name"@),
        modifier_name: field_text(item, "modifier_name"@),
        relic_bonus: field_text(item, "relic_bonus"@),
        component_name: field_text(item, "component_name"@),
        augment_name: field_text(item, "augment_name"@),
    }
}

/// The items in the first `n` body slots, each under its slot's index;
/// empty slots are skipped.
pub open spec fn body_equipment(slots: Seq<Json>, n: int) -> Seq<EquippedItemModel>
    decreases n,
{
    if n <= 0 {
        Seq::empty()
    } else {
        let before = body_equipment(slots, n - 1);
        match slot_item(slots[n - 1]) {
            Some(item) => before.push(equipped_from((n - 1) as usize, item)),
            None => before,
        }
    }
}

/// Weapon slots are numbered from 12 on (12 = main hand, 13 = off-hand).
pub open spec fn weapon_slot_index(i: int) -> usize {
    if i < usize::MAX - 12 {
        (i + 12) as usize
    } else {
        usize::MAX
    }
}

/// The items in the first `n` weapon slots of a set; empty slots, and
/// slots whose item has no base (the off-hand of a two-handed weapon), are
/// skipped.
pub open spec fn weapon_equipment(slots: Seq<Json>, n: int) -> Seq<EquippedItemModel>
    decreases n,
{
    if n <= 0 {
        Seq::empty()
    } else {
        let before = weapon_equipment(slots, n - 1);
        match slot_item(slots[n - 1]) {
            Some(item) => if field_text(item, "base_name"@).len() == 0 {
                before
            } else {
                before.push(equipped_from(weapon_slot_index(n - 1), item))
            },
            None => before,
        }
    }
}

/// `inv.use_alternate`, or 0.
pub open spec fn use_alternate(doc: Json) -> u64 {
    match doc.at("inv"@, "use_alternate"@) {
        Some(v) => match v.u64_value() {
            Some(n) => n,
            None => 0,
        },
        None => 0,
    }
}

/// The items of the active weapon set: `inv.weapon1` when `use_alternate`
/// is 0, else `inv.weapon2`; nothing when that set is not an array.
pub open spec fn active_weapons(doc: Json) -> Seq<EquippedItemModel> {
    let set = if use_alternate(doc) == 0 {
        doc.at("inv"@, "weapon1"@)
    } else {
        doc.at("inv"@, "weapon2"@)
    };
    match set {
        Some(v) => match v.array_items() {
            Some(slots) => weapon_equipment(slots, slots.len() as int),
            None => Seq::empty(),
        },
        None => Seq::empty(),
    }
}

/// The equipped gear of a save document: the body slots of
/// `inv.equipment`, then the active weapon set; an error when
/// `inv.equipment` is not an array.
pub open spec fn equipped_spec(doc: Json) -> Result<Seq<EquippedItemModel>, Seq<char>> {
    match doc.at("inv"@, "equipment"@) {
        Some(v) => match v.array_items() {
            Some(slots) => Ok(body_equipment(slots, slots.len() as int) + active_weapons(doc)),
            None => Err("save JSON missing inv.equipment (unexpected save format)"@),
        },
        None => Err("save JSON missing inv.equipment (unexpected save format)"@),
    }
}

pub open spec fn inventory_from(source: Seq<char>, item: Json) -> InventoryItemModel {
    InventoryItemModel {
        source,
        base_name: field_text(item, "base_name"@),
        prefix_name: field_text(item, "prefix_name"@),
        suffix_name: field_text(item, "suffix_name"@),
        modifier_name: field_text(item, "modifier_name"@),
        transmute_name: field_text(item, "transmute_name"@),
        relic_bonus: field_text(item, "relic_bonus"@),
        component_name: field_text(item, "component_name"@),
        augment_name: field_text(item, "augment_name"@),
        seed: field_count(item, "seed"@),
        component_seed: field_count(item, "component_seed"@),
        augment_seed: field_count(item, "augment_seed"@),
    }
}

/// The items of the first `n` entries of one bag or tab: each entry's
/// `item` member that has a base name.
pub open spec fn entries_items(entries: Seq<Json>, source: Seq<char>, n: int) -> Seq<
    InventoryItemModel,
>
    decreases n,
{
    if n <= 0 {
        Seq::empty()
    } else {
        let before = entries_items(entries, source, n - 1);
        match entries[n - 1].member("item"@) {
            Some(item) => if field_text(item, "base_name"@).len() == 0 {
                before
            } else {
                before.push(inventory_from(source, item))
            },
            None => before,
        }
    }
}

/// The name of the container at `index` (counted from 0): the label and
/// the number counted from 1, e.g. "Bag 1".
pub open spec fn container_name(label: Seq<char>, index: int) -> Seq<char> {
    label + decimal((index + 1) as nat)
}

/// The items of the first `n` containers (bags or tabs), container by
/// container; a container without an `items` array holds none.
pub open spec fn containers_items(containers: Seq<Json>, label: Seq<char>, n: int) -> Seq<
    InventoryItemModel,
>
    decreases n,
{
    if n <= 0 {
        Seq::empty()
    } else {
        containers_items(containers, label, n - 1) + match containers[n - 1].member(
            "items"@,
        ) {
            Some(v) => match v.array_items() {
                Some(entries) => entries_items(
                    entries,
                    container_name(label, n - 1),
                    entries.len() as int,
                ),
                None => Seq::empty(),
            },
            None => Seq::empty(),
        }
    }
}

/// The items in the personal inventory bags (`inv.sacks`).
pub open spec fn inventory_spec(doc: Json) -> Result<Seq<InventoryItemModel>, Seq<char>> {
    match doc.at("inv"@, "sacks"@) {
        Some(v) => match v.array_items() {
            Some(sacks) => Ok(containers_items(sacks, "Bag "@, sacks.len() as int)),
            None => Err("save JSON missing inv.sacks (unexpected save format)"@),
        },
        None => Err("save JSON missing inv.sacks (unexpected save format)"@),
    }
}

/// The items in the personal stash tabs (`stash.tabs`).
pub open spec fn stash_spec(doc: Json) -> Result<Seq<InventoryItemModel>, Seq<char>> {
    match doc.at("stash"@, "tabs"@) {
        Some(v) => match v.array_items() {
            Some(tabs) => Ok(containers_items(tabs, "Stash Tab "@, tabs.len() as int)),
            None => Err("save JSON missing stash.tabs (unexpected save format)"@),
        },
        None => Err("save JSON missing stash.tabs (unexpected save format)"@),
    }
}

proof fn lemma_entries_items_have_base(entries: Seq<Json>, source: Seq<char>, n: int)
    ensures
        forall|i: int|
            0 <= i < entries_items(entries, source, n).len() ==> (#[trigger] entries_items(
                entries,
                source,
                n,
            )[i]).base_name.len() > 0,
    decreases n,
{
    if n > 0 {
        lemma_entries_items_have_base(entries, source, n - 1);
        let before = entries_items(entries, source, n - 1);
        let all = entries_items(entries, source, n);
        assert forall|i: int| 0 <= i < all.len() implies (#[trigger] all[i]).base_name.len()
            > 0 by {
            if i < before.len() {
                assert(all[i] == before[i]);
            }
        }
    }
}

proof fn lemma_containers_items_have_base(containers: Seq<Json>, label: Seq<char>, n: int)
    ensures
        forall|i: int|
            0 <= i < containers_items(containers, label, n).len() ==> (
            #[trigger] containers_items(containers, label, n)[i]).base_name.len() > 0,
    decreases n,
{
    if n > 0 {
        lemma_containers_items_have_base(containers, label, n - 1);
        let before = containers_items(containers, label, n - 1);
        let all = containers_items(containers, label, n);
        match containers[n - 1].member("items"@) {
            Some(v) => match v.array_items() {
                Some(entries) => {
                    let name = container_name(label, n - 1);
                    let more = entries_items(entries, name, entries.len() as int);
                    lemma_entries_items_have_base(entries, name, entries.len() as int);
                    assert(all == before + more);
                    assert forall|i: int| 0 <= i < all.len() implies (
                    #[trigger] all[i]).base_name.len() > 0 by {
                        if i >= before.len() {
                            assert(all[i] == more[i - before.len()]);
                        }
                    }
                },
                None => {
                    assert(all =~= before);
                },
            },
            None => {
                assert(all =~= before);
            },
        }
    }
}

proof fn lemma_weapons_have_base(slots: Seq<Json>, n: int)
    ensures
        forall|i: int|
            0 <= i < weapon_equipment(slots, n).len() ==> (#[trigger] weapon_equipment(
                slots,
                n,
            )[i]).base_name.len() > 0,
    decreases n,
{
    if n > 0 {
        lemma_weapons_have_base(slots, n - 1);
        let before = weapon_equipment(slots, n - 1);
        let all = weapon_equipment(slots, n);
        assert forall|i: int| 0 <= i < all.len() implies (#[trigger] all[i]).base_name.len()
            > 0 by {
            if i < before.len() {
                assert(all[i] == before[i]);
            }
        }
    }
}

/// Every item listed from the bags or the stash tabs has a base item, and
/// so does every item of the active weapon set (an empty off-hand next to
/// a two-handed weapon is not listed).
pub proof fn law_listed_items_have_a_base(doc: Json)
    ensures
        inventory_spec(doc) matches Ok(items) ==> forall|i: int|
            0 <= i < items.len() ==> (#[trigger] items[i]).base_name.len() > 0,
        stash_spec(doc) matches Ok(items) ==> forall|i: int|
            0 <= i < items.len() ==> (#[trigger] items[i]).base_name.len() > 0,
        forall|i: int|
            0 <= i < active_weapons(doc).len() ==> (#[trigger] active_weapons(
                doc,
            )[i]).base_name.len() > 0,
{
    if let Some(v) = doc.at("inv"@, "sacks"@) {
        if let Some(sacks) = v.array_items() {
            lemma_containers_items_have_base(sacks, "Bag "@, sacks.len() as int);
        }
    }
    if let Some(v) = doc.at("stash"@, "tabs"@) {
        if let Some(tabs) = v.array_items() {
            lemma_containers_items_have_base(tabs, "Stash Tab "@, tabs.len() as int);
        }
    }
    let set = if use_alternate(doc) == 0 {
        doc.at("inv"@, "weapon1"@)
    } else {
        doc.at("inv"@, "weapon2"@)
    };
    if let Some(v) = set {
        if let Some(slots) = v.array_items() {
            lemma_weapons_have_base(slots, slots.len() as int);
        }
    }
}

// ---------------------------------------------------------------------------
// where each listed item's paths come from

/// `field` is the text of the string member `key` of `item`, or empty when
/// `item` has no such string member.
pub open spec fn is_text_member(field: Seq<char>, item: Json, key: Seq<char>) -> bool {
    match item.member(key) {
        Some(Json::Str(s)) => field == s,
        _ => field.len() == 0,
    }
}

/// `n` is the integer member `key` of `item`, or 0 when it has none.
pub open spec fn is_count_member(n: u64, item: Json, key: Seq<char>) -> bool {
    match item.member(key) {
        Some(Json::Number(Some(v))) => n == v,
        _ => n == 0,
    }
}

/// Every DBR path of an equipped item is the member of that name of `item`.
pub open spec fn carries_equipped_paths(m: EquippedItemModel, item: Json) -> bool {
    &&& is_text_member(m.base_name, item, "base_name"@)
    &&& is_text_member(m.prefix_name, item, "prefix_name"@)
    &&& is_text_member(m.suffix_name, item, "suffix_name"@)
    &&& is_text_member(m.modifier_name, item, "modifier_name"@)
    &&& is_text_member(m.relic_bonus, item, "relic_bonus"@)
    &&& is_text_member(m.component_name, item, "component_name"@)
    &&& is_text_member(m.augment_name, item, "augment_name"@)
}

/// `m` is read from slot `j` of `slots`: the slot holds an item, and `m`
/// carries that item's paths.
pub open spec fn read_from_slot(m: EquippedItemModel, slots: Seq<Json>, j: int) -> bool {
    &&& 0 <= j < slots.len()
    &&& holds_item(slots[j])
    &&& carries_equipped_paths(m, slots[j].member("item"@)->Some_0)
}

/// `m` is read from body slot `j`, and numbered `j`.
pub open spec fn read_from_body_slot(m: EquippedItemModel, slots: Seq<Json>, j: int) -> bool {
    read_from_slot(m, slots, j) && m.slot_index == j as usize
}

/// `m` is read from weapon slot `j`, and numbered `12 + j`.
pub open spec fn read_from_weapon_slot(m: EquippedItemModel, slots: Seq<Json>, j: int) -> bool {
    read_from_slot(m, slots, j) && m.slot_index == weapon_slot_index(j)
}

/// A slot holds an item: its `item` member is present and not null.
pub open spec fn holds_item(slot: Json) -> bool {
    match slot.member("item"@) {
        Some(Json::Null) => false,
        Some(_) => true,
        None => false,
    }
}

/// The body slots of a save document (`inv.equipment`), or none.
pub open spec fn equipment_slots(doc: Json) -> Seq<Json> {
    match doc.at("inv"@, "equipment"@) {
        Some(Json::Array(slots)) => slots,
        _ => Seq::empty(),
    }
}

/// The slots of the weapon set in use: `inv.weapon2` when
/// `inv.use_alternate` is a non-zero integer, else `inv.weapon1`; none
/// when that is not an array.
pub open spec fn weapon_slots(doc: Json) -> Seq<Json> {
    let alternate = doc.at("inv"@, "use_alternate"@) matches Some(Json::Number(Some(n))) && n != 0;
    match doc.at("inv"@, if alternate { "weapon2"@ } else { "weapon1"@ }) {
        Some(Json::Array(slots)) => slots,
        _ => Seq::empty(),
    }
}

/// `m` was read from a body slot of `doc` (numbered by its place) or from
/// a weapon slot of the set in use (numbered 12 on).
pub open spec fn read_from_doc_slot(m: EquippedItemModel, doc: Json) -> bool {
    ||| from_some_body_slot(m, equipment_slots(doc), equipment_slots(doc).len() as int)
    ||| from_some_weapon_slot(m, weapon_slots(doc), weapon_slots(doc).len() as int)
}

proof fn lemma_equipped_from_carries(index: usize, item: Json)
    ensures
        carries_equipped_paths(equipped_from(index, item), item),
        equipped_from(index, item).slot_index == index,
{
}

/// `m` is read from one of the first `n` body slots.
pub open spec fn from_some_body_slot(m: EquippedItemModel, slots: Seq<Json>, n: int) -> bool {
    exists|j: int| 0 <= j < n && #[trigger] read_from_body_slot(m, slots, j)
}

/// `m` is read from one of the first `n` weapon slots.
pub open spec fn from_some_weapon_slot(m: EquippedItemModel, slots: Seq<Json>, n: int) -> bool {
    exists|j: int| 0 <= j < n && #[trigger] read_from_weapon_slot(m, slots, j)
}

proof fn lemma_body_items_read_from_slots(slots: Seq<Json>, n: int)
    requires
        n <= slots.len(),
    ensures
        forall|i: int|
            0 <= i < body_equipment(slots, n).len() ==> #[trigger] from_some_body_slot(
                body_equipment(slots, n)[i],
                slots,
                n,
            ),
    decreases n,
{
    if n > 0 {
        lemma_body_items_read_from_slots(slots, n - 1);
        let before = body_equipment(slots, n - 1);
        assert forall|i: int| 0 <= i < body_equipment(slots, n).len() implies #[trigger]
            from_some_body_slot(body_equipment(slots, n)[i], slots, n) by {
            if i < before.len() {
                assert(body_equipment(slots, n)[i] == before[i]);
                assert(from_some_body_slot(before[i], slots, n - 1));
                let j = choose|j: int| 0 <= j < n - 1 && #[trigger] read_from_body_slot(before[i], slots, j);
                assert(read_from_body_slot(body_equipment(slots, n)[i], slots, j));
            } else {
                let item = slot_item(slots[n - 1])->Some_0;
                lemma_equipped_from_carries((n - 1) as usize, item);
                assert(body_equipment(slots, n)[i] == equipped_from((n - 1) as usize, item));
                assert(read_from_body_slot(body_equipment(slots, n)[i], slots, n - 1));
            }
        }
    }
}

proof fn lemma_body_slots_listed(slots: Seq<Json>, n: int)
    requires
        n <= slots.len(),
    ensures
        forall|j: int|
            0 <= j < n && holds_item(#[trigger] slots[j]) ==> exists|i: int|
                0 <= i < body_equipment(slots, n).len() && read_from_body_slot(body_equipment(slots, n)[i], slots, j),
    decreases n,
{
    if n > 0 {
        lemma_body_slots_listed(slots, n - 1);
        let before = body_equipment(slots, n - 1);
        assert forall|j: int| 0 <= j < n && holds_item(#[trigger] slots[j]) implies exists|
            i: int,
        | 0 <= i < body_equipment(slots, n).len() && read_from_body_slot(body_equipment(slots, n)[i], slots, j) by {
            if j < n - 1 {
                let i = choose|i: int|
                    0 <= i < before.len() && read_from_body_slot(before[i], slots, j);
                assert(body_equipment(slots, n)[i] == before[i]);
            } else {
                let item = slot_item(slots[n - 1])->Some_0;
                lemma_equipped_from_carries((n - 1) as usize, item);
                assert(body_equipment(slots, n)[before.len() as int] == equipped_from((n - 1) as usize, item));
                assert(read_from_body_slot(body_equipment(slots, n)[before.len() as int], slots, j));
            }
        }
    }
}

proof fn lemma_weapon_items_read_from_slots(slots: Seq<Json>, n: int)
    requires
        n <= slots.len(),
    ensures
        forall|i: int|
            0 <= i < weapon_equipment(slots, n).len() ==> #[trigger] from_some_weapon_slot(
                weapon_equipment(slots, n)[i],
                slots,
                n,
            ),
    decreases n,
{
    if n > 0 {
        lemma_weapon_items_read_from_slots(slots, n - 1);
        let before = weapon_equipment(slots, n - 1);
        assert forall|i: int| 0 <= i < weapon_equipment(slots, n).len() implies #[trigger]
            from_some_weapon_slot(weapon_equipment(slots, n)[i], slots, n) by {
            if i < before.len() {
                assert(weapon_equipment(slots, n)[i] == before[i]);
                assert(from_some_weapon_slot(before[i], slots, n - 1));
                let j = choose|j: int| 0 <= j < n - 1 && #[trigger] read_from_weapon_slot(before[i], slots, j);
                assert(read_from_weapon_slot(weapon_equipment(slots, n)[i], slots, j));
            } else {
                let item = slot_item(slots[n - 1])->Some_0;
                lemma_equipped_from_carries(weapon_slot_index(n - 1), item);
                assert(weapon_equipment(slots, n)[i] == equipped_from(weapon_slot_index(n - 1), item));
                assert(read_from_weapon_slot(weapon_equipment(slots, n)[i], slots, n - 1));
            }
        }
    }
}

/// A slot (or bag entry) holds an item whose `base_name` is a non-empty
/// string.
pub open spec fn holds_item_with_base(slot: Json) -> bool {
    match slot.member("item"@) {
        Some(item) => match item.member("base_name"@) {
            Some(Json::Str(base)) => base.len() > 0,
            _ => false,
        },
        None => false,
    }
}

/// Some item of `items` is read from weapon slot `j`.
pub open spec fn weapon_slot_listed(items: Seq<EquippedItemModel>, slots: Seq<Json>, j: int) -> bool {
    exists|i: int| 0 <= i < items.len() && #[trigger] read_from_weapon_slot(items[i], slots, j)
}

proof fn lemma_weapon_slots_listed(slots: Seq<Json>, n: int)
    requires
        n <= slots.len(),
    ensures
        forall|j: int|
            0 <= j < n && holds_item_with_base(slots[j]) ==> #[trigger] weapon_slot_listed(
                weapon_equipment(slots, n),
                slots,
                j,
            ),
    decreases n,
{
    if n > 0 {
        lemma_weapon_slots_listed(slots, n - 1);
        let before = weapon_equipment(slots, n - 1);
        assert forall|j: int| 0 <= j < n && holds_item_with_base(slots[j]) implies #[trigger]
            weapon_slot_listed(weapon_equipment(slots, n), slots, j) by {
            if j < n - 1 {
                assert(weapon_slot_listed(before, slots, j));
                let i = choose|i: int|
                    0 <= i < before.len() && #[trigger] read_from_weapon_slot(before[i], slots, j);
                assert(weapon_equipment(slots, n)[i] == before[i]);
                assert(read_from_weapon_slot(weapon_equipment(slots, n)[i], slots, j));
            } else {
                let item = slot_item(slots[n - 1])->Some_0;
                lemma_equipped_from_carries(weapon_slot_index(n - 1), item);
                assert(weapon_equipment(slots, n)[before.len() as int] == equipped_from(
                    weapon_slot_index(n - 1),
                    item,
                ));
                assert(read_from_weapon_slot(
                    weapon_equipment(slots, n)[before.len() as int],
                    slots,
                    j,
                ));
            }
        }
    }
}

/// Every equipped item read from a save is the item of a body slot (under
/// that slot's index) or of a weapon slot of the set in use (under 12 plus
/// its index), and carries in each DBR-path field the string member of the
/// same name of that slot's item, or empty when it has none. Every body
/// slot that holds an item is read, and so is every weapon slot of the set
/// in use whose item has a base.
pub proof fn law_equipped_items_carry_their_slot_paths(doc: Json)
    ensures
        equipped_spec(doc) matches Ok(items) ==> forall|i: int|
            0 <= i < items.len() ==> #[trigger] read_from_doc_slot(items[i], doc),
        equipped_spec(doc) matches Ok(items) ==> forall|j: int|
            0 <= j < equipment_slots(doc).len() && holds_item(#[trigger] equipment_slots(doc)[j])
                ==> exists|i: int|
                0 <= i < items.len() && read_from_body_slot(items[i], equipment_slots(doc), j),
        equipped_spec(doc) matches Ok(items) ==> forall|j: int|
            0 <= j < weapon_slots(doc).len() && holds_item_with_base(weapon_slots(doc)[j])
                ==> #[trigger] weapon_slot_listed(items, weapon_slots(doc), j),
{
    if let Ok(items) = equipped_spec(doc) {
        let slots = equipment_slots(doc);
        let body = body_equipment(slots, slots.len() as int);
        let weapons = active_weapons(doc);
        assert(items == body + weapons);
        lemma_body_items_read_from_slots(slots, slots.len() as int);
        lemma_body_slots_listed(slots, slots.len() as int);
        let wslots = weapon_slots(doc);
        lemma_weapon_items_read_from_slots(wslots, wslots.len() as int);
        assert(weapons == weapon_equipment(wslots, wslots.len() as int));
        assert forall|i: int| 0 <= i < items.len() implies #[trigger] read_from_doc_slot(
            items[i],
            doc,
        ) by {
            if i < body.len() {
                assert(items[i] == body[i]);
            } else {
                assert(items[i] == weapons[i - body.len()]);
            }
        }
        assert forall|j: int|
            0 <= j < slots.len() && holds_item(#[trigger] slots[j]) implies exists|i: int|
            0 <= i < items.len() && read_from_body_slot(items[i], slots, j) by {
            let i = choose|i: int| 0 <= i < body.len() && read_from_body_slot(body[i], slots, j);
            assert(items[i] == body[i]);
        }
        lemma_weapon_slots_listed(wslots, wslots.len() as int);
        assert forall|j: int|
            0 <= j < wslots.len() && holds_item_with_base(wslots[j]) implies #[trigger]
            weapon_slot_listed(items, wslots, j) by {
            assert(weapon_slot_listed(weapons, wslots, j));
            let i = choose|i: int|
                0 <= i < weapons.len() && #[trigger] read_from_weapon_slot(weapons[i], wslots, j);
            assert(items[body.len() + i] == weapons[i]);
            assert(read_from_weapon_slot(items[body.len() + i], wslots, j));
        }
    }
}

/// Every DBR path and every roll seed of a bag/stash item is the member of
/// that name of `item`.
pub open spec fn carries_inventory_paths(m: InventoryItemModel, item: Json) -> bool {
    &&& is_text_member(m.base_name, item, "base_name"@)
    &&& is_text_member(m.prefix_name, item, "prefix_name"@)
    &&& is_text_member(m.suffix_name, item, "suffix_name"@)
    &&& is_text_member(m.modifier_name, item, "modifier_name"@)
    &&& is_text_member(m.transmute_name, item, "transmute_name"@)
    &&& is_text_member(m.relic_bonus, item, "relic_bonus"@)
    &&& is_text_member(m.component_name, item, "component_name"@)
    &&& is_text_member(m.augment_name, item, "augment_name"@)
    &&& is_count_member(m.seed, item, "seed"@)
    &&& is_count_member(m.component_seed, item, "component_seed"@)
    &&& is_count_member(m.augment_seed, item, "augment_seed"@)
}

/// The entries of a bag or tab (its `items` array), or none.
pub open spec fn container_entries(container: Json) -> Seq<Json> {
    match container.member("items"@) {
        Some(Json::Array(entries)) => entries,
        _ => Seq::empty(),
    }
}

/// `m` is read from entry `e` of container `c` (counted from 0) of
/// `containers`: it comes from `label` and the container's number counted
/// from 1, and carries the paths and seeds of the entry's `item`.
pub open spec fn read_from_entry(
    m: InventoryItemModel,
    containers: Seq<Json>,
    label: Seq<char>,
    c: int,
    e: int,
) -> bool {
    &&& 0 <= c < containers.len()
    &&& 0 <= e < container_entries(containers[c]).len()
    &&& m.source == label + decimal((c + 1) as nat)
    &&& container_entries(containers[c])[e].member("item"@) is Some
    &&& carries_inventory_paths(m, container_entries(containers[c])[e].member("item"@)->Some_0)
}

/// `m` is read from some entry of some container of `containers`.
pub open spec fn from_some_entry(m: InventoryItemModel, containers: Seq<Json>, label: Seq<char>) -> bool {
    exists|c: int, e: int| #[trigger] read_from_entry(m, containers, label, c, e)
}

/// The personal inventory bags of a save document (`inv.sacks`), or none.
pub open spec fn bag_containers(doc: Json) -> Seq<Json> {
    match doc.at("inv"@, "sacks"@) {
        Some(Json::Array(sacks)) => sacks,
        _ => Seq::empty(),
    }
}

/// The personal stash tabs of a save document (`stash.tabs`), or none.
pub open spec fn tab_containers(doc: Json) -> Seq<Json> {
    match doc.at("stash"@, "tabs"@) {
        Some(Json::Array(tabs)) => tabs,
        _ => Seq::empty(),
    }
}

proof fn lemma_entries_items_read(
    containers: Seq<Json>,
    label: Seq<char>,
    c: int,
    entries: Seq<Json>,
    n: int,
)
    requires
        0 <= c < containers.len(),
        entries == container_entries(containers[c]),
        n <= entries.len(),
    ensures
        forall|i: int|
            0 <= i < entries_items(entries, container_name(label, c), n).len() ==> #[trigger]
                from_some_entry(
                entries_items(entries, container_name(label, c), n)[i],
                containers,
                label,
            ),
    decreases n,
{
    let source = container_name(label, c);
    if n > 0 {
        lemma_entries_items_read(containers, label, c, entries, n - 1);
        let before = entries_items(entries, source, n - 1);
        assert forall|i: int| 0 <= i < entries_items(entries, source, n).len() implies #[trigger]
            from_some_entry(entries_items(entries, source, n)[i], containers, label) by {
            if i < before.len() {
                assert(entries_items(entries, source, n)[i] == before[i]);
            } else {
                let item = entries[n - 1].member("item"@)->Some_0;
                assert(entries_items(entries, source, n)[i] == inventory_from(source, item));
                assert(read_from_entry(
                    entries_items(entries, source, n)[i],
                    containers,
                    label,
                    c,
                    n - 1,
                ));
            }
        }
    }
}

proof fn lemma_containers_items_read(containers: Seq<Json>, label: Seq<char>, n: int)
    requires
        n <= containers.len(),
    ensures
        forall|i: int|
            0 <= i < containers_items(containers, label, n).len() ==> #[trigger] from_some_entry(
                containers_items(containers, label, n)[i],
                containers,
                label,
            ),
    decreases n,
{
    if n > 0 {
        lemma_containers_items_read(containers, label, n - 1);
        let before = containers_items(containers, label, n - 1);
        let entries = container_entries(containers[n - 1]);
        let name = container_name(label, n - 1);
        let more = entries_items(entries, name, entries.len() as int);
        lemma_entries_items_read(containers, label, n - 1, entries, entries.len() as int);
        match containers[n - 1].member("items"@) {
            Some(Json::Array(es)) => {
                assert(containers_items(containers, label, n) == before + more);
            },
            _ => {
                assert(entries.len() == 0);
                assert(more =~= Seq::<InventoryItemModel>::empty());
                assert(containers_items(containers, label, n) =~= before + more);
            },
        }
        assert forall|i: int| 0 <= i < containers_items(containers, label, n).len() implies #[trigger]
            from_some_entry(containers_items(containers, label, n)[i], containers, label) by {
            if i < before.len() {
                assert(containers_items(containers, label, n)[i] == before[i]);
            } else {
                assert(containers_items(containers, label, n)[i] == more[i - before.len()]);
            }
        }
    }
}

/// Some item of `items` is read from entry `e` of container `c`.
pub open spec fn entry_listed(
    items: Seq<InventoryItemModel>,
    containers: Seq<Json>,
    label: Seq<char>,
    c: int,
    e: int,
) -> bool {
    exists|i: int| 0 <= i < items.len() && #[trigger] read_from_entry(items[i], containers, label, c, e)
}

proof fn lemma_entries_listed(
    containers: Seq<Json>,
    label: Seq<char>,
    c: int,
    entries: Seq<Json>,
    n: int,
)
    requires
        0 <= c < containers.len(),
        entries == container_entries(containers[c]),
        n <= entries.len(),
    ensures
        forall|e: int|
            0 <= e < n && holds_item_with_base(entries[e]) ==> #[trigger] entry_listed(
                entries_items(entries, container_name(label, c), n),
                containers,
                label,
                c,
                e,
            ),
    decreases n,
{
    let source = container_name(label, c);
    if n > 0 {
        lemma_entries_listed(containers, label, c, entries, n - 1);
        let before = entries_items(entries, source, n - 1);
        let all = entries_items(entries, source, n);
        assert forall|e: int| 0 <= e < n && holds_item_with_base(entries[e]) implies #[trigger]
            entry_listed(entries_items(entries, source, n), containers, label, c, e) by {
            if e < n - 1 {
                assert(entry_listed(before, containers, label, c, e));
                let i = choose|i: int|
                    0 <= i < before.len() && #[trigger] read_from_entry(
                        before[i],
                        containers,
                        label,
                        c,
                        e,
                    );
                assert(all[i] == before[i]);
                assert(read_from_entry(all[i], containers, label, c, e));
            } else {
                let item = entries[n - 1].member("item"@)->Some_0;
                assert(all[before.len() as int] == inventory_from(source, item));
                assert(read_from_entry(all[before.len() as int], containers, label, c, e));
            }
        }
    }
}

proof fn lemma_containers_listed(containers: Seq<Json>, label: Seq<char>, n: int)
    requires
        n <= containers.len(),
    ensures
        forall|c: int, e: int|
            0 <= c < n && 0 <= e < container_entries(containers[c]).len() && holds_item_with_base(
                container_entries(containers[c])[e],
            ) ==> #[trigger] entry_listed(containers_items(containers, label, n), containers, label, c, e),
    decreases n,
{
    if n > 0 {
        lemma_containers_listed(containers, label, n - 1);
        let before = containers_items(containers, label, n - 1);
        let entries = container_entries(containers[n - 1]);
        let name = container_name(label, n - 1);
        let more = entries_items(entries, name, entries.len() as int);
        lemma_entries_listed(containers, label, n - 1, entries, entries.len() as int);
        match containers[n - 1].member("items"@) {
            Some(Json::Array(es)) => {
                assert(containers_items(containers, label, n) == before + more);
            },
            _ => {
                assert(entries.len() == 0);
                assert(more =~= Seq::<InventoryItemModel>::empty());
                assert(containers_items(containers, label, n) =~= before + more);
            },
        }
        let all = containers_items(containers, label, n);
        assert forall|c: int, e: int|
            0 <= c < n && 0 <= e < container_entries(containers[c]).len() && holds_item_with_base(
                container_entries(containers[c])[e],
            ) implies #[trigger] entry_listed(all, containers, label, c, e) by {
            if c < n - 1 {
                assert(entry_listed(before, containers, label, c, e));
                let i = choose|i: int|
                    0 <= i < before.len() && #[trigger] read_from_entry(
                        before[i],
                        containers,
                        label,
                        c,
                        e,
                    );
                assert(all[i] == before[i]);
                assert(read_from_entry(all[i], containers, label, c, e));
            } else {
                assert(entry_listed(more, containers, label, c, e));
                let i = choose|i: int|
                    0 <= i < more.len() && #[trigger] read_from_entry(more[i], containers, label, c, e);
                assert(all[before.len() + i] == more[i]);
                assert(read_from_entry(all[before.len() + i], containers, label, c, e));
            }
        }
    }
}

/// Every item read from the bags (or the stash tabs) of a save is the
/// `item` of an entry of one of them: it comes from "Bag n" (or "Stash Tab
/// n"), n counted from 1, and carries in each DBR-path field the string
/// member of the same name of that item, or empty when it has none, and in
/// each seed its integer member, or 0. Every entry whose item has a base
/// is read.
pub proof fn law_bag_and_stash_items_carry_their_entry_paths(doc: Json)
    ensures
        inventory_spec(doc) matches Ok(items) ==> forall|i: int|
            0 <= i < items.len() ==> #[trigger] from_some_entry(
                items[i],
                bag_containers(doc),
                "Bag "@,
            ),
        stash_spec(doc) matches Ok(items) ==> forall|i: int|
            0 <= i < items.len() ==> #[trigger] from_some_entry(
                items[i],
                tab_containers(doc),
                "Stash Tab "@,
            ),
        inventory_spec(doc) matches Ok(items) ==> forall|c: int, e: int|
            0 <= c < bag_containers(doc).len() && 0 <= e < container_entries(
                bag_containers(doc)[c],
            ).len() && holds_item_with_base(container_entries(bag_containers(doc)[c])[e])
                ==> #[trigger] entry_listed(items, bag_containers(doc), "Bag "@, c, e),
        stash_spec(doc) matches Ok(items) ==> forall|c: int, e: int|
            0 <= c < tab_containers(doc).len() && 0 <= e < container_entries(
                tab_containers(doc)[c],
            ).len() && holds_item_with_base(container_entries(tab_containers(doc)[c])[e])
                ==> #[trigger] entry_listed(items, tab_containers(doc), "Stash Tab "@, c, e),
{
    let sacks = bag_containers(doc);
    let tabs = tab_containers(doc);
    lemma_containers_items_read(sacks, "Bag "@, sacks.len() as int);
    lemma_containers_items_read(tabs, "Stash Tab "@, tabs.len() as int);
    lemma_containers_listed(sacks, "Bag "@, sacks.len() as int);
    lemma_containers_listed(tabs, "Stash Tab "@, tabs.len() as int);
}

/// What reading a save's JSON text gives: `on_doc` of the document, or the
/// parse error prefixed with "save JSON malformed: ".
pub open spec fn from_save_text<T>(
    text: Seq<char>,
    on_doc: spec_fn(Json) -> Result<T, Seq<char>>,
) -> Result<T, Seq<char>> {
    match json_parse(text) {
        Ok(doc) => on_doc(doc),
        Err(e) => Err("save JSON malformed: "@ + e),
    }
}

fn text_field(item: &JsonValue, key: &str) -> (r: String)
    ensures
        r@ == field_text(item@, key@),
{
    match item.member(key) {
        Some(v) => match v.as_str() {
            Some(s) => {
                proof {
                    let m = item@.member(key@).unwrap();
                    assert(m == v@);
                    assert(m == Json::Str(s@));
                }
                s.clone()
            },
            None => {
                proof {
                    let m = item@.member(key@).unwrap();
                    assert(!(m is Str));
                }
                String::new()
            },
        },
        None => String::new(),
    }
}

fn count_field(item: &JsonValue, key: &str) -> (r: u64)
    ensures
        r == field_count(item@, key@),
{
    match item.member(key) {
        Some(v) => match v.as_u64() {
            Some(n) => n,
            None => 0,
        },
        None => 0,
    }
}

/// The item held in a slot, unless missing or null.
fn slot_item_of(slot: &JsonValue) -> (r: Option<&JsonValue>)
    ensures
        match r {
            Some(item) => slot_item(slot@) == Some(item@),
            None => slot_item(slot@) is None,
        },
{
    match slot.member("item") {
        Some(item) => if item.is_null() {
            None
        } else {
            Some(item)
        },
        None => None,
    }
}

fn equipped_item_from(slot_index: usize, item: &JsonValue) -> (r: RawEquippedItem)
    ensures
        r@ == equipped_from(slot_index, item@),
{
    RawEquippedItem {
        slot_index,
        base_name: text_field(item, "base_name"),
        prefix_name: text_field(item, "prefix_name"),
        suffix_name: text_field(item, "suffix_name"),
        modifier_name: text_field(item, "modifier_name"),
        relic_bonus: text_field(item, "relic_bonus"),
        component_name: text_field(item, "component_name"),
        augment_name: text_field(item, "augment_name"),
    }
}

fn inventory_item_from(source: &String, item: &JsonValue) -> (r: RawInventoryItem)
    ensures
        r@ == inventory_from(source@, item@),
{
    RawInventoryItem {
        source: source.clone(),
        base_name: text_field(item, "base_name"),
        prefix_name: text_field(item, "prefix_name"),
        suffix_name: text_field(item, "suffix_name"),
        modifier_name: text_field(item, "modifier_name"),
        transmute_name: text_field(item, "transmute_name"),
        relic_bonus: text_field(item, "relic_bonus"),
        component_name: text_field(item, "component_name"),
        augment_name: text_field(item, "augment_name"),
        seed: count_field(item, "seed"),
        component_seed: count_field(item, "component_seed"),
        augment_seed: count_field(item, "augment_seed"),
    }
}

/// The member `key` of the member `outer` of `doc`.
fn at<'a>(doc: &'a JsonValue, outer: &str, key: &str) -> (r: Option<&'a JsonValue>)
    ensures
        match r {
            Some(v) => doc@.at(outer@, key@) == Some(v@),
            None => doc@.at(outer@, key@) is None,
        },
{
    match doc.member(outer) {
        Some(inner) => inner.member(key),
        None => None,
    }
}

/// The array member `key` of the member `outer` of `doc`.
fn array_at<'a>(doc: &'a JsonValue, outer: &str, key: &str) -> (r: Option<&'a Vec<JsonValue>>)
    ensures
        match r {
            Some(a) => exists|v: Json|
                doc@.at(outer@, key@) == Some(v) && v.array_items() == Some(
                    json_list_model(a@),
                ),
            None => match doc@.at(outer@, key@) {
                Some(v) => v.array_items() is None,
                None => true,
            },
        },
{
    match at(doc, outer, key) {
        Some(v) => v.as_array(),
        None => None,
    }
}

/// The equipped items of a save document (see `equipped_spec`).
pub fn equipped_items(doc: &JsonValue) -> (r: Result<Vec<RawEquippedItem>, String>)
    ensures
        match r {
            Ok(items) => equipped_spec(doc@) == Ok::<_, Seq<char>>(equipped_models(items@)),
            Err(e) => equipped_spec(doc@) == Err::<Seq<EquippedItemModel>, _>(e@),
        },
{
    let equipment = match array_at(doc, "inv", "equipment") {
        Some(a) => a,
        None => {
            return Err(String::from_str("save JSON missing inv.equipment (unexpected save format)"));
        },
    };
    let ghost slots = json_list_model(equipment@);
    proof {
        lemma_list_model(equipment@);
    }
    let mut items: Vec<RawEquippedItem> = Vec::new();
    let mut i: usize = 0;
    while i < equipment.len()
        invariant
            slots == json_list_model(equipment@),
            slots.len() == equipment.len(),
            forall|k: int| 0 <= k < equipment.len() ==> #[trigger] slots[k] == equipment@[k]@,
            0 <= i <= equipment.len(),
            equipped_models(items@) == body_equipment(slots, i as int),
        decreases equipment.len() - i,
    {
        assert(slots[i as int] == equipment@[i as int]@);
        match slot_item_of(&equipment[i]) {
            Some(item) => {
                let e = equipped_item_from(i, item);
                items.push(e);
                assert(equipped_models(items@) =~= body_equipment(slots, i as int).push(e@));
            },
            None => {},
        }
        i = i + 1;
    }
    let alternate = match at(doc, "inv", "use_alternate") {
        Some(v) => match v.as_u64() {
            Some(n) => n,
            None => 0,
        },
        None => 0,
    };
    let set = if alternate == 0 {
        array_at(doc, "inv", "weapon1")
    } else {
        array_at(doc, "inv", "weapon2")
    };
    let ghost body = equipped_models(items@);
    match set {
        Some(weapons) => {
            let ghost ws = json_list_model(weapons@);
            proof {
                lemma_list_model(weapons@);
            }
            let mut j: usize = 0;
            while j < weapons.len()
                invariant
                    ws == json_list_model(weapons@),
                    ws.len() == weapons.len(),
                    forall|k: int| 0 <= k < weapons.len() ==> #[trigger] ws[k] == weapons@[k]@,
                    0 <= j <= weapons.len(),
                    equipped_models(items@) == body + weapon_equipment(ws, j as int),
                decreases weapons.len() - j,
            {
                assert(ws[j as int] == weapons@[j as int]@);
                match slot_item_of(&weapons[j]) {
                    Some(item) => {
                        let base = text_field(item, "base_name");
                        if base.unicode_len() > 0 {
                            let index = if j < usize::MAX - 12 {
                                j + 12
                            } else {
                                usize::MAX
                            };
                            let e = equipped_item_from(index, item);
                            let ghost prev = equipped_models(items@);
                            items.push(e);
                            assert(equipped_models(items@) =~= prev.push(e@));
                            assert((body + weapon_equipment(ws, j as int)).push(e@) =~= body
                                + weapon_equipment(ws, j as int).push(e@));
                        }
                    },
                    None => {},
                }
                j = j + 1;
            }
            assert(use_alternate(doc@) == alternate);
        },
        None => {
            assert(use_alternate(doc@) == alternate);
            assert(active_weapons(doc@) =~= Seq::<EquippedItemModel>::empty());
        },
    }
    Ok(items)
}

/// The items of all `containers`, each named after `label` and its number.
fn containers_items_of(containers: &Vec<JsonValue>, label: &str) -> (r: Vec<RawInventoryItem>)
    ensures
        json_list_model(containers@).len() == containers.len(),
        inventory_models(r@) == containers_items(
            json_list_model(containers@),
            label@,
            containers.len() as int,
        ),
{
    let ghost cs = json_list_model(containers@);
    proof {
        lemma_list_model(containers@);
    }
    let mut items: Vec<RawInventoryItem> = Vec::new();
    let mut i: usize = 0;
    while i < containers.len()
        invariant
            cs == json_list_model(containers@),
            cs.len() == containers.len(),
            forall|k: int| 0 <= k < containers.len() ==> #[trigger] cs[k] == containers@[k]@,
            0 <= i <= containers.len(),
            inventory_models(items@) == containers_items(cs, label@, i as int),
        decreases containers.len() - i,
    {
        assert(cs[i as int] == containers@[i as int]@);
        let ghost before = inventory_models(items@);
        match containers[i].member("items") {
            Some(v) => match v.as_array() {
                Some(entries) => {
                    let mut source = String::from_str(label);
                    let number = decimal_text((i + 1) as u64);
                    source.append(number.as_str());
                    assert(source@ == container_name(label@, i as int));
                    let ghost es = json_list_model(entries@);
                    proof {
                        lemma_list_model(entries@);
                    }
                    let mut j: usize = 0;
                    while j < entries.len()
                        invariant
                            es == json_list_model(entries@),
                            es.len() == entries.len(),
                            forall|k: int|
                                0 <= k < entries.len() ==> #[trigger] es[k] == entries@[k]@,
                            0 <= j <= entries.len(),
                            inventory_models(items@) == before + entries_items(
                                es,
                                source@,
                                j as int,
                            ),
                        decreases entries.len() - j,
                    {
                        assert(es[j as int] == entries@[j as int]@);
                        match entries[j].member("item") {
                            Some(item) => {
                                let base = text_field(item, "base_name");
                                if base.unicode_len() > 0 {
                                    let e = inventory_item_from(&source, item);
                                    let ghost prev = inventory_models(items@);
                                    items.push(e);
                                    assert(inventory_models(items@) =~= prev.push(e@));
                                    assert((before + entries_items(es, source@, j as int)).push(
                                        e@,
                                    ) =~= before + entries_items(es, source@, j as int).push(
                                        e@,
                                    ));
                                }
                            },
                            None => {},
                        }
                        j = j + 1;
                    }
                },
                None => {
                    assert(inventory_models(items@) =~= before + Seq::<InventoryItemModel>::empty());
                },
            },
            None => {
                assert(inventory_models(items@) =~= before + Seq::<InventoryItemModel>::empty());
            },
        }
        i = i + 1;
    }
    items
}

/// The items in the personal inventory bags of a save document (see
/// `inventory_spec`).
pub fn inventory_items(doc: &JsonValue) -> (r: Result<Vec<RawInventoryItem>, String>)
    ensures
        match r {
            Ok(items) => inventory_spec(doc@) == Ok::<_, Seq<char>>(inventory_models(items@)),
            Err(e) => inventory_spec(doc@) == Err::<Seq<InventoryItemModel>, _>(e@),
        },
{
    match array_at(doc, "inv", "sacks") {
        Some(sacks) => Ok(containers_items_of(sacks, "Bag ")),
        None => Err(String::from_str("save JSON missing inv.sacks (unexpected save format)")),
    }
}

/// The items in the personal stash tabs of a save document (see
/// `stash_spec`): the tabs this character has, not the shared stash.
pub fn stash_items(doc: &JsonValue) -> (r: Result<Vec<RawInventoryItem>, String>)
    ensures
        match r {
            Ok(items) => stash_spec(doc@) == Ok::<_, Seq<char>>(inventory_models(items@)),
            Err(e) => stash_spec(doc@) == Err::<Seq<InventoryItemModel>, _>(e@),
        },
{
    match array_at(doc, "stash", "tabs") {
        Some(tabs) => Ok(containers_items_of(tabs, "Stash Tab ")),
        None => Err(String::from_str("save JSON missing stash.tabs (unexpected save format)")),
    }
}

/// "save JSON malformed: " and the parse error.
fn malformed(e: String) -> (r: String)
    ensures
        r@ == "save JSON malformed: "@ + e@,
{
    let mut m = String::from_str("save JSON malformed: ");
    m.append(e.as_str());
    m
}

/// Reads the equipped gear out of a character save rendered as JSON text:
/// the 12 body slots (slot 11 is the relic slot) and the active weapon
/// set's main hand and off-hand as slots 12 and 13.
pub fn read_equipped_items(save_json: &str) -> (r: Result<Vec<RawEquippedItem>, String>)
    ensures
        match r {
            Ok(items) => from_save_text(save_json@, |d: Json| equipped_spec(d)) == Ok::<
                _,
                Seq<char>,
            >(equipped_models(items@)),
            Err(e) => from_save_text(save_json@, |d: Json| equipped_spec(d)) == Err::<
                Seq<EquippedItemModel>,
                _,
            >(e@),
        },
{
    match parse_json(save_json) {
        Ok(doc) => equipped_items(&doc),
        Err(e) => Err(malformed(e)),
    }
}

/// Reads every item in the character's personal inventory bags out of a
/// character save rendered as JSON text.
pub fn read_inventory_items(save_json: &str) -> (r: Result<Vec<RawInventoryItem>, String>)
    ensures
        match r {
            Ok(items) => from_save_text(save_json@, |d: Json| inventory_spec(d)) == Ok::<
                _,
                Seq<char>,
            >(inventory_models(items@)),
            Err(e) => from_save_text(save_json@, |d: Json| inventory_spec(d)) == Err::<
                Seq<InventoryItemModel>,
                _,
            >(e@),
        },
{
    match parse_json(save_json) {
        Ok(doc) => inventory_items(&doc),
        Err(e) => Err(malformed(e)),
    }
}

/// Reads every item in the character's personal stash tabs out of a
/// character save rendered as JSON text.
pub fn read_stash_items(save_json: &str) -> (r: Result<Vec<RawInventoryItem>, String>)
    ensures
        match r {
            Ok(items) => from_save_text(save_json@, |d: Json| stash_spec(d)) == Ok::<
                _,
                Seq<char>,
            >(inventory_models(items@)),
            Err(e) => from_save_text(save_json@, |d: Json| stash_spec(d)) == Err::<
                Seq<InventoryItemModel>,
                _,
            >(e@),
        },
{
    match parse_json(save_json) {
        Ok(doc) => stash_items(&doc),
        Err(e) => Err(malformed(e)),
    }
}

// ---------------------------------------------------------------------------
// the save folder

/// The default Grim Dawn save folder under a Windows user profile folder,
/// as path components: `<profile>/Documents/My Games/Grim Dawn/save/main`;
/// none without a profile folder. (Whether that folder exists is for the
/// caller to check.)
pub fn default_save_dir(user_profile: Option<String>) -> (r: Option<Vec<String>>)
    ensures
        match user_profile {
            Some(home) => r is Some && r->Some_0@.map_values(|c: String| c@) == seq![
                home@,
                "Documents"@,
                "My Games"@,
                "Grim Dawn"@,
                "save"@,
                "main"@,
            ],
            None => r is None,
        },
{
    match user_profile {
        Some(home) => {
            let mut parts: Vec<String> = Vec::new();
            parts.push(home);
            parts.push(String::from_str("Documents"));
            parts.push(String::from_str("My Games"));
            parts.push(String::from_str("Grim Dawn"));
            parts.push(String::from_str("save"));
            parts.push(String::from_str("main"));
            assert(parts@.map_values(|c: String| c@) =~= seq![
                parts@[0]@,
                "Documents"@,
                "My Games"@,
                "Grim Dawn"@,
                "save"@,
                "main"@,
            ]);
            Some(parts)
        },
        None => None,
    }
}

/// One entry of a folder listing: its name (`None` when it is not valid
/// UTF-8) and whether it is a folder.
#[derive(Debug, Clone)]
pub struct DirEntryInfo {
    pub name: Option<String>,
    pub is_dir: bool,
}

/// A character folder: a folder whose name starts with `_`.
pub open spec fn is_character_folder(e: DirEntryInfo) -> bool {
    e.is_dir && match e.name {
        Some(n) => starts_with_char(n@, '_'),
        None => false,
    }
}

/// The names of the character folders among `es`, in listing order.
pub open spec fn character_folder_names(es: Seq<DirEntryInfo>) -> Seq<Seq<char>>
    decreases es.len(),
{
    if es.len() == 0 {
        Seq::empty()
    } else {
        let before = character_folder_names(es.drop_last());
        if is_character_folder(es.last()) {
            before.push(es.last().name->Some_0@)
        } else {
            before
        }
    }
}

/// Lexicographic order on texts, character by character (code point
/// order, which is the byte order of their UTF-8 form).
pub open spec fn lex_le(a: Seq<char>, b: Seq<char>) -> bool
    decreases a.len(),
{
    if a.len() == 0 {
        true
    } else if b.len() == 0 {
        false
    } else if a[0] != b[0] {
        a[0] < b[0]
    } else {
        lex_le(a.drop_first(), b.drop_first())
    }
}

pub open spec fn sorted_lex(s: Seq<Seq<char>>) -> bool {
    forall|i: int, j: int| 0 <= i < j < s.len() ==> lex_le(s[i], s[j])
}

pub proof fn lemma_lex_total(a: Seq<char>, b: Seq<char>)
    ensures
        lex_le(a, b) || lex_le(b, a),
    decreases a.len(),
{
    if a.len() > 0 && b.len() > 0 && a[0] == b[0] {
        lemma_lex_total(a.drop_first(), b.drop_first());
    }
}

pub proof fn lemma_lex_transitive(a: Seq<char>, b: Seq<char>, c: Seq<char>)
    requires
        lex_le(a, b),
        lex_le(b, c),
    ensures
        lex_le(a, c),
    decreases a.len(),
{
    if a.len() > 0 && b.len() > 0 && c.len() > 0 && a[0] == b[0] && b[0] == c[0] {
        lemma_lex_transitive(a.drop_first(), b.drop_first(), c.drop_first());
    }
}

/// Whether `a` comes before `b` or equals it, lexicographically.
fn text_le(a: &String, b: &String) -> (r: bool)
    ensures
        r == lex_le(a@, b@),
{
    let x = chars_of(a.as_str());
    let y = chars_of(b.as_str());
    let mut i: usize = 0;
    assert(a@.skip(0) =~= a@);
    assert(b@.skip(0) =~= b@);
    while i < x.len() && i < y.len() && x[i] == y[i]
        invariant
            x@ == a@,
            y@ == b@,
            0 <= i <= x.len(),
            i <= y.len(),
            lex_le(a@, b@) == lex_le(a@.skip(i as int), b@.skip(i as int)),
        decreases x.len() - i,
    {
        assert(a@.skip(i as int).drop_first() =~= a@.skip(i + 1));
        assert(b@.skip(i as int).drop_first() =~= b@.skip(i + 1));
        i = i + 1;
    }
    if i == x.len() {
        true
    } else if i == y.len() {
        false
    } else {
        assert(a@.skip(i as int)[0] == x@[i as int]);
        assert(b@.skip(i as int)[0] == y@[i as int]);
        x[i] < y[i]
    }
}

pub open spec fn text_views(s: Seq<String>) -> Seq<Seq<char>> {
    s.map_values(|t: String| t@)
}

/// The character folder names (folders whose name starts with `_`) of a
/// save folder's listing, sorted.
pub fn list_characters(entries: &Vec<DirEntryInfo>) -> (r: Vec<String>)
    ensures
        sorted_lex(text_views(r@)),
        text_views(r@).to_multiset() == character_folder_names(entries@).to_multiset(),
{
    let mut names: Vec<String> = Vec::new();
    let mut i: usize = 0;
    assert(entries@.take(0) =~= Seq::<DirEntryInfo>::empty());
    assert(text_views(names@) =~= Seq::<Seq<char>>::empty());
    while i < entries.len()
        invariant
            0 <= i <= entries.len(),
            sorted_lex(text_views(names@)),
            text_views(names@).to_multiset() == character_folder_names(
                entries@.take(i as int),
            ).to_multiset(),
        decreases entries.len() - i,
    {
        assert(entries@.take(i + 1).drop_last() =~= entries@.take(i as int));
        assert(entries@.take(i + 1).last() == entries@[i as int]);
        let e = &entries[i];
        let ghost before = character_folder_names(entries@.take(i as int));
        let ghost after = character_folder_names(entries@.take(i + 1));
        let ghost old_views = text_views(names@);
        assert(is_character_folder(*e) ==> after == before.push(e.name->Some_0@));
        assert(!is_character_folder(*e) ==> after == before);
        if e.is_dir {
            match &e.name {
                Some(n) => {
                    if starts_with(n.as_str(), '_') {
                        // insert before the first name that comes after it
                        let ghost vs = text_views(names@);
                        let mut j: usize = 0;
                        while j < names.len() && text_le(&names[j], n)
                            invariant
                                vs == text_views(names@),
                                0 <= j <= names.len(),
                                forall|k: int| 0 <= k < j ==> lex_le(#[trigger] vs[k], n@),
                            decreases names.len() - j,
                        {
                            j = j + 1;
                        }
                        proof {
                            assert forall|k: int| j <= k < vs.len() implies lex_le(
                                n@,
                                #[trigger] vs[k],
                            ) by {
                                lemma_lex_total(vs[j as int], n@);
                                if k > j {
                                    lemma_lex_transitive(n@, vs[j as int], vs[k]);
                                }
                            }
                        }
                        names.insert(j, n.clone());
                        proof {
                            let ws = text_views(names@);
                            assert(ws =~= vs.insert(j as int, n@));
                            vstd::seq_lib::to_multiset_insert(vs, j as int, n@);
                            vstd::seq_lib::to_multiset_build(before, n@);
                            assert(ws.to_multiset() == vs.to_multiset().insert(n@));
                            assert(after.to_multiset() == before.to_multiset().insert(n@));
                            assert forall|a: int, b: int| 0 <= a < b < ws.len() implies lex_le(
                                ws[a],
                                ws[b],
                            ) by {
                                if b < j {
                                } else if a < j && b == j {
                                } else if a < j {
                                    lemma_lex_transitive(vs[a], n@, vs[b - 1]);
                                } else if a == j {
                                } else {
                                }
                            }
                        }
                    }
                },
                None => {},
            }
        }
        i = i + 1;
    }
    assert(entries@.take(entries.len() as int) =~= entries@);
    names
}

} // verus!
