//! A plain JSON document model: what the save reader, the catalog and the
//! stat extraction read out of parsed JSON, as values Verus can see.

use vstd::prelude::*;

verus! {

/// A parsed JSON value.
///
/// `Number` keeps what the readers of this crate take from a number: its
/// value when it is a non-negative integer that fits in a `u64`, and `None`
/// for any other number (negative or fractional).
#[derive(Debug)]
pub enum JsonValue {
    Null,
    Bool(bool),
    Number(Option<u64>),
    Str(String),
    Array(Vec<JsonValue>),
    Object(Vec<(String, JsonValue)>),
}

/// The mathematical model of a JSON value.
pub enum Json {
    Null,
    Bool(bool),
    Number(Option<u64>),
    Str(Seq<char>),
    Array(Seq<Json>),
    Object(Seq<(Seq<char>, Json)>),
}

/// The model of a value.
pub open spec fn json_model(v: JsonValue) -> Json
    decreases v,
{
    match v {
        JsonValue::Null => Json::Null,
        JsonValue::Bool(b) => Json::Bool(b),
        JsonValue::Number(n) => Json::Number(n),
        JsonValue::Str(s) => Json::Str(s@),
        JsonValue::Array(a) => Json::Array(json_list_model(a@)),
        JsonValue::Object(es) => Json::Object(json_entries_model(es@)),
    }
}

/// The model of a list of values, element by element.
pub open spec fn json_list_model(s: Seq<JsonValue>) -> Seq<Json>
    decreases s,
{
    if s.len() == 0 {
        Seq::empty()
    } else {
        json_list_model(s.subrange(0, s.len() - 1)).push(json_model(s[s.len() - 1]))
    }
}

/// The model of the members of an object, member by member.
pub open spec fn json_entries_model(s: Seq<(String, JsonValue)>) -> Seq<(Seq<char>, Json)>
    decreases s,
{
    if s.len() == 0 {
        Seq::empty()
    } else {
        json_entries_model(s.subrange(0, s.len() - 1)).push(
            (s[s.len() - 1].0@, json_model(s[s.len() - 1].1)),
        )
    }
}

/// The value of the first member of `es` named `key`.
pub open spec fn entries_lookup(es: Seq<(Seq<char>, Json)>, key: Seq<char>) -> Option<Json>
    decreases es.len(),
{
    if es.len() == 0 {
        None
    } else if es[0].0 == key {
        Some(es[0].1)
    } else {
        entries_lookup(es.drop_first(), key)
    }
}

impl Json {
    /// The member `key` of an object, as `Value::get` with a string key
    /// gives it: `None` for a value that is not an object.
    pub open spec fn member(self, key: Seq<char>) -> Option<Json> {
        match self {
            Json::Object(es) => entries_lookup(es, key),
            _ => None,
        }
    }

    /// The member `key` of the member `outer`: a two-step JSON pointer.
    pub open spec fn at(self, outer: Seq<char>, key: Seq<char>) -> Option<Json> {
        match self.member(outer) {
            Some(inner) => inner.member(key),
            None => None,
        }
    }

    pub open spec fn array_items(self) -> Option<Seq<Json>> {
        match self {
            Json::Array(items) => Some(items),
            _ => None,
        }
    }

    pub open spec fn str_text(self) -> Option<Seq<char>> {
        match self {
            Json::Str(s) => Some(s),
            _ => None,
        }
    }

    pub open spec fn u64_value(self) -> Option<u64> {
        match self {
            Json::Number(n) => n,
            _ => None,
        }
    }

    pub open spec fn object_entries(self) -> Option<Seq<(Seq<char>, Json)>> {
        match self {
            Json::Object(es) => Some(es),
            _ => None,
        }
    }
}

/// The first member named `key` is the one at index `i`.
pub proof fn lemma_entries_lookup_found(es: Seq<(Seq<char>, Json)>, key: Seq<char>, i: int)
    requires
        0 <= i < es.len(),
        es[i].0 == key,
        forall|j: int| 0 <= j < i ==> es[j].0 != key,
    ensures
        entries_lookup(es, key) == Some(es[i].1),
    decreases i,
{
    if i > 0 {
        lemma_entries_lookup_found(es.drop_first(), key, i - 1);
    }
}

/// No member is named `key`.
pub proof fn lemma_entries_lookup_missing(es: Seq<(Seq<char>, Json)>, key: Seq<char>)
    requires
        forall|j: int| 0 <= j < es.len() ==> es[j].0 != key,
    ensures
        entries_lookup(es, key) is None,
    decreases es.len(),
{
    if es.len() > 0 {
        lemma_entries_lookup_missing(es.drop_first(), key);
    }
}

/// The model of a list is the model of each element.
pub proof fn lemma_list_model(s: Seq<JsonValue>)
    ensures
        json_list_model(s).len() == s.len(),
        forall|i: int| 0 <= i < s.len() ==> #[trigger] json_list_model(s)[i] == json_model(s[i]),
    decreases s.len(),
{
    if s.len() > 0 {
        lemma_list_model(s.subrange(0, s.len() - 1));
    }
}

/// The model of the members of an object is the model of each member.
pub proof fn lemma_entries_model(s: Seq<(String, JsonValue)>)
    ensures
        json_entries_model(s).len() == s.len(),
        forall|i: int|
            0 <= i < s.len() ==> #[trigger] json_entries_model(s)[i] == (
                s[i].0@,
                json_model(s[i].1),
            ),
    decreases s.len(),
{
    if s.len() > 0 {
        lemma_entries_model(s.subrange(0, s.len() - 1));
    }
}

/// Appending a member appends the member's model.
pub proof fn lemma_entries_model_push(s: Seq<(String, JsonValue)>, x: (String, JsonValue))
    ensures
        json_entries_model(s.push(x)) == json_entries_model(s).push((x.0@, json_model(x.1))),
{
    assert(s.push(x).subrange(0, s.len() as int) =~= s);
}

impl View for JsonValue {
    type V = Json;

    open spec fn view(&self) -> Json {
        json_model(*self)
    }
}

impl JsonValue {
    /// The member `key` of an object (`None` for any other value).
    pub fn member(&self, key: &str) -> (r: Option<&JsonValue>)
        ensures
            match r {
                Some(v) => self@.member(key@) == Some(v@),
                None => self@.member(key@) is None,
            },
    {
        match self {
            JsonValue::Object(es) => {
                proof {
                    lemma_entries_model(es@);
                    assert(self@ == Json::Object(json_entries_model(es@)));
                }
                let mut i: usize = 0;
                while i < es.len()
                    invariant
                        0 <= i <= es.len(),
                        self@ == Json::Object(json_entries_model(es@)),
                        json_entries_model(es@).len() == es.len(),
                        forall|k: int|
                            0 <= k < es.len() ==> #[trigger] json_entries_model(es@)[k] == (
                                es@[k].0@,
                                json_model(es@[k].1),
                            ),
                        forall|j: int| 0 <= j < i ==> es@[j].0@ != key@,
                    decreases es.len() - i,
                {
                    if text_eq(es[i].0.as_str(), key) {
                        proof {
                            let m = json_entries_model(es@);
                            assert(m[i as int] == (es@[i as int].0@, json_model(es@[i as int].1)));
                            assert forall|j: int| 0 <= j < i implies m[j].0 != key@ by {
                                assert(m[j] == (es@[j].0@, json_model(es@[j].1)));
                            }
                            lemma_entries_lookup_found(m, key@, i as int);
                        }
                        return Some(&es[i].1);
                    }
                    i = i + 1;
                }
                proof {
                    let m = json_entries_model(es@);
                    assert forall|j: int| 0 <= j < m.len() implies m[j].0 != key@ by {
                        assert(m[j] == (es@[j].0@, json_model(es@[j].1)));
                    }
                    lemma_entries_lookup_missing(m, key@);
                }
                None
            },
            _ => None,
        }
    }

    pub fn as_array(&self) -> (r: Option<&Vec<JsonValue>>)
        ensures
            match r {
                Some(a) => self@.array_items() == Some(json_list_model(a@)),
                None => self@.array_items() is None,
            },
    {
        match self {
            JsonValue::Array(a) => Some(a),
            _ => None,
        }
    }

    pub fn as_object(&self) -> (r: Option<&Vec<(String, JsonValue)>>)
        ensures
            match r {
                Some(es) => self@.object_entries() == Some(json_entries_model(es@)),
                None => self@.object_entries() is None,
            },
    {
        match self {
            JsonValue::Object(es) => Some(es),
            _ => None,
        }
    }

    pub fn as_str(&self) -> (r: Option<&String>)
        ensures
            match r {
                Some(s) => self@.str_text() == Some(s@),
                None => self@.str_text() is None,
            },
    {
        match self {
            JsonValue::Str(s) => Some(s),
            _ => None,
        }
    }

    pub fn as_u64(&self) -> (r: Option<u64>)
        ensures
            r == self@.u64_value(),
    {
        match self {
            JsonValue::Number(n) => *n,
            _ => None,
        }
    }

    pub fn is_null(&self) -> (r: bool)
        ensures
            r == (self@ == Json::Null),
    {
        match self {
            JsonValue::Null => true,
            _ => false,
        }
    }
}

#[verifier::external_type_specification]
#[verifier::external_body]
pub struct ExSerdeJsonValue(serde_json::Value);

/// Name for what `serde_json::from_str::<serde_json::Value>` gives for a
/// text: the model of the parsed document, or the message of its error.
pub uninterp spec fn json_parse(text: Seq<char>) -> Result<Json, Seq<char>>;

/// Parses JSON text with `serde_json::from_str::<serde_json::Value>`.
/// Claimed of it: the result (document model or error message) is the
/// named `json_parse` of the text; nothing else is stated of which texts
/// parse.
#[verifier::external_body]
pub(crate) fn parse_json(text: &str) -> (r: Result<JsonValue, String>)
    ensures
        match r {
            Ok(v) => json_parse(text@) == Ok::<Json, Seq<char>>(v@),
            Err(e) => json_parse(text@) == Err::<Json, Seq<char>>(e@),
        },
{
    match serde_json::from_str::<serde_json::Value>(text) {
        Ok(v) => Ok(from_serde_value(v)),
        Err(e) => Err(e.to_string()),
    }
}

/// Moves a `serde_json::Value` into the crate's own `JsonValue`, variant by
/// variant (a number keeps `serde_json::Number::as_u64`). Nothing is claimed
/// of it on its own: `parse_json` states what the two give together.
#[verifier::external_body]
fn from_serde_value(v: serde_json::Value) -> JsonValue {
    match v {
        serde_json::Value::Null => JsonValue::Null,
        serde_json::Value::Bool(b) => JsonValue::Bool(b),
        serde_json::Value::Number(n) => JsonValue::Number(n.as_u64()),
        serde_json::Value::String(s) => JsonValue::Str(s),
        serde_json::Value::Array(a) => JsonValue::Array(a.into_iter().map(from_serde_value).collect()),
        serde_json::Value::Object(m) => JsonValue::Object(
            m.into_iter().map(|(k, v)| (k, from_serde_value(v))).collect(),
        ),
    }
}

impl JsonValue {
    /// A deep copy of the value.
    pub fn copy(&self) -> (r: JsonValue)
        ensures
            r@ == self@,
        decreases self,
    {
        match self {
            JsonValue::Null => JsonValue::Null,
            JsonValue::Bool(b) => JsonValue::Bool(*b),
            JsonValue::Number(n) => JsonValue::Number(*n),
            JsonValue::Str(s) => JsonValue::Str(s.clone()),
            JsonValue::Array(a) => {
                proof {
                    lemma_list_model(a@);
                }
                let mut out: Vec<JsonValue> = Vec::new();
                let mut i: usize = 0;
                while i < a.len()
                    invariant
                        *self == JsonValue::Array(*a),
                        0 <= i <= a.len(),
                        out.len() == i,
                        forall|k: int|
                            0 <= k < i ==> #[trigger] json_model(out@[k]) == json_model(a@[k]),
                    decreases a.len() - i,
                {
                    proof {
                        let v = *self;
                        let av = v->Array_0;
                        assert(av == *a);
                        assert(decreases_to!(v => av));
                        assert(decreases_to!(av => av@));
                        assert(decreases_to!(av@ => av@[i as int]));
                    }
                    let c = a[i].copy();
                    out.push(c);
                    i = i + 1;
                }
                proof {
                    lemma_list_model(out@);
                    lemma_list_model(a@);
                    assert(json_list_model(out@) =~= json_list_model(a@));
                }
                JsonValue::Array(out)
            },
            JsonValue::Object(es) => {
                proof {
                    lemma_entries_model(es@);
                }
                let mut out: Vec<(String, JsonValue)> = Vec::new();
                let mut i: usize = 0;
                while i < es.len()
                    invariant
                        *self == JsonValue::Object(*es),
                        0 <= i <= es.len(),
                        out.len() == i,
                        forall|k: int|
                            0 <= k < i ==> #[trigger] out@[k].0@ == es@[k].0@ && json_model(
                                out@[k].1,
                            ) == json_model(es@[k].1),
                    decreases es.len() - i,
                {
                    proof {
                        let v = *self;
                        let ev = v->Object_0;
                        assert(ev == *es);
                        assert(decreases_to!(v => ev));
                        assert(decreases_to!(ev => ev@));
                        assert(decreases_to!(ev@ => ev@[i as int]));
                        assert(decreases_to!(ev@[i as int] => ev@[i as int].1));
                    }
                    let c = es[i].1.copy();
                    out.push((es[i].0.clone(), c));
                    i = i + 1;
                }
                proof {
                    lemma_entries_model(out@);
                    lemma_entries_model(es@);
                    assert(json_entries_model(out@) =~= json_entries_model(es@));
                }
                JsonValue::Object(out)
            },
        }
    }
}

impl JsonValue {
    /// Parses a JSON text (see `json_parse`).
    pub fn from_text(text: &str) -> (r: Result<JsonValue, String>)
        ensures
            match r {
                Ok(v) => json_parse(text@) == Ok::<Json, Seq<char>>(v@),
                Err(e) => json_parse(text@) == Err::<Json, Seq<char>>(e@),
            },
    {
        parse_json(text)
    }
}

/// Whether two texts are equal, by `str`'s `==` (`PartialEq::eq`).
/// Claimed of it: true exactly when both have the same characters.
#[verifier::external_body]
pub(crate) fn text_eq(a: &str, b: &str) -> (r: bool)
    ensures
        r == (a@ == b@),
{
    a == b
}

} // verus!
