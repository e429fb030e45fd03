//! Helpers for tuning the JSON Schemas that `schemars` derives for tool inputs.

use vstd::prelude::*;

verus! {

/// A JSON value of the `serde_json` crate.
#[verifier::external_type_specification]
#[verifier::external_body]
pub struct ExValue(serde_json::Value);

/// A JSON Schema of the `schemars` crate.
#[verifier::external_type_specification]
#[verifier::external_body]
pub struct ExSchema(schemars::Schema);

/// What a JSON value holds. The order of an object's members is left out.
#[verifier::ext_equal]
pub enum Json {
    Null,
    Bool(bool),
    /// A number, as it is written.
    Number(Seq<char>),
    Text(Seq<char>),
    Items(Seq<Json>),
    Members(Map<Seq<char>, Json>),
}

/// What a JSON value holds.
pub uninterp spec fn json_model(v: serde_json::Value) -> Json;

/// What the JSON value of a schema holds.
pub uninterp spec fn schema_model(s: schemars::Schema) -> Json;

/// The member of an object under a key, if there is one.
pub open spec fn member(j: Json, key: Seq<char>) -> Option<Json> {
    match j {
        Json::Members(m) => if m.contains_key(key) {
            Some(m[key])
        } else {
            None
        },
        _ => None,
    }
}

/// `Schema::get`: the member under a key, where the schema is an object.
#[verifier::external_body]
fn schema_get<'a>(schema: &'a schemars::Schema, key: &str) -> (r: Option<&'a serde_json::Value>)
    ensures
        r is Some <==> member(schema_model(*schema), key@) is Some,
        r is Some ==> member(schema_model(*schema), key@) == Some(json_model(*r->0)),
{
    schema.get(key)
}

/// `Schema::remove`: takes the member under a key out of an object.
#[verifier::external_body]
fn schema_remove(schema: &mut schemars::Schema, key: &str)
    ensures
        schema_model(*final(schema)) == (match schema_model(*old(schema)) {
            Json::Members(m) => Json::Members(m.remove(key@)),
            other => other,
        }),
{
    schema.remove(key);
}

/// `Schema::insert` into an object: puts a value under a key, in place of the
/// one that is there.
#[verifier::external_body]
fn schema_insert(schema: &mut schemars::Schema, key: &str, value: serde_json::Value)
    requires
        schema_model(*old(schema)) is Members,
    ensures
        schema_model(*final(schema)) == Json::Members(
            schema_model(*old(schema))->Members_0.insert(key@, json_model(value)),
        ),
{
    schema.insert(key.to_string(), value);
}

/// `Value::as_array`: the items of an array.
#[verifier::external_body]
fn as_array(value: &serde_json::Value) -> (r: Option<&Vec<serde_json::Value>>)
    ensures
        r is Some <==> json_model(*value) is Items,
        r is Some ==> json_model(*value)->Items_0.len() == r->0@.len(),
        r is Some ==> forall|i: int|
            0 <= i < r->0@.len() ==> json_model(#[trigger] r->0@[i]) == json_model(
                *value,
            )->Items_0[i],
{
    value.as_array()
}

/// `Value::get` with a string: the member under a key, where the value is an
/// object.
#[verifier::external_body]
fn value_get<'a>(value: &'a serde_json::Value, key: &str) -> (r: Option<&'a serde_json::Value>)
    ensures
        r is Some <==> member(json_model(*value), key@) is Some,
        r is Some ==> member(json_model(*value), key@) == Some(json_model(*r->0)),
{
    value.get(key)
}

/// `Value::clone`: a value that holds the same.
#[verifier::external_body]
fn copied(value: &serde_json::Value) -> (r: serde_json::Value)
    ensures
        json_model(r) == json_model(*value),
{
    value.clone()
}

/// `Value::String`: a text as a JSON value.
#[verifier::external_body]
fn text_value(s: &str) -> (r: serde_json::Value)
    ensures
        json_model(r) == Json::Text(s@),
{
    serde_json::Value::String(s.to_string())
}

/// The items that a list of JSON values holds.
pub open spec fn models(values: Seq<serde_json::Value>) -> Seq<Json> {
    Seq::new(values.len(), |i: int| json_model(values[i]))
}

/// `Value::Array`: a list of JSON values as one.
#[verifier::external_body]
fn array_value(values: Vec<serde_json::Value>) -> (r: serde_json::Value)
    ensures
        json_model(r) == Json::Items(models(values@)),
{
    serde_json::Value::Array(values)
}

/// The `const` of each branch of a `oneOf`, where there is at least one branch
/// and every one has it.
pub open spec fn const_values(branches: Json) -> Option<Seq<Json>> {
    match branches {
        Json::Items(items) => if items.len() > 0 && forall|i: int|
            0 <= i < items.len() ==> member(#[trigger] items[i], "const"@) is Some {
            Some(Seq::new(items.len(), |i: int| member(items[i], "const"@)->0))
        } else {
            None
        },
        _ => None,
    }
}

/// A schema whose `oneOf` of constants is made an `enum` of strings. Every other
/// schema stays as it is.
pub open spec fn flattened(j: Json) -> Json {
    match (j, member(j, "oneOf"@)) {
        (Json::Members(m), Some(branches)) => match const_values(branches) {
            Some(values) => Json::Members(
                m.remove("oneOf"@).insert("type"@, Json::Text("string"@)).insert(
                    "enum"@,
                    Json::Items(values),
                ),
            ),
            None => j,
        },
        _ => j,
    }
}

/// The `const` of each branch, or `None` where one has none or there is no branch.
fn collect_consts(branches: &serde_json::Value) -> (r: Option<Vec<serde_json::Value>>)
    ensures
        r is Some <==> const_values(json_model(*branches)) is Some,
        r is Some ==> const_values(json_model(*branches)) == Some(models(r->0@)),
{
    let items = match as_array(branches) {
        Some(items) => items,
        None => {
            return None;
        },
    };
    if items.len() == 0 {
        return None;
    }
    let ghost all = json_model(*branches)->Items_0;
    let mut values: Vec<serde_json::Value> = Vec::new();
    let mut i: usize = 0;
    while i < items.len()
        invariant
            i <= items@.len(),
            items@.len() > 0,
            json_model(*branches) == Json::Items(all),
            all.len() == items@.len(),
            forall|j: int| 0 <= j < items@.len() ==> json_model(#[trigger] items@[j]) == all[j],
            values@.len() == i,
            forall|j: int| 0 <= j < i ==> member(#[trigger] all[j], "const"@) is Some,
            forall|j: int|
                0 <= j < i ==> json_model(#[trigger] values@[j]) == member(
                    all[j],
                    "const"@,
                )->0,
        decreases items.len() - i,
    {
        assert(json_model(items@[i as int]) == all[i as int]);
        match value_get(&items[i], "const") {
            Some(v) => values.push(copied(v)),
            None => {
                assert(member(all[i as int], "const"@) is None);
                return None;
            },
        }
        i += 1;
    }
    assert(models(values@) =~= Seq::new(all.len(), |j: int| member(all[j], "const"@)->0));
    Some(values)
}

/// `schemars` transform that collapses a derived `oneOf` of `const` string
/// variants into a compact `{"type":"string","enum":[...]}`.
///
/// `schemars` only emits the `oneOf`/`const` shape for a unit enum so it can
/// attach a per-variant `description` (taken from each variant's `///` doc
/// comment). This keeps those comments for source readers / rustdoc but drops
/// them from the emitted schema in favour of the flat, widely-supported `enum`
/// form: a smaller payload and better client tooling. The type-level description
/// and any sibling keywords are left untouched.
///
/// No-op unless the schema is exactly an all-`const` `oneOf`, so it is safe to
/// attach to any enum and degrades gracefully if `schemars` changes its output.
pub fn flatten_enum(schema: &mut schemars::Schema)
    ensures
        schema_model(*final(schema)) == flattened(schema_model(*old(schema))),
{
    let values = match schema_get(schema, "oneOf") {
        Some(branches) => match collect_consts(branches) {
            Some(values) => values,
            None => {
                return ;
            },
        },
        None => {
            return ;
        },
    };
    schema_remove(schema, "oneOf");
    schema_insert(schema, "type", text_value("string"));
    schema_insert(schema, "enum", array_value(values));
}

// ---- Laws -------------------------------------------------------------------

proof fn lemma_keywords_differ()
    ensures
        "oneOf"@ != "type"@,
        "oneOf"@ != "enum"@,
        "type"@ != "enum"@,
{
    reveal_strlit("oneOf");
    reveal_strlit("type");
    reveal_strlit("enum");
    assert("oneOf"@[0] == 'o');
    assert("type"@[0] == 't');
    assert("enum"@[0] == 'e');
}

/// Flattening twice is flattening once.
pub proof fn flattening_is_idempotent(j: Json)
    ensures
        flattened(flattened(j)) == flattened(j),
{
    lemma_keywords_differ();
}

/// Flattening leaves every keyword but `oneOf`, `type` and `enum` untouched.
pub proof fn flattening_keeps_siblings(j: Json, key: Seq<char>)
    requires
        key != "oneOf"@,
        key != "type"@,
        key != "enum"@,
    ensures
        member(flattened(j), key) == member(j, key),
{
}

/// A flattened `oneOf` keeps its constants, in order, and nothing else of its
/// branches.
pub proof fn flattening_keeps_the_constants(m: Map<Seq<char>, Json>)
    requires
        m.contains_key("oneOf"@),
        const_values(m["oneOf"@]) is Some,
    ensures
        member(flattened(Json::Members(m)), "enum"@) == Some(
            Json::Items(const_values(m["oneOf"@])->0),
        ),
        member(flattened(Json::Members(m)), "type"@) == Some(Json::Text("string"@)),
        member(flattened(Json::Members(m)), "oneOf"@) is None,
{
    lemma_keywords_differ();
}

/// What is flattened and what becomes of it. A `oneOf` with at least one branch, each of
/// which has a `const`, goes, and an `enum` comes in its place that holds the `const` of
/// each branch, in the order of the branches, and a `type` that says `string`.
pub proof fn enums_list_the_consts(m: Map<Seq<char>, Json>, branches: Seq<Json>, i: int)
    requires
        m.contains_key("oneOf"@),
        m["oneOf"@] == Json::Items(branches),
        forall|k: int|
            0 <= k < branches.len() ==> (#[trigger] branches[k]) is Members
                && branches[k]->Members_0.contains_key("const"@),
        0 <= i < branches.len(),
    ensures
        ({
            let after = flattened(Json::Members(m));
            &&& after is Members
            &&& after->Members_0.contains_key("enum"@)
            &&& after->Members_0["enum"@] is Items
            &&& after->Members_0["enum"@]->Items_0.len() == branches.len()
            &&& after->Members_0["enum"@]->Items_0[i] == branches[i]->Members_0["const"@]
            &&& after->Members_0.contains_key("type"@)
            &&& after->Members_0["type"@] == Json::Text(seq!['s', 't', 'r', 'i', 'n', 'g'])
            &&& !after->Members_0.contains_key("oneOf"@)
        }),
{
    lemma_keywords_differ();
    reveal_strlit("string");
    assert("string"@ =~= seq!['s', 't', 'r', 'i', 'n', 'g']);
    assert forall|k: int| 0 <= k < branches.len() implies member(
        #[trigger] branches[k],
        "const"@,
    ) is Some by {
        assert(branches[k]->Members_0.contains_key("const"@));
    }
    assert(const_values(m["oneOf"@]) is Some);
}

/// Every other schema stays as it is: one that is no object or has no `oneOf`, and one whose
/// `oneOf` is no list, is empty, or has a branch that is no object or has no `const`.
pub proof fn other_schemas_stay(j: Json, k: int)
    ensures
        !(j is Members) ==> flattened(j) == j,
        j matches Json::Members(m) ==> {
            &&& !m.contains_key("oneOf"@) ==> flattened(j) == j
            &&& m.contains_key("oneOf"@) && !(m["oneOf"@] is Items) ==> flattened(j) == j
            &&& m.contains_key("oneOf"@) && (m["oneOf"@] matches Json::Items(branches) && (
            branches.len() == 0 || (0 <= k < branches.len() && !(branches[k] is Members
                && branches[k]->Members_0.contains_key("const"@))))) ==> flattened(j) == j
        },
{
    if let Json::Members(m) = j {
        if m.contains_key("oneOf"@) {
            if let Json::Items(branches) = m["oneOf"@] {
                if 0 <= k < branches.len() && !(branches[k] is Members
                    && branches[k]->Members_0.contains_key("const"@)) {
                    assert(member(branches[k], "const"@) is None);
                }
            }
        }
    }
}

} // verus!
