//! JSON values as text.
//!
//! `serde_json` reads and writes; here its values are taken apart and put
//! together, level by level.

use serde_json::Value;
use vstd::prelude::*;

use crate::binary64::{decoded, Binary64};
use crate::json::{
    float_json, in_key_order, json_models, json_text, lemma_json_push, lemma_member_push, member_models,
    unsigned_view, JsonMember, JsonObject, JsonValue, JsonView,
};
use crate::repr::{plain_float_text, push_plain_float};

verus! {

/// A value of `serde_json`.
#[verifier::external_type_specification]
#[verifier::external_body]
pub struct ExValue(serde_json::Value);

/// Why `serde_json` cannot read a text.
#[verifier::external_type_specification]
#[verifier::external_body]
pub struct ExError(serde_json::Error);

/// What a value of `serde_json` holds.
pub uninterp spec fn held_json(value: serde_json::Value) -> JsonView;

/// The value that `serde_json::from_str` reads from a text, if it is one. It is
/// a function of the text alone.
pub uninterp spec fn read_json(text: Seq<char>) -> Option<JsonView>;

/// One level of a value of `serde_json`. A floating-point number stands by its
/// encoding.
pub enum Level {
    Null,
    Bool(bool),
    Int(i64),
    Unsigned(u64),
    Float(u64),
    Text(String),
    Array(Vec<serde_json::Value>),
    Object(Vec<(String, serde_json::Value)>),
}

/// What values of `serde_json` hold.
pub open spec fn held_values(values: Seq<serde_json::Value>) -> Seq<JsonView> {
    Seq::new(values.len(), |i: int| held_json(values[i]))
}

/// What members of an object of `serde_json` hold.
pub open spec fn held_members(members: Seq<(String, serde_json::Value)>) -> Seq<
    (Seq<char>, JsonView),
> {
    Seq::new(members.len(), |i: int| (members[i].0@, held_json(members[i].1)))
}

/// What a level holds.
pub open spec fn held_level(level: Level) -> JsonView {
    match level {
        Level::Null => JsonView::Null,
        Level::Bool(b) => JsonView::Bool(b),
        Level::Int(i) => JsonView::Int(i as int),
        Level::Unsigned(u) => unsigned_view(u),
        Level::Float(bits) => JsonView::Float(decoded(bits)->0),
        Level::Text(text) => JsonView::Text(text@),
        Level::Array(values) => JsonView::Array(held_values(values@)),
        Level::Object(members) => JsonView::Object(held_members(members@)),
    }
}

/// `serde_json::from_str` into a `serde_json::Value`.
#[verifier::external_body]
fn parse(text: &str) -> (r: Result<serde_json::Value, serde_json::Error>)
    ensures
        match r {
            Ok(value) => read_json(text@) == Some(held_json(value)),
            Err(_) => read_json(text@) is None,
        },
{
    serde_json::from_str(text)
}

/// The text of a `serde_json::Error`. What it says is not described.
#[verifier::external_body]
fn error_text(e: &serde_json::Error) -> (r: String) {
    format!("{e}")
}

/// The variants of `serde_json::Value` and, of a number, `Number::as_i64`,
/// `as_u64` and `as_f64`: the outermost level of a value. A number that is
/// neither kind of integer is a finite floating-point number. The members of an
/// object come in the order of their keys.
#[verifier::external_body]
fn split(value: Value) -> (r: Level)
    ensures
        held_json(value) == held_level(r),
        r matches Level::Float(bits) ==> decoded(bits) is Some,
        r matches Level::Object(members) ==> in_key_order(held_members(members@)),
{
    match value {
        Value::Null => Level::Null,
        Value::Bool(b) => Level::Bool(b),
        Value::Number(n) => match (n.as_i64(), n.as_u64(), n.as_f64()) {
            (Some(i), _, _) => Level::Int(i),
            (_, Some(u), _) => Level::Unsigned(u),
            (_, _, x) => Level::Float(x.map_or(0, |x| x.to_bits())),
        },
        Value::String(text) => Level::Text(text),
        Value::Array(values) => Level::Array(values),
        Value::Object(members) => Level::Object(members.into_iter().collect()),
    }
}

/// The variants of `serde_json::Value`: the value of an outermost level.
/// Floating-point numbers are made by [`float_value`]. An object is filled with
/// its members, which must be in the order of their keys.
#[verifier::external_body]
fn join(level: Level) -> (r: Value)
    requires
        !(level is Float),
        level matches Level::Object(members) ==> in_key_order(held_members(members@)),
    ensures
        held_json(r) == held_level(level),
{
    match level {
        Level::Null | Level::Float(_) => Value::Null,
        Level::Bool(b) => Value::Bool(b),
        Level::Int(i) => Value::from(i),
        Level::Unsigned(u) => Value::from(u),
        Level::Text(text) => Value::String(text),
        Level::Array(values) => Value::Array(values),
        Level::Object(members) => Value::Object(members.into_iter().collect()),
    }
}

/// `serde_json::Number::from_f64` of the number that a decimal text reads as.
/// The standard library reads a decimal as the nearest number, which is the
/// number that the text was written for.
#[verifier::external_body]
fn float_value(text: &str) -> (r: Value)
    ensures
        forall|bits: u64|
            (#[trigger] decoded(bits)) is Some && text@ == plain_float_text(decoded(bits)->0)
                ==> held_json(r) == JsonView::Float(decoded(bits)->0),
{
    text.parse().ok().and_then(serde_json::Number::from_f64).map_or(Value::Null, Value::Number)
}

/// `serde_json::to_string` of a `serde_json::Value`: the value without spaces,
/// with the quotation mark, the backslash and the control characters below
/// U+0020 escaped in texts.
#[verifier::external_body]
fn write(value: &Value) -> (r: String)
    ensures
        r@ == json_text(held_json(*value)),
        held_json(*value) matches JsonView::Float(f) ==> r@ == float_json(f.negative, f.magnitude),
{
    serde_json::to_string(value).unwrap_or_default()
}

/// Values from the last to the first.
fn turned<T>(items: Vec<T>) -> (r: Vec<T>)
    ensures
        r@ == items@.reverse(),
{
    let mut rest = items;
    let ghost all = items@;
    let mut r: Vec<T> = Vec::new();
    while rest.len() > 0
        invariant
            rest@ == all.take(rest@.len() as int),
            r@ == all.skip(rest@.len() as int).reverse(),
            rest@.len() <= all.len(),
        decreases rest@.len(),
    {
        if let Some(item) = rest.pop() {
            r.push(item);
        }
    }
    assert(all.skip(0) =~= all);
    r
}

/// The value of the library for one of `serde_json`.
pub fn from_serde(value: Value) -> (r: JsonValue)
    ensures
        r@ == held_json(value),
    decreases held_json(value),
{
    let ghost held = held_json(value);
    match split(value) {
        Level::Null => JsonValue::Null,
        Level::Bool(b) => JsonValue::Bool(b),
        Level::Int(i) => JsonValue::Int(i),
        Level::Unsigned(u) => JsonValue::Unsigned(u),
        Level::Float(bits) => match Binary64::from_bits(bits) {
            Some(f) => JsonValue::Float(f),
            None => JsonValue::Null,
        },
        Level::Text(text) => JsonValue::Text(text),
        Level::Array(outside) => {
            let ghost all = held_values(outside@);
            let mut rest = turned(outside);
            let ghost queue = rest@;
            let mut values: Vec<JsonValue> = Vec::new();
            assert(json_models(values@) =~= all.take(0));
            while rest.len() > 0
                invariant
                    held == held_json(value),
                    held == JsonView::Array(all),
                    all.len() == queue.len(),
                    forall|i: int|
                        0 <= i < queue.len() ==> held_json(#[trigger] queue[i]) == all[queue.len() - 1 - i],
                    rest@ == queue.take(rest@.len() as int),
                    rest@.len() <= queue.len(),
                    json_models(values@) == all.take(queue.len() - rest@.len()),
                decreases rest@.len(),
            {
                let ghost left = rest@.len() as int;
                if let Some(next) = rest.pop() {
                    assert(next == queue[left - 1]);
                    assert(held_json(next) == all[queue.len() - left]);
                    assert(decreases_to!(held => held->Array_0));
                    assert(decreases_to!(all => all[queue.len() - left]));
                    let value = from_serde(next);
                    proof {
                        lemma_json_push(values@, value);
                        assert(all.take(queue.len() - left + 1) =~= all.take(queue.len() - left).push(
                            all[queue.len() - left],
                        ));
                    }
                    values.push(value);
                }
            }
            assert(all.take(queue.len() as int) =~= all);
            JsonValue::Array(values)
        },
        Level::Object(outside) => {
            let ghost all = held_members(outside@);
            let mut rest = turned(outside);
            let ghost queue = rest@;
            let mut members: Vec<JsonMember> = Vec::new();
            assert(member_models(members@) =~= all.take(0));
            while rest.len() > 0
                invariant
                    held == held_json(value),
                    held == JsonView::Object(all),
                    all.len() == queue.len(),
                    forall|i: int|
                        0 <= i < queue.len() ==> ((#[trigger] queue[i]).0@, held_json(queue[i].1))
                            == all[queue.len() - 1 - i],
                    rest@ == queue.take(rest@.len() as int),
                    rest@.len() <= queue.len(),
                    member_models(members@) == all.take(queue.len() - rest@.len()),
                decreases rest@.len(),
            {
                let ghost left = rest@.len() as int;
                if let Some(next) = rest.pop() {
                    assert(next == queue[left - 1]);
                    assert((next.0@, held_json(next.1)) == all[queue.len() - left]);
                    assert(decreases_to!(held => held->Object_0));
                    assert(decreases_to!(all => all[queue.len() - left]));
                    assert(decreases_to!(all[queue.len() - left] => all[queue.len() - left].1));
                    let member = JsonMember { key: next.0, value: from_serde(next.1) };
                    proof {
                        lemma_member_push(members@, member);
                        assert(all.take(queue.len() - left + 1) =~= all.take(queue.len() - left).push(
                            all[queue.len() - left],
                        ));
                    }
                    members.push(member);
                }
            }
            assert(all.take(queue.len() as int) =~= all);
            JsonValue::Object(JsonObject::from_ordered(members))
        },
    }
}

/// The value of `serde_json` for one of the library.
pub fn to_serde(value: &JsonValue) -> (r: Value)
    ensures
        held_json(r) == value@,
    decreases value@,
{
    match value {
        JsonValue::Null => join(Level::Null),
        JsonValue::Bool(b) => join(Level::Bool(*b)),
        JsonValue::Int(i) => join(Level::Int(*i)),
        JsonValue::Unsigned(u) => join(Level::Unsigned(*u)),
        JsonValue::Float(f) => {
            let mut text = String::new();
            push_plain_float(&mut text, f);
            let bits: u64 = f.to_bits();
            assert(text@ =~= plain_float_text(f@));
            assert(decoded(bits) == Some(f@));
            float_value(text.as_str())
        },
        JsonValue::Text(text) => join(Level::Text(text.clone())),
        JsonValue::Array(values) => {
            let mut outside: Vec<Value> = Vec::new();
            let mut i: usize = 0;
            while i < values.len()
                invariant
                    i <= values@.len(),
                    *value == JsonValue::Array(*values),
                    held_values(outside@) == json_models(values@).take(i as int),
                decreases values@.len() - i,
            {
                proof {
                    assert(json_models(values@)[i as int] == values@[i as int]@);
                    assert(decreases_to!(value@ => value@->Array_0));
                    assert(decreases_to!(json_models(values@) => json_models(values@)[i as int]));
                }
                let next = to_serde(&values[i]);
                proof {
                    assert(held_values(outside@.push(next)) =~= held_values(outside@).push(
                        held_json(next),
                    ));
                    assert(json_models(values@).take(i + 1) =~= json_models(values@).take(i as int).push(
                        values@[i as int]@,
                    ));
                }
                outside.push(next);
                i = i + 1;
            }
            assert(held_values(outside@) =~= json_models(values@));
            join(Level::Array(outside))
        },
        JsonValue::Object(object) => {
            let mut outside: Vec<(String, Value)> = Vec::new();
            let members: usize = object.len();
            let mut i: usize = 0;
            while i < members
                invariant
                    i <= members == object@.len(),
                    in_key_order(object@),
                    *value == JsonValue::Object(*object),
                    held_members(outside@) == object@.take(i as int),
                decreases object@.len() - i,
            {
                proof {
                    assert(decreases_to!(value@ => value@->Object_0));
                    assert(decreases_to!(object@ => object@[i as int]));
                    assert(decreases_to!(object@[i as int] => object@[i as int].1));
                }
                let next = (object.key_at(i).to_owned(), to_serde(object.value_at(i)));
                proof {
                    assert(held_members(outside@.push(next)) =~= held_members(outside@).push(
                        (next.0@, held_json(next.1)),
                    ));
                    assert(object@.take(i + 1) =~= object@.take(i as int).push(object@[i as int]));
                }
                outside.push(next);
                i = i + 1;
            }
            proof {
                assert(held_members(outside@) =~= object@);
            }
            join(Level::Object(outside))
        },
    }
}

/// Reads a JSON text. An error is what the reader says of the text.
pub fn parse_json(text: &str) -> (r: Result<JsonValue, String>)
    ensures
        match r {
            Ok(value) => read_json(text@) == Some(value@),
            Err(_) => read_json(text@) is None,
        },
{
    match parse(text) {
        Ok(value) => Ok(from_serde(value)),
        Err(e) => Err(error_text(&e)),
    }
}

impl JsonValue {
    /// The value as text without spaces.
    pub fn to_string(&self) -> (r: String)
        ensures
            r@ == json_text(self@),
    {
        write(&to_serde(self))
    }

    /// Appends the value as text without spaces.
    pub fn push_text(&self, out: &mut String)
        ensures
            final(out)@ == old(out)@ + json_text(self@),
    {
        out.append(self.to_string().as_str());
    }
}

} // verus!
