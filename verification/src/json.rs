//! JSON values.

use vstd::prelude::*;
use vstd::utf8::encode_utf8;

use crate::assoc::{
    lemma_key_by_position, lemma_key_found, lemma_key_missing, lemma_key_replaced, lookup,
};
use crate::binary64::{Binary64, FloatValue};
use crate::comparison::{
    bytes_relation, compare_bytes, lemma_bytes_equal, lemma_bytes_reversed,
    lemma_bytes_transitive, Relation,
};
use crate::text::{decimal, hex_digit, int_text};

verus! {

/// A JSON value.
#[derive(Debug)]
pub enum JsonValue {
    Null,
    Bool(bool),
    Int(i64),
    /// An integer that may be above those of 64 bits with a sign.
    Unsigned(u64),
    /// A number with a fraction or an exponent, or beyond the integers.
    Float(Binary64),
    Text(String),
    Array(Vec<JsonValue>),
    Object(JsonObject),
}

/// A member of a JSON object.
#[derive(Debug)]
pub struct JsonMember {
    pub key: String,
    pub value: JsonValue,
}

/// A JSON object: members in the order of their keys, each key once.
#[derive(Debug)]
pub struct JsonObject {
    members: Vec<JsonMember>,
}

/// The model of a JSON value.
#[verifier::ext_equal]
pub enum JsonView {
    Null,
    Bool(bool),
    Int(int),
    /// An integer above those of 64 bits with a sign.
    Unsigned(nat),
    Float(FloatValue),
    Text(Seq<char>),
    Array(Seq<JsonView>),
    Object(Seq<(Seq<char>, JsonView)>),
}

/// The model of an integer without a sign.
pub open spec fn unsigned_view(u: u64) -> JsonView {
    if u <= i64::MAX {
        JsonView::Int(u as int)
    } else {
        JsonView::Unsigned(u as nat)
    }
}

/// The value of a key of an object.
pub open spec fn member_of(value: JsonView, key: Seq<char>) -> Option<JsonView> {
    match value {
        JsonView::Object(entries) => lookup(entries, key),
        _ => None,
    }
}

/// The text of a key of an object.
pub open spec fn text_member(value: JsonView, key: Seq<char>) -> Option<Seq<char>> {
    match member_of(value, key) {
        Some(JsonView::Text(text)) => Some(text),
        _ => None,
    }
}

/// Whether two values are equal. Floating-point numbers are compared by their
/// value, so that the zeros of either sign are equal.
pub open spec fn json_same(a: JsonView, b: JsonView) -> bool
    decreases a,
{
    match (a, b) {
        (JsonView::Float(x), JsonView::Float(y)) => x.units() == y.units(),
        (JsonView::Array(x), JsonView::Array(y)) => x.len() == y.len() && forall|i: int|
            0 <= i < x.len() ==> json_same(#[trigger] x[i], y[i]),
        (JsonView::Object(x), JsonView::Object(y)) => x.len() == y.len() && forall|i: int|
            0 <= i < x.len() ==> (#[trigger] x[i]).0 == y[i].0 && json_same(x[i].1, y[i].1),
        _ => a == b,
    }
}

impl JsonValue {
    pub open spec fn model(self) -> JsonView
        decreases self,
    {
        match self {
            JsonValue::Null => JsonView::Null,
            JsonValue::Bool(b) => JsonView::Bool(b),
            JsonValue::Int(i) => JsonView::Int(i as int),
            JsonValue::Unsigned(u) => unsigned_view(u),
            JsonValue::Float(f) => JsonView::Float(f@),
            JsonValue::Text(text) => JsonView::Text(text@),
            JsonValue::Array(values) => JsonView::Array(json_models(values@)),
            JsonValue::Object(object) => JsonView::Object(object.entries()),
        }
    }
}

impl PartialEq for JsonValue {
    fn eq(&self, other: &JsonValue) -> (r: bool) {
        self.same(other)
    }
}

impl vstd::std_specs::cmp::PartialEqSpecImpl for JsonValue {
    open spec fn obeys_eq_spec() -> bool {
        true
    }

    open spec fn eq_spec(&self, other: &JsonValue) -> bool {
        json_same(self@, other@)
    }
}

impl Eq for JsonValue {

}

impl JsonObject {
    /// The members in order.
    pub closed spec fn entries(self) -> Seq<(Seq<char>, JsonView)>
        decreases self,
    {
        member_models(self.members@)
    }
}

/// The models of values in sequence.
pub open spec fn json_models(values: Seq<JsonValue>) -> Seq<JsonView>
    decreases values,
{
    Seq::new(
        values.len(),
        |i: int|
            if 0 <= i < values.len() {
                values[i].model()
            } else {
                JsonView::Null
            },
    )
}

/// The models of members in sequence.
pub open spec fn member_models(members: Seq<JsonMember>) -> Seq<(Seq<char>, JsonView)>
    decreases members,
{
    Seq::new(
        members.len(),
        |i: int|
            if 0 <= i < members.len() {
                (members[i].key@, members[i].value.model())
            } else {
                (seq![], JsonView::Null)
            },
    )
}

impl View for JsonValue {
    type V = JsonView;

    open spec fn view(&self) -> JsonView {
        self.model()
    }
}

impl View for JsonObject {
    type V = Seq<(Seq<char>, JsonView)>;

    open spec fn view(&self) -> Seq<(Seq<char>, JsonView)> {
        self.entries()
    }
}

pub proof fn lemma_json_push(values: Seq<JsonValue>, value: JsonValue)
    ensures
        json_models(values.push(value)) == json_models(values).push(value@),
{
    let longer = values.push(value);
    assert forall|i: int| 0 <= i < longer.len() implies json_models(longer)[i] == json_models(
        values,
    ).push(value@)[i] by {
        assert(json_models(longer)[i] == longer[i]@);
        if i < values.len() {
            assert(json_models(values)[i] == values[i]@);
        }
    }
    assert(json_models(longer) =~= json_models(values).push(value@));
}

pub proof fn lemma_member_index(members: Seq<JsonMember>, i: int)
    requires
        0 <= i < members.len(),
    ensures
        member_models(members)[i] == (members[i].key@, members[i].value@),
{
}

/// Inserting a member inserts its model.
proof fn lemma_member_insert(members: Seq<JsonMember>, at: int, member: JsonMember)
    requires
        0 <= at <= members.len(),
    ensures
        member_models(members.insert(at, member)) == member_models(members).insert(
            at,
            (member.key@, member.value@),
        ),
{
    let longer = members.insert(at, member);
    let expected = member_models(members).insert(at, (member.key@, member.value@));
    assert forall|i: int| 0 <= i < longer.len() implies member_models(longer)[i] == expected[i] by {
        lemma_member_index(longer, i);
        if i < at {
            lemma_member_index(members, i);
        } else if i > at {
            lemma_member_index(members, i - 1);
        }
    }
    assert(member_models(longer) =~= expected);
}

pub proof fn lemma_member_push(members: Seq<JsonMember>, member: JsonMember)
    ensures
        member_models(members.push(member)) == member_models(members).push(
            (member.key@, member.value@),
        ),
{
    let at = members.len() as int;
    lemma_member_insert(members, at, member);
    assert(members.insert(at, member) =~= members.push(member));
    assert(member_models(members).insert(at, (member.key@, member.value@)) =~= member_models(
        members,
    ).push((member.key@, member.value@)));
}

proof fn lemma_member_update(members: Seq<JsonMember>, at: int, member: JsonMember)
    requires
        0 <= at < members.len(),
    ensures
        member_models(members.update(at, member)) == member_models(members).update(
            at,
            (member.key@, member.value@),
        ),
{
    let changed = members.update(at, member);
    let expected = member_models(members).update(at, (member.key@, member.value@));
    assert forall|i: int| 0 <= i < changed.len() implies member_models(changed)[i] == expected[i] by {
        lemma_member_index(changed, i);
        lemma_member_index(members, i);
    }
    assert(member_models(changed) =~= expected);
}

/// Whether a key comes before another: by their bytes in UTF-8.
pub open spec fn key_before(a: Seq<char>, b: Seq<char>) -> bool {
    bytes_relation(encode_utf8(a), encode_utf8(b)) == Relation::Less
}

/// Whether members stand in the order of their keys, each key once.
pub open spec fn in_key_order(entries: Seq<(Seq<char>, JsonView)>) -> bool {
    forall|i: int, j: int|
        0 <= i < j < entries.len() ==> key_before(#[trigger] entries[i].0, #[trigger] entries[j].0)
}

proof fn lemma_same_bytes_same_text(a: Seq<char>, b: Seq<char>)
    ensures
        (bytes_relation(encode_utf8(a), encode_utf8(b)) == Relation::Equal) == (a == b),
{
    lemma_bytes_equal(encode_utf8(a), encode_utf8(b));
    vstd::utf8::encode_utf8_decode_utf8(a);
    vstd::utf8::encode_utf8_decode_utf8(b);
}

impl JsonObject {
    #[verifier::type_invariant]
    spec fn ordered(self) -> bool {
        in_key_order(member_models(self.members@))
    }

    /// An object without members.
    pub fn new() -> (r: JsonObject)
        ensures
            r@ == Seq::<(Seq<char>, JsonView)>::empty(),
    {
        proof {
            assert(member_models(Seq::<JsonMember>::empty()) =~= seq![]);
        }
        JsonObject { members: Vec::new() }
    }

    /// The object of members that stand in the order of their keys.
    pub(crate) fn from_ordered(members: Vec<JsonMember>) -> (r: JsonObject)
        requires
            in_key_order(member_models(members@)),
        ensures
            r@ == member_models(members@),
    {
        JsonObject { members }
    }

    /// The number of members.
    pub fn len(&self) -> (r: usize)
        ensures
            r == self@.len(),
            in_key_order(self@),
    {
        proof {
            use_type_invariant(self);
        }
        self.members.len()
    }

    /// The key of a member.
    pub fn key_at(&self, i: usize) -> (r: &str)
        requires
            i < self@.len(),
        ensures
            r@ == self@[i as int].0,
    {
        proof {
            lemma_member_index(self.members@, i as int);
        }
        self.members[i].key.as_str()
    }

    /// The value of a member.
    pub fn value_at(&self, i: usize) -> (r: &JsonValue)
        requires
            i < self@.len(),
        ensures
            r@ == self@[i as int].1,
    {
        proof {
            lemma_member_index(self.members@, i as int);
        }
        &self.members[i].value
    }

    /// The value of a key.
    pub fn get(&self, key: &str) -> (r: Option<&JsonValue>)
        ensures
            match r {
                Some(v) => lookup(self@, key@) == Some(v@),
                None => lookup(self@, key@) is None,
            },
    {
        let mut i: usize = 0;
        while i < self.members.len()
            invariant
                i <= self.members@.len(),
                self@ == member_models(self.members@),
                forall|j: int| 0 <= j < i ==> #[trigger] self@[j].0 != key@,
            decreases self.members@.len() - i,
        {
            proof {
                lemma_member_index(self.members@, i as int);
                lemma_same_bytes_same_text(self@[i as int].0, key@);
            }
            match compare_bytes(self.members[i].key.as_str().as_bytes(), key.as_bytes()) {
                Relation::Equal => {
                    proof {
                        lemma_key_found(self@, key@, i as int);
                    }
                    return Some(&self.members[i].value);
                },
                _ => {},
            }
            i = i + 1;
        }
        proof {
            lemma_key_missing(self@, key@);
        }
        None
    }

    /// The first member whose key does not come before `key`, and whether it
    /// has that key.
    fn place(&self, key: &str) -> (r: (usize, bool))
        ensures
            r.0 <= self@.len(),
            forall|j: int| 0 <= j < r.0 ==> key_before(#[trigger] self@[j].0, key@),
            r.1 ==> r.0 < self@.len() && self@[r.0 as int].0 == key@,
            !r.1 && r.0 < self@.len() ==> key_before(key@, self@[r.0 as int].0),
    {
        let mut i: usize = 0;
        while i < self.members.len()
            invariant
                i <= self.members@.len(),
                self@ == member_models(self.members@),
                forall|j: int| 0 <= j < i ==> key_before(#[trigger] self@[j].0, key@),
            decreases self.members@.len() - i,
        {
            proof {
                lemma_member_index(self.members@, i as int);
                lemma_same_bytes_same_text(self@[i as int].0, key@);
                lemma_bytes_reversed(encode_utf8(self@[i as int].0), encode_utf8(key@));
            }
            match compare_bytes(self.members[i].key.as_str().as_bytes(), key.as_bytes()) {
                Relation::Less => {},
                Relation::Equal => return (i, true),
                Relation::Greater => return (i, false),
            }
            i = i + 1;
        }
        (i, false)
    }

    /// Sets the value of a key. The other members stay as they are.
    pub fn insert(&mut self, key: String, value: JsonValue)
        ensures
            in_key_order(old(self)@),
            in_key_order(final(self)@),
            forall|k: Seq<char>| #[trigger]
                lookup(final(self)@, k) == (if k == key@ {
                    Some(value@)
                } else {
                    lookup(old(self)@, k)
                }),
    {
        proof {
            use_type_invariant(&*self);
        }
        let ghost before = self@;
        let (at, found) = self.place(key.as_str());
        let mut taken = JsonObject::new();
        std::mem::swap(&mut taken, self);
        let mut members = taken.members;
        let member = JsonMember { key, value };
        proof {
            if found {
                lemma_replaced(before, at as int, key@, value@);
                lemma_member_update(members@, at as int, member);
            } else {
                lemma_inserted(before, at as int, key@, value@);
                lemma_member_insert(members@, at as int, member);
            }
        }
        if found {
            members.set(at, member);
        } else {
            members.insert(at, member);
        }
        *self = JsonObject { members };
    }
}

proof fn lemma_key_before_differs(a: Seq<char>, b: Seq<char>)
    requires
        key_before(a, b),
    ensures
        a != b,
{
    lemma_same_bytes_same_text(a, b);
}

/// Replacing the value of a member.
proof fn lemma_replaced(
    entries: Seq<(Seq<char>, JsonView)>,
    at: int,
    key: Seq<char>,
    value: JsonView,
)
    requires
        in_key_order(entries),
        0 <= at < entries.len(),
        entries[at].0 == key,
    ensures
        in_key_order(entries.update(at, (key, value))),
        forall|k: Seq<char>| #[trigger]
            lookup(entries.update(at, (key, value)), k) == (if k == key {
                Some(value)
            } else {
                lookup(entries, k)
            }),
{
    let changed = entries.update(at, (key, value));
    assert forall|j: int| 0 <= j < at implies #[trigger] entries[j].0 != key by {
        assert(key_before(entries[j].0, entries[at].0));
        lemma_key_before_differs(entries[j].0, entries[at].0);
    }
    lemma_key_replaced(entries, at, key, value);
    assert forall|i: int, j: int| 0 <= i < j < changed.len() implies key_before(
        #[trigger] changed[i].0,
        #[trigger] changed[j].0,
    ) by {
        assert(changed[i].0 == entries[i].0);
        assert(changed[j].0 == entries[j].0);
    }
}

/// Inserting a member at its place.
proof fn lemma_inserted(
    entries: Seq<(Seq<char>, JsonView)>,
    at: int,
    key: Seq<char>,
    value: JsonView,
)
    requires
        in_key_order(entries),
        0 <= at <= entries.len(),
        forall|j: int| 0 <= j < at ==> key_before(#[trigger] entries[j].0, key),
        at < entries.len() ==> key_before(key, entries[at].0),
    ensures
        in_key_order(entries.insert(at, (key, value))),
        forall|k: Seq<char>| #[trigger]
            lookup(entries.insert(at, (key, value)), k) == (if k == key {
                Some(value)
            } else {
                lookup(entries, k)
            }),
{
    let longer = entries.insert(at, (key, value));
    assert forall|j: int| at <= j < entries.len() implies key_before(key, #[trigger] entries[j].0) by {
        if j > at {
            assert(key_before(entries[at].0, entries[j].0));
            lemma_bytes_transitive(
                encode_utf8(key),
                encode_utf8(entries[at].0),
                encode_utf8(entries[j].0),
            );
        }
    }
    assert forall|i: int, j: int| 0 <= i < j < longer.len() implies key_before(
        #[trigger] longer[i].0,
        #[trigger] longer[j].0,
    ) by {
        let a = if i < at {
            i
        } else {
            i - 1
        };
        let b = if j < at {
            j
        } else {
            j - 1
        };
        if i != at {
            assert(longer[i] == entries[a]);
        }
        if j != at {
            assert(longer[j] == entries[b]);
        }
        if i != at && j != at {
            assert(key_before(entries[a].0, entries[b].0));
        }
    }
    assert forall|k: Seq<char>| #[trigger]
        lookup(longer, k) == (if k == key {
            Some(value)
        } else {
            lookup(entries, k)
        }) by {
        if k == key {
            assert forall|j: int| 0 <= j < at implies #[trigger] longer[j].0 != k by {
                assert(longer[j] == entries[j]);
                lemma_key_before_differs(entries[j].0, key);
            }
            lemma_key_found(longer, k, at);
        } else {
            lemma_key_by_position(entries, k);
            match lookup(entries, k) {
                Some(v) => {
                    let i = choose|i: int|
                        0 <= i < entries.len() && (#[trigger] entries[i]) == (k, v) && forall|j: int|
                            0 <= j < i ==> (#[trigger] entries[j]).0 != k;
                    let to = if i < at {
                        i
                    } else {
                        i + 1
                    };
                    assert(longer[to] == entries[i]);
                    assert forall|j: int| 0 <= j < to implies #[trigger] longer[j].0 != k by {
                        if j < at {
                            assert(longer[j] == entries[j]);
                            assert(entries[j].0 != k);
                        } else if j > at {
                            assert(longer[j] == entries[j - 1]);
                            assert(entries[j - 1].0 != k);
                        }
                    }
                    lemma_key_found(longer, k, to);
                },
                None => {
                    assert forall|j: int| 0 <= j < longer.len() implies #[trigger] longer[j].0 != k by {
                        if j < at {
                            assert(longer[j] == entries[j]);
                            assert(entries[j].0 != k);
                        } else if j > at {
                            assert(longer[j] == entries[j - 1]);
                            assert(entries[j - 1].0 != k);
                        }
                    }
                    lemma_key_missing(longer, k);
                },
            }
        }
    }
}

impl Clone for JsonValue {
    fn clone(&self) -> (r: JsonValue)
        ensures
            r@ == self@,
        decreases self,
    {
        match self {
            JsonValue::Null => JsonValue::Null,
            JsonValue::Bool(b) => JsonValue::Bool(*b),
            JsonValue::Int(i) => JsonValue::Int(*i),
            JsonValue::Unsigned(u) => JsonValue::Unsigned(*u),
            JsonValue::Float(f) => JsonValue::Float(*f),
            JsonValue::Text(text) => JsonValue::Text(text.clone()),
            JsonValue::Array(values) => {
                let mut copy: Vec<JsonValue> = Vec::new();
                let mut i: usize = 0;
                proof {
                    assert(json_models(copy@) =~= json_models(values@).take(0));
                }
                while i < values.len()
                    invariant
                        i <= values@.len(),
                        json_models(copy@) == json_models(values@).take(i as int),
                        self is Array,
                        self->Array_0 == *values,
                    decreases values@.len() - i,
                {
                    let value = values[i].clone();
                    proof {
                        lemma_json_push(copy@, value);
                        assert(json_models(values@)[i as int] == values@[i as int]@);
                    }
                    copy.push(value);
                    i = i + 1;
                }
                proof {
                    assert(json_models(copy@) =~= json_models(values@));
                }
                JsonValue::Array(copy)
            },
            JsonValue::Object(object) => JsonValue::Object(object.clone()),
        }
    }
}

impl Clone for JsonObject {
    fn clone(&self) -> (r: JsonObject)
        ensures
            r@ == self@,
        decreases self,
    {
        proof {
            use_type_invariant(self);
        }
        let mut copy: Vec<JsonMember> = Vec::new();
        let mut i: usize = 0;
        proof {
            assert(member_models(copy@) =~= member_models(self.members@).take(0));
        }
        while i < self.members.len()
            invariant
                i <= self.members@.len(),
                copy@.len() == i,
                member_models(copy@) == member_models(self.members@).take(i as int),
            decreases self.members@.len() - i,
        {
            let member = JsonMember {
                key: self.members[i].key.clone(),
                value: self.members[i].value.clone(),
            };
            proof {
                lemma_member_insert(copy@, copy@.len() as int, member);
                assert(copy@.insert(copy@.len() as int, member) =~= copy@.push(member));
                lemma_member_index(self.members@, i as int);
                assert(member_models(self.members@).take(i + 1) =~= member_models(
                    self.members@,
                ).take(i as int).insert(i as int, (member.key@, member.value@)));
            }
            copy.push(member);
            i = i + 1;
        }
        proof {
            assert(member_models(copy@) =~= member_models(self.members@));
        }
        JsonObject { members: copy }
    }
}

impl JsonValue {
    /// Whether two values are equal.
    pub fn same(&self, other: &JsonValue) -> (r: bool)
        ensures
            r == json_same(self@, other@),
        decreases self,
    {
        match (self, other) {
            (JsonValue::Null, JsonValue::Null) => true,
            (JsonValue::Bool(a), JsonValue::Bool(b)) => *a == *b,
            (JsonValue::Int(a), JsonValue::Int(b)) => *a == *b,
            (JsonValue::Unsigned(a), JsonValue::Unsigned(b)) => *a == *b,
            (JsonValue::Int(a), JsonValue::Unsigned(b)) => *a >= 0 && *a as u64 == *b,
            (JsonValue::Unsigned(a), JsonValue::Int(b)) => *b >= 0 && *a == *b as u64,
            (JsonValue::Float(a), JsonValue::Float(b)) => a.equals(b),
            (JsonValue::Text(a), JsonValue::Text(b)) => a.eq(b),
            (JsonValue::Array(a), JsonValue::Array(b)) => {
                if a.len() != b.len() {
                    assert(json_models(a@).len() != json_models(b@).len());
                    return false;
                }
                let mut i: usize = 0;
                while i < a.len()
                    invariant
                        i <= a@.len(),
                        a@.len() == b@.len(),
                        self is Array,
                        self->Array_0 == *a,
                        other is Array,
                        other->Array_0 == *b,
                        forall|j: int|
                            0 <= j < i ==> json_same(#[trigger] json_models(a@)[j], json_models(b@)[j]),
                    decreases a@.len() - i,
                {
                    assert(json_models(a@)[i as int] == a@[i as int]@);
                    assert(json_models(b@)[i as int] == b@[i as int]@);
                    if !a[i].same(&b[i]) {
                        return false;
                    }
                    i = i + 1;
                }
                assert(json_models(a@).len() == json_models(b@).len());
                true
            },
            (JsonValue::Object(a), JsonValue::Object(b)) => a.same(b),
            _ => false,
        }
    }

    /// The value of a key of an object.
    pub fn get(&self, key: &str) -> (r: Option<&JsonValue>)
        ensures
            match r {
                Some(v) => member_of(self@, key@) == Some(v@),
                None => member_of(self@, key@) is None,
            },
    {
        match self {
            JsonValue::Object(object) => object.get(key),
            _ => None,
        }
    }

    /// The value as an integer.
    pub fn as_i64(&self) -> (r: Option<i64>)
        ensures
            match r {
                Some(i) => self@ == JsonView::Int(i as int),
                None => !(self@ is Int),
            },
    {
        match self {
            JsonValue::Int(i) => Some(*i),
            JsonValue::Unsigned(u) => if *u <= 0x7fff_ffff_ffff_ffff {
                Some(*u as i64)
            } else {
                None
            },
            _ => None,
        }
    }

    /// The value as a text.
    pub fn as_str(&self) -> (r: Option<&str>)
        ensures
            match r {
                Some(text) => self@ == JsonView::Text(text@),
                None => !(self@ is Text),
            },
    {
        match self {
            JsonValue::Text(text) => Some(text.as_str()),
            _ => None,
        }
    }

    /// The integer of a key of an object.
    pub fn get_i64(&self, key: &str) -> (r: Option<i64>)
        ensures
            match r {
                Some(i) => member_of(self@, key@) == Some(JsonView::Int(i as int)),
                None => !(member_of(self@, key@) matches Some(JsonView::Int(_))),
            },
    {
        match self.get(key) {
            Some(v) => v.as_i64(),
            None => None,
        }
    }

    /// The text of a key of an object.
    pub fn get_str(&self, key: &str) -> (r: Option<&str>)
        ensures
            match r {
                Some(text) => text_member(self@, key@) == Some(text@),
                None => text_member(self@, key@) is None,
            },
    {
        match self.get(key) {
            Some(v) => v.as_str(),
            None => None,
        }
    }
}

impl JsonObject {
    /// Whether two objects have equal members.
    pub fn same(&self, other: &JsonObject) -> (r: bool)
        ensures
            r == json_same(JsonView::Object(self@), JsonView::Object(other@)),
        decreases self,
    {
        if self.members.len() != other.members.len() {
            assert(self@.len() != other@.len());
            return false;
        }
        let mut i: usize = 0;
        while i < self.members.len()
            invariant
                i <= self.members@.len(),
                self.members@.len() == other.members@.len(),
                forall|j: int|
                    0 <= j < i ==> (#[trigger] self@[j]).0 == other@[j].0 && json_same(
                        self@[j].1,
                        other@[j].1,
                    ),
            decreases self.members@.len() - i,
        {
            proof {
                lemma_member_index(self.members@, i as int);
                lemma_member_index(other.members@, i as int);
            }
            if !self.members[i].key.eq(&other.members[i].key) || !self.members[i].value.same(
                &other.members[i].value,
            ) {
                return false;
            }
            i = i + 1;
        }
        true
    }
}

/// The escaped form of a character in a JSON string.
pub open spec fn escaped(c: char) -> Seq<char> {
    if c == '"' {
        seq!['\\', '"']
    } else if c == '\\' {
        seq!['\\', '\\']
    } else if c == '\n' {
        seq!['\\', 'n']
    } else if c == '\r' {
        seq!['\\', 'r']
    } else if c == '\t' {
        seq!['\\', 't']
    } else if c as u32 == 8 {
        seq!['\\', 'b']
    } else if c as u32 == 12 {
        seq!['\\', 'f']
    } else if (c as u32) < 32 {
        seq!['\\', 'u', '0', '0', hex_digit(c as nat / 16), hex_digit(c as nat % 16)]
    } else {
        seq![c]
    }
}

/// The escaped form of a text.
pub open spec fn escaped_text(text: Seq<char>) -> Seq<char>
    decreases text.len(),
{
    if text.len() == 0 {
        seq![]
    } else {
        escaped_text(text.drop_last()) + escaped(text.last())
    }
}

/// A text as a JSON string.
pub open spec fn quoted(text: Seq<char>) -> Seq<char> {
    seq!['"'] + escaped_text(text) + seq!['"']
}

/// The text that `serde_json::to_string` gives a finite floating-point number, a
/// function of the number alone.
pub uninterp spec fn float_json(negative: bool, magnitude: nat) -> Seq<char>;

/// A JSON value as text without spaces.
pub open spec fn json_text(value: JsonView) -> Seq<char>
    decreases value,
{
    match value {
        JsonView::Null => "null"@,
        JsonView::Bool(b) => if b {
            "true"@
        } else {
            "false"@
        },
        JsonView::Int(i) => int_text(i),
        JsonView::Unsigned(u) => decimal(u),
        JsonView::Float(f) => float_json(f.negative, f.magnitude),
        JsonView::Text(text) => quoted(text),
        JsonView::Array(values) => seq!['['] + values_text(values) + seq![']'],
        JsonView::Object(entries) => seq!['{'] + entries_text(entries) + seq!['}'],
    }
}

/// JSON values joined by commas.
pub open spec fn values_text(values: Seq<JsonView>) -> Seq<char>
    decreases values,
{
    if values.len() == 0 {
        seq![]
    } else {
        let last = json_text(values.last());
        if values.len() == 1 {
            last
        } else {
            values_text(values.drop_last()).push(',') + last
        }
    }
}

/// JSON members joined by commas.
pub open spec fn entries_text(entries: Seq<(Seq<char>, JsonView)>) -> Seq<char>
    decreases entries,
{
    if entries.len() == 0 {
        seq![]
    } else {
        let last = quoted(entries.last().0).push(':') + json_text(entries.last().1);
        if entries.len() == 1 {
            last
        } else {
            entries_text(entries.drop_last()).push(',') + last
        }
    }
}

/// Members in the order of their keys are determined by the values of the keys.
pub proof fn ordered_members_are_determined(
    a: Seq<(Seq<char>, JsonView)>,
    b: Seq<(Seq<char>, JsonView)>,
)
    requires
        in_key_order(a),
        in_key_order(b),
        forall|k: Seq<char>| #[trigger] lookup(a, k) == lookup(b, k),
    ensures
        a == b,
    decreases a.len(),
{
    if a.len() == 0 {
        if b.len() > 0 {
            assert(lookup(a, b[0].0) == lookup(b, b[0].0));
        }
        assert(a =~= b);
    } else if b.len() == 0 {
        assert(lookup(a, a[0].0) == lookup(b, a[0].0));
    } else {
        lemma_first_key_is_least(a, b);
        lemma_first_key_is_least(b, a);
        let (x, y) = (a[0].0, b[0].0);
        lemma_bytes_reversed(encode_utf8(x), encode_utf8(y));
        assert(x == y);
        assert(lookup(a, x) == lookup(b, x));
        let (p, q) = (a.skip(1), b.skip(1));
        assert(in_key_order(p)) by {
            assert forall|i: int, j: int| 0 <= i < j < p.len() implies key_before(
                #[trigger] p[i].0,
                #[trigger] p[j].0,
            ) by {
                assert(key_before(a[i + 1].0, a[j + 1].0));
            }
        }
        assert(in_key_order(q)) by {
            assert forall|i: int, j: int| 0 <= i < j < q.len() implies key_before(
                #[trigger] q[i].0,
                #[trigger] q[j].0,
            ) by {
                assert(key_before(b[i + 1].0, b[j + 1].0));
            }
        }
        assert forall|k: Seq<char>| #[trigger] lookup(p, k) == lookup(q, k) by {
            assert(lookup(a, k) == lookup(b, k));
            if k == x {
                lemma_first_key_is_gone(a);
                lemma_first_key_is_gone(b);
            }
        }
        ordered_members_are_determined(p, q);
        assert(a =~= seq![a[0]] + p);
        assert(b =~= seq![b[0]] + q);
    }
}

/// A key whose first character comes first, of the ASCII characters, comes
/// first.
pub proof fn lemma_first_characters_decide(a: Seq<char>, b: Seq<char>)
    requires
        a.len() > 0,
        b.len() > 0,
        (a[0] as u32) < (b[0] as u32) < 0x80,
    ensures
        key_before(a, b),
{
    let (x, y) = (a[0] as u32, b[0] as u32);
    assert((x & 0x7f) as u8 == x as u8) by (bit_vector)
        requires
            x < 0x80,
    ;
    assert((y & 0x7f) as u8 == y as u8) by (bit_vector)
        requires
            y < 0x80,
    ;
    assert(encode_utf8(a)[0] == x as u8);
    assert(encode_utf8(b)[0] == y as u8);
}

/// The first key of ordered members stands nowhere else.
proof fn lemma_first_key_is_gone(entries: Seq<(Seq<char>, JsonView)>)
    requires
        in_key_order(entries),
        entries.len() > 0,
    ensures
        lookup(entries.skip(1), entries[0].0) is None,
{
    let rest = entries.skip(1);
    assert forall|j: int| 0 <= j < rest.len() implies #[trigger] rest[j].0 != entries[0].0 by {
        assert(key_before(entries[0].0, entries[j + 1].0));
        lemma_key_before_differs(entries[0].0, entries[j + 1].0);
    }
    lemma_key_missing(rest, entries[0].0);
}

/// A key that other ordered members have as well does not come before their
/// first.
proof fn lemma_first_key_is_least(
    a: Seq<(Seq<char>, JsonView)>,
    b: Seq<(Seq<char>, JsonView)>,
)
    requires
        a.len() > 0,
        b.len() > 0,
        in_key_order(b),
        lookup(b, a[0].0) == lookup(a, a[0].0),
    ensures
        a[0].0 == b[0].0 || key_before(b[0].0, a[0].0),
{
    lemma_key_by_position(b, a[0].0);
    let v = lookup(a, a[0].0)->0;
    let i = choose|i: int|
        0 <= i < b.len() && (#[trigger] b[i]) == (a[0].0, v) && forall|j: int|
            0 <= j < i ==> (#[trigger] b[j]).0 != a[0].0;
    if i > 0 {
        assert(key_before(b[0].0, b[i].0));
    }
}

/// Every value equals itself.
pub proof fn json_equality_is_reflexive(a: JsonView)
    ensures
        json_same(a, a),
    decreases a,
{
    match a {
        JsonView::Array(x) => {
            assert forall|i: int| 0 <= i < x.len() implies json_same(#[trigger] x[i], x[i]) by {
                json_equality_is_reflexive(x[i]);
            }
        },
        JsonView::Object(x) => {
            assert forall|i: int| 0 <= i < x.len() implies json_same((#[trigger] x[i]).1, x[i].1) by {
                json_equality_is_reflexive(x[i].1);
            }
        },
        _ => {},
    }
}

/// Equality does not depend on which value comes first.
pub proof fn json_equality_is_symmetric(a: JsonView, b: JsonView)
    ensures
        json_same(a, b) == json_same(b, a),
    decreases a,
{
    match (a, b) {
        (JsonView::Array(x), JsonView::Array(y)) => {
            if x.len() == y.len() {
                assert forall|i: int| 0 <= i < x.len() implies json_same(x[i], y[i]) == json_same(
                    y[i],
                    x[i],
                ) by {
                    json_equality_is_symmetric(x[i], y[i]);
                }
            }
        },
        (JsonView::Object(x), JsonView::Object(y)) => {
            if x.len() == y.len() {
                assert forall|i: int| 0 <= i < x.len() implies json_same(x[i].1, y[i].1)
                    == json_same(y[i].1, x[i].1) by {
                    json_equality_is_symmetric(x[i].1, y[i].1);
                }
            }
        },
        _ => {},
    }
}

} // verus!
