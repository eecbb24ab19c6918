//! An owned model of semi-structured (JSON-like) data.
//!
//! Source transcripts arrive as JSON. The library holds such data in
//! [`JsonValue`], whose mathematical counterpart is [`JsonV`]: strings
//! become sequences of characters, arrays become sequences, and objects
//! become sequences of key/value pairs in source order. Numbers keep
//! their decimal text, so no floating point is needed anywhere in the
//! library; the timestamp logic reads the text directly.

use vstd::prelude::*;

verus! {

broadcast use vstd::std_specs::vec::axiom_vec_index_decreases;

/// One member of a JSON object: a key and its value.
#[derive(Debug)]
pub struct JsonMember {
    pub key: String,
    pub value: JsonValue,
}

/// An owned JSON-like value. Numbers carry their decimal text.
#[derive(Debug)]
pub enum JsonValue {
    Null,
    Bool(bool),
    Num(String),
    Str(String),
    Arr(Vec<JsonValue>),
    Obj(Vec<JsonMember>),
}

/// The mathematical shape of a [`JsonValue`].
pub enum JsonV {
    Null,
    Bool(bool),
    Num(Seq<char>),
    Str(Seq<char>),
    Arr(Seq<JsonV>),
    Obj(Seq<(Seq<char>, JsonV)>),
}

pub open spec fn jv_of(v: JsonValue) -> JsonV
    decreases v, 0int,
{
    match v {
        JsonValue::Null => JsonV::Null,
        JsonValue::Bool(b) => JsonV::Bool(b),
        JsonValue::Num(s) => JsonV::Num(s@),
        JsonValue::Str(s) => JsonV::Str(s@),
        JsonValue::Arr(items) => JsonV::Arr(jv_of_elems(items, 0)),
        JsonValue::Obj(members) => JsonV::Obj(jv_of_members(members, 0)),
    }
}

pub open spec fn jv_of_elems(items: Vec<JsonValue>, i: int) -> Seq<JsonV>
    decreases items, items.len() - i,
{
    if i < 0 || i >= items.len() {
        Seq::empty()
    } else {
        seq![jv_of(items[i])] + jv_of_elems(items, i + 1)
    }
}

pub open spec fn jv_of_members(members: Vec<JsonMember>, i: int) -> Seq<(Seq<char>, JsonV)>
    decreases members, members.len() - i,
{
    if i < 0 || i >= members.len() {
        Seq::empty()
    } else {
        seq![(members[i].key@, jv_of(members[i].value))] + jv_of_members(members, i + 1)
    }
}

impl View for JsonValue {
    type V = JsonV;

    open spec fn view(&self) -> JsonV {
        jv_of(*self)
    }
}

/// The views of a sequence of values, element by element.
pub open spec fn elems_view(items: Seq<JsonValue>) -> Seq<JsonV> {
    items.map_values(|x: JsonValue| jv_of(x))
}

/// The views of a sequence of object members, member by member.
pub open spec fn members_view(ms: Seq<JsonMember>) -> Seq<(Seq<char>, JsonV)> {
    ms.map_values(|m: JsonMember| (m.key@, jv_of(m.value)))
}

/// The element views of an array are exactly the views of its elements.
pub proof fn lemma_jv_of_elems(items: Vec<JsonValue>, i: int)
    requires
        0 <= i <= items.len(),
    ensures
        jv_of_elems(items, i) =~= Seq::new((items.len() - i) as nat, |k: int| jv_of(items[k + i])),
    decreases items.len() - i,
{
    if i < items.len() {
        lemma_jv_of_elems(items, i + 1);
    }
}

/// The member views of an object are exactly the views of its members.
pub proof fn lemma_jv_of_members(members: Vec<JsonMember>, i: int)
    ensures
        0 <= i <= members.len() ==> jv_of_members(members, i) =~= Seq::new(
            (members.len() - i) as nat,
            |k: int| (members[k + i].key@, jv_of(members[k + i].value)),
        ),
    decreases members.len() - i,
{
    if 0 <= i < members.len() {
        lemma_jv_of_members(members, i + 1);
    }
}

/// An array's view is built from its elements' views.
pub proof fn lemma_arr_view(items: Vec<JsonValue>)
    ensures
        jv_of(JsonValue::Arr(items)) == JsonV::Arr(elems_view(items@)),
{
    lemma_jv_of_elems(items, 0);
    assert(jv_of_elems(items, 0) =~= elems_view(items@));
}

/// An object's view is built from its members' views.
pub proof fn lemma_obj_view(members: Vec<JsonMember>)
    ensures
        jv_of(JsonValue::Obj(members)) == JsonV::Obj(members_view(members@)),
{
    lemma_jv_of_members(members, 0);
    assert(jv_of_members(members, 0) =~= members_view(members@));
}

/// The value under `key` among `pairs`: the first member whose key matches.
pub open spec fn pairs_lookup(pairs: Seq<(Seq<char>, JsonV)>, key: Seq<char>) -> Option<JsonV>
    decreases pairs.len(),
{
    if pairs.len() == 0 {
        None
    } else if pairs[0].0 == key {
        Some(pairs[0].1)
    } else {
        pairs_lookup(pairs.drop_first(), key)
    }
}

/// The value under `key` in `v`: `None` unless `v` is an object with such
/// a member.
pub open spec fn jv_get(v: JsonV, key: Seq<char>) -> Option<JsonV> {
    match v {
        JsonV::Obj(pairs) => pairs_lookup(pairs, key),
        _ => None,
    }
}

/// When no key among the first `i` pairs matches, the lookup is decided by
/// the rest.
pub proof fn lemma_pairs_lookup_skip(pairs: Seq<(Seq<char>, JsonV)>, key: Seq<char>, i: int)
    requires
        0 <= i <= pairs.len(),
        forall|k: int| 0 <= k < i ==> pairs[k].0 != key,
    ensures
        pairs_lookup(pairs, key) == pairs_lookup(pairs.skip(i), key),
    decreases i,
{
    if i > 0 {
        lemma_pairs_lookup_skip(pairs.drop_first(), key, i - 1);
        assert(pairs.drop_first().skip(i - 1) =~= pairs.skip(i));
    } else {
        assert(pairs.skip(0) =~= pairs);
    }
}

/// Character-for-character string equality.
pub fn str_eq(a: &str, b: &str) -> (r: bool)
    ensures
        r == (a@ == b@),
{
    let n = a.unicode_len();
    let m = b.unicode_len();
    if n != m {
        return false;
    }
    let mut i: usize = 0;
    while i < n
        invariant
            n == a@.len(),
            n == b@.len(),
            0 <= i <= n,
            forall|k: int| 0 <= k < i ==> a@[k] == b@[k],
        decreases n - i,
    {
        if a.get_char(i) != b.get_char(i) {
            return false;
        }
        i += 1;
    }
    proof {
        assert(a@ =~= b@);
    }
    true
}

impl JsonValue {
    /// The member of this object named `key`, if this is an object and the
    /// key occurs; the first occurrence wins.
    pub fn get<'a>(&'a self, key: &str) -> (r: Option<&'a JsonValue>)
        ensures
            match r {
                Some(v) => jv_get(self@, key@) == Some(v@),
                None => jv_get(self@, key@) is None,
            },
    {
        match self {
            JsonValue::Obj(members) => {
                proof {
                    lemma_obj_view(*members);
                    assert(*self == JsonValue::Obj(*members));
                }
                let ghost pairs = members_view(members@);
                let n = members.len();
                let mut i: usize = 0;
                while i < n
                    invariant
                        n == members.len(),
                        0 <= i <= n,
                        pairs == members_view(members@),
                        jv_get(self@, key@) == pairs_lookup(pairs, key@),
                        forall|k: int| 0 <= k < i ==> pairs[k].0 != key@,
                    decreases n - i,
                {
                    if str_eq(members[i].key.as_str(), key) {
                        proof {
                            lemma_pairs_lookup_skip(pairs, key@, i as int);
                            assert(pairs[i as int] == (members@[i as int].key@, jv_of(
                                members@[i as int].value,
                            )));
                            assert(pairs.skip(i as int)[0] == pairs[i as int]);
                            assert(pairs.skip(i as int).len() > 0);
                            assert(pairs_lookup(pairs.skip(i as int), key@) == Some(
                                pairs[i as int].1,
                            ));
                        }
                        return Some(&members[i].value);
                    }
                    i += 1;
                }
                proof {
                    lemma_pairs_lookup_skip(pairs, key@, n as int);
                    assert(pairs.skip(n as int).len() == 0);
                }
                None
            },
            _ => None,
        }
    }

    /// The characters of this value when it is a string.
    pub fn as_str<'a>(&'a self) -> (r: Option<&'a str>)
        ensures
            match r {
                Some(s) => self@ == JsonV::Str(s@),
                None => !(self@ is Str),
            },
    {
        match self {
            JsonValue::Str(s) => Some(s.as_str()),
            _ => None,
        }
    }

    /// The decimal text of this value when it is a number.
    pub fn as_num_text<'a>(&'a self) -> (r: Option<&'a str>)
        ensures
            match r {
                Some(s) => self@ == JsonV::Num(s@),
                None => !(self@ is Num),
            },
    {
        match self {
            JsonValue::Num(s) => Some(s.as_str()),
            _ => None,
        }
    }

    /// The elements of this value when it is an array.
    pub fn as_arr<'a>(&'a self) -> (r: Option<&'a Vec<JsonValue>>)
        ensures
            match r {
                Some(items) => self@ == JsonV::Arr(elems_view(items@)),
                None => !(self@ is Arr),
            },
    {
        match self {
            JsonValue::Arr(items) => {
                proof {
                    lemma_arr_view(*items);
                }
                Some(items)
            },
            _ => None,
        }
    }

    /// The members of this value when it is an object.
    pub fn as_obj<'a>(&'a self) -> (r: Option<&'a Vec<JsonMember>>)
        ensures
            match r {
                Some(ms) => self@ == JsonV::Obj(members_view(ms@)),
                None => !(self@ is Obj),
            },
    {
        match self {
            JsonValue::Obj(members) => {
                proof {
                    lemma_obj_view(*members);
                }
                Some(members)
            },
            _ => None,
        }
    }

    /// A copy of this value with the same view.
    pub fn deep_copy(&self) -> (r: JsonValue)
        ensures
            r@ == self@,
        decreases self, 0int,
    {
        match self {
            JsonValue::Null => JsonValue::Null,
            JsonValue::Bool(b) => JsonValue::Bool(*b),
            JsonValue::Num(s) => JsonValue::Num(s.clone()),
            JsonValue::Str(s) => JsonValue::Str(s.clone()),
            JsonValue::Arr(items) => {
                let copied = deep_copy_elems(items);
                proof {
                    lemma_arr_view(*items);
                    lemma_arr_view(copied);
                    assert forall|k: int| 0 <= k < copied@.len() implies elems_view(copied@)[k]
                        == elems_view(items@)[k] by {
                        assert(copied@[k]@ == items@[k]@);
                    }
                    assert(elems_view(copied@) =~= elems_view(items@));
                }
                JsonValue::Arr(copied)
            },
            JsonValue::Obj(members) => {
                let copied = deep_copy_members(members);
                proof {
                    lemma_obj_view(*members);
                    lemma_obj_view(copied);
                    assert forall|k: int| 0 <= k < copied@.len() implies members_view(copied@)[k]
                        == members_view(members@)[k] by {
                        assert(copied@[k].key@ == members@[k].key@ && copied@[k].value@
                            == members@[k].value@);
                    }
                    assert(members_view(copied@) =~= members_view(members@));
                }
                JsonValue::Obj(copied)
            },
        }
    }
}

/// A copy of each element, with the same views.
fn deep_copy_elems(items: &Vec<JsonValue>) -> (r: Vec<JsonValue>)
    ensures
        r@.len() == items@.len(),
        forall|k: int| 0 <= k < items@.len() ==> #[trigger] r@[k]@ == items@[k]@,
    decreases items, 1int,
{
    let n = items.len();
    let mut out: Vec<JsonValue> = Vec::new();
    let mut i: usize = 0;
    while i < n
        invariant
            n == items@.len(),
            0 <= i <= n,
            out@.len() == i,
            forall|k: int| 0 <= k < i ==> #[trigger] out@[k]@ == items@[k]@,
        decreases n - i,
    {
        out.push(items[i].deep_copy());
        i += 1;
    }
    out
}

/// A copy of each member, with the same key text and value views.
fn deep_copy_members(members: &Vec<JsonMember>) -> (r: Vec<JsonMember>)
    ensures
        r@.len() == members@.len(),
        forall|k: int|
            0 <= k < members@.len() ==> (#[trigger] r@[k]).key@ == members@[k].key@
                && r@[k].value@ == members@[k].value@,
    decreases members, 1int,
{
    let n = members.len();
    let mut out: Vec<JsonMember> = Vec::new();
    let mut i: usize = 0;
    while i < n
        invariant
            n == members@.len(),
            0 <= i <= n,
            out@.len() == i,
            forall|k: int|
                0 <= k < i ==> (#[trigger] out@[k]).key@ == members@[k].key@ && out@[k].value@
                    == members@[k].value@,
        decreases n - i,
    {
        let m = JsonMember { key: members[i].key.clone(), value: members[i].value.deep_copy() };
        out.push(m);
        i += 1;
    }
    out
}

/// What a well-formed JSON text denotes, or `None` where the text is not
/// JSON. Left uninterpreted: the decoding itself is done by an outside
/// library and only named here.
pub uninterp spec fn json_of(s: Seq<char>) -> Option<JsonV>;

/// The JSON value type of the outside decoder, declared so that the
/// bridge below may mention it; the library never looks inside it.
#[verifier::external_type_specification]
#[verifier::external_body]
pub struct ExSerdeValue(serde_json::Value);

/// Relies on serde_json::from_str to decode JSON text; the result is a
/// pure function of the text, named `json_of`.
#[verifier::external_body]
pub fn parse_json(text: &str) -> (r: Option<JsonValue>)
    ensures
        match r {
            Some(v) => json_of(text@) == Some(v@),
            None => json_of(text@) is None,
        },
{
    match serde_json::from_str::<serde_json::Value>(text) {
        Ok(v) => Some(from_serde(v)),
        Err(_) => None,
    }
}

/// Relies on serde_json::Value exposing exactly the variants null, bool,
/// number, string, array and object; each is moved across one arm, with
/// numbers kept as their decimal text.
#[verifier::external_body]
fn from_serde(v: serde_json::Value) -> JsonValue {
    match v {
        serde_json::Value::Null => JsonValue::Null,
        serde_json::Value::Bool(b) => JsonValue::Bool(b),
        serde_json::Value::Number(n) => JsonValue::Num(n.to_string()),
        serde_json::Value::String(s) => JsonValue::Str(s),
        serde_json::Value::Array(items) => JsonValue::Arr(
            items.into_iter().map(from_serde).collect(),
        ),
        serde_json::Value::Object(members) => JsonValue::Obj(
            members.into_iter().map(|(key, value)| JsonMember { key, value: from_serde(value) }).collect(),
        ),
    }
}

} // verus!

