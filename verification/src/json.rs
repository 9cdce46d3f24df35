//! JSON values: what they hold, reading them from bytes and writing them.
use serde_json::Value;
use vstd::prelude::*;

use crate::outline::writes;
use crate::text::{option_view, same};

verus! {

/// What a JSON value is.
#[verifier::ext_equal]
pub enum Json {
    Null,
    Bool(bool),
    /// A whole number that fits 64 bits unsigned.
    Unsigned(u64),
    /// Any other number.
    OtherNumber,
    Text(Seq<char>),
    List(Seq<Json>),
    /// The members by name, in their order.
    Record(Seq<(Seq<char>, Json)>),
}

/// The tree of values that `serde_json` parses JSON into.
#[verifier::external_type_specification]
#[verifier::external_body]
pub struct ExValue(serde_json::Value);

/// What a `serde_json::Value` holds.
pub uninterp spec fn json_of(v: Value) -> Json;

/// What `serde_json::from_slice` reads from `bytes`, if they are JSON.
pub uninterp spec fn json_text(bytes: Seq<u8>) -> Option<Json>;

/// The bytes that `serde_json::to_vec_pretty` writes for a value.
pub uninterp spec fn json_pretty(j: Json) -> Seq<u8>;

/// What each of `s` holds.
pub open spec fn json_views(s: Seq<Value>) -> Seq<Json> {
    s.map_values(|v: Value| json_of(v))
}

/// Whether no two members have the same name.
pub open spec fn distinct_names(members: Seq<(Seq<char>, Json)>) -> bool {
    forall|i: int, j: int|
        0 <= i < j < members.len() ==> (#[trigger] members[i]).0 != (#[trigger] members[j]).0
}

/// Whether `j` can be written and read back: its lists and records nest no
/// deeper than `depth`, and its numbers are unsigned.
pub open spec fn writable(j: Json, depth: nat) -> bool
    decreases depth,
{
    match j {
        Json::OtherNumber => false,
        Json::List(items) => depth > 0 && forall|i: int|
            0 <= i < items.len() ==> writable(#[trigger] items[i], (depth - 1) as nat),
        Json::Record(members) => depth > 0 && distinct_names(members) && forall|i: int|
            0 <= i < members.len() ==> writable((#[trigger] members[i]).1, (depth - 1) as nat),
        _ => true,
    }
}

/// A list of writable items is writable, one level further up.
pub proof fn lemma_writable_list(items: Seq<Json>, depth: nat)
    requires
        forall|i: int| 0 <= i < items.len() ==> writable(#[trigger] items[i], depth),
    ensures
        writable(Json::List(items), depth + 1),
{
}

/// A record of writable members is writable, one level further up.
pub proof fn lemma_writable_record(members: Seq<(Seq<char>, Json)>, depth: nat)
    requires
        distinct_names(members),
        forall|i: int| 0 <= i < members.len() ==> writable((#[trigger] members[i]).1, depth),
    ensures
        writable(Json::Record(members), depth + 1),
{
}

/// Calls `serde_json::from_slice` for a `Value`, whose result depends on the
/// bytes alone.
#[verifier::external_body]
pub(crate) fn parse(bytes: &[u8]) -> (r: Option<Value>)
    ensures
        match r {
            Some(v) => json_text(bytes@) == Some(json_of(v)),
            None => json_text(bytes@) is None,
        },
{
    serde_json::from_slice(bytes).ok()
}

/// Calls `serde_json::to_vec_pretty`, whose result depends on the value alone.
/// It cannot fail on a `Value`, and what it writes is read back as the same
/// value, whole and member by member, as long as that nests no deeper than the
/// parser follows.
#[verifier::external_body]
pub(crate) fn pretty(v: &Value) -> (r: Vec<u8>)
    requires
        writable(json_of(*v), 127),
    ensures
        r@ == json_pretty(json_of(*v)),
        writes(r@, json_of(*v), 127),
{
    serde_json::to_vec_pretty(v).unwrap()
}

/// Calls `Value::is_null`.
#[verifier::external_body]
pub(crate) fn is_null(v: &Value) -> (r: bool)
    ensures
        r == (json_of(*v) is Null),
{
    v.is_null()
}

/// Calls `Value::as_str`, which returns the string where the value is one.
#[verifier::external_body]
pub(crate) fn as_str(v: &Value) -> (r: Option<&str>)
    ensures
        match r {
            Some(s) => json_of(*v) == Json::Text(s@),
            None => !(json_of(*v) is Text),
        },
{
    v.as_str()
}

/// Calls `Value::as_u64`, which returns the number where the value is a whole
/// one that fits.
#[verifier::external_body]
pub(crate) fn as_u64(v: &Value) -> (r: Option<u64>)
    ensures
        match r {
            Some(n) => json_of(*v) == Json::Unsigned(n),
            None => !(json_of(*v) is Unsigned),
        },
{
    v.as_u64()
}

/// Calls `Value::as_array`, which returns the items where the value is a list.
#[verifier::external_body]
pub(crate) fn as_array(v: &Value) -> (r: Option<&Vec<Value>>)
    ensures
        match r {
            Some(items) => json_of(*v) == Json::List(json_views(items@)),
            None => !(json_of(*v) is List),
        },
{
    v.as_array()
}

/// Names and what the values under them hold.
pub open spec fn member_refs(s: Seq<(&str, &Value)>) -> Seq<(Seq<char>, Json)> {
    s.map_values(|m: (&str, &Value)| (m.0@, json_of(*m.1)))
}

/// Calls `Value::as_object` and hands out what `serde_json::Map::iter` walks
/// over: the members in their order, no two of one name.
#[verifier::external_body]
pub(crate) fn members(v: &Value) -> (r: Option<Vec<(&str, &Value)>>)
    ensures
        match r {
            Some(ms) => json_of(*v) == Json::Record(member_refs(ms@)) && distinct_names(
                member_refs(ms@),
            ),
            None => !(json_of(*v) is Record),
        },
{
    let map = v.as_object()?;
    Some(map.iter().map(|(name, value)| (name.as_str(), value)).collect())
}

/// Makes the null value, `Value::Null`.
#[verifier::external_body]
pub(crate) fn null() -> (r: Value)
    ensures
        json_of(r) == Json::Null,
{
    Value::Null
}

/// Makes a boolean, `Value::Bool`.
#[verifier::external_body]
pub(crate) fn boolean(b: bool) -> (r: Value)
    ensures
        json_of(r) == Json::Bool(b),
{
    Value::Bool(b)
}

/// Makes a number through `Value::from`.
#[verifier::external_body]
pub(crate) fn unsigned(n: u64) -> (r: Value)
    ensures
        json_of(r) == Json::Unsigned(n),
{
    Value::from(n)
}

/// Makes a string, `Value::String`.
#[verifier::external_body]
pub(crate) fn text(s: String) -> (r: Value)
    ensures
        json_of(r) == Json::Text(s@),
{
    Value::String(s)
}

/// Makes a list, `Value::Array`.
#[verifier::external_body]
pub(crate) fn list(items: Vec<Value>) -> (r: Value)
    ensures
        json_of(r) == Json::List(json_views(items@)),
{
    Value::Array(items)
}

/// Names and what the values under them hold.
pub open spec fn member_views(s: Seq<(String, Value)>) -> Seq<(Seq<char>, Json)> {
    s.map_values(|m: (String, Value)| (m.0@, json_of(m.1)))
}

/// Makes a record from members through `serde_json::Map`'s `FromIterator`,
/// which keeps their order where no two have the same name.
#[verifier::external_body]
pub(crate) fn record(members: Vec<(String, Value)>) -> (r: Value)
    requires
        distinct_names(member_views(members@)),
    ensures
        json_of(r) == Json::Record(member_views(members@)),
{
    Value::Object(members.into_iter().collect())
}

/// What the members hold under `name`.
pub open spec fn lookup<T>(members: Seq<(Seq<char>, T)>, name: Seq<char>) -> Option<T>
    decreases members.len(),
{
    if members.len() == 0 {
        None
    } else if members[0].0 == name {
        Some(members[0].1)
    } else {
        lookup(members.drop_first(), name)
    }
}

/// The fields of a structure that is written either as a record, by name, or
/// as a list, by position, of which the last ones may be left out after the
/// first `min`.
pub open spec fn fields_of(j: Json, names: Seq<Seq<char>>, min: nat) -> Option<Seq<Option<Json>>> {
    match j {
        Json::Record(members) => Some(names.map_values(|n: Seq<char>| lookup(members, n))),
        Json::List(items) => if min <= items.len() <= names.len() {
            Some(
                Seq::new(
                    names.len(),
                    |i: int|
                        if i < items.len() {
                            Some(items[i])
                        } else {
                            None
                        },
                ),
            )
        } else {
            None
        },
        _ => None,
    }
}

/// What an optional value holds.
pub open spec fn field_json(v: Option<&Value>) -> Option<Json> {
    match v {
        Some(v) => Some(json_of(*v)),
        None => None,
    }
}

/// What each of `s` holds.
pub open spec fn field_views(s: Seq<Option<&Value>>) -> Seq<Option<Json>> {
    s.map_values(|v: Option<&Value>| field_json(v))
}

/// The views of `names`.
pub open spec fn name_views(names: Seq<&str>) -> Seq<Seq<char>> {
    names.map_values(|n: &str| n@)
}

/// The value under `name`.
fn find_member<'a>(members: &Vec<(&'a str, &'a Value)>, name: &str) -> (r: Option<&'a Value>)
    ensures
        field_json(r) == lookup(member_refs(members@), name@),
{
    let ghost all = member_refs(members@);
    let mut i: usize = 0;
    assert(all.skip(0) == all);
    while i < members.len()
        invariant
            i <= members@.len(),
            all == member_refs(members@),
            lookup(all, name@) == lookup(all.skip(i as int), name@),
        decreases members@.len() - i,
    {
        assert(all[i as int] == (members@[i as int].0@, json_of(*members@[i as int].1)));
        if same(members[i].0, name) {
            return Some(members[i].1);
        }
        assert(all.skip(i as int).drop_first() == all.skip(i + 1));
        i += 1;
    }
    None
}

/// The fields of a structure.
pub(crate) fn fields<'a>(v: &'a Value, names: &Vec<&str>, min: usize) -> (r: Option<
    Vec<Option<&'a Value>>,
>)
    ensures
        match r {
            Some(fs) => fields_of(json_of(*v), name_views(names@), min as nat) == Some(
                field_views(fs@),
            ) && fs@.len() == names@.len(),
            None => fields_of(json_of(*v), name_views(names@), min as nat) is None,
        },
{
    let mut out: Vec<Option<&'a Value>> = Vec::new();
    let mut i: usize = 0;
    if let Some(ms) = members(v) {
        while i < names.len()
            invariant
                i <= names@.len(),
                out@.len() == i,
                forall|k: int|
                    0 <= k < i ==> field_json(#[trigger] out@[k]) == lookup(
                        member_refs(ms@),
                        names@[k]@,
                    ),
            decreases names@.len() - i,
        {
            out.push(find_member(&ms, names[i]));
            i += 1;
        }
        assert(field_views(out@) == name_views(names@).map_values(
            |n: Seq<char>| lookup(member_refs(ms@), n),
        ));
        return Some(out);
    }
    if let Some(items) = as_array(v) {
        if min > items.len() || items.len() > names.len() {
            return None;
        }
        let ghost js = json_views(items@);
        while i < names.len()
            invariant
                i <= names@.len(),
                out@.len() == i,
                js == json_views(items@),
                forall|k: int|
                    0 <= k < i ==> field_json(#[trigger] out@[k]) == if k < js.len() {
                        Some(js[k])
                    } else {
                        None
                    },
            decreases names@.len() - i,
        {
            if i < items.len() {
                out.push(Some(&items[i]));
            } else {
                out.push(None);
            }
            i += 1;
        }
        assert(field_views(out@) == Seq::new(
            name_views(names@).len(),
            |k: int|
                if k < js.len() {
                    Some(js[k])
                } else {
                    None
                },
        ));
        return Some(out);
    }
    None
}

/// A field that may be text, null or missing. `None` where it is neither.
pub open spec fn optional_text_field(f: Option<Json>) -> Option<Option<Seq<char>>> {
    match f {
        None => Some(None),
        Some(Json::Null) => Some(None),
        Some(Json::Text(s)) => Some(Some(s)),
        _ => None,
    }
}

/// A field that may be a number, null or missing. `None` where it is neither.
pub open spec fn optional_unsigned_field(f: Option<Json>) -> Option<Option<u64>> {
    match f {
        None => Some(None),
        Some(Json::Null) => Some(None),
        Some(Json::Unsigned(n)) => Some(Some(n)),
        _ => None,
    }
}

/// A field that must be an offset.
pub open spec fn offset_field(f: Option<Json>) -> Option<usize> {
    match f {
        Some(Json::Unsigned(n)) => if n <= usize::MAX {
            Some(n as usize)
        } else {
            None
        },
        _ => None,
    }
}

/// Reads a field that may be text, null or missing.
pub(crate) fn get_optional_text(f: Option<&Value>) -> (r: Option<Option<String>>)
    ensures
        match r {
            Some(s) => optional_text_field(field_json(f)) == Some(option_view(s)),
            None => optional_text_field(field_json(f)) is None,
        },
{
    match f {
        Some(v) => if is_null(v) {
            Some(None)
        } else {
            match as_str(v) {
                Some(s) => Some(Some(s.to_string())),
                None => None,
            }
        },
        None => Some(None),
    }
}

/// Reads a field that may be a number, null or missing.
pub(crate) fn get_optional_unsigned(f: Option<&Value>) -> (r: Option<Option<u64>>)
    ensures
        r == optional_unsigned_field(field_json(f)),
{
    match f {
        Some(v) => if is_null(v) {
            Some(None)
        } else {
            match as_u64(v) {
                Some(n) => Some(Some(n)),
                None => None,
            }
        },
        None => Some(None),
    }
}

/// Reads a field that must be an offset.
pub(crate) fn get_offset(f: Option<&Value>) -> (r: Option<usize>)
    ensures
        r == offset_field(field_json(f)),
{
    match f {
        Some(v) => match as_u64(v) {
            Some(n) => if n <= usize::MAX as u64 {
                Some(n as usize)
            } else {
                None
            },
            None => None,
        },
        None => None,
    }
}

/// A member is found by its name, the first of that name where there are more, and
/// nothing is found under a name that no member has.
pub proof fn law_first_member_is_found<T>(
    a: Seq<(Seq<char>, T)>,
    name: Seq<char>,
    value: T,
    b: Seq<(Seq<char>, T)>,
)
    requires
        forall|i: int| 0 <= i < a.len() ==> (#[trigger] a[i]).0 != name,
    ensures
        lookup(a + seq![(name, value)] + b, name) == Some(value),
        lookup(a, name) is None,
    decreases a.len(),
{
    let all = a + seq![(name, value)] + b;
    if a.len() > 0 {
        let t = a.drop_first();
        assert(all[0] == a[0]);
        assert(all.drop_first() == t + seq![(name, value)] + b);
        assert forall|i: int| 0 <= i < t.len() implies (#[trigger] t[i]).0 != name by {
            assert(t[i] == a[i + 1]);
        }
        law_first_member_is_found(t, name, value, b);
    } else {
        assert(all[0] == (name, value));
    }
}

/// The fields of a record go by name, and those of a list by position: there the
/// last ones may be left out, but not those that are needed.
pub proof fn law_fields_go_by_name_or_position(
    members: Seq<(Seq<char>, Json)>,
    items: Seq<Json>,
    names: Seq<Seq<char>>,
    min: nat,
    k: int,
)
    requires
        0 <= k < names.len(),
    ensures
        fields_of(Json::Record(members), names, min) matches Some(fs) && fs.len() == names.len()
            && fs[k] == lookup(members, names[k]),
        fields_of(Json::List(items), names, min) is Some <==> min <= items.len() <= names.len(),
        fields_of(Json::List(items), names, min) matches Some(fs) ==> fs.len() == names.len() && (k
            < items.len() ==> fs[k] == Some(items[k])) && (k >= items.len() ==> fs[k] is None),
{
}

} // verus!
