//! The outline of JSON text: its members and items, and the bytes of each.
//!
//! A structure is read member by member, so that one that is written twice is
//! noticed, and one that is not asked for need only be JSON.
use serde::de::IgnoredAny;
use serde_json::Deserializer;
use vstd::prelude::*;
use vstd::slice::slice_subrange;

use crate::json::{
    as_str, distinct_names, is_null, json_text, law_first_member_is_found, lookup, name_views,
    parse, Json,
};
use crate::text::{option_view, same};

verus! {

pub const OPEN_RECORD: u8 = 123;

pub const CLOSE_RECORD: u8 = 125;

pub const OPEN_LIST: u8 = 91;

pub const CLOSE_LIST: u8 = 93;

pub const COLON: u8 = 58;

pub const COMMA: u8 = 44;

/// How many bytes the JSON value takes with which `bytes` begin, together with
/// the white space before it, if they begin with one.
pub uninterp spec fn value_len(bytes: Seq<u8>) -> Option<nat>;

/// Reads one value with `serde_json::StreamDeserializer` as a
/// `serde::de::IgnoredAny`, and returns its `byte_offset` then. The result
/// depends on the bytes alone, and is within them.
#[verifier::external_body]
fn value_end(bytes: &[u8]) -> (r: Option<usize>)
    ensures
        match r {
            Some(n) => value_len(bytes@) == Some(n as nat) && 0 < n <= bytes@.len(),
            None => value_len(bytes@) is None,
        },
{
    let mut values = Deserializer::from_slice(bytes).into_iter::<IgnoredAny>();
    match values.next() {
        Some(Ok(_)) => Some(values.byte_offset()),
        _ => None,
    }
}

/// Whether `b` is white space between the parts of JSON text.
pub open spec fn is_space(b: u8) -> bool {
    b == 32 || b == 9 || b == 10 || b == 13
}

/// `s` without the white space that it begins with.
pub open spec fn after_space(s: Seq<u8>) -> Seq<u8>
    decreases s.len(),
{
    if s.len() > 0 && is_space(s[0]) {
        after_space(s.drop_first())
    } else {
        s
    }
}

/// What follows `mark`, if `s` begins with it.
pub open spec fn after(s: Seq<u8>, mark: u8) -> Option<Seq<u8>> {
    let t = after_space(s);
    if t.len() > 0 && t[0] == mark {
        Some(t.drop_first())
    } else {
        None
    }
}

/// Whether `s` is `mark` and nothing else.
pub open spec fn ends(s: Seq<u8>, mark: u8) -> bool {
    match after(s, mark) {
        Some(rest) => after_space(rest).len() == 0,
        None => false,
    }
}

/// The value with which `s` begins, and what follows it.
pub open spec fn front_value(s: Seq<u8>) -> Option<(Seq<u8>, Seq<u8>)> {
    match value_len(s) {
        Some(n) => if 0 < n <= s.len() {
            Some((s.take(n as int), s.skip(n as int)))
        } else {
            None
        },
        None => None,
    }
}

/// The member with which `s` begins, as its name and the bytes of its value,
/// and what follows it.
pub open spec fn front_member(s: Seq<u8>) -> Option<((Seq<char>, Seq<u8>), Seq<u8>)> {
    match front_value(s) {
        Some((key, rest)) => match (json_text(key), after(rest, COLON)) {
            (Some(Json::Text(name)), Some(more)) => match front_value(more) {
                Some((value, last)) => Some(((name, value), last)),
                None => None,
            },
            _ => None,
        },
        None => None,
    }
}

/// What follows a mark is shorter than what it is in.
pub proof fn lemma_after_is_shorter(s: Seq<u8>, mark: u8)
    ensures
        after_space(s).len() <= s.len(),
        after(s, mark) is Some ==> (after(s, mark)->0).len() < s.len(),
    decreases s.len(),
{
    if s.len() > 0 && is_space(s[0]) {
        lemma_after_is_shorter(s.drop_first(), mark);
    }
}

/// The items up to the end of the list, separated by commas.
pub open spec fn items_from(s: Seq<u8>) -> Option<Seq<Seq<u8>>>
    decreases s.len(),
{
    match front_value(s) {
        Some((item, rest)) => match after(rest, COMMA) {
            Some(more) => {
                proof {
                    lemma_after_is_shorter(rest, COMMA);
                }
                match items_from(more) {
                    Some(items) => Some(seq![item] + items),
                    None => None,
                }
            },
            None => if ends(rest, CLOSE_LIST) {
                Some(seq![item])
            } else {
                None
            },
        },
        None => None,
    }
}

/// The items of the list that `s` is, each as its bytes.
pub open spec fn items_in(s: Seq<u8>) -> Option<Seq<Seq<u8>>> {
    match after(s, OPEN_LIST) {
        Some(rest) => if ends(rest, CLOSE_LIST) {
            Some(seq![])
        } else {
            items_from(rest)
        },
        None => None,
    }
}

/// The members up to the end of the record, separated by commas.
pub open spec fn members_from(s: Seq<u8>) -> Option<Seq<(Seq<char>, Seq<u8>)>>
    decreases s.len(),
{
    match front_member(s) {
        Some((member, rest)) => match after(rest, COMMA) {
            Some(more) => {
                proof {
                    let (key, behind) = front_value(s)->0;
                    lemma_after_is_shorter(behind, COLON);
                    lemma_after_is_shorter(rest, COMMA);
                }
                match members_from(more) {
                    Some(members) => Some(seq![member] + members),
                    None => None,
                }
            },
            None => if ends(rest, CLOSE_RECORD) {
                Some(seq![member])
            } else {
                None
            },
        },
        None => None,
    }
}

/// The members of the record that `s` is, each as its name and the bytes of its
/// value, in their order. A name may come more than once.
pub open spec fn members_in(s: Seq<u8>) -> Option<Seq<(Seq<char>, Seq<u8>)>> {
    match after(s, OPEN_RECORD) {
        Some(rest) => if ends(rest, CLOSE_RECORD) {
            Some(seq![])
        } else {
            members_from(rest)
        },
        None => None,
    }
}

/// Whether no two of `members` are named `name`.
pub open spec fn at_most_once<T>(members: Seq<(Seq<char>, T)>, name: Seq<char>) -> bool {
    forall|i: int, j: int|
        0 <= i < j < members.len() && (#[trigger] members[i]).0 == name ==> (
        #[trigger] members[j]).0 != name
}

/// The bytes of a structure's fields, which is written either as a record, by
/// name, or as a list, by position, of which the last ones may be left out after
/// the first `min`. A record may have other members, but none of the fields
/// twice.
pub open spec fn fields_in(s: Seq<u8>, names: Seq<Seq<char>>, min: nat) -> Option<
    Seq<Option<Seq<u8>>>,
> {
    match members_in(s) {
        Some(members) => if forall|k: int|
            0 <= k < names.len() ==> at_most_once(members, #[trigger] names[k]) {
            Some(names.map_values(|n: Seq<char>| lookup(members, n)))
        } else {
            None
        },
        None => match items_in(s) {
            Some(items) => if min <= items.len() <= names.len() {
                Some(
                    Seq::new(
                        names.len(),
                        |i: int|
                            if i < items.len() {
                                Some(items[i])
                            } else {
                                None
                            },
                    ),
                )
            } else {
                None
            },
            None => None,
        },
    }
}

/// A structure in which a field is written twice is not read at all.
pub proof fn law_repeated_field_is_refused(
    s: Seq<u8>,
    members: Seq<(Seq<char>, Seq<u8>)>,
    names: Seq<Seq<char>>,
    min: nat,
    k: int,
)
    requires
        members_in(s) == Some(members),
        0 <= k < names.len(),
        !at_most_once(members, names[k]),
    ensures
        fields_in(s, names, min) is None,
{
}

/// Members that are not asked for make no difference: a record is read as one
/// that has the same fields and nothing else.
pub proof fn law_other_members_are_ignored(
    s: Seq<u8>,
    t: Seq<u8>,
    names: Seq<Seq<char>>,
    min: nat,
)
    requires
        members_in(s) is Some,
        members_in(t) is Some,
        forall|k: int|
            0 <= k < names.len() ==> at_most_once(members_in(s)->0, #[trigger] names[k])
                && at_most_once(members_in(t)->0, names[k]) && lookup(members_in(s)->0, names[k])
                == lookup(members_in(t)->0, names[k]),
    ensures
        fields_in(s, names, min) == fields_in(t, names, min),
{
    let a = names.map_values(|n: Seq<char>| lookup(members_in(s)->0, n));
    let b = names.map_values(|n: Seq<char>| lookup(members_in(t)->0, n));
    assert forall|k: int| 0 <= k < names.len() implies a[k] == b[k] by {
        assert(at_most_once(members_in(s)->0, names[k]));
    }
    assert(a == b);
}

/// The bytes of each of `s`.
pub open spec fn item_views(s: Seq<&[u8]>) -> Seq<Seq<u8>> {
    s.map_values(|x: &[u8]| x@)
}

/// The names and bytes of each of `s`.
pub open spec fn part_views(s: Seq<(String, &[u8])>) -> Seq<(Seq<char>, Seq<u8>)> {
    s.map_values(|m: (String, &[u8])| (m.0@, m.1@))
}

/// The bytes of a field.
pub open spec fn bytes_view(f: Option<&[u8]>) -> Option<Seq<u8>> {
    match f {
        Some(bytes) => Some(bytes@),
        None => None,
    }
}

/// The bytes of each of `s`.
pub open spec fn bytes_views(s: Seq<Option<&[u8]>>) -> Seq<Option<Seq<u8>>> {
    s.map_values(|f: Option<&[u8]>| bytes_view(f))
}

/// Skips white space.
fn skip_space<'a>(s: &'a [u8]) -> (r: &'a [u8])
    ensures
        r@ == after_space(s@),
{
    let mut i: usize = 0;
    assert(s@.skip(0) == s@);
    while i < s.len() && (s[i] == 32 || s[i] == 9 || s[i] == 10 || s[i] == 13)
        invariant
            i <= s@.len(),
            after_space(s@) == after_space(s@.skip(i as int)),
        decreases s@.len() - i,
    {
        assert(s@.skip(i as int).drop_first() == s@.skip(i + 1));
        i += 1;
    }
    let rest = slice_subrange(s, i, s.len());
    assert(rest@ == s@.skip(i as int));
    rest
}

/// Reads a mark.
fn expect<'a>(s: &'a [u8], mark: u8) -> (r: Option<&'a [u8]>)
    ensures
        bytes_view(r) == after(s@, mark),
{
    let t = skip_space(s);
    if t.len() > 0 && t[0] == mark {
        let rest = slice_subrange(t, 1, t.len());
        assert(rest@ == t@.drop_first());
        Some(rest)
    } else {
        None
    }
}

/// Whether `s` is `mark` and nothing else.
fn is_end(s: &[u8], mark: u8) -> (r: bool)
    ensures
        r == ends(s@, mark),
{
    match expect(s, mark) {
        Some(rest) => skip_space(rest).len() == 0,
        None => false,
    }
}

/// Reads a value.
fn read_value<'a>(s: &'a [u8]) -> (r: Option<(&'a [u8], &'a [u8])>)
    ensures
        match r {
            Some((value, rest)) => front_value(s@) == Some((value@, rest@)),
            None => front_value(s@) is None,
        },
{
    match value_end(s) {
        Some(n) => {
            let value = slice_subrange(s, 0, n);
            let rest = slice_subrange(s, n, s.len());
            assert(value@ == s@.take(n as int));
            assert(rest@ == s@.skip(n as int));
            Some((value, rest))
        },
        None => None,
    }
}

/// Reads a member.
fn read_member<'a>(s: &'a [u8]) -> (r: Option<((String, &'a [u8]), &'a [u8])>)
    ensures
        match r {
            Some((m, rest)) => front_member(s@) == Some(((m.0@, m.1@), rest@)),
            None => front_member(s@) is None,
        },
{
    let (key, rest) = match read_value(s) {
        Some(read) => read,
        None => return None,
    };
    let name = match read_text(key) {
        Some(name) => name,
        None => return None,
    };
    let more = match expect(rest, COLON) {
        Some(more) => more,
        None => return None,
    };
    match read_value(more) {
        Some((value, last)) => Some(((name, value), last)),
        None => None,
    }
}

/// The text that `s` writes, if that is what it writes.
pub open spec fn text_in(s: Seq<u8>) -> Option<Seq<char>> {
    match json_text(s) {
        Some(Json::Text(text)) => Some(text),
        _ => None,
    }
}

/// Reads a text.
pub(crate) fn read_text(s: &[u8]) -> (r: Option<String>)
    ensures
        option_view(r) == text_in(s@),
{
    match parse(s) {
        Some(value) => match as_str(&value) {
            Some(text) => Some(text.to_string()),
            None => None,
        },
        None => None,
    }
}

/// The members of the record that `s` is.
pub(crate) fn read_members<'a>(s: &'a [u8]) -> (r: Option<Vec<(String, &'a [u8])>>)
    ensures
        match r {
            Some(members) => members_in(s@) == Some(part_views(members@)),
            None => members_in(s@) is None,
        },
{
    let mut out: Vec<(String, &'a [u8])> = Vec::new();
    let start = match expect(s, OPEN_RECORD) {
        Some(rest) => rest,
        None => return None,
    };
    if is_end(start, CLOSE_RECORD) {
        assert(part_views(out@) == Seq::<(Seq<char>, Seq<u8>)>::empty());
        return Some(out);
    }
    let mut rest = start;
    let ghost all = members_from(start@);
    proof {
        if all is Some {
            assert(part_views(out@) + all->0 == all->0);
        }
    }
    loop
        invariant
            members_in(s@) == all,
            match members_from(rest@) {
                Some(more) => all == Some(part_views(out@) + more),
                None => all is None,
            },
        decreases rest@.len(),
    {
        let ghost before = part_views(out@);
        let ghost here = rest@;
        let (member, behind) = match read_member(rest) {
            Some(read) => read,
            None => return None,
        };
        let ghost one = (member.0@, member.1@);
        proof {
            let (key, k) = front_value(here)->0;
            lemma_after_is_shorter(k, COLON);
            lemma_after_is_shorter(behind@, COMMA);
        }
        out.push(member);
        assert(part_views(out@) == before + seq![one]);
        match expect(behind, COMMA) {
            Some(more) => {
                proof {
                    if let Some(ms) = members_from(more@) {
                        assert(before + (seq![one] + ms) == part_views(out@) + ms);
                    }
                }
                rest = more;
            },
            None => {
                return if is_end(behind, CLOSE_RECORD) {
                    Some(out)
                } else {
                    None
                };
            },
        }
    }
}

/// The items of the list that `s` is.
pub(crate) fn read_items<'a>(s: &'a [u8]) -> (r: Option<Vec<&'a [u8]>>)
    ensures
        match r {
            Some(items) => items_in(s@) == Some(item_views(items@)),
            None => items_in(s@) is None,
        },
{
    let mut out: Vec<&'a [u8]> = Vec::new();
    let start = match expect(s, OPEN_LIST) {
        Some(rest) => rest,
        None => return None,
    };
    if is_end(start, CLOSE_LIST) {
        assert(item_views(out@) == Seq::<Seq<u8>>::empty());
        return Some(out);
    }
    let mut rest = start;
    let ghost all = items_from(start@);
    proof {
        if all is Some {
            assert(item_views(out@) + all->0 == all->0);
        }
    }
    loop
        invariant
            items_in(s@) == all,
            match items_from(rest@) {
                Some(more) => all == Some(item_views(out@) + more),
                None => all is None,
            },
        decreases rest@.len(),
    {
        let ghost before = item_views(out@);
        let (item, behind) = match read_value(rest) {
            Some(read) => read,
            None => return None,
        };
        proof {
            lemma_after_is_shorter(behind@, COMMA);
        }
        out.push(item);
        assert(item_views(out@) == before + seq![item@]);
        match expect(behind, COMMA) {
            Some(more) => {
                proof {
                    if let Some(items) = items_from(more@) {
                        assert(before + (seq![item@] + items) == item_views(out@) + items);
                    }
                }
                rest = more;
            },
            None => {
                return if is_end(behind, CLOSE_LIST) {
                    Some(out)
                } else {
                    None
                };
            },
        }
    }
}

/// The one member named `name`. `Err` where there is more than one.
fn find_once<'a>(members: &Vec<(String, &'a [u8])>, name: &str) -> (r: Result<
    Option<&'a [u8]>,
    (),
>)
    ensures
        match r {
            Ok(f) => at_most_once(part_views(members@), name@) && bytes_view(f) == lookup(
                part_views(members@),
                name@,
            ),
            Err(_) => !at_most_once(part_views(members@), name@),
        },
{
    let ghost all = part_views(members@);
    let mut found: Option<&'a [u8]> = None;
    let ghost mut at: int = -1;
    let mut i: usize = 0;
    assert(all.skip(0) == all);
    while i < members.len()
        invariant
            i <= members@.len(),
            all == part_views(members@),
            -1 <= at < i,
            match found {
                Some(bytes) => at >= 0 && all[at].0 == name@ && lookup(all, name@) == Some(bytes@),
                None => at == -1 && lookup(all, name@) == lookup(all.skip(i as int), name@),
            },
            forall|k: int| 0 <= k < i && k != at ==> (#[trigger] all[k]).0 != name@,
        decreases members@.len() - i,
    {
        assert(all[i as int] == (members@[i as int].0@, members@[i as int].1@));
        assert(all.skip(i as int)[0] == all[i as int]);
        assert(all.skip(i as int).drop_first() == all.skip(i + 1));
        if same(members[i].0.as_str(), name) {
            if found.is_some() {
                assert(all[at].0 == name@ && all[i as int].0 == name@);
                return Err(());
            }
            found = Some(members[i].1);
            proof {
                at = i as int;
            }
        }
        i += 1;
    }
    assert(all.skip(i as int).len() == 0);
    Ok(found)
}

/// The bytes of a structure's fields.
pub(crate) fn read_fields<'a>(s: &'a [u8], names: &Vec<&str>, min: usize) -> (r: Option<
    Vec<Option<&'a [u8]>>,
>)
    ensures
        match r {
            Some(fs) => fields_in(s@, name_views(names@), min as nat) == Some(bytes_views(fs@))
                && fs@.len() == names@.len(),
            None => fields_in(s@, name_views(names@), min as nat) is None,
        },
{
    let ghost all = name_views(names@);
    let mut out: Vec<Option<&'a [u8]>> = Vec::new();
    let mut i: usize = 0;
    if let Some(members) = read_members(s) {
        let ghost ms = part_views(members@);
        while i < names.len()
            invariant
                i <= names@.len(),
                out@.len() == i,
                all == name_views(names@),
                ms == part_views(members@),
                members_in(s@) == Some(ms),
                forall|k: int|
                    0 <= k < i ==> at_most_once(ms, #[trigger] all[k]) && bytes_view(out@[k])
                        == lookup(ms, all[k]),
            decreases names@.len() - i,
        {
            assert(all[i as int] == names@[i as int]@);
            match find_once(&members, names[i]) {
                Ok(f) => out.push(f),
                Err(_) => return None,
            }
            i += 1;
        }
        assert(bytes_views(out@) == all.map_values(|n: Seq<char>| lookup(ms, n)));
        return Some(out);
    }
    if let Some(items) = read_items(s) {
        if min > items.len() || items.len() > names.len() {
            return None;
        }
        let ghost parts = item_views(items@);
        while i < names.len()
            invariant
                i <= names@.len(),
                out@.len() == i,
                parts == item_views(items@),
                forall|k: int|
                    0 <= k < i ==> bytes_view(#[trigger] out@[k]) == if k < parts.len() {
                        Some(parts[k])
                    } else {
                        None
                    },
            decreases names@.len() - i,
        {
            if i < items.len() {
                out.push(Some(items[i]));
            } else {
                out.push(None);
            }
            i += 1;
        }
        assert(bytes_views(out@) == Seq::new(
            all.len(),
            |k: int|
                if k < parts.len() {
                    Some(parts[k])
                } else {
                    None
                },
        ));
        return Some(out);
    }
    None
}

/// A field that must be text.
pub open spec fn text_field_in(f: Option<Seq<u8>>) -> Option<Seq<char>> {
    match f {
        Some(s) => text_in(s),
        None => None,
    }
}

/// A field that may be text, null or missing. `None` where it is neither.
pub open spec fn optional_text_in(f: Option<Seq<u8>>) -> Option<Option<Seq<char>>> {
    match f {
        None => Some(None),
        Some(s) => match json_text(s) {
            Some(Json::Null) => Some(None),
            Some(Json::Text(text)) => Some(Some(text)),
            _ => None,
        },
    }
}

/// Reads a field that must be text.
pub(crate) fn read_text_field(f: Option<&[u8]>) -> (r: Option<String>)
    ensures
        option_view(r) == text_field_in(bytes_view(f)),
{
    match f {
        Some(s) => read_text(s),
        None => None,
    }
}

/// Reads a field that may be text, null or missing.
pub(crate) fn read_optional_text(f: Option<&[u8]>) -> (r: Option<Option<String>>)
    ensures
        match r {
            Some(s) => optional_text_in(bytes_view(f)) == Some(option_view(s)),
            None => optional_text_in(bytes_view(f)) is None,
        },
{
    match f {
        None => Some(None),
        Some(s) => match parse(s) {
            Some(value) => if is_null(&value) {
                Some(None)
            } else {
                match as_str(&value) {
                    Some(text) => Some(Some(text.to_string())),
                    None => None,
                }
            },
            None => None,
        },
    }
}

/// Whether `s` writes `j`: it is read as `j`, and its items and members write
/// those of `j`, down to `depth`.
pub open spec fn writes(s: Seq<u8>, j: Json, depth: nat) -> bool
    decreases depth,
{
    &&& json_text(s) == Some(j)
    &&& match j {
        Json::List(items) => match items_in(s) {
            Some(parts) => parts.len() == items.len() && (depth > 0 ==> forall|i: int|
                0 <= i < parts.len() ==> writes(
                    #[trigger] parts[i],
                    items[i],
                    (depth - 1) as nat,
                )),
            None => false,
        },
        Json::Record(members) => match members_in(s) {
            Some(parts) => parts.len() == members.len() && (depth > 0 ==> forall|i: int|
                0 <= i < parts.len() ==> (#[trigger] parts[i]).0 == members[i].0 && writes(
                    parts[i].1,
                    members[i].1,
                    (depth - 1) as nat,
                )),
            None => false,
        },
        _ => true,
    }
}

proof fn lemma_lookup_part(
    parts: Seq<(Seq<char>, Seq<u8>)>,
    members: Seq<(Seq<char>, Json)>,
    depth: nat,
    name: Seq<char>,
)
    requires
        parts.len() == members.len(),
        forall|i: int|
            0 <= i < parts.len() ==> (#[trigger] parts[i]).0 == members[i].0 && writes(
                parts[i].1,
                members[i].1,
                depth,
            ),
    ensures
        match lookup(members, name) {
            Some(j) => lookup(parts, name) is Some && writes(lookup(parts, name)->0, j, depth),
            None => lookup(parts, name) is None,
        },
    decreases parts.len(),
{
    if parts.len() > 0 {
        let p = parts.drop_first();
        let m = members.drop_first();
        assert(parts[0].0 == members[0].0);
        assert forall|i: int| 0 <= i < p.len() implies (#[trigger] p[i]).0 == m[i].0 && writes(
            p[i].1,
            m[i].1,
            depth,
        ) by {
            assert(p[i] == parts[i + 1]);
        }
        lemma_lookup_part(p, m, depth, name);
    }
}

/// A structure that is written as a record is read field by field.
pub proof fn lemma_written_fields(
    s: Seq<u8>,
    members: Seq<(Seq<char>, Json)>,
    depth: nat,
    names: Seq<Seq<char>>,
    min: nat,
)
    requires
        writes(s, Json::Record(members), depth + 1),
        distinct_names(members),
    ensures
        fields_in(s, names, min) is Some,
        (fields_in(s, names, min)->0).len() == names.len(),
        forall|k: int|
            0 <= k < names.len() ==> match lookup(members, #[trigger] names[k]) {
                Some(j) => (fields_in(s, names, min)->0)[k] is Some && writes(
                    (fields_in(s, names, min)->0)[k]->0,
                    j,
                    depth,
                ),
                None => (fields_in(s, names, min)->0)[k] is None,
            },
{
    let parts = members_in(s)->0;
    assert forall|k: int| 0 <= k < names.len() implies at_most_once(
        parts,
        #[trigger] names[k],
    ) by {
        assert forall|i: int, j: int|
            0 <= i < j < parts.len() && (#[trigger] parts[i]).0 == names[k] implies (
        #[trigger] parts[j]).0 != names[k] by {
            assert(members[i].0 != members[j].0);
        }
    }
    assert forall|k: int| 0 <= k < names.len() implies match lookup(
        members,
        #[trigger] names[k],
    ) {
        Some(j) => (fields_in(s, names, min)->0)[k] is Some && writes(
            (fields_in(s, names, min)->0)[k]->0,
            j,
            depth,
        ),
        None => (fields_in(s, names, min)->0)[k] is None,
    } by {
        lemma_lookup_part(parts, members, depth, names[k]);
    }
}

/// White space before a mark makes no difference: spaces, tabs, line feeds and
/// carriage returns.
pub proof fn law_white_space_makes_no_difference(space: Seq<u8>, mark: u8, rest: Seq<u8>)
    requires
        forall|i: int|
            0 <= i < space.len() ==> #[trigger] space[i] == 32 || space[i] == 9 || space[i] == 10
                || space[i] == 13,
        mark != 32 && mark != 9 && mark != 10 && mark != 13,
    ensures
        after(space + seq![mark] + rest, mark) == Some(rest),
        ends(space + seq![mark] + space, mark),
        after(space + rest, mark) == after(rest, mark),
    decreases space.len(),
{
    let s = space + seq![mark] + rest;
    let t = space + rest;
    lemma_space(space, seq![mark] + rest);
    lemma_space(space, seq![mark] + space);
    lemma_space(space, rest);
    lemma_space(space, Seq::<u8>::empty());
    assert(s == space + (seq![mark] + rest));
    assert(space + seq![mark] + space == space + (seq![mark] + space));
    assert((seq![mark] + rest).drop_first() == rest);
    assert((seq![mark] + space).drop_first() == space);
    assert(space + Seq::<u8>::empty() == space);
}

proof fn lemma_space(space: Seq<u8>, rest: Seq<u8>)
    requires
        forall|i: int| 0 <= i < space.len() ==> is_space(#[trigger] space[i]),
    ensures
        after_space(space + rest) == after_space(rest),
    decreases space.len(),
{
    if space.len() > 0 {
        let t = space.drop_first();
        assert forall|i: int| 0 <= i < t.len() implies is_space(#[trigger] t[i]) by {
            assert(t[i] == space[i + 1]);
        }
        lemma_space(t, rest);
        assert(is_space(space[0]));
        assert((space + rest).drop_first() == t + rest);
    } else {
        assert(space + rest == rest);
    }
}

/// However many members a record has, all of them are read, in their order: one
/// after each comma, up to the brace that closes it.
pub proof fn law_every_member_is_read(
    starts: Seq<Seq<u8>>,
    rests: Seq<Seq<u8>>,
    members: Seq<(Seq<char>, Seq<u8>)>,
)
    requires
        members.len() > 0,
        starts.len() == members.len(),
        rests.len() == members.len(),
        forall|k: int|
            0 <= k < members.len() ==> front_member(#[trigger] starts[k]) == Some(
                (members[k], rests[k]),
            ),
        forall|k: int|
            0 <= k < members.len() - 1 ==> after(#[trigger] rests[k], 44) == Some(starts[k + 1]),
        ends(rests.last(), 125),
    ensures
        members_from(starts[0]) == Some(members),
    decreases members.len(),
{
    assert(front_member(starts[0]) == Some((members[0], rests[0])));
    if members.len() == 1 {
        lemma_end_is_no_comma(rests[0], 125);
        assert(members == seq![members[0]]);
    } else {
        let s = starts.drop_first();
        let r = rests.drop_first();
        let m = members.drop_first();
        assert(after(rests[0], 44) == Some(starts[1]));
        assert forall|k: int| 0 <= k < m.len() implies front_member(#[trigger] s[k]) == Some(
            (m[k], r[k]),
        ) by {
            assert(front_member(starts[k + 1]) == Some((members[k + 1], rests[k + 1])));
        }
        assert forall|k: int| 0 <= k < m.len() - 1 implies after(#[trigger] r[k], 44) == Some(
            s[k + 1],
        ) by {
            assert(after(rests[k + 1], 44) == Some(starts[k + 2]));
        }
        law_every_member_is_read(s, r, m);
        assert(seq![members[0]] + m == members);
    }
}

proof fn lemma_end_is_no_comma(s: Seq<u8>, mark: u8)
    requires
        ends(s, mark),
        mark != 44,
    ensures
        after(s, 44) is None,
{
}

/// However many items a list has, all of them are read, in their order.
pub proof fn law_every_item_is_read(
    starts: Seq<Seq<u8>>,
    rests: Seq<Seq<u8>>,
    items: Seq<Seq<u8>>,
)
    requires
        items.len() > 0,
        starts.len() == items.len(),
        rests.len() == items.len(),
        forall|k: int|
            0 <= k < items.len() ==> front_value(#[trigger] starts[k]) == Some(
                (items[k], rests[k]),
            ),
        forall|k: int|
            0 <= k < items.len() - 1 ==> after(#[trigger] rests[k], 44) == Some(starts[k + 1]),
        ends(rests.last(), 93),
    ensures
        items_from(starts[0]) == Some(items),
    decreases items.len(),
{
    assert(front_value(starts[0]) == Some((items[0], rests[0])));
    if items.len() == 1 {
        lemma_end_is_no_comma(rests[0], 93);
        assert(items == seq![items[0]]);
    } else {
        let s = starts.drop_first();
        let r = rests.drop_first();
        let m = items.drop_first();
        assert(after(rests[0], 44) == Some(starts[1]));
        assert forall|k: int| 0 <= k < m.len() implies front_value(#[trigger] s[k]) == Some(
            (m[k], r[k]),
        ) by {
            assert(front_value(starts[k + 1]) == Some((items[k + 1], rests[k + 1])));
        }
        assert forall|k: int| 0 <= k < m.len() - 1 implies after(#[trigger] r[k], 44) == Some(
            s[k + 1],
        ) by {
            assert(after(rests[k + 1], 44) == Some(starts[k + 2]));
        }
        law_every_item_is_read(s, r, m);
        assert(seq![items[0]] + m == items);
    }
}

/// The fields of a record are what stands under their names, wherever in it that
/// is.
pub proof fn law_fields_go_by_name(
    s: Seq<u8>,
    members: Seq<(Seq<char>, Seq<u8>)>,
    names: Seq<Seq<char>>,
    min: nat,
    k: int,
    i: int,
)
    requires
        members_in(s) == Some(members),
        forall|k: int| 0 <= k < names.len() ==> at_most_once(members, #[trigger] names[k]),
        0 <= k < names.len(),
        0 <= i < members.len(),
    ensures
        fields_in(s, names, min) matches Some(fs) && fs.len() == names.len() && (members[i].0
            == names[k] ==> fs[k] == Some(members[i].1)) && ((forall|j: int|
            0 <= j < members.len() ==> (#[trigger] members[j]).0 != names[k]) ==> fs[k] is None),
{
    assert(at_most_once(members, names[k]));
    let a = members.take(i);
    let b = members.skip(i + 1);
    if members[i].0 == names[k] {
        assert(members == a + seq![(names[k], members[i].1)] + b);
        assert forall|j: int| 0 <= j < a.len() implies (#[trigger] a[j]).0 != names[k] by {
            assert(members[j].0 != names[k] || members[i].0 != names[k]);
        }
        law_first_member_is_found(a, names[k], members[i].1, b);
    }
    if forall|j: int| 0 <= j < members.len() ==> (#[trigger] members[j]).0 != names[k] {
        law_first_member_is_found(
            members,
            names[k],
            members[i].1,
            Seq::<(Seq<char>, Seq<u8>)>::empty(),
        );
    }
}

/// The fields of a list are its items by position. Those at the end may be left
/// out, but not the ones that are needed, and there are no more than fields.
pub proof fn law_fields_of_a_list_go_by_position(
    s: Seq<u8>,
    items: Seq<Seq<u8>>,
    names: Seq<Seq<char>>,
    min: nat,
    k: int,
)
    requires
        members_in(s) is None,
        items_in(s) == Some(items),
        0 <= k < names.len(),
    ensures
        fields_in(s, names, min) is Some <==> min <= items.len() <= names.len(),
        fields_in(s, names, min) matches Some(fs) ==> fs.len() == names.len() && (k < items.len()
            ==> fs[k] == Some(items[k])) && (k >= items.len() ==> fs[k] is None),
{
}

/// A text field takes text. An optional one takes null as well, and may be
/// missing; anything else in its place makes the whole unreadable.
pub proof fn law_text_fields_take_text(s: Seq<u8>, text: Seq<char>)
    ensures
        json_text(s) == Some(Json::Text(text)) ==> text_field_in(Some(s)) == Some(text)
            && optional_text_in(Some(s)) == Some(Some(text)),
        json_text(s) == Some(Json::Null) ==> text_field_in(Some(s)) is None && optional_text_in(
            Some(s),
        ) == Some(None::<Seq<char>>),
        json_text(s) is None ==> text_field_in(Some(s)) is None && optional_text_in(Some(s))
            is None,
        json_text(s) matches Some(j) && j !is Text && j !is Null ==> text_field_in(Some(s)) is None
            && optional_text_in(Some(s)) is None,
        text_field_in(None) is None,
        optional_text_in(None) == Some(None::<Seq<char>>),
{
}

/// A value is as long as it is, and what follows it is the rest; a member is a
/// value that is text, a colon and another value.
pub proof fn law_member_is_a_name_and_a_value(
    s: Seq<u8>,
    n: nat,
    name: Seq<char>,
    more: Seq<u8>,
    m: nat,
)
    requires
        value_len(s) == Some(n),
        0 < n <= s.len(),
        json_text(s.take(n as int)) == Some(Json::Text(name)),
        after(s.skip(n as int), 58) == Some(more),
        value_len(more) == Some(m),
        0 < m <= more.len(),
    ensures
        front_value(s) == Some((s.take(n as int), s.skip(n as int))),
        front_member(s) == Some(((name, more.take(m as int)), more.skip(m as int))),
{
}

/// A record is what stands between braces, and a list what stands between
/// brackets; without the first of them it is neither.
pub proof fn law_records_are_between_braces(s: Seq<u8>, rest: Seq<u8>)
    ensures
        after(s, 123) == Some(rest) ==> {
            &&& ends(rest, 125) ==> members_in(s) == Some(Seq::<(Seq<char>, Seq<u8>)>::empty())
            &&& !ends(rest, 125) ==> members_in(s) == members_from(rest)
        },
        after(s, 91) == Some(rest) ==> {
            &&& ends(rest, 93) ==> items_in(s) == Some(Seq::<Seq<u8>>::empty())
            &&& !ends(rest, 93) ==> items_in(s) == items_from(rest)
        },
        after(s, 123) is None ==> members_in(s) is None,
        after(s, 91) is None ==> items_in(s) is None,
{
}

} // verus!
