//! Reading the output of `rg --json`.
use serde_json::Value;
use std::ops::Range;
use vstd::prelude::*;
use vstd::string::*;
use vstd::utf8::*;

use super::base64::{base64_bytes, base64_text, decode_base64, law_base64_roundtrip};
use super::hits::{hit_views, law_line_match_is_well_formed, line_match, matched_line, Hit, HitView};
use super::sgr::{span, spans, Span};
use crate::json::{
    as_array, field_json, field_views, fields, fields_of, get_offset, get_optional_text,
    get_optional_unsigned, json_of, json_text, json_views, lookup, name_views, offset_field,
    optional_text_field, optional_unsigned_field, parse, Json,
};
use crate::outline::{
    at_most_once, bytes_view, bytes_views, fields_in, members_in, read_fields, read_text_field,
    text_field_in, CLOSE_LIST, OPEN_LIST,
};
use crate::text::{
    law_pieces_are_what_is_between, lemma_filter_map_concat, lossy_text, option_view, pieces, same,
    slice_views, split_lines, text_of,
};

verus! {

/// rg reports text as UTF-8 `text` when it can, otherwise as base64 `bytes`.
struct RgData {
    text: Option<String>,
    bytes: Option<String>,
}

/// The text that is reported as `text` or as `bytes`, and whether it came
/// through verbatim.
pub open spec fn decoded(text: Option<Seq<char>>, bytes: Option<Seq<char>>) -> (Seq<char>, bool) {
    match text {
        Some(t) => (t, true),
        None => match bytes {
            Some(b) => (lossy_text(base64_bytes(encode_utf8(b))), false),
            None => (seq![], false),
        },
    }
}

impl RgData {
    /// The text, and whether it came through verbatim (so byte offsets from
    /// rg still line up with it).
    fn decode(self) -> (r: (String, bool))
        ensures
            (r.0@, r.1) == decoded(option_view(self.text), option_view(self.bytes)),
    {
        match self.text {
            Some(text) => (text, true),
            None => match self.bytes {
                Some(b64) => {
                    let bytes = decode_base64(b64.as_str());
                    (text_of(bytes.as_slice()), false)
                },
                None => (String::new(), false),
            },
        }
    }
}

/// The text that a data object of rg reports.
pub open spec fn rg_data(f: Option<Json>) -> Option<(Seq<char>, bool)> {
    match f {
        Some(j) => match fields_of(j, seq!["text"@, "bytes"@], 2) {
            Some(fs) => match (optional_text_field(fs[0]), optional_text_field(fs[1])) {
                (Some(text), Some(bytes)) => Some(decoded(text, bytes)),
                _ => None,
            },
            None => None,
        },
        None => None,
    }
}

/// The range that a submatch of rg has.
pub open spec fn rg_span(j: Json) -> Option<Span> {
    match fields_of(j, seq!["start"@, "end"@], 2) {
        Some(fs) => match (offset_field(fs[0]), offset_field(fs[1])) {
            (Some(start), Some(end)) => Some(Span { start: start as int, end: end as int }),
            _ => None,
        },
        None => None,
    }
}

/// The ranges that the submatches of rg have, none where they are left out.
pub open spec fn rg_spans(f: Option<Json>) -> Option<Seq<Span>> {
    match f {
        None => Some(seq![]),
        Some(Json::List(items)) => if forall|i: int|
            0 <= i < items.len() ==> rg_span(#[trigger] items[i]) is Some {
            Some(items.map_values(|j: Json| rg_span(j)->0))
        } else {
            None
        },
        _ => None,
    }
}

/// The hit that the data of a `match` message says.
pub open spec fn rg_match(f: Option<Json>) -> Option<HitView> {
    match f {
        Some(j) => match fields_of(
            j,
            seq!["path"@, "lines"@, "line_number"@, "submatches"@],
            3,
        ) {
            Some(fs) => match (
                rg_data(fs[0]),
                rg_data(fs[1]),
                optional_unsigned_field(fs[2]),
                rg_spans(fs[3]),
            ) {
                (Some((path, _)), Some((text, verbatim)), Some(number), Some(ranges)) => Some(
                    HitView {
                        path,
                        line: matched_line(
                            match number {
                                Some(n) => n,
                                None => 0,
                            },
                            text,
                            if verbatim {
                                ranges
                            } else {
                                seq![]
                            },
                        ),
                    },
                ),
                _ => None,
            },
            None => None,
        },
        None => None,
    }
}

/// The value of a member that `data` are the bytes of. It is read as the one
/// item of a list, so that it may nest as deep as it may inside a record.
pub open spec fn member_value(data: Seq<u8>) -> Option<Json> {
    match json_text(seq![OPEN_LIST] + data + seq![CLOSE_LIST]) {
        Some(Json::List(items)) => if items.len() == 1 {
            Some(items[0])
        } else {
            None
        },
        _ => None,
    }
}

/// The hit that a message of rg says. Only `match` messages say one.
pub open spec fn rg_hit(line: Seq<u8>) -> Option<HitView> {
    match fields_in(line, seq!["type"@, "data"@], 1) {
        Some(fs) => if text_field_in(fs[0]) == Some("match"@) {
            match fs[1] {
                Some(data) => rg_match(member_value(data)),
                None => None,
            }
        } else {
            None
        },
        None => None,
    }
}

/// The line of a message is well-formed.
pub proof fn lemma_rg_hit_wf(line: Seq<u8>)
    requires
        rg_hit(line) is Some,
    ensures
        (rg_hit(line)->0).line.wf(),
{
    let data = (fields_in(line, seq!["type"@, "data"@], 1)->0)[1]->0;
    let j = member_value(data)->0;
    let fs = fields_of(j, seq!["path"@, "lines"@, "line_number"@, "submatches"@], 3)->0;
    let (text, verbatim) = rg_data(fs[1])->0;
    let number = match optional_unsigned_field(fs[2])->0 {
        Some(n) => n,
        None => 0,
    };
    let ranges = if verbatim {
        rg_spans(fs[3])->0
    } else {
        seq![]
    };
    law_line_match_is_well_formed(number, text, ranges);
}

/// The hits that the output of rg lists, one per line that is a `match`
/// message.
pub open spec fn rg_hits(stdout: Seq<u8>) -> Seq<HitView> {
    pieces(stdout, 10u8).filter_map(|line: Seq<u8>| rg_hit(line))
}

/// Reads a data object.
fn read_data(f: Option<&Value>) -> (r: Option<(String, bool)>)
    ensures
        match r {
            Some((s, verbatim)) => rg_data(field_json(f)) == Some((s@, verbatim)),
            None => rg_data(field_json(f)) is None,
        },
{
    let v: &Value = match f {
        Some(v) => v,
        None => return None,
    };
    let names = vec!["text", "bytes"];
    assert(name_views(names@) == seq!["text"@, "bytes"@]);
    let fs = match fields(v, &names, 2) {
        Some(fs) => fs,
        None => return None,
    };
    assert(field_views(fs@)[0] == field_json(fs@[0]));
    assert(field_views(fs@)[1] == field_json(fs@[1]));
    match (get_optional_text(fs[0]), get_optional_text(fs[1])) {
        (Some(text), Some(bytes)) => Some(RgData { text, bytes }.decode()),
        _ => None,
    }
}

/// Reads a submatch.
fn read_span(v: &Value) -> (r: Option<Range<usize>>)
    ensures
        match r {
            Some(range) => rg_span(json_of(*v)) == Some(span(range)),
            None => rg_span(json_of(*v)) is None,
        },
{
    let names = vec!["start", "end"];
    assert(name_views(names@) == seq!["start"@, "end"@]);
    let fs = match fields(v, &names, 2) {
        Some(fs) => fs,
        None => return None,
    };
    assert(field_views(fs@)[0] == field_json(fs@[0]));
    assert(field_views(fs@)[1] == field_json(fs@[1]));
    match (get_offset(fs[0]), get_offset(fs[1])) {
        (Some(start), Some(end)) => Some(Range { start, end }),
        _ => None,
    }
}

/// Reads the submatches.
fn read_spans(f: Option<&Value>) -> (r: Option<Vec<Range<usize>>>)
    ensures
        match r {
            Some(ranges) => rg_spans(field_json(f)) == Some(spans(ranges@)),
            None => rg_spans(field_json(f)) is None,
        },
{
    let mut out: Vec<Range<usize>> = Vec::new();
    let v: &Value = match f {
        Some(v) => v,
        None => {
            assert(spans(out@) == Seq::<Span>::empty());
            return Some(out);
        },
    };
    let items: &Vec<Value> = match as_array(v) {
        Some(items) => items,
        None => return None,
    };
    let ghost js = json_views(items@);
    let mut i: usize = 0;
    while i < items.len()
        invariant
            i <= items@.len(),
            out@.len() == i,
            js == json_views(items@),
            field_json(f) == Some(Json::List(js)),
            forall|k: int| 0 <= k < i ==> rg_span(#[trigger] js[k]) == Some(span(out@[k])),
        decreases items@.len() - i,
    {
        assert(js[i as int] == json_of(items@[i as int]));
        match read_span(&items[i]) {
            Some(range) => out.push(range),
            None => {
                assert(!(rg_span(js[i as int]) is Some));
                return None;
            },
        }
        i += 1;
    }
    assert(js.map_values(|j: Json| rg_span(j)->0) == spans(out@));
    Some(out)
}

/// Reads the data of a `match` message.
fn read_match(f: Option<&Value>) -> (r: Option<Hit>)
    ensures
        match r {
            Some(hit) => rg_match(field_json(f)) == Some(hit@),
            None => rg_match(field_json(f)) is None,
        },
{
    let v: &Value = match f {
        Some(v) => v,
        None => return None,
    };
    let names = vec!["path", "lines", "line_number", "submatches"];
    assert(name_views(names@) == seq!["path"@, "lines"@, "line_number"@, "submatches"@]);
    let fs = match fields(v, &names, 3) {
        Some(fs) => fs,
        None => return None,
    };
    assert(field_views(fs@)[0] == field_json(fs@[0]));
    assert(field_views(fs@)[1] == field_json(fs@[1]));
    assert(field_views(fs@)[2] == field_json(fs@[2]));
    assert(field_views(fs@)[3] == field_json(fs@[3]));
    let (path, _) = match read_data(fs[0]) {
        Some(data) => data,
        None => return None,
    };
    let (text, verbatim) = match read_data(fs[1]) {
        Some(data) => data,
        None => return None,
    };
    let line_number: u64 = match get_optional_unsigned(fs[2]) {
        Some(Some(n)) => n,
        Some(None) => 0,
        None => return None,
    };
    let submatches = match read_spans(fs[3]) {
        Some(ranges) => ranges,
        None => return None,
    };
    let ranges: Vec<Range<usize>> = if verbatim {
        submatches
    } else {
        Vec::new()
    };
    assert(!verbatim ==> spans(ranges@) == Seq::<Span>::empty());
    Some(Hit { path, line: line_match(line_number, text, ranges) })
}

/// Reads the hit that the bytes of a message's data say.
fn read_match_text(data: &[u8]) -> (r: Option<Hit>)
    ensures
        match r {
            Some(hit) => rg_match(member_value(data@)) == Some(hit@),
            None => rg_match(member_value(data@)) is None,
        },
{
    let mut text: Vec<u8> = Vec::new();
    text.push(OPEN_LIST);
    text.extend_from_slice(data);
    text.push(CLOSE_LIST);
    assert(text@ == seq![OPEN_LIST] + data@ + seq![CLOSE_LIST]);
    let value: Value = match parse(text.as_slice()) {
        Some(value) => value,
        None => return None,
    };
    let items: &Vec<Value> = match as_array(&value) {
        Some(items) => items,
        None => return None,
    };
    if items.len() != 1 {
        return None;
    }
    assert(json_views(items@)[0] == json_of(items@[0]));
    read_match(Some(&items[0]))
}

/// Reads one message of rg.
pub fn read_message(line: &[u8]) -> (r: Option<Hit>)
    ensures
        match r {
            Some(hit) => rg_hit(line@) == Some(hit@),
            None => rg_hit(line@) is None,
        },
{
    let names = vec!["type", "data"];
    assert(name_views(names@) == seq!["type"@, "data"@]);
    let fs = match read_fields(line, &names, 1) {
        Some(fs) => fs,
        None => return None,
    };
    assert(bytes_views(fs@)[0] == bytes_view(fs@[0]));
    assert(bytes_views(fs@)[1] == bytes_view(fs@[1]));
    let kind = match read_text_field(fs[0]) {
        Some(kind) => kind,
        None => return None,
    };
    if !same(kind.as_str(), "match") {
        return None;
    }
    match fs[1] {
        Some(data) => read_match_text(data),
        None => None,
    }
}

/// Parses the output of `rg --json`.
pub fn parse_rg(stdout: &[u8]) -> (r: Vec<Hit>)
    ensures
        hit_views(r@) == rg_hits(stdout@),
{
    let ghost f = |line: Seq<u8>| rg_hit(line);
    let lines = split_lines(stdout);
    let ghost all = pieces(stdout@, 10u8);
    let mut hits: Vec<Hit> = Vec::new();
    let mut i: usize = 0;
    assert(all.take(0).filter_map(f) =~= hit_views(hits@));
    while i < lines.len()
        invariant
            f == (|line: Seq<u8>| rg_hit(line)),
            i <= lines@.len(),
            all == slice_views(lines@),
            hit_views(hits@) == all.take(i as int).filter_map(f),
        decreases lines@.len() - i,
    {
        let line: &[u8] = lines[i];
        proof {
            all.lemma_filter_map_take_succ(f, i as int);
            assert(all[i as int] == line@);
        }
        let ghost before = hits@;
        if let Some(hit) = read_message(line) {
            hits.push(hit);
            assert(hit_views(hits@) == hit_views(before) + seq![hit@]);
        }
        i += 1;
    }
    assert(all.take(i as int) == all);
    hits
}

/// The data object for `text`.
pub open spec fn text_data(text: Seq<char>) -> Json {
    Json::Record(seq![("text"@, Json::Text(text))])
}

/// The submatch object for `s`.
pub open spec fn submatch(s: Span) -> Json {
    Json::Record(
        seq![
            ("start"@, Json::Unsigned(s.start as u64)),
            ("end"@, Json::Unsigned(s.end as u64)),
        ],
    )
}

/// The data of a message for a match of rg.
pub open spec fn match_data(path: Json, lines: Json, number: u64, submatches: Json) -> Json {
    Json::Record(
        seq![
            ("path"@, path),
            ("lines"@, lines),
            ("line_number"@, Json::Unsigned(number)),
            ("submatches"@, submatches),
        ],
    )
}

proof fn lemma_text_data(text: Seq<char>)
    ensures
        rg_data(Some(text_data(text))) == Some((text, true)),
{
    reveal_strlit("text");
    reveal_strlit("bytes");
    reveal_with_fuel(lookup::<Json>, 3);
    let ms = seq![("text"@, Json::Text(text))];
    assert("text"@.len() == 4 && "bytes"@.len() == 5);
    assert(lookup(ms, "text"@) == Some(Json::Text(text)));
    assert(lookup(ms, "bytes"@) is None);
    let names = seq!["text"@, "bytes"@];
    let fs = names.map_values(|n: Seq<char>| lookup(ms, n));
    assert(fs[0] == lookup(ms, "text"@));
    assert(fs[1] == lookup(ms, "bytes"@));
}

proof fn lemma_submatch(s: Span)
    requires
        0 <= s.start <= usize::MAX,
        0 <= s.end <= usize::MAX,
    ensures
        rg_span(submatch(s)) == Some(s),
{
    reveal_strlit("start");
    reveal_strlit("end");
    reveal_with_fuel(lookup::<Json>, 3);
    let a = ("start"@, Json::Unsigned(s.start as u64));
    let b = ("end"@, Json::Unsigned(s.end as u64));
    let ms = seq![a, b];
    assert("start"@.len() == 5 && "end"@.len() == 3);
    assert(lookup(ms, "start"@) == Some(a.1));
    assert(ms.drop_first() == seq![b]);
    assert(lookup(ms, "end"@) == Some(b.1));
    let names = seq!["start"@, "end"@];
    let fs = names.map_values(|n: Seq<char>| lookup(ms, n));
    assert(fs[0] == lookup(ms, "start"@));
    assert(fs[1] == lookup(ms, "end"@));
}

proof fn lemma_match_data(path: Json, lines: Json, number: u64, submatches: Json)
    ensures
        rg_match(Some(match_data(path, lines, number, submatches))) == match (
            rg_data(Some(path)),
            rg_data(Some(lines)),
            rg_spans(Some(submatches)),
        ) {
            (Some((p, _)), Some((text, verbatim)), Some(ranges)) => Some(
                HitView {
                    path: p,
                    line: matched_line(
                        number,
                        text,
                        if verbatim {
                            ranges
                        } else {
                            seq![]
                        },
                    ),
                },
            ),
            _ => None,
        },
{
    reveal_strlit("path");
    reveal_strlit("lines");
    reveal_strlit("line_number");
    reveal_strlit("submatches");
    reveal_with_fuel(lookup::<Json>, 5);
    assert("path"@[0] == 'p' && "lines"@[0] == 'l' && "submatches"@[0] == 's');
    assert("lines"@.len() == 5 && "line_number"@.len() == 11);
    let m0 = ("path"@, path);
    let m1 = ("lines"@, lines);
    let m2 = ("line_number"@, Json::Unsigned(number));
    let m3 = ("submatches"@, submatches);
    let ms = seq![m0, m1, m2, m3];
    assert(ms.drop_first() == seq![m1, m2, m3]);
    assert(seq![m1, m2, m3].drop_first() == seq![m2, m3]);
    assert(seq![m2, m3].drop_first() == seq![m3]);
    assert(lookup(ms, "path"@) == Some(path));
    assert(lookup(ms, "lines"@) == Some(lines));
    assert(lookup(ms, "line_number"@) == Some(m2.1));
    assert(lookup(ms, "submatches"@) == Some(submatches));
    let names = seq!["path"@, "lines"@, "line_number"@, "submatches"@];
    let fs = names.map_values(|n: Seq<char>| lookup(ms, n));
    assert(fs[0] == Some(path) && fs[1] == Some(lines) && fs[2] == Some(m2.1) && fs[3] == Some(
        submatches,
    ));
}

/// A match that rg reports is read back: its path, its line number, the line,
/// and the ranges of its submatches, whatever else the message has in it, as
/// long as its type and its data are there once.
pub proof fn law_rg_match_is_read_back(
    line: Seq<u8>,
    members: Seq<(Seq<char>, Seq<u8>)>,
    path: Seq<char>,
    text: Seq<char>,
    number: u64,
    ranges: Seq<Span>,
)
    requires
        members_in(line) == Some(members),
        at_most_once(members, "type"@),
        at_most_once(members, "data"@),
        text_field_in(lookup(members, "type"@)) == Some("match"@),
        lookup(members, "data"@) is Some,
        member_value(lookup(members, "data"@)->0) == Some(
            match_data(
                text_data(path),
                text_data(text),
                number,
                Json::List(ranges.map_values(|s: Span| submatch(s))),
            ),
        ),
        forall|i: int|
            0 <= i < ranges.len() ==> 0 <= (#[trigger] ranges[i]).start <= usize::MAX && 0
                <= ranges[i].end <= usize::MAX,
    ensures
        rg_hit(line) == Some(HitView { path, line: matched_line(number, text, ranges) }),
{
    let items = ranges.map_values(|s: Span| submatch(s));
    lemma_text_data(path);
    lemma_text_data(text);
    assert forall|i: int| 0 <= i < items.len() implies rg_span(#[trigger] items[i]) == Some(
        ranges[i],
    ) by {
        lemma_submatch(ranges[i]);
    }
    assert(items.map_values(|j: Json| rg_span(j)->0) == ranges);
    lemma_match_data(text_data(path), text_data(text), number, Json::List(items));
    let names = seq!["type"@, "data"@];
    assert forall|k: int| 0 <= k < names.len() implies at_most_once(
        members,
        #[trigger] names[k],
    ) by {
        assert(k == 0 || k == 1);
    }
    let fs = names.map_values(|n: Seq<char>| lookup(members, n));
    assert(fs[0] == lookup(members, "type"@));
    assert(fs[1] == lookup(members, "data"@));
}

/// A line that is not UTF-8, which rg reports in base64, comes back as the
/// lossy text of its bytes.
pub proof fn law_rg_bytes_are_read_back(bytes: Seq<u8>, padded: bool, b64: Seq<char>)
    requires
        encode_utf8(b64) == base64_text(bytes, padded),
    ensures
        rg_data(Some(Json::Record(seq![("bytes"@, Json::Text(b64))]))) == Some(
            (lossy_text(bytes), false),
        ),
{
    reveal_strlit("text");
    reveal_strlit("bytes");
    reveal_with_fuel(lookup::<Json>, 3);
    law_base64_roundtrip(bytes, padded);
    let ms = seq![("bytes"@, Json::Text(b64))];
    assert("text"@.len() == 4 && "bytes"@.len() == 5);
    assert(lookup(ms, "bytes"@) == Some(Json::Text(b64)));
    assert(lookup(ms, "text"@) is None);
    let names = seq!["text"@, "bytes"@];
    let fs = names.map_values(|n: Seq<char>| lookup(ms, n));
    assert(fs[0] == lookup(ms, "text"@));
    assert(fs[1] == lookup(ms, "bytes"@));
}

/// What rg prints is read line by line: the hits of two outputs are those of the
/// two in a row, and a line says a hit where it is a `match` message.
pub proof fn law_rg_output_is_read_line_by_line(a: Seq<u8>, b: Seq<u8>, line: Seq<u8>)
    ensures
        rg_hits(a + seq![10u8] + b) == rg_hits(a) + rg_hits(b),
        !line.contains(10u8) ==> rg_hits(line) == match rg_hit(line) {
            Some(hit) => seq![hit],
            None => seq![],
        },
{
    let f = |line: Seq<u8>| rg_hit(line);
    law_pieces_are_what_is_between(a, b, 10u8);
    law_pieces_are_what_is_between(a, line, 10u8);
    lemma_filter_map_concat(pieces(a, 10u8), pieces(b, 10u8), f);
    Seq::lemma_filter_map_singleton(line, f);
}

/// Messages of another type than `match` say no hit, and neither do those without
/// a type or without data.
pub proof fn law_other_messages_say_no_hit(line: Seq<u8>, members: Seq<(Seq<char>, Seq<u8>)>)
    requires
        members_in(line) == Some(members),
        text_field_in(lookup(members, "type"@)) != Some("match"@) || lookup(members, "data"@)
            is None,
    ensures
        rg_hit(line) is None,
{
    let names = seq!["type"@, "data"@];
    let fs = names.map_values(|n: Seq<char>| lookup(members, n));
    assert(fs[0] == lookup(members, "type"@));
    assert(fs[1] == lookup(members, "data"@));
}

/// A match goes by four members of its data, whatever else is there: without a
/// path or lines it is none, without a line number that is 0, and without
/// submatches nothing of the line is a match.
pub proof fn law_rg_match_goes_by_its_members(
    ms: Seq<(Seq<char>, Json)>,
    path: Seq<char>,
    text: Seq<char>,
    number: Option<u64>,
    ranges: Option<Seq<Span>>,
)
    requires
        match number {
            Some(n) => lookup(ms, "line_number"@) == Some(Json::Unsigned(n)),
            None => lookup(ms, "line_number"@) is None || lookup(ms, "line_number"@) == Some(
                Json::Null,
            ),
        },
        match ranges {
            Some(r) => lookup(ms, "submatches"@) == Some(
                Json::List(r.map_values(|s: Span| submatch(s))),
            ),
            None => lookup(ms, "submatches"@) is None,
        },
        ranges matches Some(r) ==> forall|i: int|
            0 <= i < r.len() ==> 0 <= (#[trigger] r[i]).start <= usize::MAX && 0 <= r[i].end
                <= usize::MAX,
    ensures
        lookup(ms, "path"@) is None || lookup(ms, "lines"@) is None ==> rg_match(
            Some(Json::Record(ms)),
        ) is None,
        lookup(ms, "path"@) == Some(text_data(path)) && lookup(ms, "lines"@) == Some(
            text_data(text),
        ) ==> rg_match(Some(Json::Record(ms))) == Some(
            HitView {
                path,
                line: matched_line(
                    if number is Some {
                        number->0
                    } else {
                        0
                    },
                    text,
                    if ranges is Some {
                        ranges->0
                    } else {
                        seq![]
                    },
                ),
            },
        ),
{
    let names = seq!["path"@, "lines"@, "line_number"@, "submatches"@];
    let fs = names.map_values(|n: Seq<char>| lookup(ms, n));
    assert(fs[0] == lookup(ms, "path"@));
    assert(fs[1] == lookup(ms, "lines"@));
    assert(fs[2] == lookup(ms, "line_number"@));
    assert(fs[3] == lookup(ms, "submatches"@));
    lemma_text_data(path);
    lemma_text_data(text);
    if let Some(r) = ranges {
        let items = r.map_values(|s: Span| submatch(s));
        assert forall|i: int| 0 <= i < items.len() implies rg_span(#[trigger] items[i]) == Some(
            r[i],
        ) by {
            lemma_submatch(r[i]);
        }
        assert(items.map_values(|j: Json| rg_span(j)->0) == r);
    }
}

/// Offsets into a line that is not UTF-8 say nothing about its text, so nothing of
/// it is a match.
pub proof fn law_lines_in_base64_have_no_ranges(
    path: Seq<char>,
    bytes: Seq<u8>,
    padded: bool,
    b64: Seq<char>,
    number: u64,
    ranges: Seq<Span>,
)
    requires
        encode_utf8(b64) == base64_text(bytes, padded),
        forall|i: int|
            0 <= i < ranges.len() ==> 0 <= (#[trigger] ranges[i]).start <= usize::MAX && 0
                <= ranges[i].end <= usize::MAX,
    ensures
        rg_match(
            Some(
                match_data(
                    text_data(path),
                    Json::Record(seq![("bytes"@, Json::Text(b64))]),
                    number,
                    Json::List(ranges.map_values(|s: Span| submatch(s))),
                ),
            ),
        ) == Some(HitView { path, line: matched_line(number, lossy_text(bytes), seq![]) }),
{
    let items = ranges.map_values(|s: Span| submatch(s));
    lemma_text_data(path);
    law_rg_bytes_are_read_back(bytes, padded, b64);
    assert forall|i: int| 0 <= i < items.len() implies rg_span(#[trigger] items[i]) == Some(
        ranges[i],
    ) by {
        lemma_submatch(ranges[i]);
    }
    lemma_match_data(
        text_data(path),
        Json::Record(seq![("bytes"@, Json::Text(b64))]),
        number,
        Json::List(items),
    );
}

/// Text that rg could read comes through as it is, also where there are bytes
/// beside it; where there is neither, there is none.
pub proof fn law_text_comes_through_verbatim(
    ms: Seq<(Seq<char>, Json)>,
    text: Seq<char>,
    bytes: Seq<char>,
)
    ensures
        lookup(ms, "text"@) == Some(Json::Text(text)) && (lookup(ms, "bytes"@) is None || lookup(
            ms,
            "bytes"@,
        ) == Some(Json::Text(bytes))) ==> rg_data(Some(Json::Record(ms))) == Some((text, true)),
        lookup(ms, "text"@) is None && lookup(ms, "bytes"@) is None ==> rg_data(
            Some(Json::Record(ms)),
        ) == Some((Seq::<char>::empty(), false)),
        rg_data(None) is None,
{
    let names = seq!["text"@, "bytes"@];
    let fs = names.map_values(|n: Seq<char>| lookup(ms, n));
    assert(fs[0] == lookup(ms, "text"@));
    assert(fs[1] == lookup(ms, "bytes"@));
}

/// The ranges of submatches are all of theirs, in their order; where one of them
/// has none, the message is not read.
pub proof fn law_every_submatch_is_read(items: Seq<Json>, k: int)
    requires
        0 <= k < items.len(),
    ensures
        rg_span(items[k]) is None ==> rg_spans(Some(Json::List(items))) is None,
        rg_spans(Some(Json::List(items))) matches Some(r) ==> r.len() == items.len() && rg_span(
            items[k],
        ) == Some(r[k]),
        (forall|i: int| 0 <= i < items.len() ==> rg_span(#[trigger] items[i]) is Some) ==> rg_spans(
            Some(Json::List(items)),
        ) is Some,
{
}

} // verus!
