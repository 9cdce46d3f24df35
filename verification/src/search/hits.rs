//! Matching lines, and reading them out of what the search tools print.
use std::ops::Range;
use vstd::prelude::*;
use vstd::string::*;
use vstd::utf8::*;

use super::sgr::{
    are_params, are_plain, is_reset, law_colored_part_is_found,
    law_colored_ranges_are_ordered_slices, lemma_strip_painted, lemma_strip_text, painted,
    painted_spans, sgr, span, spans, strip_sgr, stripped, unpainted, Span, Stripped, ESC,
};
use crate::order::{
    ascending, law_sorting_keeps_the_items, lemma_sorted_all, lemma_sorted_ascending,
    lemma_sorted_has, lemma_sorted_map, sort_stable, stable_sorted, Keyed,
};
use crate::text::{
    byte_len, chars_of, decimal, find_from, is_digit, law_decimal_is_read_back,
    law_first_separator_splits, law_pieces_are_what_is_between,
    law_trailing_characters_are_skipped, lemma_decimal_digits, lemma_encode_concat,
    lemma_filter_map_concat, lemma_filter_map_has, lemma_position_is, lemma_prefix_boundary,
    lossy_text, parse_u64, parsed_u64, pieces, skip_trailing, slice_views, split_at_first,
    split_lines, string_of, text_of, trim_end_of, CharClass, LineEnd, Only,
};

verus! {

/// A single matching line.
#[derive(Debug, Clone, PartialEq, Eq)]
pub struct LineMatch {
    pub line_number: u64,
    /// The line's text, without its trailing newline.
    pub text: String,
    /// Byte ranges within `text` that matched the pattern.
    pub ranges: Vec<Range<usize>>,
}

/// What a [`LineMatch`] holds.
#[verifier::ext_equal]
pub struct LineView {
    pub line_number: u64,
    pub text: Seq<char>,
    pub ranges: Seq<Span>,
}

impl View for LineMatch {
    type V = LineView;

    open spec fn view(&self) -> LineView {
        LineView {
            line_number: self.line_number,
            text: self.text@,
            ranges: spans(self.ranges@),
        }
    }
}

impl LineView {
    /// Whether the ranges are what a line match should have: non-empty slices
    /// of the text, by ascending start.
    pub open spec fn wf(self) -> bool {
        &&& forall|i: int|
            0 <= i < self.ranges.len() ==> is_slice(self.text, #[trigger] self.ranges[i])
        &&& ascending(self.ranges, |s: Span| s.start)
    }
}

/// Whether `s` is a non-empty slice of `text`, between character boundaries.
pub open spec fn is_slice(text: Seq<char>, s: Span) -> bool {
    &&& 0 <= s.start < s.end <= byte_len(text)
    &&& is_char_boundary(encode_utf8(text), s.start)
    &&& is_char_boundary(encode_utf8(text), s.end)
}

/// A matching line in a file somewhere under the search root.
#[derive(Debug, Clone, PartialEq, Eq)]
pub struct Hit {
    /// Path relative to the search root, as reported by the tool.
    pub path: String,
    pub line: LineMatch,
}

/// What a [`Hit`] holds.
#[verifier::ext_equal]
pub struct HitView {
    pub path: Seq<char>,
    pub line: LineView,
}

impl View for Hit {
    type V = HitView;

    open spec fn view(&self) -> HitView {
        HitView { path: self.path@, line: self.line@ }
    }
}

/// What each of `s` holds.
pub open spec fn hit_views(s: Seq<Hit>) -> Seq<HitView> {
    s.map_values(|h: Hit| h@)
}

/// `s` cut off at the end of `text`, if what is left of it is a slice.
pub open spec fn fitted(text: Seq<char>, s: Span) -> Option<Span> {
    let end = if s.end <= byte_len(text) {
        s.end
    } else {
        byte_len(text) as int
    };
    let t = Span { start: s.start, end };
    if is_slice(text, t) {
        Some(t)
    } else {
        None
    }
}

/// The line match for `text` with the ranges `ranges` colored in it.
pub open spec fn matched_line(line_number: u64, text: Seq<char>, ranges: Seq<Span>) -> LineView {
    let t = skip_trailing(text, LineEnd);
    LineView {
        line_number,
        text: t,
        ranges: stable_sorted(
            ranges.filter_map(|s: Span| fitted(t, s)),
            |s: Span| s.start,
        ),
    }
}

impl Keyed for Range<usize> {
    open spec fn key(&self) -> int {
        self.start as int
    }

    fn sort_key(&self) -> (r: u64) {
        self.start as u64
    }
}

/// The ranges of a line match are non-empty slices of its text, by ascending
/// start, whatever ranges it was made from.
pub proof fn law_line_match_is_well_formed(line_number: u64, text: Seq<char>, ranges: Seq<Span>)
    ensures
        matched_line(line_number, text, ranges).wf(),
{
    let t = skip_trailing(text, LineEnd);
    let f = |s: Span| fitted(t, s);
    let by_start = |s: Span| s.start;
    let kept = ranges.filter_map(f);
    assert forall|i: int| 0 <= i < kept.len() implies is_slice(t, #[trigger] kept[i]) by {
        assert(kept.contains(kept[i]));
        ranges.lemma_filter_map_contains(f, kept[i]);
    }
    lemma_sorted_all(kept, by_start, |s: Span| is_slice(t, s));
    lemma_sorted_ascending(kept, by_start);
}

/// Builds a [`LineMatch`], dropping the line terminator and any ranges that
/// are empty or don't fall on character boundaries.
pub fn line_match(line_number: u64, text: String, ranges: Vec<Range<usize>>) -> (r: LineMatch)
    ensures
        r@ == matched_line(line_number, text@, spans(ranges@)),
        r@.wf(),
{
    let ghost whole = text@;
    let text: String = trim_end_of(text.as_str(), LineEnd).to_string();
    let ghost t = text@;
    let ghost f = |s: Span| fitted(t, s);
    let len: usize = text.as_str().as_bytes().len();
    let mut kept: Vec<Range<usize>> = Vec::new();
    let mut i: usize = 0;
    proof {
        encode_utf8_valid_utf8(t);
        assert(spans(ranges@).take(0).filter_map(f) =~= spans(kept@));
    }
    while i < ranges.len()
        invariant
            t == text@,
            len == byte_len(t),
            valid_utf8(encode_utf8(t)),
            f == (|s: Span| fitted(t, s)),
            i <= ranges@.len(),
            spans(kept@) == spans(ranges@).take(i as int).filter_map(f),
        decreases ranges@.len() - i,
    {
        let start: usize = ranges[i].start;
        let end: usize = if ranges[i].end <= len {
            ranges[i].end
        } else {
            len
        };
        proof {
            spans(ranges@).lemma_filter_map_take_succ(f, i as int);
            assert(spans(ranges@)[i as int] == span(ranges@[i as int]));
        }
        let ghost before = kept@;
        if start < end && text.as_str().is_char_boundary(start) && text.as_str().is_char_boundary(
            end,
        ) {
            kept.push(Range { start, end });
            let ghost added = Span { start: start as int, end: end as int };
            assert(spans(kept@) == spans(before) + seq![added]);
        } else {
            assert(spans(before) + Seq::<Span>::empty() == spans(before));
        }
        i += 1;
    }
    assert(spans(ranges@).take(i as int) == spans(ranges@));
    let ghost unsorted = kept@;
    let sorted = sort_stable(kept);
    proof {
        let by_start = |s: Span| s.start;
        lemma_sorted_map(
            unsorted,
            |r: Range<usize>| span(r),
            |r: Range<usize>| r.key(),
            by_start,
        );
        law_line_match_is_well_formed(line_number, whole, spans(ranges@));
    }
    LineMatch { line_number, text, ranges: sorted }
}

/// The part of `s` from `offset` on, counted from there.
pub open spec fn rebased(s: Span, offset: int) -> Option<Span> {
    if s.start >= offset {
        Some(Span { start: s.start - offset, end: s.end - offset })
    } else {
        None
    }
}

/// What a record `path\0line:text` of `grep`, with color codes, says.
pub open spec fn grep_hit(record: Seq<char>) -> Option<HitView> {
    let r = stripped(record);
    match split_at_first(r.plain, '\0') {
        Some((path, rest)) => match split_at_first(rest, ':') {
            Some((number, text)) => match parsed_u64(number) {
                Some(n) => {
                    let offset = byte_len(r.plain) - byte_len(text);
                    Some(
                        HitView {
                            path,
                            line: matched_line(
                                n,
                                text,
                                r.colored.filter_map(|s: Span| rebased(s, offset)),
                            ),
                        },
                    )
                },
                None => None,
            },
            None => None,
        },
        None => None,
    }
}

/// The line of a record is well-formed.
pub proof fn lemma_grep_hit_wf(record: Seq<char>)
    requires
        grep_hit(record) is Some,
    ensures
        (grep_hit(record)->0).line.wf(),
{
    let r = stripped(record);
    let (path, rest) = split_at_first(r.plain, '\0')->0;
    let (number, text) = split_at_first(rest, ':')->0;
    let offset = byte_len(r.plain) - byte_len(text);
    law_line_match_is_well_formed(
        parsed_u64(number)->0,
        text,
        r.colored.filter_map(|s: Span| rebased(s, offset)),
    );
}

/// The hits that the output of `grep` lists, one per line that is a record.
pub open spec fn grep_hits(stdout: Seq<u8>) -> Seq<HitView> {
    pieces(stdout, 10u8).filter_map(
        |line: Seq<u8>|
            if line.len() == 0 {
                None
            } else {
                grep_hit(lossy_text(line))
            },
    )
}

/// Counts `ranges` from `offset` on, dropping those that begin before it.
fn rebase(ranges: Vec<Range<usize>>, offset: usize) -> (r: Vec<Range<usize>>)
    requires
        forall|i: int| 0 <= i < ranges@.len() ==> (#[trigger] ranges@[i]).start <= ranges@[i].end,
    ensures
        spans(r@) == spans(ranges@).filter_map(|s: Span| rebased(s, offset as int)),
{
    let ghost f = |s: Span| rebased(s, offset as int);
    let mut out: Vec<Range<usize>> = Vec::new();
    let mut i: usize = 0;
    assert(spans(ranges@).take(0).filter_map(f) =~= spans(out@));
    while i < ranges.len()
        invariant
            f == (|s: Span| rebased(s, offset as int)),
            i <= ranges@.len(),
            forall|i: int|
                0 <= i < ranges@.len() ==> (#[trigger] ranges@[i]).start <= ranges@[i].end,
            spans(out@) == spans(ranges@).take(i as int).filter_map(f),
        decreases ranges@.len() - i,
    {
        let start: usize = ranges[i].start;
        let end: usize = ranges[i].end;
        assert(ranges@[i as int].start <= ranges@[i as int].end);
        proof {
            spans(ranges@).lemma_filter_map_take_succ(f, i as int);
            assert(spans(ranges@)[i as int] == span(ranges@[i as int]));
        }
        let ghost before = out@;
        if start >= offset {
            out.push(Range { start: start - offset, end: end - offset });
            assert(spans(out@) == spans(before) + seq![
                Span { start: start - offset, end: end - offset },
            ]);
        } else {
            assert(spans(before) + Seq::<Span>::empty() == spans(before));
        }
        i += 1;
    }
    assert(spans(ranges@).take(i as int) == spans(ranges@));
    out
}

/// Reads one record of `grep`, `path\0line:text` with color codes.
pub fn parse_grep_record(record: &str) -> (r: Option<Hit>)
    ensures
        match r {
            Some(hit) => grep_hit(record@) == Some(hit@),
            None => grep_hit(record@) is None,
        },
{
    let (plain, ranges) = strip_sgr(record);
    let chars = chars_of(plain.as_str());
    let ghost p = plain@;
    assert(chars@.skip(0) == p);
    let nul: usize = find_from(&chars, 0, Only('\0'));
    if nul == chars.len() {
        return None;
    }
    let ghost rest = p.skip(nul + 1);
    let colon: usize = find_from(&chars, nul + 1, Only(':'));
    if colon == chars.len() {
        return None;
    }
    let ghost number = rest.take(colon - nul - 1);
    assert(number == p.subrange(nul + 1, colon as int));
    let line_number: u64 = match parse_u64(&chars, nul + 1, colon) {
        Some(n) => n,
        None => return None,
    };
    let text = string_of(&chars, colon + 1, chars.len());
    assert(rest.skip(colon - nul - 1 + 1) == text@);
    proof {
        assert(p == p.take(colon + 1) + text@);
        lemma_encode_concat(p.take(colon + 1), text@);
        law_colored_ranges_are_ordered_slices(record@);
        assert forall|i: int| 0 <= i < ranges@.len() implies (#[trigger] ranges@[i]).start
            <= ranges@[i].end by {
            assert(spans(ranges@)[i] == span(ranges@[i]));
        }
    }
    let offset: usize = plain.as_str().as_bytes().len() - text.as_str().as_bytes().len();
    let ranges = rebase(ranges, offset);
    let path = string_of(&chars, 0, nul);
    assert(path@ == p.take(nul as int));
    Some(Hit { path, line: line_match(line_number, text, ranges) })
}

/// Parses the output of `grep -rn --null --color=always`: one
/// `path\0line:text` record per line, with matches wrapped in color codes.
pub fn parse_grep(stdout: &[u8]) -> (r: Vec<Hit>)
    ensures
        hit_views(r@) == grep_hits(stdout@),
{
    let ghost f = |line: Seq<u8>|
        if line.len() == 0 {
            None
        } else {
            grep_hit(lossy_text(line))
        };
    let lines = split_lines(stdout);
    let ghost all = pieces(stdout@, 10u8);
    let mut hits: Vec<Hit> = Vec::new();
    let mut i: usize = 0;
    assert(all.take(0).filter_map(f) =~= hit_views(hits@));
    while i < lines.len()
        invariant
            f == (|line: Seq<u8>|
                if line.len() == 0 {
                    None
                } else {
                    grep_hit(lossy_text(line))
                }),
            i <= lines@.len(),
            all == slice_views(lines@),
            hit_views(hits@) == all.take(i as int).filter_map(f),
        decreases lines@.len() - i,
    {
        let line: &[u8] = lines[i];
        proof {
            all.lemma_filter_map_take_succ(f, i as int);
            assert(all[i as int] == line@);
        }
        let ghost before = hits@;
        if line.len() > 0 {
            match parse_grep_record(text_of(line).as_str()) {
                Some(hit) => {
                    hits.push(hit);
                    assert(hit_views(hits@) == hit_views(before) + seq![hit@]);
                },
                None => {},
            }
        }
        i += 1;
    }
    assert(all.take(i as int) == all);
    hits
}

/// Without color codes a record falls apart into path, number and line.
proof fn lemma_record_parts(path: Seq<char>, number: Seq<char>, text: Seq<char>)
    requires
        !path.contains('\0'),
        forall|i: int| 0 <= i < number.len() ==> is_digit(#[trigger] number[i]),
    ensures
        split_at_first(path + seq!['\0'] + number + seq![':'] + text, '\0') == Some(
            (path, number + seq![':'] + text),
        ),
        split_at_first(number + seq![':'] + text, ':') == Some((number, text)),
{
    let plain = path + seq!['\0'] + number + seq![':'] + text;
    let rest = number + seq![':'] + text;
    assert forall|j: int| 0 <= j < path.len() implies !Only('\0').has(#[trigger] plain[j]) by {
        assert(path.contains(path[j]));
    }
    lemma_position_is(plain, Only('\0'), path.len() as int);
    assert(plain.take(path.len() as int) == path);
    assert(plain.skip(path.len() as int + 1) == rest);
    assert forall|j: int| 0 <= j < number.len() implies !Only(':').has(#[trigger] rest[j]) by {
        assert(is_digit(number[j]));
    }
    lemma_position_is(rest, Only(':'), number.len() as int);
    assert(rest.take(number.len() as int) == number);
    assert(rest.skip(number.len() as int + 1) == text);
}

/// The range of a part of a line is kept as it is.
proof fn lemma_part_is_kept(
    line_number: u64,
    before: Seq<char>,
    part: Seq<char>,
    after: Seq<char>,
)
    requires
        part.len() > 0,
        !LineEnd.has((before + part + after).last()),
    ensures
        ({
            let kept = Span {
                start: byte_len(before) as int,
                end: byte_len(before + part) as int,
            };
            matched_line(line_number, before + part + after, seq![kept]) == LineView {
                line_number,
                text: before + part + after,
                ranges: seq![kept],
            }
        }),
{
    let text = before + part + after;
    let kept = Span { start: byte_len(before) as int, end: byte_len(before + part) as int };
    lemma_encode_concat(before, part);
    lemma_encode_concat(before + part, after);
    lemma_prefix_boundary(before, part + after);
    assert(before + (part + after) == text);
    lemma_prefix_boundary(before + part, after);
    encode_utf8_first_scalar(part);
    let g = |s: Span| fitted(text, s);
    Seq::lemma_filter_map_singleton(kept, g);
    let by_start = |s: Span| s.start;
    assert(seq![kept].drop_last() == Seq::<Span>::empty());
    reveal_with_fuel(stable_sorted, 2);
    assert(stable_sorted(seq![kept], by_start) == seq![kept]);
}

/// What stands before the line in a record, without color codes.
spec fn record_head(path: Seq<char>, line_number: u64) -> Seq<char> {
    path + seq!['\0'] + decimal(line_number as nat) + seq![':']
}

proof fn lemma_head_has_no_escapes(path: Seq<char>, line_number: u64, before: Seq<char>)
    requires
        !path.contains(ESC),
        !before.contains(ESC),
    ensures
        !(record_head(path, line_number) + before).contains(ESC),
{
    let number = decimal(line_number as nat);
    let head = record_head(path, line_number);
    let lead = head + before;
    lemma_decimal_digits(line_number as nat);
    assert forall|i: int| 0 <= i < lead.len() implies lead[i] != ESC by {
        if i < path.len() {
            assert(path.contains(path[i]));
        } else if i > path.len() && i < path.len() + 1 + number.len() {
            assert(is_digit(number[i - path.len() - 1]));
        } else if i >= head.len() {
            assert(before.contains(before[i - head.len()]));
        }
    }
}

/// A record whose plain text and one colored range are known says a hit.
#[verifier::spinoff_prover]
proof fn lemma_hit_of_record(
    record: Seq<char>,
    path: Seq<char>,
    line_number: u64,
    before: Seq<char>,
    part: Seq<char>,
    after: Seq<char>,
)
    requires
        !path.contains('\0'),
        part.len() > 0,
        !LineEnd.has((before + part + after).last()),
        stripped(record).plain == record_head(path, line_number) + (before + part + after),
        stripped(record).colored == seq![
            Span {
                start: byte_len(record_head(path, line_number) + before) as int,
                end: byte_len(record_head(path, line_number) + (before + part)) as int,
            },
        ],
    ensures
        grep_hit(record) == Some(
            HitView {
                path,
                line: LineView {
                    line_number,
                    text: before + part + after,
                    ranges: seq![
                        Span {
                            start: byte_len(before) as int,
                            end: byte_len(before + part) as int,
                        },
                    ],
                },
            },
        ),
{
    let number = decimal(line_number as nat);
    let head = record_head(path, line_number);
    let text = before + part + after;
    lemma_decimal_digits(line_number as nat);
    law_decimal_is_read_back(line_number);
    lemma_record_parts(path, number, text);
    lemma_encode_concat(head, text);
    lemma_encode_concat(head, before);
    lemma_encode_concat(head, before + part);
    let offset = byte_len(head) as int;
    let found = Span {
        start: byte_len(head + before) as int,
        end: byte_len(head + (before + part)) as int,
    };
    let kept = Span { start: byte_len(before) as int, end: byte_len(before + part) as int };
    let f = |s: Span| rebased(s, offset);
    Seq::lemma_filter_map_singleton(found, f);
    assert(seq![found].filter_map(f) == seq![kept]);
    lemma_part_is_kept(line_number, before, part, after);
}

/// A record that `grep` writes for a match is read back: its path, its line
/// number, the line, and the byte range of the colored match in the line.
#[verifier::spinoff_prover]
pub proof fn law_grep_record_is_read_back(
    path: Seq<char>,
    line_number: u64,
    before: Seq<char>,
    on: Seq<char>,
    part: Seq<char>,
    off: Seq<char>,
    after: Seq<char>,
)
    requires
        !path.contains(ESC),
        !path.contains('\0'),
        !before.contains(ESC),
        !part.contains(ESC),
        !after.contains(ESC),
        part.len() > 0,
        !LineEnd.has((before + part + after).last()),
        are_params(on),
        !is_reset(on),
        are_params(off),
        is_reset(off),
    ensures
        grep_hit(
            path + seq!['\0'] + decimal(line_number as nat) + seq![':'] + before + sgr(on) + part
                + sgr(off) + after,
        ) == Some(
            HitView {
                path,
                line: LineView {
                    line_number,
                    text: before + part + after,
                    ranges: seq![
                        Span {
                            start: byte_len(before) as int,
                            end: byte_len(before + part) as int,
                        },
                    ],
                },
            },
        ),
{
    let head = record_head(path, line_number);
    let lead = head + before;
    let record = lead + sgr(on) + part + sgr(off) + after;
    lemma_head_has_no_escapes(path, line_number, before);
    law_colored_part_is_found(lead, on, part, off, after);
    assert(lead + part + after == head + (before + part + after));
    assert(lead + part == head + (before + part));
    lemma_hit_of_record(record, path, line_number, before, part, after);
}

/// A line match has the number and the text that it is made from; only the line
/// ends at the end of the text are dropped.
pub proof fn law_line_ends_are_dropped(
    line_number: u64,
    text: Seq<char>,
    ends: Seq<char>,
    ranges: Seq<Span>,
)
    requires
        forall|i: int| 0 <= i < ends.len() ==> #[trigger] ends[i] == '\n' || ends[i] == '\r',
        text.len() > 0 ==> text.last() != '\n' && text.last() != '\r',
    ensures
        matched_line(line_number, text + ends, ranges).line_number == line_number,
        matched_line(line_number, text + ends, ranges).text == text,
        matched_line(line_number, text + ends, ranges) == matched_line(line_number, text, ranges),
{
    let whole = text + ends;
    law_trailing_characters_are_skipped(whole, LineEnd);
    law_trailing_characters_are_skipped(text, LineEnd);
    let r = skip_trailing(whole, LineEnd);
    let t = skip_trailing(text, LineEnd);
    if r.len() > text.len() {
        assert(r.last() == ends[r.len() - 1 - text.len()]);
    }
    if r.len() < text.len() {
        assert(LineEnd.has(whole[text.len() - 1]));
        assert(whole[text.len() - 1] == text.last());
    }
    if t.len() < text.len() {
        assert(LineEnd.has(text[text.len() - 1]));
    }
    assert(r == text);
    assert(t == text);
}

/// Every range that is a slice of the line is kept, and one that goes on behind
/// its end is kept up to there.
pub proof fn law_ranges_in_the_line_are_kept(
    line_number: u64,
    text: Seq<char>,
    ranges: Seq<Span>,
    i: int,
)
    requires
        text.len() > 0 ==> text.last() != '\n' && text.last() != '\r',
        0 <= i < ranges.len(),
    ensures
        ({
            let s = ranges[i];
            let bytes = encode_utf8(text);
            let kept = matched_line(line_number, text, ranges).ranges;
            &&& 0 <= s.start < s.end <= bytes.len() && is_char_boundary(bytes, s.start)
                && is_char_boundary(bytes, s.end) ==> kept.contains(s)
            &&& 0 <= s.start < bytes.len() < s.end && is_char_boundary(bytes, s.start)
                ==> kept.contains(Span { start: s.start, end: bytes.len() as int })
        }),
{
    let e = Seq::<char>::empty();
    let s = ranges[i];
    let end = byte_len(text) as int;
    law_line_ends_are_dropped(line_number, text, e, ranges);
    assert(text + e == text);
    lemma_prefix_boundary(text, e);
    let f = |s: Span| fitted(text, s);
    let kept = ranges.filter_map(f);
    assert(ranges.contains(s));
    if f(s) is Some {
        lemma_filter_map_has(ranges, f, s, f(s)->0);
        lemma_sorted_has(kept, |s: Span| s.start, f(s)->0);
    }
}

/// Every range of a line match is one that it was made from, but for an end that
/// was behind the line's.
pub proof fn law_ranges_come_from_those_given(
    line_number: u64,
    text: Seq<char>,
    ranges: Seq<Span>,
    k: int,
)
    requires
        text.len() > 0 ==> text.last() != '\n' && text.last() != '\r',
        0 <= k < matched_line(line_number, text, ranges).ranges.len(),
    ensures
        ({
            let s = matched_line(line_number, text, ranges).ranges[k];
            &&& 0 <= s.start < s.end <= byte_len(text)
            &&& exists|i: int|
                0 <= i < ranges.len() && (#[trigger] ranges[i]).start == s.start && (ranges[i].end
                    == s.end || (ranges[i].end > byte_len(text) && s.end == byte_len(text)))
        }),
{
    let e = Seq::<char>::empty();
    law_line_ends_are_dropped(line_number, text, e, ranges);
    assert(text + e == text);
    let f = |s: Span| fitted(text, s);
    let kept = ranges.filter_map(f);
    let line = matched_line(line_number, text, ranges);
    let s = line.ranges[k];
    assert forall|i: int| 0 <= i < kept.len() implies kept.contains(#[trigger] kept[i]) by {}
    lemma_sorted_all(kept, |s: Span| s.start, |s: Span| kept.contains(s));
    assert(kept.contains(line.ranges[k]));
    ranges.lemma_filter_map_contains(f, s);
    let t = choose|t: Span| #[trigger] ranges.contains(t) && f(t) == Some(s);
    assert(ranges.contains(t));
    let i = choose|i: int| 0 <= i < ranges.len() && ranges[i] == t;
    assert(ranges[i].start == s.start);
}

/// Ranges that are slices of the line are all kept, as often as they are given,
/// and where their starts ascend they stay as they are.
pub proof fn law_slices_stay_as_they_are(line_number: u64, text: Seq<char>, ranges: Seq<Span>)
    requires
        text.len() > 0 ==> text.last() != '\n' && text.last() != '\r',
        forall|i: int|
            0 <= i < ranges.len() ==> {
                &&& 0 <= (#[trigger] ranges[i]).start < ranges[i].end <= byte_len(text)
                &&& is_char_boundary(encode_utf8(text), ranges[i].start)
                &&& is_char_boundary(encode_utf8(text), ranges[i].end)
            },
    ensures
        matched_line(line_number, text, ranges).ranges.to_multiset() == ranges.to_multiset(),
        (forall|i: int, j: int|
            0 <= i < j < ranges.len() ==> (#[trigger] ranges[i]).start <= (
            #[trigger] ranges[j]).start) ==> matched_line(line_number, text, ranges).ranges
            == ranges,
{
    let e = Seq::<char>::empty();
    law_line_ends_are_dropped(line_number, text, e, ranges);
    assert(text + e == text);
    let f = |s: Span| fitted(text, s);
    assert forall|i: int| 0 <= i < ranges.len() implies f(#[trigger] ranges[i]) == Some(
        ranges[i],
    ) by {
        assert(is_slice(text, ranges[i]));
    }
    lemma_filter_map_same(ranges, f);
    law_sorting_keeps_the_items(ranges, |s: Span| s.start);
}

proof fn lemma_filter_map_same<T>(s: Seq<T>, f: spec_fn(T) -> Option<T>)
    requires
        forall|i: int| 0 <= i < s.len() ==> f(#[trigger] s[i]) == Some(s[i]),
    ensures
        s.filter_map(f) == s,
    decreases s.len(),
{
    if s.len() > 0 {
        let t = s.drop_last();
        assert forall|i: int| 0 <= i < t.len() implies f(#[trigger] t[i]) == Some(t[i]) by {
            assert(t[i] == s[i]);
        }
        lemma_filter_map_same(t, f);
        assert(s.last() == s[s.len() - 1]);
        assert(s.filter_map(f) == t.push(s.last()));
    } else {
        assert(s.filter_map(f) == s);
    }
}

/// What stands before the first NUL of a record is its path, what stands between
/// that and the next colon its line number, and what follows its line. What lacks
/// one of them is no record.
pub proof fn law_record_is_taken_apart(
    record: Seq<char>,
    path: Seq<char>,
    number: Seq<char>,
    text: Seq<char>,
)
    requires
        !path.contains('\0'),
        !number.contains(':'),
        text.len() > 0 ==> text.last() != '\n' && text.last() != '\r',
    ensures
        stripped(record).plain == path ==> grep_hit(record) is None,
        stripped(record).plain == path + seq!['\0'] + number ==> grep_hit(record) is None,
        stripped(record).plain == path + seq!['\0'] + (number + seq![':'] + text) ==> match (
            grep_hit(record),
            parsed_u64(number),
        ) {
            (Some(hit), Some(n)) => hit.path == path && hit.line.line_number == n && hit.line.text
                == text,
            (None, None) => true,
            _ => false,
        },
{
    let e = Seq::<char>::empty();
    let rest = number + seq![':'] + text;
    law_first_separator_splits(path, '\0', number);
    law_first_separator_splits(path, '\0', rest);
    law_first_separator_splits(number, ':', text);
    if stripped(record).plain == path + seq!['\0'] + rest && parsed_u64(number) is Some {
        let offset = byte_len(stripped(record).plain) - byte_len(text);
        law_line_ends_are_dropped(
            parsed_u64(number)->0,
            text,
            e,
            stripped(record).colored.filter_map(|s: Span| rebased(s, offset)),
        );
        assert(text + e == text);
    }
}

proof fn lemma_rebased_spans(
    head: Seq<char>,
    base: Seq<char>,
    parts: Seq<(Seq<char>, Seq<char>)>,
)
    ensures
        painted_spans(head + base, parts).filter_map(|s: Span| rebased(s, byte_len(head) as int))
            == painted_spans(base, parts),
    decreases parts.len(),
{
    let f = |s: Span| rebased(s, byte_len(head) as int);
    if parts.len() == 0 {
        assert(painted_spans(head + base, parts).filter_map(f) == painted_spans(base, parts));
    } else {
        let b = base + parts[0].0;
        let e = b + parts[0].1;
        let tail = parts.drop_first();
        assert(head + base + parts[0].0 == head + b);
        assert(head + b + parts[0].1 == head + e);
        lemma_encode_concat(head, b);
        lemma_encode_concat(head, e);
        lemma_rebased_spans(head, e, tail);
        let one = Span { start: byte_len(head + b) as int, end: byte_len(head + e) as int };
        let now = Span { start: byte_len(b) as int, end: byte_len(e) as int };
        Seq::lemma_filter_map_singleton(one, f);
        lemma_filter_map_concat(seq![one], painted_spans(head + e, tail), f);
        assert(f(one) == Some(now));
        assert(painted_spans(head + base, parts) == seq![one] + painted_spans(head + e, tail));
        assert(painted_spans(base, parts) == seq![now] + painted_spans(e, tail));
    }
}

proof fn lemma_painted_slices(
    base: Seq<char>,
    parts: Seq<(Seq<char>, Seq<char>)>,
    after: Seq<char>,
)
    requires
        forall|i: int| 0 <= i < parts.len() ==> (#[trigger] parts[i]).1.len() > 0,
    ensures
        ({
            let text = base + unpainted(parts) + after;
            let spans = painted_spans(base, parts);
            &&& forall|i: int|
                0 <= i < spans.len() ==> byte_len(base) <= (#[trigger] spans[i]).start && is_slice(
                    text,
                    spans[i],
                )
            &&& forall|i: int, j: int|
                0 <= i < j < spans.len() ==> (#[trigger] spans[i]).start <= (
                #[trigger] spans[j]).start
        }),
    decreases parts.len(),
{
    if parts.len() > 0 {
        let text = base + unpainted(parts) + after;
        let spans = painted_spans(base, parts);
        let b = base + parts[0].0;
        let e = b + parts[0].1;
        let tail = parts.drop_first();
        let rest = unpainted(tail) + after;
        assert forall|i: int| 0 <= i < tail.len() implies (#[trigger] tail[i]).1.len() > 0 by {
            assert(tail[i] == parts[i + 1]);
        }
        lemma_painted_slices(e, tail, after);
        assert(text == e + unpainted(tail) + after);
        assert(text == e + rest);
        assert(text == b + (parts[0].1 + rest));
        lemma_prefix_boundary(e, rest);
        lemma_prefix_boundary(b, parts[0].1 + rest);
        lemma_encode_concat(base, parts[0].0);
        lemma_encode_concat(b, parts[0].1);
        lemma_encode_concat(e, rest);
        assert(parts[0].1.len() > 0);
        encode_utf8_first_scalar(parts[0].1);
        let one = Span { start: byte_len(b) as int, end: byte_len(e) as int };
        let more = painted_spans(e, tail);
        assert(spans == seq![one] + more);
        assert forall|i: int| 0 <= i < spans.len() implies byte_len(base) <= (
        #[trigger] spans[i]).start && is_slice(text, spans[i]) by {
            if i > 0 {
                assert(spans[i] == more[i - 1]);
            }
        }
        assert forall|i: int, j: int| 0 <= i < j < spans.len() implies (#[trigger] spans[i]).start
            <= (#[trigger] spans[j]).start by {
            assert(spans[j] == more[j - 1]);
            if i > 0 {
                assert(spans[i] == more[i - 1]);
            }
        }
    }
}

/// However many matches `grep` colors in a line, its record is read back with the
/// byte range of each of them.
#[verifier::spinoff_prover]
pub proof fn law_all_matches_of_a_record_are_read_back(
    path: Seq<char>,
    line_number: u64,
    parts: Seq<(Seq<char>, Seq<char>)>,
    on: Seq<char>,
    off: Seq<char>,
    after: Seq<char>,
)
    requires
        !path.contains(ESC),
        !path.contains('\0'),
        are_plain(parts),
        forall|i: int| 0 <= i < parts.len() ==> (#[trigger] parts[i]).1.len() > 0,
        !after.contains(ESC),
        are_params(on),
        !is_reset(on),
        are_params(off),
        is_reset(off),
        (unpainted(parts) + after).len() > 0 ==> (unpainted(parts) + after).last() != '\n' && (
        unpainted(parts) + after).last() != '\r',
    ensures
        grep_hit(
            path + seq!['\0'] + decimal(line_number as nat) + seq![':'] + painted(parts, on, off)
                + after,
        ) == Some(
            HitView {
                path,
                line: LineView {
                    line_number,
                    text: unpainted(parts) + after,
                    ranges: painted_spans(seq![], parts),
                },
            },
        ),
{
    let e = Seq::<char>::empty();
    let head = record_head(path, line_number);
    let number = decimal(line_number as nat);
    let text = unpainted(parts) + after;
    let record = head + painted(parts, on, off) + after;
    let init = Stripped { plain: seq![], colored: seq![], open: None };
    lemma_head_has_no_escapes(path, line_number, e);
    assert(head + e == head);
    assert(record == head + (painted(parts, on, off) + after));
    lemma_strip_text(head, painted(parts, on, off) + after, init);
    assert(init.plain + head == head);
    let st = Stripped { plain: head, ..init };
    lemma_strip_painted(parts, on, off, after, st);
    let colored = painted_spans(head, parts);
    assert(st.colored + colored == colored);
    let st2 = Stripped { plain: head + unpainted(parts), colored, open: None };
    lemma_strip_text(after, e, st2);
    assert(after + e == after);
    assert(head + unpainted(parts) + after == head + text);
    assert(stripped(record).plain == head + text);
    assert(stripped(record).colored == colored);
    lemma_decimal_digits(line_number as nat);
    law_decimal_is_read_back(line_number);
    lemma_record_parts(path, number, text);
    lemma_encode_concat(head, text);
    lemma_rebased_spans(head, e, parts);
    lemma_painted_slices(e, parts, after);
    assert(e + unpainted(parts) + after == text);
    let ranges = painted_spans(e, parts);
    assert forall|i: int| 0 <= i < ranges.len() implies {
        &&& 0 <= (#[trigger] ranges[i]).start < ranges[i].end <= byte_len(text)
        &&& is_char_boundary(encode_utf8(text), ranges[i].start)
        &&& is_char_boundary(encode_utf8(text), ranges[i].end)
    } by {
        assert(is_slice(text, ranges[i]));
    }
    law_slices_stay_as_they_are(line_number, text, ranges);
    law_line_ends_are_dropped(line_number, text, e, ranges);
    assert(text + e == text);
}

/// What `grep` prints is read line by line: the hits of two outputs are those of
/// the two in a row, and a line says a hit where it is a record.
pub proof fn law_grep_output_is_read_line_by_line(a: Seq<u8>, b: Seq<u8>, line: Seq<u8>)
    ensures
        grep_hits(a + seq![10u8] + b) == grep_hits(a) + grep_hits(b),
        !line.contains(10u8) && line.len() > 0 ==> grep_hits(line) == match grep_hit(
            lossy_text(line),
        ) {
            Some(hit) => seq![hit],
            None => seq![],
        },
        grep_hits(seq![]).len() == 0,
{
    let f = |line: Seq<u8>|
        if line.len() == 0 {
            None
        } else {
            grep_hit(lossy_text(line))
        };
    let e = Seq::<u8>::empty();
    law_pieces_are_what_is_between(a, b, 10u8);
    law_pieces_are_what_is_between(a, line, 10u8);
    law_pieces_are_what_is_between(a, e, 10u8);
    lemma_filter_map_concat(pieces(a, 10u8), pieces(b, 10u8), f);
    Seq::lemma_filter_map_singleton(line, f);
    Seq::lemma_filter_map_singleton(e, f);
    assert(!e.contains(10u8));
}

/// What a hit holds is all of it: its path, and the number, the text and every
/// range of its line.
pub proof fn law_hit_is_all_of_it(hits: Seq<Hit>, i: int, k: int)
    requires
        0 <= i < hits.len(),
    ensures
        hit_views(hits).len() == hits.len(),
        hit_views(hits)[i].path == hits[i].path@,
        hit_views(hits)[i].line.line_number == hits[i].line.line_number,
        hit_views(hits)[i].line.text == hits[i].line.text@,
        hit_views(hits)[i].line.ranges.len() == hits[i].line.ranges@.len(),
        0 <= k < hits[i].line.ranges@.len() ==> hit_views(hits)[i].line.ranges[k] == (Span {
            start: hits[i].line.ranges@[k].start as int,
            end: hits[i].line.ranges@[k].end as int,
        }),
{
}

} // verus!
