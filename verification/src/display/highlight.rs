//! Showing a matching line with its matches highlighted.
use vstd::prelude::*;
use vstd::string::*;
use vstd::utf8::*;

use crate::search::hits::{is_slice, LineMatch, LineView};
use crate::search::sgr::{span, spans, Span};
use crate::text::{
    byte_len, chars_of, is_control, is_control_char, is_digit, is_white_space,
    law_leading_characters_are_skipped, lemma_encode_concat, lemma_prefix_boundary, skip_leading,
    skip_trailing, string_of, trim_end_of, trim_start_of, CharClass, WhiteSpace,
};

verus! {

/// What is shown of a character: a tab is expanded, and other control
/// characters are replaced.
pub open spec fn clean_char(c: char) -> Seq<char> {
    if c == '\t' {
        "    "@
    } else if is_control_char(c) {
        seq!['\u{fffd}']
    } else {
        seq![c]
    }
}

/// What is shown of `s`.
pub open spec fn cleaned(s: Seq<char>) -> Seq<char>
    decreases s.len(),
{
    if s.len() == 0 {
        seq![]
    } else {
        cleaned(s.drop_last()) + clean_char(s.last())
    }
}

/// Makes file text safe to print on one line: expands tabs, and replaces
/// control characters, which could otherwise move the cursor or restyle the
/// terminal.
pub fn clean(s: &str) -> (r: String)
    ensures
        r@ == cleaned(s@),
{
    let mut out = String::new();
    let chars = chars_of(s);
    let mut i: usize = 0;
    assert(s@.take(0) == Seq::<char>::empty());
    while i < chars.len()
        invariant
            chars@ == s@,
            i <= chars@.len(),
            out@ == cleaned(s@.take(i as int)),
        decreases chars@.len() - i,
    {
        let c = chars[i];
        proof {
            assert(s@.take(i + 1).drop_last() == s@.take(i as int));
            assert(s@.take(i + 1).last() == c);
        }
        if c == '\t' {
            out.append("    ");
        } else if is_control(c) {
            out.push('\u{fffd}');
            assert(out@ == cleaned(s@.take(i as int)) + seq!['\u{fffd}']);
        } else {
            out.push(c);
            assert(out@ == cleaned(s@.take(i as int)) + seq![c]);
        }
        i += 1;
    }
    assert(s@.take(i as int) == s@);
    out
}

/// Whether there are no control characters in `s`.
pub open spec fn no_controls(s: Seq<char>) -> bool {
    forall|i: int| 0 <= i < s.len() ==> !is_control_char(#[trigger] s[i])
}

/// What is shown has no control characters, whatever the text.
pub proof fn law_clean_text_has_no_control_characters(s: Seq<char>)
    ensures
        no_controls(cleaned(s)),
    decreases s.len(),
{
    if s.len() > 0 {
        law_clean_text_has_no_control_characters(s.drop_last());
        reveal_strlit("    ");
        let a = cleaned(s.drop_last());
        let b = clean_char(s.last());
        assert forall|i: int| 0 <= i < (a + b).len() implies !is_control_char(
            #[trigger] (a + b)[i],
        ) by {
            if i < a.len() {
                assert((a + b)[i] == a[i]);
            } else {
                assert((a + b)[i] == b[i - a.len()]);
            }
        }
    }
}

/// Text without control characters is shown as it is.
pub proof fn law_clean_keeps_plain_text(s: Seq<char>)
    requires
        no_controls(s),
    ensures
        cleaned(s) == s,
    decreases s.len(),
{
    if s.len() > 0 {
        let t = s.drop_last();
        assert forall|i: int| 0 <= i < t.len() implies !is_control_char(#[trigger] t[i]) by {
            assert(t[i] == s[i]);
        }
        law_clean_keeps_plain_text(t);
        assert(!is_control_char(s[s.len() - 1]));
        assert(t + seq![s.last()] == s);
    }
}

/// Whether `a..b` are byte offsets between which `text` can be cut.
pub open spec fn can_slice(text: Seq<char>, a: int, b: int) -> bool {
    &&& 0 <= a <= b <= byte_len(text)
    &&& is_char_boundary(encode_utf8(text), a)
    &&& is_char_boundary(encode_utf8(text), b)
}

/// The part of `text` between two byte offsets.
pub open spec fn slice(text: Seq<char>, a: int, b: int) -> Seq<char> {
    decode_utf8(encode_utf8(text).subrange(a, b))
}

proof fn lemma_boundary_in_prefix(bytes: Seq<u8>, a: int, b: int)
    requires
        valid_utf8(bytes),
        0 <= a <= b <= bytes.len(),
        is_char_boundary(bytes, a),
        is_char_boundary(bytes, b),
    ensures
        is_char_boundary(bytes.subrange(0, b), a),
{
    let p = bytes.subrange(0, b);
    valid_utf8_split(bytes, b);
    if a < b {
        is_char_boundary_iff_not_is_continuation_byte(bytes, a);
        is_char_boundary_iff_not_is_continuation_byte(p, a);
        assert(p[a] == bytes[a]);
    } else {
        is_char_boundary_start_end_of_seq(p);
    }
}

/// The part of `text` between two byte offsets.
fn slice_of(text: &str, a: usize, b: usize) -> (r: &str)
    requires
        can_slice(text@, a as int, b as int),
    ensures
        r@ == slice(text@, a as int, b as int),
{
    proof {
        encode_utf8_valid_utf8(text@);
        lemma_boundary_in_prefix(encode_utf8(text@), a as int, b as int);
    }
    let (front, _) = text.split_at(b);
    let (_, part) = front.split_at(a);
    proof {
        assert(part.spec_bytes() == encode_utf8(text@).subrange(a as int, b as int));
        encode_utf8_decode_utf8(part@);
    }
    part
}

/// The width of the white space that `text` begins with, in bytes.
pub open spec fn indent_of(text: Seq<char>) -> int {
    byte_len(text) - byte_len(skip_leading(text, WhiteSpace))
}

/// Where showing a line begins: behind the indentation, unless a match begins
/// before that.
pub open spec fn first_shown(line: LineView) -> int {
    let indent = indent_of(line.text);
    if line.ranges.len() > 0 && line.ranges[0].start < indent {
        line.ranges[0].start
    } else {
        indent
    }
}

/// A part of a line, and whether it is a match.
pub type Segment = (Seq<char>, bool);

/// The parts of `text` from `pos` on: alternately text between matches and
/// matches, the text always first and last. A range that begins before the end
/// of the one shown before it is left out. `None` where a range does not fall
/// on characters of the text.
pub open spec fn segments_from(text: Seq<char>, ranges: Seq<Span>, pos: int) -> Option<
    Seq<Segment>,
>
    decreases ranges.len(),
{
    if ranges.len() == 0 {
        if can_slice(text, pos, byte_len(text) as int) {
            Some(
                seq![
                    (
                        cleaned(
                            skip_trailing(slice(text, pos, byte_len(text) as int), WhiteSpace),
                        ),
                        false,
                    ),
                ],
            )
        } else {
            None
        }
    } else {
        let r = ranges[0];
        let rest = ranges.drop_first();
        if r.start < pos {
            segments_from(text, rest, pos)
        } else if can_slice(text, pos, r.start) && can_slice(text, r.start, r.end) {
            match segments_from(text, rest, r.end) {
                Some(more) => Some(
                    seq![
                        (cleaned(slice(text, pos, r.start)), false),
                        (cleaned(slice(text, r.start, r.end)), true),
                    ] + more,
                ),
                None => None,
            }
        } else {
            None
        }
    }
}

/// The parts of a line.
pub open spec fn segments_of(line: LineView) -> Option<Seq<Segment>> {
    segments_from(line.text, line.ranges, first_shown(line))
}

/// Whether anything stands behind the first match.
pub open spec fn has_text_behind(segments: Seq<Segment>) -> bool {
    exists|i: int| 2 <= i < segments.len() && (#[trigger] segments[i]).0.len() > 0
}

/// Whether the line has to be scrolled for the first match to stay in view in
/// `width` characters: the text before it and the match take more than that,
/// or all of it while more text follows, so that clipping would put its
/// ellipsis over the match. A quarter of the width is never scrolled away.
pub open spec fn needs_scrolling(segments: Seq<Segment>, width: usize) -> bool {
    let lead = segments[0].0.len();
    let first = segments[1].0.len();
    &&& lead > width as int / 4
    &&& lead + first > width || lead + first == width && has_text_behind(segments)
}

/// `segments` scrolled right, if needed, so that the first match stays in view
/// in `width` characters: of the text before it a quarter of the width is
/// kept.
pub open spec fn scrolled(segments: Seq<Segment>, width: Option<usize>) -> Seq<Segment> {
    match width {
        Some(w) => if segments.len() > 1 {
            let lead = segments[0].0.len() as int;
            let keep = w as int / 4;
            if needs_scrolling(segments, w) {
                segments.update(0, ("…"@ + segments[0].0.skip(lead - keep), segments[0].1))
            } else {
                segments
            }
        } else {
            segments
        },
        None => segments,
    }
}

/// What each of `s` is.
pub open spec fn segment_views(s: Seq<(String, bool)>) -> Seq<Segment> {
    s.map_values(|x: (String, bool)| (x.0@, x.1))
}

proof fn lemma_indent(text: Seq<char>)
    ensures
        0 <= indent_of(text) <= byte_len(text),
        is_char_boundary(encode_utf8(text), indent_of(text)),
        is_char_boundary(encode_utf8(text), byte_len(text) as int),
        valid_utf8(encode_utf8(text)),
    decreases text.len(),
{
    let (a, b) = lemma_skip_leading_split(text);
    lemma_encode_concat(a, b);
    lemma_prefix_boundary(a, b);
    lemma_prefix_boundary(text, seq![]);
    assert(text + Seq::<char>::empty() == text);
}

proof fn lemma_skip_leading_split(text: Seq<char>) -> (r: (Seq<char>, Seq<char>))
    ensures
        text == r.0 + r.1,
        r.1 == skip_leading(text, WhiteSpace),
    decreases text.len(),
{
    let skipped = skip_leading(text, WhiteSpace);
    if text.len() > 0 && skipped != text {
        let (a, b) = lemma_skip_leading_split(text.drop_first());
        assert(text == seq![text[0]] + text.drop_first());
        let front = seq![text[0]] + a;
        assert(text == front + b);
        (front, b)
    } else {
        assert(text == Seq::<char>::empty() + text);
        (Seq::empty(), text)
    }
}

/// Whether a line's ranges all fall on characters of its text, as far as they
/// are shown.
pub fn can_highlight(line: &LineMatch) -> (r: bool)
    ensures
        r == (segments_of(line@) is Some),
{
    let text = line.text.as_str();
    let len: usize = text.as_bytes().len();
    let shown: usize = trim_start_of(text, WhiteSpace).as_bytes().len();
    proof {
        lemma_indent(line.text@);
    }
    let indent: usize = len - shown;
    let mut pos: usize = if line.ranges.len() > 0 && line.ranges[0].start < indent {
        line.ranges[0].start
    } else {
        indent
    };
    let ghost all = spans(line.ranges@);
    let mut i: usize = 0;
    assert(all.skip(0) == all);
    if line.ranges.len() > 0 {
        assert(all[0] == span(line.ranges@[0]));
    }
    assert(pos == first_shown(line@));
    while i < line.ranges.len()
        invariant
            i <= line.ranges@.len(),
            all == spans(line.ranges@),
            text@ == line.text@,
            len == byte_len(line.text@),
            valid_utf8(encode_utf8(line.text@)),
            segments_of(line@) is Some <==> segments_from(
                line.text@,
                all.skip(i as int),
                pos as int,
            ) is Some,
        decreases line.ranges@.len() - i,
    {
        let start: usize = line.ranges[i].start;
        let end: usize = line.ranges[i].end;
        proof {
            assert(all[i as int] == span(line.ranges@[i as int]));
            assert(all.skip(i as int)[0] == all[i as int]);
            assert(all.skip(i as int).drop_first() == all.skip(i + 1));
        }
        if start >= pos {
            if start > end || end > len || !text.is_char_boundary(pos) || !text.is_char_boundary(
                start,
            ) || !text.is_char_boundary(end) {
                return false;
            }
            pos = end;
        }
        i += 1;
    }
    proof {
        assert(all.skip(i as int) == Seq::<Span>::empty());
        lemma_indent(line.text@);
    }
    pos <= len && text.is_char_boundary(pos)
}

/// The parts of a line with its matches, scrolled to the first match.
/// Indentation is dropped.
pub fn highlight_segments(line: &LineMatch, width: Option<usize>) -> (r: Vec<(String, bool)>)
    requires
        segments_of(line@) is Some,
    ensures
        segment_views(r@) == scrolled(segments_of(line@)->0, width),
{
    let text = line.text.as_str();
    let len: usize = text.as_bytes().len();
    let shown: usize = trim_start_of(text, WhiteSpace).as_bytes().len();
    proof {
        lemma_indent(line.text@);
    }
    let indent: usize = len - shown;
    let mut pos: usize = if line.ranges.len() > 0 && line.ranges[0].start < indent {
        line.ranges[0].start
    } else {
        indent
    };
    let ghost all = spans(line.ranges@);
    let ghost result = segments_of(line@)->0;
    let mut segments: Vec<(String, bool)> = Vec::new();
    let mut i: usize = 0;
    if line.ranges.len() > 0 {
        assert(all[0] == span(line.ranges@[0]));
    }
    assert(all.skip(0) == all);
    assert(segment_views(segments@) + result == result);
    while i < line.ranges.len()
        invariant
            i <= line.ranges@.len(),
            all == spans(line.ranges@),
            text@ == line.text@,
            segments_from(line.text@, all.skip(i as int), pos as int) is Some,
            result == segment_views(segments@) + segments_from(
                line.text@,
                all.skip(i as int),
                pos as int,
            )->0,
        decreases line.ranges@.len() - i,
    {
        let start: usize = line.ranges[i].start;
        let end: usize = line.ranges[i].end;
        let ghost tail = segments_from(line.text@, all.skip(i as int), pos as int)->0;
        proof {
            assert(all[i as int] == span(line.ranges@[i as int]));
            assert(all.skip(i as int)[0] == all[i as int]);
            assert(all.skip(i as int).drop_first() == all.skip(i + 1));
        }
        if start >= pos {
            let ghost before = segment_views(segments@);
            let between = clean(slice_of(text, pos, start));
            let matched = clean(slice_of(text, start, end));
            let ghost two = seq![(between@, false), (matched@, true)];
            segments.push((between, false));
            segments.push((matched, true));
            assert(segment_views(segments@) == before + two);
            pos = end;
            assert(before + (two + segments_from(line.text@, all.skip(i + 1), pos as int)->0)
                == before + two + segments_from(line.text@, all.skip(i + 1), pos as int)->0);
        }
        i += 1;
    }
    assert(all.skip(i as int) == Seq::<Span>::empty());
    let ghost before = segment_views(segments@);
    let last = clean(trim_end_of(slice_of(text, pos, len), WhiteSpace));
    let ghost end_text = last@;
    segments.push((last, false));
    assert(segment_views(segments@) == before + seq![(end_text, false)]);
    assert(segment_views(segments@) == result);
    scroll(segments, width)
}

/// Scrolls a line's parts to the first match, if needed.
pub fn scroll(segments: Vec<(String, bool)>, width: Option<usize>) -> (r: Vec<(String, bool)>)
    ensures
        segment_views(r@) == scrolled(segment_views(segments@), width),
{
    let mut segments = segments;
    let w: usize = match width {
        Some(w) => w,
        None => return segments,
    };
    if segments.len() < 2 {
        return segments;
    }
    let ghost before = segment_views(segments@);
    let lead: usize = segments[0].0.as_str().unicode_len();
    let first: usize = segments[1].0.as_str().unicode_len();
    let keep: usize = w / 4;
    let mut behind = false;
    let mut i: usize = 2;
    while i < segments.len()
        invariant
            2 <= i <= segments@.len(),
            before == segment_views(segments@),
            behind == (exists|k: int| 2 <= k < i && (#[trigger] before[k]).0.len() > 0),
        decreases segments@.len() - i,
    {
        assert(before[i as int].0 == segments@[i as int].0@);
        if segments[i].0.as_str().unicode_len() > 0 {
            behind = true;
        }
        i += 1;
    }
    assert(behind == has_text_behind(before));
    if lead > keep && (first > w || lead > w - first || (lead == w - first && behind)) {
        let chars = chars_of(segments[0].0.as_str());
        let mut clipped = "…".to_string();
        clipped.append(string_of(&chars, lead - keep, lead).as_str());
        let kind = segments[0].1;
        assert(chars@.subrange(lead - keep, lead as int) == before[0].0.skip(lead - keep));
        let ghost c = clipped@;
        segments.set(0, (clipped, kind));
        assert(segment_views(segments@) == before.update(0, (c, kind)));
    }
    segments
}

/// A match as it is printed: with the codes for black on yellow around it, or
/// as it is where colors are off.
pub open spec fn emphasized(s: Seq<char>, colored: bool) -> Seq<char> {
    if colored {
        "\u{1b}[30m\u{1b}[43m"@ + s + "\u{1b}[0m"@
    } else {
        s
    }
}

/// Calls `console::colors_enabled`, which `console` decides from the terminal
/// and the environment.
#[verifier::external_body]
fn colors_on() -> bool {
    console::colors_enabled()
}

/// Calls `console::style` for black on yellow, with styling forced on or off.
#[verifier::external_body]
fn emphasize(s: &str, colored: bool) -> (r: String)
    ensures
        r@ == emphasized(s@, colored),
{
    console::style(s).black().on_yellow().force_styling(colored).to_string()
}

/// Whether `c` is sure to take one column: it is printable ASCII or an ellipsis.
pub open spec fn is_narrow_char(c: char) -> bool {
    ' ' <= c <= '~' || c == '…'
}

/// Whether each character of `s` is sure to take one column.
pub open spec fn is_narrow(s: Seq<char>) -> bool {
    forall|i: int| 0 <= i < s.len() ==> is_narrow_char(#[trigger] s[i])
}

/// The length of the color code that `s` begins with: an escape character, `[`,
/// one or two digits and `m`. 0 where it begins with none.
pub open spec fn code_len(s: Seq<char>) -> int {
    if s.len() >= 4 && s[0] == '\u{1b}' && s[1] == '[' && is_digit(s[2]) {
        if s[3] == 'm' {
            4
        } else if s.len() >= 5 && is_digit(s[3]) && s[4] == 'm' {
            5
        } else {
            0
        }
    } else {
        0
    }
}

/// Whether `s` is made of color codes and of characters that are sure to take
/// one column.
pub open spec fn is_colored_text(s: Seq<char>) -> bool
    decreases s.len(),
{
    if s.len() == 0 {
        true
    } else if code_len(s) > 0 {
        is_colored_text(s.skip(code_len(s)))
    } else {
        is_narrow_char(s[0]) && is_colored_text(s.drop_first())
    }
}

/// `s` without its color codes: what takes up columns.
pub open spec fn without_codes(s: Seq<char>) -> Seq<char>
    decreases s.len(),
{
    if s.len() == 0 {
        seq![]
    } else if code_len(s) > 0 {
        without_codes(s.skip(code_len(s)))
    } else {
        seq![s[0]] + without_codes(s.drop_first())
    }
}

/// The color codes of `s`.
pub open spec fn codes_of(s: Seq<char>) -> Seq<char>
    decreases s.len(),
{
    if s.len() == 0 {
        seq![]
    } else if code_len(s) > 0 {
        s.take(code_len(s)) + codes_of(s.skip(code_len(s)))
    } else {
        codes_of(s.drop_first())
    }
}

/// `s` cut off behind `keep` characters, an ellipsis in the place of the rest.
/// All color codes are kept.
pub open spec fn cut_behind(s: Seq<char>, keep: int) -> Seq<char>
    decreases s.len(),
{
    if s.len() == 0 {
        seq![]
    } else if code_len(s) > 0 {
        s.take(code_len(s)) + cut_behind(s.skip(code_len(s)), keep)
    } else if keep <= 0 {
        "…"@ + codes_of(s)
    } else {
        seq![s[0]] + cut_behind(s.drop_first(), keep - 1)
    }
}

/// What `console::truncate_str` leaves of `s` in `width` columns, with `tail`
/// behind it where something was cut off.
pub uninterp spec fn truncated(s: Seq<char>, width: usize, tail: Seq<char>) -> Seq<char>;

/// Calls `console::truncate_str`, whose result depends on its arguments alone.
/// Printable ASCII characters and the ellipsis take a column each, and color
/// codes none. Text that fits comes back as it is; of other text as much is left
/// as fits beside the tail, with the color codes of all of it. How wide other
/// characters are, and what other escape codes do, is left to the name.
#[verifier::external_body]
fn truncate(s: &str, width: usize, tail: &str) -> (r: String)
    ensures
        r@ == truncated(s@, width, tail@),
        is_colored_text(s@) && without_codes(s@).len() <= width ==> r@ == s@,
        is_colored_text(s@) && without_codes(s@).len() > width && width > 0 && tail@ == "…"@
            ==> r@ == cut_behind(s@, width - 1),
{
    console::truncate_str(s, width, tail).into_owned()
}

/// `s` clipped to `width` columns, if that is given.
pub open spec fn clipped_to(s: Seq<char>, width: Option<usize>) -> Seq<char> {
    match width {
        Some(w) => if is_colored_text(s) && without_codes(s).len() <= w {
            s
        } else if is_colored_text(s) && w > 0 {
            cut_behind(s, w - 1)
        } else {
            truncated(s, w, "…"@)
        },
        None => s,
    }
}

/// Clips a rendered line to `width` columns, if that is given.
pub fn clip(rendered: &str, width: Option<usize>) -> (r: String)
    ensures
        r@ == clipped_to(rendered@, width),
{
    match width {
        Some(w) => truncate(rendered, w, "…"),
        None => rendered.to_string(),
    }
}

/// The parts of a line one behind the other, the matches emphasized.
pub open spec fn rendered(segments: Seq<Segment>, colored: bool) -> Seq<char>
    decreases segments.len(),
{
    if segments.len() == 0 {
        seq![]
    } else {
        let last = segments.last();
        rendered(segments.drop_last(), colored) + if last.1 {
            emphasized(last.0, colored)
        } else {
            last.0
        }
    }
}

/// Prints the parts of a line one behind the other, the matches in color or
/// not, clipped to `width` columns.
pub fn render_as(segments: &Vec<(String, bool)>, colored: bool, width: Option<usize>) -> (r: String)
    ensures
        r@ == clipped_to(rendered(segment_views(segments@), colored), width),
{
    let mut out = String::new();
    let ghost all = segment_views(segments@);
    let mut i: usize = 0;
    assert(all.take(0) == Seq::<Segment>::empty());
    while i < segments.len()
        invariant
            i <= segments@.len(),
            all == segment_views(segments@),
            out@ == rendered(all.take(i as int), colored),
        decreases segments@.len() - i,
    {
        let part = segments[i].0.as_str();
        if segments[i].1 {
            out.append(emphasize(part, colored).as_str());
        } else {
            out.append(part);
        }
        proof {
            assert(all.take(i + 1).drop_last() == all.take(i as int));
            assert(all.take(i + 1).last() == (part@, segments@[i as int].1));
        }
        i += 1;
    }
    assert(all.take(i as int) == all);
    clip(out.as_str(), width)
}

/// Prints the parts of a line one behind the other, the matches in color where
/// the terminal shows colors, clipped to `width` columns.
pub fn render(segments: &Vec<(String, bool)>, width: Option<usize>) -> (r: String)
    ensures
        exists|colored: bool|
            r@ == clipped_to(#[trigger] rendered(segment_views(segments@), colored), width),
{
    render_as(segments, colors_on(), width)
}

/// Renders a matching line with its matches highlighted. Indentation is
/// dropped, and when `width` is given the line is clipped to fit — scrolling
/// right first, if needed, so the first match stays in view.
pub fn highlight_line(line: &LineMatch, width: Option<usize>) -> (r: String)
    requires
        segments_of(line@) is Some,
    ensures
        exists|colored: bool|
            r@ == clipped_to(
                #[trigger] rendered(scrolled(segments_of(line@)->0, width), colored),
                width,
            ),
{
    let segments = highlight_segments(line, width);
    render_as(&segments, colors_on(), width)
}

proof fn lemma_segments_exist(text: Seq<char>, ranges: Seq<Span>, pos: int)
    requires
        0 <= pos <= byte_len(text),
        is_char_boundary(encode_utf8(text), pos),
        forall|i: int| 0 <= i < ranges.len() ==> is_slice(text, #[trigger] ranges[i]),
    ensures
        segments_from(text, ranges, pos) is Some,
    decreases ranges.len(),
{
    lemma_indent(text);
    if ranges.len() > 0 {
        let r = ranges[0];
        let rest = ranges.drop_first();
        assert(is_slice(text, ranges[0]));
        assert forall|i: int| 0 <= i < rest.len() implies is_slice(text, #[trigger] rest[i]) by {
            assert(rest[i] == ranges[i + 1]);
        }
        if r.start < pos {
            lemma_segments_exist(text, rest, pos);
        } else {
            lemma_segments_exist(text, rest, r.end);
        }
    }
}

/// A line match as searching makes them can be shown.
pub proof fn law_line_match_can_be_highlighted(line: LineView)
    requires
        line.wf(),
    ensures
        segments_of(line) is Some,
{
    lemma_indent(line.text);
    if line.ranges.len() > 0 {
        assert(is_slice(line.text, line.ranges[0]));
    }
    lemma_segments_exist(line.text, line.ranges, first_shown(line));
}

/// The number of characters in all parts of a line.
pub open spec fn total_len(segments: Seq<Segment>) -> nat
    decreases segments.len(),
{
    if segments.len() == 0 {
        0
    } else {
        total_len(segments.drop_last()) + segments.last().0.len()
    }
}

proof fn lemma_total_len(segments: Seq<Segment>)
    requires
        segments.len() >= 2,
    ensures
        total_len(segments) >= segments[0].0.len() + segments[1].0.len(),
        !has_text_behind(segments) ==> total_len(segments) == segments[0].0.len()
            + segments[1].0.len(),
    decreases segments.len(),
{
    let init = segments.drop_last();
    if segments.len() == 2 {
        reveal_with_fuel(total_len, 3);
    } else {
        lemma_total_len(init);
        if !has_text_behind(segments) {
            assert(segments[segments.len() - 1].0.len() == 0);
            assert forall|i: int| 2 <= i < init.len() implies (#[trigger] init[i]).0.len()
                == 0 by {
                assert(init[i] == segments[i]);
            }
        }
    }
}

/// Whether there is room for the first match in `width` columns: beside two
/// ellipses, or one where nothing stands before the match, or without any.
pub open spec fn can_show_match(segments: Seq<Segment>, width: usize) -> bool {
    width >= 3 || width == 2 && segments[0].0.len() == 0 || total_len(segments) <= width
}

/// Whatever stands before the first match, the match begins within what is left
/// of the width beside an ellipsis, unless the whole line fits. Only the text
/// before the match is scrolled, and only where the line does not fit.
pub proof fn law_first_match_stays_in_view(segments: Seq<Segment>, width: usize)
    requires
        can_show_match(segments, width),
        segments.len() > 1,
        segments[1].0.len() > 0,
    ensures
        total_len(segments) <= width || scrolled(segments, Some(width))[0].0.len() + 1 < width,
        total_len(segments) <= width ==> scrolled(segments, Some(width)) == segments,
        scrolled(segments, Some(width)).len() == segments.len(),
        scrolled(segments, Some(width)).skip(1) == segments.skip(1),
{
    reveal_strlit("…");
    lemma_total_len(segments);
    if has_text_behind(segments) {
        lemma_text_behind_counts(segments);
    }
    assert(scrolled(segments, Some(width)).skip(1) == segments.skip(1));
}

proof fn lemma_text_behind_counts(segments: Seq<Segment>)
    requires
        segments.len() >= 2,
        has_text_behind(segments),
    ensures
        total_len(segments) > segments[0].0.len() + segments[1].0.len(),
    decreases segments.len(),
{
    let init = segments.drop_last();
    let i = choose|i: int| 2 <= i < segments.len() && (#[trigger] segments[i]).0.len() > 0;
    lemma_total_len(init);
    if i < init.len() {
        assert(init[i].0.len() > 0);
        lemma_text_behind_counts(init);
    }
}

proof fn lemma_rendered_plain(segments: Seq<Segment>)
    requires
        segments.len() >= 2,
        forall|i: int| 0 <= i < segments.len() ==> is_narrow((#[trigger] segments[i]).0),
        segments[1].0.len() > 0,
    ensures
        is_narrow(rendered(segments, false)),
        rendered(segments, false).len() == total_len(segments),
        total_len(segments) > segments[0].0.len(),
        rendered(segments, false)[segments[0].0.len() as int] == segments[1].0[0],
    decreases segments.len(),
{
    let init = segments.drop_last();
    let last = segments.last().0;
    let r = rendered(segments, false);
    assert(is_narrow(segments[segments.len() - 1].0));
    if segments.len() == 2 {
        reveal_with_fuel(total_len, 3);
        reveal_with_fuel(rendered, 3);
        assert(is_narrow(segments[0].0));
        assert(init.drop_last() == Seq::<Segment>::empty());
        assert(rendered(init, false) == segments[0].0);
        assert(r == segments[0].0 + segments[1].0);
    } else {
        assert forall|i: int| 0 <= i < init.len() implies is_narrow((#[trigger] init[i]).0) by {
            assert(init[i] == segments[i]);
        }
        lemma_rendered_plain(init);
        assert(r == rendered(init, false) + last);
    }
}

proof fn lemma_plain_text(s: Seq<char>)
    requires
        is_narrow(s),
    ensures
        is_colored_text(s),
        without_codes(s) == s,
        codes_of(s) == Seq::<char>::empty(),
    decreases s.len(),
{
    if s.len() > 0 {
        let t = s.drop_first();
        assert(is_narrow_char(s[0]));
        assert forall|i: int| 0 <= i < t.len() implies is_narrow_char(#[trigger] t[i]) by {
            assert(t[i] == s[i + 1]);
        }
        lemma_plain_text(t);
        assert(seq![s[0]] + t == s);
    }
}

/// A text that begins with a whole code, or with a character, continues after
/// it with what follows.
proof fn lemma_code_in_front(a: Seq<char>, b: Seq<char>)
    requires
        a.len() > 0,
        code_len(a) > 0 || is_narrow_char(a[0]),
    ensures
        code_len(a + b) == code_len(a),
        (a + b).skip(code_len(a)) == a.skip(code_len(a)) + b,
        (a + b).take(code_len(a)) == a.take(code_len(a)),
        (a + b).drop_first() == a.drop_first() + b,
        (a + b)[0] == a[0],
{
}

proof fn lemma_colored_concat(a: Seq<char>, b: Seq<char>)
    requires
        is_colored_text(a),
        is_colored_text(b),
    ensures
        is_colored_text(a + b),
        without_codes(a + b) == without_codes(a) + without_codes(b),
    decreases a.len(),
{
    if a.len() == 0 {
        assert(a + b == b);
    } else {
        lemma_code_in_front(a, b);
        if code_len(a) > 0 {
            lemma_colored_concat(a.skip(code_len(a)), b);
        } else {
            lemma_colored_concat(a.drop_first(), b);
        }
    }
}

proof fn lemma_codes_take_no_columns(s: Seq<char>)
    requires
        is_colored_text(s),
    ensures
        without_codes(codes_of(s)) == Seq::<char>::empty(),
    decreases s.len(),
{
    if s.len() > 0 {
        let n = code_len(s);
        if n > 0 {
            let rest = codes_of(s.skip(n));
            lemma_codes_take_no_columns(s.skip(n));
            assert(code_len(s.take(n)) == n);
            lemma_code_in_front(s.take(n), rest);
            assert(s.take(n).skip(n) + rest == rest);
        } else {
            lemma_codes_take_no_columns(s.drop_first());
        }
    }
}

/// Of a text that is clipped, as many characters are left as fit beside the
/// ellipsis, whatever the color codes between them.
pub proof fn law_clipping_goes_by_columns(s: Seq<char>, keep: int)
    requires
        is_colored_text(s),
        0 <= keep < without_codes(s).len(),
    ensures
        without_codes(cut_behind(s, keep)) == without_codes(s).take(keep) + "…"@,
    decreases s.len(),
{
    let n = code_len(s);
    let all = without_codes(s);
    reveal_strlit("…");
    if n > 0 {
        let rest = cut_behind(s.skip(n), keep);
        law_clipping_goes_by_columns(s.skip(n), keep);
        assert(code_len(s.take(n)) == n);
        lemma_code_in_front(s.take(n), rest);
        assert(s.take(n).skip(n) + rest == rest);
    } else if keep == 0 {
        let codes = codes_of(s);
        lemma_codes_take_no_columns(s);
        lemma_code_in_front("…"@, codes);
        assert("…"@.drop_first() + codes == codes);
        assert(cut_behind(s, keep) == "…"@ + codes);
        assert(without_codes("…"@ + codes) == seq!['…'] + Seq::<char>::empty());
        assert(all.take(0) + "…"@ == seq!['…'] + Seq::<char>::empty());
    } else {
        let rest = cut_behind(s.drop_first(), keep - 1);
        let tail = without_codes(s.drop_first());
        law_clipping_goes_by_columns(s.drop_first(), keep - 1);
        lemma_code_in_front(seq![s[0]], rest);
        assert(seq![s[0]].drop_first() + rest == rest);
        assert(all.take(keep) == seq![s[0]] + tail.take(keep - 1));
    }
}

proof fn lemma_emphasized(s: Seq<char>, colored: bool)
    requires
        is_narrow(s),
    ensures
        is_colored_text(emphasized(s, colored)),
        without_codes(emphasized(s, colored)) == s,
{
    lemma_plain_text(s);
    if colored {
        let a = "\u{1b}[30m\u{1b}[43m"@;
        let b = "\u{1b}[0m"@;
        reveal_strlit("\u{1b}[30m\u{1b}[43m");
        reveal_strlit("\u{1b}[0m");
        reveal_with_fuel(is_colored_text, 3);
        reveal_with_fuel(without_codes, 3);
        assert(code_len(a) == 5 && code_len(a.skip(5)) == 5 && a.skip(5).skip(5).len() == 0);
        assert(code_len(b) == 4 && b.skip(4).len() == 0);
        lemma_colored_concat(a, s);
        lemma_colored_concat(a + s, b);
    }
}

proof fn lemma_rendered_colored(segments: Seq<Segment>, colored: bool)
    requires
        forall|i: int| 0 <= i < segments.len() ==> is_narrow((#[trigger] segments[i]).0),
    ensures
        is_colored_text(rendered(segments, colored)),
        without_codes(rendered(segments, colored)) == rendered(segments, false),
    decreases segments.len(),
{
    if segments.len() > 0 {
        let init = segments.drop_last();
        let last = segments.last();
        assert forall|i: int| 0 <= i < init.len() implies is_narrow((#[trigger] init[i]).0) by {
            assert(init[i] == segments[i]);
        }
        assert(is_narrow(segments[segments.len() - 1].0));
        lemma_rendered_colored(init, colored);
        lemma_emphasized(last.0, colored);
        lemma_plain_text(last.0);
        let part = if last.1 {
            emphasized(last.0, colored)
        } else {
            last.0
        };
        lemma_colored_concat(rendered(init, colored), part);
    }
}

/// Of a line of printable ASCII characters, in color or not, what is printed
/// takes no more columns than it may, and the first match begins in it, behind
/// the text that is left before it.
pub proof fn law_first_match_is_printed(segments: Seq<Segment>, width: usize, colored: bool)
    requires
        can_show_match(segments, width),
        segments.len() > 1,
        segments[1].0.len() > 0,
        forall|i: int| 0 <= i < segments.len() ==> is_narrow((#[trigger] segments[i]).0),
    ensures
        ({
            let shown = scrolled(segments, Some(width));
            let line = without_codes(clipped_to(rendered(shown, colored), Some(width)));
            &&& line.len() <= width
            &&& shown[0].0.len() < line.len()
            &&& line[shown[0].0.len() as int] == segments[1].0[0]
        }),
{
    let shown = scrolled(segments, Some(width));
    let all = rendered(shown, colored);
    let plain = rendered(shown, false);
    reveal_strlit("…");
    law_first_match_stays_in_view(segments, width);
    assert(shown[1] == shown.skip(1)[0]);
    assert(segments[1] == segments.skip(1)[0]);
    assert forall|i: int| 0 <= i < shown.len() implies is_narrow((#[trigger] shown[i]).0) by {
        assert(is_narrow(segments[i].0));
        if i > 0 {
            assert(shown[i] == shown.skip(1)[i - 1]);
            assert(segments[i] == segments.skip(1)[i - 1]);
        } else if shown != segments {
            let keep = width as int / 4;
            let lead = segments[0].0.len() as int;
            assert(shown[0].0 == "…"@ + segments[0].0.skip(lead - keep));
            assert forall|j: int| 0 <= j < shown[0].0.len() implies is_narrow_char(
                #[trigger] shown[0].0[j],
            ) by {
                if j > 0 {
                    assert(shown[0].0[j] == segments[0].0[lead - keep + j - 1]);
                }
            }
        }
    }
    lemma_rendered_plain(shown);
    lemma_rendered_colored(shown, colored);
    if plain.len() > width {
        law_clipping_goes_by_columns(all, width - 1);
        assert(without_codes(clipped_to(all, Some(width))) == plain.take(width - 1) + "…"@);
    }
}

proof fn lemma_segments_form(text: Seq<char>, ranges: Seq<Span>, pos: int)
    requires
        segments_from(text, ranges, pos) is Some,
    ensures
        ({
            let s = segments_from(text, ranges, pos)->0;
            &&& s.len() % 2 == 1
            &&& forall|i: int|
                0 <= i < s.len() ==> (#[trigger] s[i]).1 == (i % 2 == 1) && no_controls(s[i].0)
        }),
    decreases ranges.len(),
{
    let s = segments_from(text, ranges, pos)->0;
    if ranges.len() == 0 {
        law_clean_text_has_no_control_characters(
            skip_trailing(slice(text, pos, byte_len(text) as int), WhiteSpace),
        );
    } else {
        let r = ranges[0];
        let rest = ranges.drop_first();
        if r.start < pos {
            lemma_segments_form(text, rest, pos);
        } else {
            lemma_segments_form(text, rest, r.end);
            law_clean_text_has_no_control_characters(slice(text, pos, r.start));
            law_clean_text_has_no_control_characters(slice(text, r.start, r.end));
            let more = segments_from(text, rest, r.end)->0;
            assert forall|i: int| 0 <= i < s.len() implies (#[trigger] s[i]).1 == (i % 2 == 1)
                && no_controls(s[i].0) by {
                if i >= 2 {
                    assert(s[i] == more[i - 2]);
                }
            }
        }
    }
}

/// The parts of a line alternate between text and matches, beginning and
/// ending with text, and none of them has control characters in it, so a file
/// cannot move the cursor or restyle the terminal.
pub proof fn law_segments_alternate_and_are_safe(line: LineView, width: Option<usize>)
    requires
        segments_of(line) is Some,
    ensures
        ({
            let s = scrolled(segments_of(line)->0, width);
            &&& s.len() % 2 == 1
            &&& forall|i: int|
                0 <= i < s.len() ==> (#[trigger] s[i]).1 == (i % 2 == 1) && no_controls(s[i].0)
        }),
{
    lemma_segments_form(line.text, line.ranges, first_shown(line));
    let s = segments_of(line)->0;
    let t = scrolled(s, width);
    reveal_strlit("…");
    assert forall|i: int| 0 <= i < t.len() implies (#[trigger] t[i]).1 == (i % 2 == 1)
        && no_controls(t[i].0) by {
        assert(s[i].1 == (i % 2 == 1) && no_controls(s[i].0));
        if i == 0 && t != s {
            let w = width->0;
            let keep = w as int / 4;
            let lead = s[0].0.len() as int;
            let clipped = s[0].0.skip(lead - keep);
            assert(t[0].0 == "…"@ + clipped);
            assert forall|j: int| 0 <= j < t[0].0.len() implies !is_control_char(
                #[trigger] t[0].0[j],
            ) by {
                if j > 0 {
                    assert(t[0].0[j] == s[0].0[lead - keep + j - 1]);
                }
            }
        }
    }
}

/// A text is cleaned character by character: a tab becomes four spaces, any
/// other control character the replacement character, and nothing else changes.
pub proof fn law_cleaning_goes_by_character(a: Seq<char>, b: Seq<char>, c: char)
    ensures
        cleaned(a + b) == cleaned(a) + cleaned(b),
        cleaned(seq!['\t']) == seq![' ', ' ', ' ', ' '],
        is_control_char(c) && c != '\t' ==> cleaned(seq![c]) == seq!['\u{fffd}'],
        !is_control_char(c) ==> cleaned(seq![c]) == seq![c],
        cleaned(seq![]) == Seq::<char>::empty(),
    decreases b.len(),
{
    reveal_with_fuel(cleaned, 2);
    reveal_strlit("    ");
    assert(seq![c].drop_last() == Seq::<char>::empty());
    assert(seq!['\t'].drop_last() == Seq::<char>::empty());
    assert(cleaned(seq!['\t']) =~= seq![' ', ' ', ' ', ' ']);
    assert(cleaned(seq![c]) =~= clean_char(c));
    if b.len() == 0 {
        assert(a + b == a);
        assert(cleaned(a) + cleaned(b) == cleaned(a));
    } else {
        law_cleaning_goes_by_character(a, b.drop_last(), c);
        assert((a + b).drop_last() == a + b.drop_last());
        assert(cleaned(a + b) == cleaned(a) + cleaned(b));
    }
}

/// The part of a text between two offsets is what stands between them.
pub proof fn law_slice_is_what_stands_between(a: Seq<char>, b: Seq<char>, c: Seq<char>)
    ensures
        slice(a + b + c, byte_len(a) as int, byte_len(a + b) as int) == b,
        can_slice(a + b + c, byte_len(a) as int, byte_len(a + b) as int),
{
    lemma_encode_concat(a, b);
    lemma_encode_concat(a + b, c);
    lemma_prefix_boundary(a, b + c);
    assert(a + (b + c) == a + b + c);
    lemma_prefix_boundary(a + b, c);
    assert(encode_utf8(a + b + c).subrange(byte_len(a) as int, byte_len(a + b) as int)
        == encode_utf8(b));
    encode_utf8_decode_utf8(b);
}

proof fn lemma_slice_valid(text: Seq<char>, a: int, b: int)
    requires
        can_slice(text, a, b),
    ensures
        valid_utf8(encode_utf8(text).subrange(a, b)),
{
    let bytes = encode_utf8(text);
    encode_utf8_valid_utf8(text);
    valid_utf8_split(bytes, b);
    lemma_boundary_in_prefix(bytes, a, b);
    valid_utf8_split(bytes.subrange(0, b), a);
    assert(bytes.subrange(0, b).subrange(a, b) == bytes.subrange(a, b));
}

/// Parts of a text that adjoin make up the part from the first to the last.
pub proof fn law_slices_adjoin(text: Seq<char>, a: int, b: int, c: int)
    requires
        can_slice(text, a, b),
        can_slice(text, b, c),
    ensures
        slice(text, a, b) + slice(text, b, c) == slice(text, a, c),
{
    let bytes = encode_utf8(text);
    lemma_slice_valid(text, a, b);
    lemma_slice_valid(text, b, c);
    lemma_slice_valid(text, a, c);
    decode_utf8_encode_utf8(bytes.subrange(a, b));
    decode_utf8_encode_utf8(bytes.subrange(b, c));
    lemma_encode_concat(slice(text, a, b), slice(text, b, c));
    assert(bytes.subrange(a, b) + bytes.subrange(b, c) == bytes.subrange(a, c));
    encode_utf8_decode_utf8(slice(text, a, b) + slice(text, b, c));
}

/// Whether `ranges` are parts of `text` that come one after the other.
pub open spec fn are_apart(text: Seq<char>, ranges: Seq<Span>) -> bool {
    &&& forall|i: int| 0 <= i < ranges.len() ==> is_slice(text, #[trigger] ranges[i])
    &&& forall|i: int, j: int|
        0 <= i < j < ranges.len() ==> (#[trigger] ranges[i]).end <= (#[trigger] ranges[j]).start
}

/// Where the text before the range at `k` begins, if the line is shown from
/// `pos` on: behind the range before it.
pub open spec fn gap_start(ranges: Seq<Span>, pos: int, k: int) -> int {
    if k == 0 {
        pos
    } else {
        ranges[k - 1].end
    }
}

proof fn lemma_apart_rest(text: Seq<char>, ranges: Seq<Span>)
    requires
        are_apart(text, ranges),
        ranges.len() > 0,
    ensures
        are_apart(text, ranges.drop_first()),
        is_slice(text, ranges[0]),
        ranges.len() > 1 ==> ranges[0].end <= ranges.drop_first()[0].start,
{
    let rest = ranges.drop_first();
    assert forall|i: int| 0 <= i < rest.len() implies is_slice(text, #[trigger] rest[i]) by {
        assert(rest[i] == ranges[i + 1]);
    }
    assert forall|i: int, j: int| 0 <= i < j < rest.len() implies (#[trigger] rest[i]).end <= (
    #[trigger] rest[j]).start by {
        assert(rest[i] == ranges[i + 1] && rest[j] == ranges[j + 1]);
    }
    if rest.len() > 0 {
        assert(rest[0] == ranges[1]);
    }
}

proof fn lemma_gap_start_rest(ranges: Seq<Span>, pos: int, k: int)
    requires
        0 < k <= ranges.len(),
    ensures
        gap_start(ranges, pos, k) == gap_start(ranges.drop_first(), ranges[0].end, k - 1),
{
    if k > 1 {
        assert(ranges.drop_first()[k - 2] == ranges[k - 1]);
    }
}

#[verifier::spinoff_prover]
proof fn lemma_parts(text: Seq<char>, ranges: Seq<Span>, pos: int)
    requires
        are_apart(text, ranges),
        0 <= pos <= byte_len(text),
        is_char_boundary(encode_utf8(text), pos),
        ranges.len() > 0 ==> pos <= ranges[0].start,
    ensures
        segments_from(text, ranges, pos) is Some,
        ({
            let s = segments_from(text, ranges, pos)->0;
            let n = ranges.len() as int;
            let len = byte_len(text) as int;
            &&& s.len() == 2 * n + 1
            &&& forall|k: int|
                0 <= k < n ==> s[2 * k + 1] == (
                    cleaned(slice(text, (#[trigger] ranges[k]).start, ranges[k].end)),
                    true,
                )
            &&& forall|k: int|
                0 <= k < n ==> s[2 * k] == (
                    cleaned(
                        slice(text, #[trigger] gap_start(ranges, pos, k), ranges[k].start),
                    ),
                    false,
                )
            &&& s[2 * n] == (
                cleaned(skip_trailing(slice(text, gap_start(ranges, pos, n), len), WhiteSpace)),
                false,
            )
        }),
    decreases ranges.len(),
{
    lemma_indent(text);
    let s = segments_from(text, ranges, pos)->0;
    let n = ranges.len() as int;
    let len = byte_len(text) as int;
    if n > 0 {
        let r = ranges[0];
        let rest = ranges.drop_first();
        lemma_apart_rest(text, ranges);
        lemma_parts(text, rest, r.end);
        let more = segments_from(text, rest, r.end)->0;
        let gap = (cleaned(slice(text, pos, r.start)), false);
        let hit = (cleaned(slice(text, r.start, r.end)), true);
        assert(s == seq![gap, hit] + more);
        assert forall|k: int| 0 <= k < n implies s[2 * k + 1] == (
            cleaned(slice(text, (#[trigger] ranges[k]).start, ranges[k].end)),
            true,
        ) by {
            if k > 0 {
                assert(rest[k - 1] == ranges[k]);
                assert(s[2 * k + 1] == more[2 * (k - 1) + 1]);
            }
        }
        assert forall|k: int| 0 <= k < n implies s[2 * k] == (
            cleaned(slice(text, #[trigger] gap_start(ranges, pos, k), ranges[k].start)),
            false,
        ) by {
            if k > 0 {
                assert(rest[k - 1] == ranges[k]);
                assert(s[2 * k] == more[2 * (k - 1)]);
                lemma_gap_start_rest(ranges, pos, k);
                assert(gap_start(rest, r.end, k - 1) == gap_start(ranges, pos, k));
            }
        }
        assert(s[2 * n] == more[2 * (n - 1)]);
        lemma_gap_start_rest(ranges, pos, n);
    }
}

proof fn lemma_last_gap(text: Seq<char>, ranges: Seq<Span>, pos: int)
    requires
        are_apart(text, ranges),
        0 <= pos <= byte_len(text),
        is_char_boundary(encode_utf8(text), pos),
        ranges.len() > 0 ==> pos <= ranges[0].start,
    ensures
        can_slice(text, pos, gap_start(ranges, pos, ranges.len() as int)),
        can_slice(text, gap_start(ranges, pos, ranges.len() as int), byte_len(text) as int),
{
    lemma_indent(text);
    let n = ranges.len() as int;
    if n > 0 {
        assert(is_slice(text, ranges[n - 1]));
        if n > 1 {
            assert(is_slice(text, ranges[0]));
            assert(ranges[0].end <= ranges[n - 1].start);
        }
    }
}

proof fn lemma_empty_slice(text: Seq<char>, pos: int)
    requires
        can_slice(text, pos, pos),
    ensures
        cleaned(slice(text, pos, pos)) == Seq::<char>::empty(),
{
    let e = Seq::<char>::empty();
    assert(encode_utf8(text).subrange(pos, pos) == Seq::<u8>::empty());
    assert(encode_utf8(e) == Seq::<u8>::empty());
    encode_utf8_decode_utf8(e);
    law_cleaning_goes_by_character(e, e, ' ');
}

#[verifier::spinoff_prover]
proof fn lemma_parts_joined(text: Seq<char>, ranges: Seq<Span>, pos: int)
    requires
        are_apart(text, ranges),
        0 <= pos <= byte_len(text),
        is_char_boundary(encode_utf8(text), pos),
        ranges.len() > 0 ==> pos <= ranges[0].start,
    ensures
        segments_from(text, ranges, pos) is Some,
        ({
            let e = gap_start(ranges, pos, ranges.len() as int);
            rendered(segments_from(text, ranges, pos)->0, false) == cleaned(slice(text, pos, e))
                + cleaned(skip_trailing(slice(text, e, byte_len(text) as int), WhiteSpace))
        }),
    decreases ranges.len(),
{
    lemma_last_gap(text, ranges, pos);
    let n = ranges.len() as int;
    let len = byte_len(text) as int;
    let e = gap_start(ranges, pos, n);
    let tail = cleaned(skip_trailing(slice(text, e, len), WhiteSpace));
    if n == 0 {
        let none = Seq::<Segment>::empty();
        law_only_matches_are_colored(none, none, tail, false);
        lemma_empty_slice(text, pos);
        assert(segments_from(text, ranges, pos)->0 == seq![(tail, false)]);
        assert(cleaned(slice(text, pos, e)) + tail == tail);
    } else {
        let r = ranges[0];
        let rest = ranges.drop_first();
        lemma_apart_rest(text, ranges);
        lemma_last_gap(text, rest, r.end);
        lemma_gap_start_rest(ranges, pos, n);
        lemma_parts_joined(text, rest, r.end);
        let more = segments_from(text, rest, r.end)->0;
        let gap = cleaned(slice(text, pos, r.start));
        let hit = cleaned(slice(text, r.start, r.end));
        let one = seq![(gap, false)];
        let two = seq![(hit, true)];
        assert(segments_from(text, ranges, pos)->0 == one + two + more);
        law_only_matches_are_colored(one, two, gap, false);
        law_only_matches_are_colored(one + two, more, hit, false);
        law_slices_adjoin(text, pos, r.start, r.end);
        law_slices_adjoin(text, pos, r.end, e);
        law_cleaning_goes_by_character(
            slice(text, pos, r.start),
            slice(text, r.start, r.end),
            ' ',
        );
        law_cleaning_goes_by_character(slice(text, pos, r.end), slice(text, r.end, e), ' ');
        let between = cleaned(slice(text, r.end, e));
        assert(gap + hit + (between + tail) == gap + hit + between + tail);
    }
}

proof fn lemma_rendered_concat(a: Seq<Segment>, b: Seq<Segment>, colored: bool)
    ensures
        rendered(a + b, colored) == rendered(a, colored) + rendered(b, colored),
    decreases b.len(),
{
    if b.len() == 0 {
        assert(a + b == a);
        assert(rendered(a, colored) + rendered(b, colored) == rendered(a, colored));
    } else {
        lemma_rendered_concat(a, b.drop_last(), colored);
        assert((a + b).drop_last() == a + b.drop_last());
        assert(rendered(a + b, colored) == rendered(a, colored) + rendered(b, colored));
    }
}

proof fn lemma_shown_from(line: LineView)
    requires
        are_apart(line.text, line.ranges),
    ensures
        0 <= first_shown(line) <= byte_len(line.text),
        is_char_boundary(encode_utf8(line.text), first_shown(line)),
        line.ranges.len() > 0 ==> first_shown(line) <= line.ranges[0].start,
{
    lemma_indent(line.text);
    if line.ranges.len() > 0 {
        assert(is_slice(line.text, line.ranges[0]));
    }
}

/// Every match of a line is highlighted, however many there are: of a line whose
/// matches come one after the other, the parts are alternately the text between
/// the matches and the matches, each cleaned, none left out and none added.
pub proof fn law_every_match_is_highlighted(line: LineView)
    requires
        are_apart(line.text, line.ranges),
    ensures
        segments_of(line) is Some,
        ({
            let s = segments_of(line)->0;
            let n = line.ranges.len() as int;
            let from = first_shown(line);
            let len = byte_len(line.text) as int;
            &&& s.len() == 2 * n + 1
            &&& forall|k: int|
                0 <= k < n ==> s[2 * k + 1] == (
                    cleaned(
                        slice(line.text, (#[trigger] line.ranges[k]).start, line.ranges[k].end),
                    ),
                    true,
                )
            &&& forall|k: int|
                0 <= k < n ==> s[2 * k] == (
                    cleaned(
                        slice(
                            line.text,
                            #[trigger] gap_start(line.ranges, from, k),
                            line.ranges[k].start,
                        ),
                    ),
                    false,
                )
            &&& s[2 * n] == (
                cleaned(
                    skip_trailing(
                        slice(line.text, gap_start(line.ranges, from, n), len),
                        WhiteSpace,
                    ),
                ),
                false,
            )
        }),
{
    lemma_shown_from(line);
    lemma_parts(line.text, line.ranges, first_shown(line));
}

/// The parts of a line are the line: one behind the other they are its text from
/// where it is shown on, cleaned, without the white space behind the last match.
pub proof fn law_parts_make_up_the_line(line: LineView)
    requires
        are_apart(line.text, line.ranges),
    ensures
        segments_of(line) is Some,
        ({
            let from = first_shown(line);
            let last = gap_start(line.ranges, from, line.ranges.len() as int);
            let len = byte_len(line.text) as int;
            &&& from <= last <= len
            &&& rendered(segments_of(line)->0, false) == cleaned(slice(line.text, from, last))
                + cleaned(skip_trailing(slice(line.text, last, len), WhiteSpace))
        }),
{
    lemma_shown_from(line);
    lemma_last_gap(line.text, line.ranges, first_shown(line));
    lemma_parts_joined(line.text, line.ranges, first_shown(line));
}

/// Only indentation is dropped: a line is shown from its first character that is
/// not white space on, or from its first match on, if that comes before.
pub proof fn law_only_indentation_is_dropped(
    indent: Seq<char>,
    rest: Seq<char>,
    line: LineView,
)
    requires
        line.text == indent + rest,
        forall|i: int| 0 <= i < indent.len() ==> is_white_space(#[trigger] indent[i]),
        rest.len() > 0 ==> !is_white_space(rest[0]),
    ensures
        line.ranges.len() == 0 ==> first_shown(line) == byte_len(indent),
        line.ranges.len() > 0 && line.ranges[0].start >= byte_len(indent) ==> first_shown(line)
            == byte_len(indent),
        line.ranges.len() > 0 && line.ranges[0].start < byte_len(indent) ==> first_shown(line)
            == line.ranges[0].start,
{
    let t = line.text;
    let r = skip_leading(t, WhiteSpace);
    law_leading_characters_are_skipped(t, WhiteSpace);
    let n = t.len() - r.len();
    if n < indent.len() {
        assert(is_white_space(indent[n]));
        assert(r[0] == t[n] && t[n] == indent[n]);
    }
    if n > indent.len() {
        assert(WhiteSpace.has(t[indent.len() as int]));
        assert(t[indent.len() as int] == rest[0]);
    }
    assert(r == rest);
    lemma_encode_concat(indent, rest);
}

/// A match that begins inside the one before it is left out, and makes no other
/// difference.
pub proof fn law_overlapping_match_is_left_out(
    text: Seq<char>,
    number: u64,
    before: Seq<Span>,
    r: Span,
    after: Seq<Span>,
)
    requires
        are_apart(text, before),
        before.len() > 0,
        r.start < before.last().end,
    ensures
        segments_of(LineView { line_number: number, text, ranges: before.push(r) + after })
            == segments_of(LineView { line_number: number, text, ranges: before + after }),
{
    let a = LineView { line_number: number, text, ranges: before.push(r) + after };
    let b = LineView { line_number: number, text, ranges: before + after };
    let line = LineView { line_number: number, text, ranges: before };
    assert(a.ranges[0] == before[0] && b.ranges[0] == before[0]);
    lemma_shown_from(line);
    lemma_overlap_left_out(text, before, r, after, first_shown(line));
}

proof fn lemma_overlap_left_out(
    text: Seq<char>,
    before: Seq<Span>,
    r: Span,
    after: Seq<Span>,
    pos: int,
)
    requires
        are_apart(text, before),
        before.len() > 0 ==> pos <= before[0].start && r.start < before.last().end,
        before.len() == 0 ==> r.start < pos,
    ensures
        segments_from(text, before.push(r) + after, pos) == segments_from(
            text,
            before + after,
            pos,
        ),
    decreases before.len(),
{
    let a = before.push(r) + after;
    let b = before + after;
    if before.len() == 0 {
        assert(a.drop_first() == after);
        assert(b == after);
        assert(a[0] == r);
    } else {
        let rest = before.drop_first();
        assert(is_slice(text, before[0]));
        assert forall|i: int| 0 <= i < rest.len() implies is_slice(text, #[trigger] rest[i]) by {
            assert(rest[i] == before[i + 1]);
        }
        assert forall|i: int, j: int| 0 <= i < j < rest.len() implies (#[trigger] rest[i]).end <= (
        #[trigger] rest[j]).start by {
            assert(rest[i] == before[i + 1] && rest[j] == before[j + 1]);
        }
        if rest.len() > 0 {
            assert(rest[0] == before[1]);
            assert(rest.last() == before.last());
        }
        lemma_overlap_left_out(text, rest, r, after, before[0].end);
        assert(a.drop_first() == rest.push(r) + after);
        assert(b.drop_first() == rest + after);
        assert(a[0] == before[0] && b[0] == before[0]);
    }
}

/// Parts are printed one behind the other, the matches and nothing else in black
/// on yellow, where there is color.
pub proof fn law_only_matches_are_colored(
    a: Seq<Segment>,
    b: Seq<Segment>,
    text: Seq<char>,
    colored: bool,
)
    ensures
        rendered(a + b, colored) == rendered(a, colored) + rendered(b, colored),
        rendered(seq![(text, false)], colored) == text,
        rendered(seq![(text, true)], false) == text,
        rendered(seq![(text, true)], true) == "\u{1b}[30m\u{1b}[43m"@ + text + "\u{1b}[0m"@,
        rendered(seq![], colored) == Seq::<char>::empty(),
{
    lemma_rendered_concat(a, b, colored);
    reveal_with_fuel(rendered, 2);
    assert(seq![(text, false)].drop_last() == Seq::<Segment>::empty());
    assert(seq![(text, true)].drop_last() == Seq::<Segment>::empty());
    assert(rendered(seq![(text, false)], colored) =~= text);
    assert(rendered(seq![(text, true)], false) =~= text);
    assert(rendered(seq![(text, true)], true) =~= "\u{1b}[30m\u{1b}[43m"@ + text + "\u{1b}[0m"@);
}

/// Scrolling takes text away only in front of the first match, and leaves the end
/// of it, a quarter of the width, behind an ellipsis. Without a width nothing is
/// scrolled.
pub proof fn law_scrolling_keeps_the_end_of_the_lead(segments: Seq<Segment>, width: usize)
    ensures
        scrolled(segments, None) == segments,
        scrolled(segments, Some(width)) == segments || {
            let lead = segments[0].0;
            let shown = scrolled(segments, Some(width));
            &&& segments.len() > 1
            &&& shown.len() == segments.len()
            &&& shown.skip(1) == segments.skip(1)
            &&& shown[0].1 == segments[0].1
            &&& shown[0].0 == seq!['…'] + lead.skip(lead.len() - width as int / 4)
            &&& lead.len() > width as int / 4
            &&& lead.len() + segments[1].0.len() >= width
        },
{
    reveal_strlit("…");
    assert("…"@ =~= seq!['…']);
    let shown = scrolled(segments, Some(width));
    if shown != segments {
        assert(shown.skip(1) == segments.skip(1));
    }
}

/// A line is clipped to its width: what fits stays as it is, and of the rest the
/// beginning is left, with an ellipsis in the last column. Without a width nothing
/// is clipped.
pub proof fn law_clipped_line_fits(s: Seq<char>, width: usize)
    requires
        is_colored_text(s),
        width > 0,
    ensures
        clipped_to(s, None) == s,
        without_codes(s).len() <= width ==> clipped_to(s, Some(width)) == s,
        without_codes(s).len() > width ==> without_codes(clipped_to(s, Some(width)))
            == without_codes(s).take(width - 1) + seq!['…'],
        without_codes(clipped_to(s, Some(width))).len() <= width,
{
    reveal_strlit("…");
    assert("…"@ =~= seq!['…']);
    if without_codes(s).len() > width {
        law_clipping_goes_by_columns(s, width - 1);
    }
}

/// A line is scrolled where its first match would not be seen whole, or would be
/// under the ellipsis for what follows it, and there is more before the match than
/// is kept; otherwise it is left as it is.
pub proof fn law_line_is_scrolled_for_the_whole_match(segments: Seq<Segment>, width: usize)
    requires
        segments.len() > 1,
    ensures
        ({
            let lead = segments[0].0.len();
            let end = lead + segments[1].0.len();
            let more = exists|i: int|
                2 <= i < segments.len() && (#[trigger] segments[i]).0.len() > 0;
            let seen = end < width || end == width && !more;
            &&& seen || lead <= width as int / 4 ==> scrolled(segments, Some(width)) == segments
            &&& !seen && lead > width as int / 4 ==> scrolled(segments, Some(width))[0].0
                == seq!['…'] + segments[0].0.skip(lead - width as int / 4)
        }),
{
    reveal_strlit("…");
    assert("…"@ == seq!['…']);
}

} // verus!
