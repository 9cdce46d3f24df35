//! Color codes in the output of `grep`.
use std::ops::Range;
use vstd::prelude::*;
use vstd::string::*;
use vstd::utf8::*;

use crate::text::{
    byte_len, chars_of, find_from, lemma_encode_concat, lemma_position, lemma_prefix_boundary,
    position, CharClass,
};

verus! {

/// The escape character.
pub const ESC: char = '\u{1b}';

/// A range of byte offsets.
#[verifier::ext_equal]
pub struct Span {
    pub start: int,
    pub end: int,
}

/// The offsets that `r` ranges over.
pub open spec fn span(r: Range<usize>) -> Span {
    Span { start: r.start as int, end: r.end as int }
}

/// The offsets that each of `s` ranges over.
pub open spec fn spans(s: Seq<Range<usize>>) -> Seq<Span> {
    s.map_values(|r: Range<usize>| span(r))
}

/// The characters that end a control sequence.
pub struct FinalByte;

impl CharClass for FinalByte {
    open spec fn has(&self, c: char) -> bool {
        '@' <= c <= '~'
    }

    fn contains(&self, c: char) -> (r: bool) {
        '@' <= c && c <= '~'
    }
}

/// The length of the control sequence that `s` starts with: `ESC [`, what
/// stands before the first final byte, and that byte. 0 where there is none.
pub open spec fn csi_len(s: Seq<char>) -> int {
    if s.len() >= 2 && s[0] == ESC && s[1] == '[' {
        let end = position(s.skip(2), FinalByte);
        if end < s.len() - 2 {
            end + 3
        } else {
            0
        }
    } else {
        0
    }
}

/// Whether the parameters of an SGR sequence turn color off: there are none,
/// or all are zero.
pub open spec fn is_reset(params: Seq<char>) -> bool {
    forall|i: int| 0 <= i < params.len() ==> #[trigger] params[i] == '0' || params[i] == ';'
}

/// Text without its color codes: the plain characters so far, the byte ranges
/// of it that were colored, and where a range still open began.
#[verifier::ext_equal]
pub struct Stripped {
    pub plain: Seq<char>,
    pub colored: Seq<Span>,
    pub open: Option<int>,
}

impl Stripped {
    /// One more plain character.
    pub open spec fn text(self, c: char) -> Stripped {
        Stripped { plain: self.plain.push(c), ..self }
    }

    /// The effect of a control sequence. Color begins with an SGR sequence,
    /// one that ends in `m`, and ends with one that resets; other control
    /// sequences leave no trace.
    pub open spec fn control(self, csi: Seq<char>) -> Stripped {
        if csi.last() != 'm' {
            self
        } else if !is_reset(csi.subrange(2, csi.len() - 1)) {
            if self.open is Some {
                self
            } else {
                Stripped { open: Some(byte_len(self.plain) as int), ..self }
            }
        } else {
            self.close()
        }
    }

    /// Ends the open range, if there is one.
    pub open spec fn close(self) -> Stripped {
        match self.open {
            Some(start) => Stripped {
                colored: self.colored.push(Span { start, end: byte_len(self.plain) as int }),
                open: None,
                ..self
            },
            None => self,
        }
    }
}

/// What becomes of `st` by the text `s` behind it.
pub open spec fn strip(s: Seq<char>, st: Stripped) -> Stripped
    decreases s.len(),
{
    if s.len() == 0 {
        st.close()
    } else if csi_len(s) > 0 {
        strip(s.skip(csi_len(s)), st.control(s.take(csi_len(s))))
    } else {
        strip(s.drop_first(), st.text(s[0]))
    }
}

/// The text `s` without its color codes.
pub open spec fn stripped(s: Seq<char>) -> Stripped {
    strip(s, Stripped { plain: seq![], colored: seq![], open: None })
}

/// Removes ANSI SGR (color) escape codes from `s`, returning the plain text
/// and the byte ranges of it that were colored.
pub fn strip_sgr(s: &str) -> (r: (String, Vec<Range<usize>>))
    ensures
        r.0@ == stripped(s@).plain,
        spans(r.1@) == stripped(s@).colored,
{
    let chars = chars_of(s);
    let mut plain = String::new();
    let mut ranges: Vec<Range<usize>> = Vec::new();
    let mut open: Option<usize> = None;
    let mut i: usize = 0;
    let ghost mut st = Stripped { plain: seq![], colored: seq![], open: None };
    assert(chars@.skip(0) == s@);
    while i < chars.len()
        invariant
            chars@ == s@,
            i <= chars@.len(),
            stripped(s@) == strip(chars@.skip(i as int), st),
            st.plain == plain@,
            st.colored == spans(ranges@),
            match open {
                Some(a) => st.open == Some(a as int),
                None => st.open is None,
            },
        decreases chars@.len() - i,
    {
        let ghost rest = chars@.skip(i as int);
        let c = chars[i];
        if c == ESC && i + 1 < chars.len() && chars[i + 1] == '[' {
            let end = find_from(&chars, i + 2, FinalByte);
            assert(rest.skip(2) == chars@.skip(i + 2));
            if end < chars.len() {
                let ghost csi = rest.take(csi_len(rest));
                assert(csi.last() == chars@[end as int]);
                if chars[end] == 'm' {
                    let mut reset = true;
                    let mut j: usize = i + 2;
                    let ghost params = csi.subrange(2, csi.len() - 1);
                    while j < end
                        invariant
                            i + 2 <= j <= end < chars@.len(),
                            params.len() == end - i - 2,
                            forall|k: int|
                                0 <= k < params.len() ==> #[trigger] params[k] == chars@[i + 2 + k],
                            reset == (forall|k: int|
                                0 <= k < j - i - 2 ==> #[trigger] params[k] == '0' || params[k]
                                    == ';'),
                        decreases end - j,
                    {
                        assert(params[j - i - 2] == chars@[j as int]);
                        if chars[j] != '0' && chars[j] != ';' {
                            reset = false;
                        }
                        j += 1;
                    }
                    assert(reset == is_reset(params));
                    let at: usize = plain.as_str().as_bytes().len();
                    if !reset {
                        if open.is_none() {
                            open = Some(at);
                        }
                    } else if let Some(start) = open {
                        ranges.push(Range { start, end: at });
                        open = None;
                    }
                }
                proof {
                    assert(rest.skip(csi_len(rest)) == chars@.skip(end + 1));
                    let next = st.control(csi);
                    assert(next.colored =~= spans(ranges@));
                    st = next;
                }
                i = end + 1;
                continue ;
            }
        }
        assert(csi_len(rest) == 0);
        assert(rest.drop_first() == chars@.skip(i + 1));
        plain.push(c);
        proof {
            st = st.text(c);
        }
        i += 1;
    }
    if let Some(start) = open {
        let at: usize = plain.as_str().as_bytes().len();
        ranges.push(Range { start, end: at });
        assert(spans(ranges@) =~= st.close().colored);
    }
    (plain, ranges)
}

/// Whether `o` is the byte offset of a character of `s`, or the end of `s`.
spec fn at_char(s: Seq<char>, o: int) -> bool {
    exists|k: int| 0 <= k <= s.len() && o == byte_len(#[trigger] s.take(k))
}

spec fn in_order(plain: Seq<char>, colored: Seq<Span>) -> bool {
    &&& forall|i: int|
        0 <= i < colored.len() ==> at_char(plain, (#[trigger] colored[i]).start) && at_char(
            plain,
            colored[i].end,
        ) && colored[i].start <= colored[i].end
    &&& forall|i: int, j: int|
        0 <= i < j < colored.len() ==> (#[trigger] colored[i]).end <= (#[trigger] colored[j]).start
}

spec fn st_ok(st: Stripped) -> bool {
    &&& in_order(st.plain, st.colored)
    &&& st.open matches Some(a) ==> at_char(st.plain, a) && forall|i: int|
        0 <= i < st.colored.len() ==> (#[trigger] st.colored[i]).end <= a
}

proof fn lemma_at_end(s: Seq<char>)
    ensures
        at_char(s, byte_len(s) as int),
        forall|o: int| at_char(s, o) ==> 0 <= o <= byte_len(s),
{
    assert(s.take(s.len() as int) == s);
    assert forall|o: int| at_char(s, o) implies 0 <= o <= byte_len(s) by {
        let k = choose|k: int| 0 <= k <= s.len() && o == byte_len(#[trigger] s.take(k));
        lemma_encode_concat(s.take(k), s.skip(k));
        assert(s.take(k) + s.skip(k) == s);
    }
}

proof fn lemma_at_push(s: Seq<char>, c: char, o: int)
    requires
        at_char(s, o),
    ensures
        at_char(s.push(c), o),
{
    let k = choose|k: int| 0 <= k <= s.len() && o == byte_len(#[trigger] s.take(k));
    assert(s.push(c).take(k) == s.take(k));
}

proof fn lemma_close_ok(st: Stripped)
    requires
        st_ok(st),
    ensures
        st_ok(st.close()),
{
    lemma_at_end(st.plain);
}

proof fn lemma_strip_ok(s: Seq<char>, st: Stripped)
    requires
        st_ok(st),
    ensures
        st_ok(strip(s, st)),
        strip(s, st).open is None,
    decreases s.len(),
{
    if s.len() == 0 {
        lemma_close_ok(st);
    } else if csi_len(s) > 0 {
        let next = st.control(s.take(csi_len(s)));
        lemma_at_end(st.plain);
        lemma_close_ok(st);
        assert(st_ok(next));
        lemma_strip_ok(s.skip(csi_len(s)), next);
    } else {
        let next = st.text(s[0]);
        assert(st_ok(next)) by {
            assert forall|i: int| 0 <= i < next.colored.len() implies at_char(
                next.plain,
                (#[trigger] next.colored[i]).start,
            ) && at_char(next.plain, next.colored[i].end) && next.colored[i].start
                <= next.colored[i].end by {
                lemma_at_push(st.plain, s[0], st.colored[i].start);
                lemma_at_push(st.plain, s[0], st.colored[i].end);
            }
            if let Some(a) = st.open {
                lemma_at_push(st.plain, s[0], a);
            }
        }
        lemma_strip_ok(s.drop_first(), next);
    }
}

proof fn lemma_at_boundary(s: Seq<char>, o: int)
    requires
        at_char(s, o),
    ensures
        is_char_boundary(encode_utf8(s), o),
{
    let k = choose|k: int| 0 <= k <= s.len() && o == byte_len(#[trigger] s.take(k));
    lemma_prefix_boundary(s.take(k), s.skip(k));
    assert(s.take(k) + s.skip(k) == s);
}

/// The colored ranges lie in the plain text, on character boundaries, and come
/// one after the other.
pub proof fn law_colored_ranges_are_ordered_slices(s: Seq<char>)
    ensures
        ({
            let r = stripped(s);
            let bytes = encode_utf8(r.plain);
            &&& forall|i: int|
                #![trigger r.colored[i]]
                0 <= i < r.colored.len() ==> {
                    &&& 0 <= r.colored[i].start <= r.colored[i].end <= bytes.len()
                    &&& is_char_boundary(bytes, r.colored[i].start)
                    &&& is_char_boundary(bytes, r.colored[i].end)
                }
            &&& forall|i: int, j: int|
                0 <= i < j < r.colored.len() ==> (#[trigger] r.colored[i]).end <= (
                #[trigger] r.colored[j]).start
        }),
{
    let init = Stripped { plain: seq![], colored: seq![], open: None };
    lemma_strip_ok(s, init);
    let r = stripped(s);
    lemma_at_end(r.plain);
    assert forall|i: int| #![trigger r.colored[i]] 0 <= i < r.colored.len() implies {
        &&& 0 <= r.colored[i].start <= r.colored[i].end <= byte_len(r.plain)
        &&& is_char_boundary(encode_utf8(r.plain), r.colored[i].start)
        &&& is_char_boundary(encode_utf8(r.plain), r.colored[i].end)
    } by {
        lemma_at_boundary(r.plain, r.colored[i].start);
        lemma_at_boundary(r.plain, r.colored[i].end);
    }
}

/// Plain text in front goes through as it is.
pub proof fn lemma_strip_text(t: Seq<char>, rest: Seq<char>, st: Stripped)
    requires
        !t.contains(ESC),
    ensures
        strip(t + rest, st) == strip(rest, Stripped { plain: st.plain + t, ..st }),
    decreases t.len(),
{
    if t.len() == 0 {
        assert(t + rest == rest);
        assert(st.plain + t == st.plain);
    } else {
        let s = t + rest;
        let u = t.drop_first();
        assert(t[0] != ESC);
        assert(csi_len(s) == 0);
        assert(s.drop_first() == u + rest);
        assert(!u.contains(ESC)) by {
            if u.contains(ESC) {
                let i = choose|i: int| 0 <= i < u.len() && u[i] == ESC;
                assert(t[i + 1] == ESC);
            }
        }
        lemma_strip_text(u, rest, st.text(t[0]));
        assert(st.text(t[0]).plain + u == st.plain + t);
    }
}

/// The SGR sequence with the parameters `params`.
pub open spec fn sgr(params: Seq<char>) -> Seq<char> {
    seq![ESC, '['] + params + seq!['m']
}

/// Whether `params` can stand in a control sequence: it has no final byte.
pub open spec fn are_params(params: Seq<char>) -> bool {
    forall|i: int| 0 <= i < params.len() ==> !('@' <= #[trigger] params[i] <= '~')
}

proof fn lemma_strip_sgr(params: Seq<char>, rest: Seq<char>, st: Stripped)
    requires
        are_params(params),
    ensures
        strip(sgr(params) + rest, st) == strip(rest, st.control(sgr(params))),
        sgr(params).last() == 'm',
        sgr(params).subrange(2, sgr(params).len() - 1) == params,
{
    let s = sgr(params) + rest;
    let body = s.skip(2);
    lemma_position(body, FinalByte);
    let n = params.len() as int;
    assert(body[n] == 'm');
    assert(FinalByte.has(body[n]));
    let e = position(body, FinalByte);
    if e < n {
        assert(body[e] == params[e]);
    }
    assert(e == n);
    assert(csi_len(s) == n + 3);
    assert(s.take(n + 3) == sgr(params));
    assert(s.skip(n + 3) == rest);
    assert(sgr(params).subrange(2, sgr(params).len() - 1) == params);
}

/// Text without escape characters is left as it is, with nothing colored.
pub proof fn law_text_without_escapes_is_plain(s: Seq<char>)
    requires
        !s.contains(ESC),
    ensures
        stripped(s).plain == s,
        stripped(s).colored == Seq::<Span>::empty(),
{
    let init = Stripped { plain: seq![], colored: seq![], open: None };
    assert(s + Seq::<char>::empty() == s);
    lemma_strip_text(s, seq![], init);
    assert(init.plain + s == s);
}

/// Of a line in which one part is colored, stripping gives the line, and the
/// part's byte range in it.
pub proof fn law_colored_part_is_found(
    before: Seq<char>,
    on: Seq<char>,
    part: Seq<char>,
    off: Seq<char>,
    after: Seq<char>,
)
    requires
        !before.contains(ESC),
        !part.contains(ESC),
        !after.contains(ESC),
        are_params(on),
        !is_reset(on),
        are_params(off),
        is_reset(off),
    ensures
        stripped(before + sgr(on) + part + sgr(off) + after).plain == before + part + after,
        stripped(before + sgr(on) + part + sgr(off) + after).colored == seq![
            Span { start: byte_len(before) as int, end: byte_len(before + part) as int },
        ],
{
    let s = before + sgr(on) + part + sgr(off) + after;
    let init = Stripped { plain: seq![], colored: seq![], open: None };
    let s1 = sgr(on) + part + sgr(off) + after;
    let s2 = part + sgr(off) + after;
    let s3 = sgr(off) + after;
    let e = Seq::<char>::empty();
    assert(s == before + s1);
    assert(s1 == sgr(on) + s2);
    assert(s2 == part + s3);
    assert(after == after + e);
    lemma_strip_text(before, s1, init);
    assert(init.plain + before == before);
    let st1 = Stripped { plain: before, ..init };
    lemma_strip_sgr(on, s2, st1);
    let st2 = st1.control(sgr(on));
    lemma_strip_text(part, s3, st2);
    let st3 = Stripped { plain: before + part, ..st2 };
    lemma_strip_sgr(off, after, st3);
    let st4 = st3.control(sgr(off));
    lemma_strip_text(after, e, st4);
    assert(st4.plain + after == before + part + after);
    assert(stripped(s).colored == seq![
        Span { start: byte_len(before) as int, end: byte_len(before + part) as int },
    ]);
}

/// Text in which parts are colored: each of `parts` is a plain text and, behind
/// it, a colored one.
pub open spec fn painted(
    parts: Seq<(Seq<char>, Seq<char>)>,
    on: Seq<char>,
    off: Seq<char>,
) -> Seq<char>
    decreases parts.len(),
{
    if parts.len() == 0 {
        seq![]
    } else {
        parts[0].0 + sgr(on) + parts[0].1 + sgr(off) + painted(parts.drop_first(), on, off)
    }
}

/// The same text without color.
pub open spec fn unpainted(parts: Seq<(Seq<char>, Seq<char>)>) -> Seq<char>
    decreases parts.len(),
{
    if parts.len() == 0 {
        seq![]
    } else {
        parts[0].0 + parts[0].1 + unpainted(parts.drop_first())
    }
}

/// Where the colored parts stand in the text without color, if that stands behind
/// `base`.
pub open spec fn painted_spans(
    base: Seq<char>,
    parts: Seq<(Seq<char>, Seq<char>)>,
) -> Seq<Span>
    decreases parts.len(),
{
    if parts.len() == 0 {
        seq![]
    } else {
        let begin = base + parts[0].0;
        seq![Span { start: byte_len(begin) as int, end: byte_len(begin + parts[0].1) as int }]
            + painted_spans(begin + parts[0].1, parts.drop_first())
    }
}

/// Whether there are no escape characters in `parts`.
pub open spec fn are_plain(parts: Seq<(Seq<char>, Seq<char>)>) -> bool {
    forall|i: int|
        0 <= i < parts.len() ==> !(#[trigger] parts[i]).0.contains(ESC) && !parts[i].1.contains(ESC)
}

/// What becomes of a text by painted text behind it.
pub proof fn lemma_strip_painted(
    parts: Seq<(Seq<char>, Seq<char>)>,
    on: Seq<char>,
    off: Seq<char>,
    rest: Seq<char>,
    st: Stripped,
)
    requires
        are_plain(parts),
        are_params(on),
        !is_reset(on),
        are_params(off),
        is_reset(off),
        st.open is None,
    ensures
        strip(painted(parts, on, off) + rest, st) == strip(
            rest,
            Stripped {
                plain: st.plain + unpainted(parts),
                colored: st.colored + painted_spans(st.plain, parts),
                open: None,
            },
        ),
    decreases parts.len(),
{
    if parts.len() == 0 {
        assert(painted(parts, on, off) + rest == rest);
        assert(st.plain + unpainted(parts) == st.plain);
        assert(st.colored + painted_spans(st.plain, parts) == st.colored);
    } else {
        let before = parts[0].0;
        let part = parts[0].1;
        let tail = parts.drop_first();
        assert forall|i: int| 0 <= i < tail.len() implies !(#[trigger] tail[i]).0.contains(ESC)
            && !tail[i].1.contains(ESC) by {
            assert(tail[i] == parts[i + 1]);
        }
        let r4 = painted(tail, on, off) + rest;
        let r3 = sgr(off) + r4;
        let r2 = part + r3;
        let r1 = sgr(on) + r2;
        assert(painted(parts, on, off) + rest == before + r1);
        lemma_strip_text(before, r1, st);
        let s1 = Stripped { plain: st.plain + before, ..st };
        lemma_strip_sgr(on, r2, s1);
        let s2 = s1.control(sgr(on));
        lemma_strip_text(part, r3, s2);
        let s3 = Stripped { plain: st.plain + before + part, ..s2 };
        lemma_strip_sgr(off, r4, s3);
        let s4 = s3.control(sgr(off));
        lemma_strip_painted(tail, on, off, rest, s4);
        let one = Span {
            start: byte_len(st.plain + before) as int,
            end: byte_len(st.plain + before + part) as int,
        };
        assert(s4.colored == st.colored.push(one));
        assert(st.plain + unpainted(parts) == s4.plain + unpainted(tail));
        assert(st.colored + painted_spans(st.plain, parts) == s4.colored + painted_spans(
            s4.plain,
            tail,
        ));
    }
}

/// However many parts of a text are colored, stripping gives the text, and the
/// byte range of each of them in it, in their order.
pub proof fn law_all_colored_parts_are_found(
    parts: Seq<(Seq<char>, Seq<char>)>,
    on: Seq<char>,
    off: Seq<char>,
    after: Seq<char>,
)
    requires
        are_plain(parts),
        !after.contains(ESC),
        are_params(on),
        !is_reset(on),
        are_params(off),
        is_reset(off),
    ensures
        stripped(painted(parts, on, off) + after).plain == unpainted(parts) + after,
        stripped(painted(parts, on, off) + after).colored == painted_spans(seq![], parts),
        stripped(painted(parts, on, off) + after).colored.len() == parts.len(),
{
    let init = Stripped { plain: seq![], colored: seq![], open: None };
    let e = Seq::<char>::empty();
    lemma_strip_painted(parts, on, off, after, init);
    assert(init.plain + unpainted(parts) == unpainted(parts));
    assert(init.colored + painted_spans(init.plain, parts) == painted_spans(seq![], parts));
    let st = Stripped {
        plain: unpainted(parts),
        colored: painted_spans(seq![], parts),
        open: None,
    };
    lemma_strip_text(after, e, st);
    assert(after + e == after);
    lemma_painted_len(seq![], parts);
}

proof fn lemma_painted_len(base: Seq<char>, parts: Seq<(Seq<char>, Seq<char>)>)
    ensures
        painted_spans(base, parts).len() == parts.len(),
    decreases parts.len(),
{
    if parts.len() > 0 {
        lemma_painted_len(base + parts[0].0 + parts[0].1, parts.drop_first());
    }
}

/// Control sequences other than colors, such as those with which `grep` clears
/// the rest of a line, leave no trace.
pub proof fn law_other_sequences_leave_no_trace(
    before: Seq<char>,
    params: Seq<char>,
    last: char,
    after: Seq<char>,
)
    requires
        !before.contains(ESC),
        are_params(params),
        '@' <= last <= '~',
        last != 'm',
    ensures
        stripped(before + seq![ESC, '['] + params + seq![last] + after) == stripped(before + after),
{
    let init = Stripped { plain: seq![], colored: seq![], open: None };
    let csi = seq![ESC, '['] + params + seq![last];
    let s = csi + after;
    let st = Stripped { plain: before, ..init };
    assert(before + seq![ESC, '['] + params + seq![last] + after == before + s);
    lemma_strip_text(before, s, init);
    lemma_strip_text(before, after, init);
    assert(init.plain + before == before);
    let body = s.skip(2);
    let n = params.len() as int;
    lemma_position(body, FinalByte);
    assert(body[n] == last);
    assert(FinalByte.has(body[n]));
    let e = position(body, FinalByte);
    if e < n {
        assert(body[e] == params[e]);
    }
    assert(csi_len(s) == n + 3);
    assert(s.take(n + 3) == csi);
    assert(s.skip(n + 3) == after);
    assert(csi.last() == last);
}

/// Color that is not turned off goes to the end of the text, and turning on what
/// is on already begins no new part.
pub proof fn law_open_color_goes_to_the_end(
    before: Seq<char>,
    on: Seq<char>,
    part: Seq<char>,
    again: Seq<char>,
    more: Seq<char>,
)
    requires
        !before.contains(ESC),
        !part.contains(ESC),
        !more.contains(ESC),
        are_params(on),
        !is_reset(on),
        are_params(again),
        !is_reset(again),
    ensures
        stripped(before + sgr(on) + part + sgr(again) + more).plain == before + part + more,
        stripped(before + sgr(on) + part + sgr(again) + more).colored == seq![
            Span { start: byte_len(before) as int, end: byte_len(before + part + more) as int },
        ],
{
    let init = Stripped { plain: seq![], colored: seq![], open: None };
    let e = Seq::<char>::empty();
    let s3 = sgr(again) + more;
    let s2 = part + s3;
    let s1 = sgr(on) + s2;
    assert(before + sgr(on) + part + sgr(again) + more == before + s1);
    lemma_strip_text(before, s1, init);
    assert(init.plain + before == before);
    let st1 = Stripped { plain: before, ..init };
    lemma_strip_sgr(on, s2, st1);
    let st2 = st1.control(sgr(on));
    lemma_strip_text(part, s3, st2);
    let st3 = Stripped { plain: before + part, ..st2 };
    lemma_strip_sgr(again, more, st3);
    let st4 = st3.control(sgr(again));
    assert(more + e == more);
    lemma_strip_text(more, e, st4);
    assert(stripped(before + sgr(on) + part + sgr(again) + more).colored == seq![
        Span { start: byte_len(before) as int, end: byte_len(before + part + more) as int },
    ]);
}

/// Which parameters turn color off: none at all, and zeros; any other digit turns
/// it on.
pub proof fn law_reset_is_zero(params: Seq<char>, i: int)
    ensures
        is_reset(seq![]),
        is_reset(seq!['0']),
        is_reset(seq!['0', '0', ';', '0']),
        0 <= i < params.len() && '1' <= params[i] <= '9' ==> !is_reset(params),
        (forall|k: int| 0 <= k < params.len() ==> #[trigger] params[k] == '0' || params[k] == ';')
            ==> is_reset(params),
        (forall|k: int|
            0 <= k < params.len() ==> '0' <= #[trigger] params[k] <= '9' || params[k] == ';')
            ==> are_params(params),
{
}

/// An escape character that begins no control sequence is kept as it is: one that
/// no bracket follows, and one whose sequence does not end.
pub proof fn law_other_escapes_are_kept(before: Seq<char>, after: Seq<char>)
    requires
        !before.contains('\u{1b}'),
        !after.contains('\u{1b}'),
        after.len() == 0 || after[0] != '[' || forall|i: int|
            1 <= i < after.len() ==> !('@' <= #[trigger] after[i] <= '~'),
    ensures
        stripped(before + seq!['\u{1b}'] + after).plain == before + seq!['\u{1b}'] + after,
        stripped(before + seq!['\u{1b}'] + after).colored.len() == 0,
{
    let init = Stripped { plain: seq![], colored: seq![], open: None };
    let e = Seq::<char>::empty();
    let s = seq![ESC] + after;
    let st = Stripped { plain: before, ..init };
    assert(before + seq![ESC] + after == before + s);
    lemma_strip_text(before, s, init);
    assert(init.plain + before == before);
    if after.len() > 0 && after[0] == '[' {
        let body = s.skip(2);
        lemma_position(body, FinalByte);
        let p = position(body, FinalByte);
        if p < body.len() {
            assert(body[p] == after[p + 1]);
        }
    }
    assert(csi_len(s) == 0);
    assert(s.drop_first() == after);
    let st2 = st.text(ESC);
    lemma_strip_text(after, e, st2);
    assert(after + e == after);
    assert(st2.plain + after == before + seq![ESC] + after);
}

} // verus!
