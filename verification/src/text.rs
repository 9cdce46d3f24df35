//! Characters and strings: classes of characters, trimming, decimal numbers,
//! and the step between a string's characters and its UTF-8 bytes.
use vstd::prelude::*;
use vstd::string::*;
use vstd::utf8::*;

verus! {

/// `String::push` appends one character.
pub assume_specification[ String::push ](s: &mut String, c: char)
    ensures
        final(s)@ == old(s)@.push(c),
;

/// A set of characters that can be tested for membership.
pub trait CharClass {
    /// Whether `c` is in the class.
    spec fn has(&self, c: char) -> bool;

    fn contains(&self, c: char) -> (r: bool)
        ensures
            r == self.has(c),
    ;
}

/// The characters with Unicode's `White_Space` property.
pub open spec fn is_white_space(c: char) -> bool {
    ||| '\u{9}' <= c <= '\u{d}'
    ||| c == '\u{20}'
    ||| c == '\u{85}'
    ||| c == '\u{a0}'
    ||| c == '\u{1680}'
    ||| '\u{2000}' <= c <= '\u{200a}'
    ||| c == '\u{2028}'
    ||| c == '\u{2029}'
    ||| c == '\u{202f}'
    ||| c == '\u{205f}'
    ||| c == '\u{3000}'
}

/// The control characters, Unicode's general category `Cc`.
pub open spec fn is_control_char(c: char) -> bool {
    c <= '\u{1f}' || '\u{7f}' <= c <= '\u{9f}'
}

/// The class of white space.
pub struct WhiteSpace;

impl CharClass for WhiteSpace {
    open spec fn has(&self, c: char) -> bool {
        is_white_space(c)
    }

    fn contains(&self, c: char) -> (r: bool) {
        ('\u{9}' <= c && c <= '\u{d}') || c == '\u{20}' || c == '\u{85}' || c == '\u{a0}' || c
            == '\u{1680}' || ('\u{2000}' <= c && c <= '\u{200a}') || c == '\u{2028}' || c
            == '\u{2029}' || c == '\u{202f}' || c == '\u{205f}' || c == '\u{3000}'
    }
}

/// The characters that end a line.
pub struct LineEnd;

impl CharClass for LineEnd {
    open spec fn has(&self, c: char) -> bool {
        c == '\n' || c == '\r'
    }

    fn contains(&self, c: char) -> (r: bool) {
        c == '\n' || c == '\r'
    }
}

/// The class of one character.
pub struct Only(pub char);

impl CharClass for Only {
    open spec fn has(&self, c: char) -> bool {
        c == self.0
    }

    fn contains(&self, c: char) -> (r: bool) {
        c == self.0
    }
}

/// Whether `c` is a control character.
pub fn is_control(c: char) -> (r: bool)
    ensures
        r == is_control_char(c),
{
    c <= '\u{1f}' || ('\u{7f}' <= c && c <= '\u{9f}')
}

/// `s` without its longest prefix of characters in `p`.
pub open spec fn skip_leading<P: CharClass>(s: Seq<char>, p: P) -> Seq<char>
    decreases s.len(),
{
    if s.len() > 0 && p.has(s[0]) {
        skip_leading(s.drop_first(), p)
    } else {
        s
    }
}

/// `s` without its longest suffix of characters in `p`.
pub open spec fn skip_trailing<P: CharClass>(s: Seq<char>, p: P) -> Seq<char>
    decreases s.len(),
{
    if s.len() > 0 && p.has(s.last()) {
        skip_trailing(s.drop_last(), p)
    } else {
        s
    }
}

/// `s` without the white space around it.
pub open spec fn trimmed(s: Seq<char>) -> Seq<char> {
    skip_trailing(skip_leading(s, WhiteSpace), WhiteSpace)
}

/// What a text that may be missing says.
pub open spec fn option_view(s: Option<String>) -> Option<Seq<char>> {
    match s {
        Some(s) => Some(s@),
        None => None,
    }
}

/// The characters of `s`.
pub fn chars_of(s: &str) -> (r: Vec<char>)
    ensures
        r@ == s@,
{
    let mut out: Vec<char> = Vec::new();
    for c in it: s.chars()
        invariant
            out@ == it.seq().take(it.index()),
    {
        out.push(c);
    }
    out
}

/// The string of the characters `from..to` of `chars`.
pub fn string_of(chars: &Vec<char>, from: usize, to: usize) -> (r: String)
    requires
        from <= to <= chars@.len(),
    ensures
        r@ == chars@.subrange(from as int, to as int),
{
    let mut out = String::new();
    let mut i: usize = from;
    while i < to
        invariant
            from <= i <= to <= chars@.len(),
            out@ == chars@.subrange(from as int, i as int),
        decreases to - i,
    {
        out.push(chars[i]);
        i += 1;
    }
    out
}

/// `s` without its longest prefix of characters in `p`.
pub fn trim_start_of<P: CharClass>(s: &str, p: P) -> (r: &str)
    ensures
        r@ == skip_leading(s@, p),
{
    let chars = chars_of(s);
    let mut i: usize = 0;
    assert(s@.skip(0) == s@);
    while i < chars.len() && p.contains(chars[i])
        invariant
            chars@ == s@,
            i <= chars.len(),
            skip_leading(s@, p) == skip_leading(s@.skip(i as int), p),
        decreases chars.len() - i,
    {
        assert(s@.skip(i as int).drop_first() == s@.skip(i + 1));
        i += 1;
    }
    s.substring_char(i, chars.len())
}

/// `s` without its longest suffix of characters in `p`.
pub fn trim_end_of<P: CharClass>(s: &str, p: P) -> (r: &str)
    ensures
        r@ == skip_trailing(s@, p),
{
    let chars = chars_of(s);
    let mut i: usize = chars.len();
    assert(s@.take(i as int) == s@);
    while i > 0 && p.contains(chars[i - 1])
        invariant
            chars@ == s@,
            i <= chars.len(),
            skip_trailing(s@, p) == skip_trailing(s@.take(i as int), p),
        decreases i,
    {
        assert(s@.take(i as int).drop_last() == s@.take(i - 1));
        i -= 1;
    }
    s.substring_char(0, i)
}

/// `s` without the white space around it.
pub fn trim(s: &str) -> (r: &str)
    ensures
        r@ == trimmed(s@),
{
    trim_end_of(trim_start_of(s, WhiteSpace), WhiteSpace)
}

/// The number of bytes that the UTF-8 encoding of `s` takes.
pub open spec fn byte_len(s: Seq<char>) -> nat {
    encode_utf8(s).len()
}

/// Encoding goes character by character, so it distributes over concatenation.
pub proof fn lemma_encode_concat(a: Seq<char>, b: Seq<char>)
    ensures
        encode_utf8(a + b) == encode_utf8(a) + encode_utf8(b),
    decreases a.len(),
{
    if a.len() == 0 {
        assert(a + b == b);
        assert(encode_utf8(a) + encode_utf8(b) == encode_utf8(b));
    } else {
        assert((a + b).drop_first() == a.drop_first() + b);
        lemma_encode_concat(a.drop_first(), b);
        assert(encode_utf8(a + b) == encode_utf8(a) + encode_utf8(b));
    }
}

/// Two strings with the same bytes are the same string.
pub proof fn lemma_encode_injective(a: Seq<char>, b: Seq<char>)
    requires
        encode_utf8(a) == encode_utf8(b),
    ensures
        a == b,
{
    encode_utf8_decode_utf8(a);
    encode_utf8_decode_utf8(b);
}

/// Whether `a` and `b` are the same string.
pub fn same(a: &str, b: &str) -> (r: bool)
    ensures
        r == (a@ == b@),
{
    let x = a.as_bytes();
    let y = b.as_bytes();
    if x.len() != y.len() {
        return false;
    }
    let mut i: usize = 0;
    while i < x.len()
        invariant
            x@ == encode_utf8(a@),
            y@ == encode_utf8(b@),
            x@.len() == y@.len(),
            i <= x@.len(),
            forall|j: int| 0 <= j < i ==> x@[j] == y@[j],
        decreases x@.len() - i,
    {
        if x[i] != y[i] {
            return false;
        }
        i += 1;
    }
    proof {
        assert(x@ == y@);
        lemma_encode_injective(a@, b@);
    }
    true
}

/// The character of a decimal digit.
pub open spec fn digit(d: nat) -> char {
    (('0' as u32) + d) as char
}

/// `n` in decimal.
pub open spec fn decimal(n: nat) -> Seq<char>
    decreases n,
{
    if n < 10 {
        seq![digit(n)]
    } else {
        decimal(n / 10).push(digit(n % 10))
    }
}

/// Appends `n` in decimal to `out`.
pub fn push_decimal(out: &mut String, n: u64)
    ensures
        final(out)@ == old(out)@ + decimal(n as nat),
    decreases n,
{
    if n >= 10 {
        push_decimal(out, n / 10);
    }
    let d: u8 = (n % 10) as u8;
    let c: char = (48u8 + d) as char;
    out.push(c);
    assert(c == digit((n % 10) as nat));
    assert(out@ == old(out)@ + decimal(n as nat));
}

/// `n` in decimal.
pub fn decimal_of(n: u64) -> (r: String)
    ensures
        r@ == decimal(n as nat),
{
    let mut out = String::new();
    push_decimal(&mut out, n);
    out
}

/// Whether `c` is an ASCII digit.
pub open spec fn is_digit(c: char) -> bool {
    '0' <= c <= '9'
}

/// The number that the digits `s` write.
pub open spec fn digits_value(s: Seq<char>) -> nat
    decreases s.len(),
{
    if s.len() == 0 {
        0
    } else {
        digits_value(s.drop_last()) * 10 + (s.last() as nat - '0' as nat) as nat
    }
}

/// `s` without one leading `+`.
pub open spec fn unsigned_digits(s: Seq<char>) -> Seq<char> {
    if s.len() > 0 && s[0] == '+' {
        s.drop_first()
    } else {
        s
    }
}

/// The number that `s` writes: decimal digits, after at most one `+`, of a
/// value that fits 64 bits.
pub open spec fn parsed_u64(s: Seq<char>) -> Option<u64> {
    let d = unsigned_digits(s);
    if d.len() > 0 && (forall|i: int| 0 <= i < d.len() ==> is_digit(#[trigger] d[i]))
        && digits_value(d) <= u64::MAX {
        Some(digits_value(d) as u64)
    } else {
        None
    }
}

/// Reads the characters `from..to` as an unsigned decimal number.
pub fn parse_u64(chars: &Vec<char>, from: usize, to: usize) -> (r: Option<u64>)
    requires
        from <= to <= chars@.len(),
    ensures
        r == parsed_u64(chars@.subrange(from as int, to as int)),
{
    let ghost s = chars@.subrange(from as int, to as int);
    let mut start: usize = from;
    if from < to && chars[from] == '+' {
        start = from + 1;
    }
    let ghost d = chars@.subrange(start as int, to as int);
    assert(d == unsigned_digits(s));
    if start == to {
        return None;
    }
    let mut value: u64 = 0;
    let mut i: usize = start;
    let mut overflow = false;
    assert(d.take(0) == Seq::<char>::empty());
    while i < to
        invariant
            start <= i <= to <= chars@.len(),
            start < to,
            s == chars@.subrange(from as int, to as int),
            d == chars@.subrange(start as int, to as int),
            d == unsigned_digits(s),
            forall|j: int| 0 <= j < i - start ==> is_digit(#[trigger] d[j]),
            !overflow ==> value == digits_value(d.take(i - start)),
            overflow ==> digits_value(d.take(i - start)) > u64::MAX,
        decreases to - i,
    {
        let c = chars[i];
        assert(d[i - start] == c);
        if c < '0' || c > '9' {
            assert(!is_digit(d[i - start]));
            return None;
        }
        proof {
            assert(d.take(i - start + 1).drop_last() == d.take(i - start));
            assert(d.take(i - start + 1).last() == c);
        }
        let v: u64 = c as u64 - '0' as u64;
        if !overflow {
            if value > u64::MAX / 10 || value * 10 > u64::MAX - v {
                overflow = true;
            } else {
                value = value * 10 + v;
            }
        }
        i += 1;
    }
    assert(d.take(to - start) == d);
    if overflow {
        None
    } else {
        Some(value)
    }
}

/// The decimal form of a number is made of digits, and they write the number.
pub proof fn lemma_decimal_digits(n: nat)
    ensures
        decimal(n).len() > 0,
        forall|i: int| 0 <= i < decimal(n).len() ==> is_digit(#[trigger] decimal(n)[i]),
        digits_value(decimal(n)) == n,
    decreases n,
{
    reveal_with_fuel(digits_value, 2);
    if n < 10 {
        assert(decimal(n) == seq![digit(n)]);
        assert(decimal(n).drop_last() == Seq::<char>::empty());
        assert(decimal(n).last() == digit(n));
    } else {
        lemma_decimal_digits(n / 10);
        assert(decimal(n).drop_last() == decimal(n / 10));
        assert(decimal(n).last() == digit(n % 10));
        assert forall|i: int| 0 <= i < decimal(n).len() implies is_digit(
            #[trigger] decimal(n)[i],
        ) by {
            if i < decimal(n / 10).len() {
                assert(decimal(n)[i] == decimal(n / 10)[i]);
            }
        }
    }
}

/// Reading a number from its decimal form gives the number back.
pub proof fn law_decimal_is_read_back(n: u64)
    ensures
        parsed_u64(decimal(n as nat)) == Some(n),
{
    lemma_decimal_digits(n as nat);
    assert(is_digit(decimal(n as nat)[0]));
}

/// What `String::from_utf8_lossy` makes of bytes: their characters, with
/// U+FFFD in the place of what is not UTF-8.
pub uninterp spec fn lossy_utf8(bytes: Seq<u8>) -> Seq<char>;

/// Calls `String::from_utf8_lossy`, which depends on the bytes alone and
/// returns the text itself where the bytes are valid UTF-8. How many U+FFFD
/// stand for a run of invalid bytes is left to the name.
#[verifier::external_body]
fn from_utf8_lossy(bytes: &[u8]) -> (r: String)
    ensures
        r@ == lossy_utf8(bytes@),
        valid_utf8(bytes@) ==> r@ == decode_utf8(bytes@),
{
    String::from_utf8_lossy(bytes).into_owned()
}

/// The text of bytes that need not be UTF-8: what they encode where they are,
/// else their characters with U+FFFD in the place of what is not UTF-8.
pub open spec fn lossy_text(bytes: Seq<u8>) -> Seq<char> {
    if valid_utf8(bytes) {
        decode_utf8(bytes)
    } else {
        lossy_utf8(bytes)
    }
}

/// The text of bytes that need not be UTF-8.
pub fn text_of(bytes: &[u8]) -> (r: String)
    ensures
        r@ == lossy_text(bytes@),
{
    from_utf8_lossy(bytes)
}

/// Calls `String::from_utf8`, which returns the text where the bytes are valid
/// UTF-8 and fails where they are not.
#[verifier::external_body]
pub(crate) fn from_utf8(bytes: Vec<u8>) -> (r: Option<String>)
    ensures
        match r {
            Some(s) => valid_utf8(bytes@) && s@ == decode_utf8(bytes@),
            None => !valid_utf8(bytes@),
        },
{
    String::from_utf8(bytes).ok()
}

/// The pieces of `s` between the occurrences of `sep`, as many as there are
/// separators and one more.
pub open spec fn pieces<T>(s: Seq<T>, sep: T) -> Seq<Seq<T>>
    decreases s.len(),
{
    if s.len() == 0 {
        seq![Seq::empty()]
    } else {
        let rest = pieces(s.drop_last(), sep);
        if s.last() == sep {
            rest.push(Seq::empty())
        } else {
            rest.update(rest.len() - 1, rest.last().push(s.last()))
        }
    }
}

/// The position of the first character of `s` that is in `p`, or the length of
/// `s`.
pub open spec fn position<P: CharClass>(s: Seq<char>, p: P) -> int
    decreases s.len(),
{
    if s.len() == 0 || p.has(s[0]) {
        0
    } else {
        1 + position(s.drop_first(), p)
    }
}

/// What stands before and after the first `c` of `s`.
pub open spec fn split_at_first(s: Seq<char>, c: char) -> Option<(Seq<char>, Seq<char>)> {
    let i = position(s, Only(c));
    if i < s.len() {
        Some((s.take(i), s.skip(i + 1)))
    } else {
        None
    }
}

/// The position that is found is the first one of the class.
pub proof fn lemma_position<P: CharClass>(s: Seq<char>, p: P)
    ensures
        0 <= position(s, p) <= s.len(),
        position(s, p) < s.len() ==> p.has(s[position(s, p)]),
        forall|i: int| 0 <= i < position(s, p) ==> !p.has(#[trigger] s[i]),
    decreases s.len(),
{
    if s.len() > 0 && !p.has(s[0]) {
        let t = s.drop_first();
        lemma_position(t, p);
        assert forall|i: int| 0 <= i < position(s, p) implies !p.has(#[trigger] s[i]) by {
            if i > 0 {
                assert(t[i - 1] == s[i]);
            }
        }
    }
}

/// A position of the class with none of it before is the one that is found.
pub proof fn lemma_position_is<P: CharClass>(s: Seq<char>, p: P, i: int)
    requires
        0 <= i < s.len(),
        p.has(s[i]),
        forall|j: int| 0 <= j < i ==> !p.has(#[trigger] s[j]),
    ensures
        position(s, p) == i,
{
    lemma_position(s, p);
    if position(s, p) < i {
        assert(!p.has(s[position(s, p)]));
    }
}

/// The first position at or after `from` of a character in `p`, or the length.
pub fn find_from<P: CharClass>(chars: &Vec<char>, from: usize, p: P) -> (r: usize)
    requires
        from <= chars@.len(),
    ensures
        r == from + position(chars@.skip(from as int), p),
        from <= r <= chars@.len(),
        r < chars@.len() ==> p.has(chars@[r as int]),
{
    let mut i: usize = from;
    while i < chars.len() && !p.contains(chars[i])
        invariant
            from <= i <= chars@.len(),
            from + position(chars@.skip(from as int), p) == i + position(chars@.skip(i as int), p),
        decreases chars@.len() - i,
    {
        assert(chars@.skip(i as int).drop_first() == chars@.skip(i + 1));
        i += 1;
    }
    i
}

/// The end of a prefix is a character boundary.
pub proof fn lemma_prefix_boundary(a: Seq<char>, b: Seq<char>)
    ensures
        is_char_boundary(encode_utf8(a + b), byte_len(a) as int),
        valid_utf8(encode_utf8(a + b)),
    decreases a.len(),
{
    encode_utf8_valid_utf8(a + b);
    let e = encode_utf8(a + b);
    if a.len() > 0 {
        let t = a.drop_first();
        encode_utf8_first_scalar(a + b);
        assert((a + b).drop_first() == t + b);
        lemma_prefix_boundary(t, b);
        assert(pop_first_scalar(e) == encode_utf8(t + b));
        lemma_encode_concat(a, b);
        assert(byte_len(a) <= e.len());
        let w = encode_scalar(a[0] as u32).len();
        assert(byte_len(a) == w + byte_len(t));
    }
}

/// The views of `lines`.
pub open spec fn slice_views(lines: Seq<&[u8]>) -> Seq<Seq<u8>> {
    lines.map_values(|line: &[u8]| line@)
}

/// The lines of `bytes`, without the newlines between them.
pub fn split_lines<'a>(bytes: &'a [u8]) -> (r: Vec<&'a [u8]>)
    ensures
        slice_views(r@) == pieces(bytes@, 10u8),
{
    let mut lines: Vec<&'a [u8]> = Vec::new();
    let mut start: usize = 0;
    let mut i: usize = 0;
    assert(bytes@.subrange(0, 0) == Seq::<u8>::empty());
    assert(slice_views(lines@).push(Seq::<u8>::empty()) == pieces(bytes@.take(0), 10u8));
    while i < bytes.len()
        invariant
            start <= i <= bytes@.len(),
            slice_views(lines@).push(bytes@.subrange(start as int, i as int)) == pieces(
                bytes@.take(i as int),
                10u8,
            ),
        decreases bytes@.len() - i,
    {
        let ghost before = pieces(bytes@.take(i as int), 10u8);
        assert(bytes@.take(i + 1).drop_last() == bytes@.take(i as int));
        assert(bytes@.take(i + 1).last() == bytes@[i as int]);
        if bytes[i] == 10u8 {
            let line = vstd::slice::slice_subrange(bytes, start, i);
            lines.push(line);
            start = i + 1;
            assert(slice_views(lines@) == before);
            assert(bytes@.subrange(start as int, i + 1) == Seq::<u8>::empty());
        } else {
            assert(bytes@.subrange(start as int, i + 1) == bytes@.subrange(
                start as int,
                i as int,
            ).push(bytes@[i as int]));
            assert(before.update(
                before.len() - 1,
                before.last().push(bytes@[i as int]),
            ) == slice_views(lines@).push(bytes@.subrange(start as int, i + 1)));
        }
        i += 1;
    }
    assert(bytes@.take(i as int) == bytes@);
    let line = vstd::slice::slice_subrange(bytes, start, i);
    let ghost before = slice_views(lines@);
    lines.push(line);
    assert(slice_views(lines@) == before.push(line@));
    lines
}

/// The views of `strings`.
pub open spec fn string_views(strings: Seq<String>) -> Seq<Seq<char>> {
    strings.map_values(|s: String| s@)
}

/// The pieces of `s` between the occurrences of `sep`.
pub fn split_on(s: &str, sep: char) -> (r: Vec<String>)
    ensures
        string_views(r@) == pieces(s@, sep),
{
    let chars = chars_of(s);
    let mut parts: Vec<String> = Vec::new();
    let mut part = String::new();
    let mut i: usize = 0;
    assert(string_views(parts@).push(part@) == pieces(s@.take(0), sep));
    while i < chars.len()
        invariant
            chars@ == s@,
            i <= s@.len(),
            string_views(parts@).push(part@) == pieces(s@.take(i as int), sep),
        decreases s@.len() - i,
    {
        let c = chars[i];
        let ghost before = pieces(s@.take(i as int), sep);
        assert(s@.take(i + 1).drop_last() == s@.take(i as int));
        assert(s@.take(i + 1).last() == c);
        if c == sep {
            parts.push(part);
            part = String::new();
            assert(string_views(parts@) == before);
            assert(part@ == Seq::<char>::empty());
        } else {
            part.push(c);
            assert(before.update(before.len() - 1, before.last().push(c)) == string_views(
                parts@,
            ).push(part@));
        }
        i += 1;
    }
    assert(s@.take(i as int) == s@);
    let ghost before = string_views(parts@);
    let ghost last = part@;
    parts.push(part);
    assert(string_views(parts@) == before.push(last));
    parts
}

/// `parts` one behind the other, with `sep` between them.
pub open spec fn joined(parts: Seq<Seq<char>>, sep: Seq<char>) -> Seq<char>
    decreases parts.len(),
{
    if parts.len() == 0 {
        seq![]
    } else if parts.len() == 1 {
        parts[0]
    } else {
        joined(parts.drop_last(), sep) + sep + parts.last()
    }
}

/// Text without the separator is one more piece.
pub proof fn lemma_pieces_append(a: Seq<char>, b: Seq<char>, sep: char)
    requires
        !b.contains(sep),
    ensures
        pieces(a + seq![sep] + b, sep) == pieces(a, sep).push(b),
        pieces(b, sep) == seq![b],
    decreases b.len(),
{
    let whole = a + seq![sep] + b;
    if b.len() == 0 {
        assert(whole.drop_last() == a);
        assert(b == Seq::<char>::empty());
        assert(pieces(b, sep) == seq![b]);
        assert(pieces(whole, sep) == pieces(a, sep).push(b));
    } else {
        let c = b.drop_last();
        assert forall|i: int| 0 <= i < c.len() implies c[i] != sep by {
            assert(b.contains(b[i]));
        }
        lemma_pieces_append(a, c, sep);
        assert(b.contains(b.last()));
        assert(whole.drop_last() == a + seq![sep] + c);
        assert(b == c.push(b.last()));
        assert(pieces(whole, sep) == pieces(a, sep).push(b));
        assert(pieces(b, sep) == seq![b]);
    }
}

/// Splitting undoes joining, where no part has the separator in it.
pub proof fn lemma_joined_pieces(parts: Seq<Seq<char>>, sep: char)
    requires
        parts.len() > 0,
        forall|i: int| 0 <= i < parts.len() ==> !(#[trigger] parts[i]).contains(sep),
    ensures
        pieces(joined(parts, seq![sep]), sep) == parts,
    decreases parts.len(),
{
    assert(!parts[parts.len() - 1].contains(sep));
    if parts.len() == 1 {
        lemma_pieces_append(seq![], parts[0], sep);
        assert(parts == seq![parts[0]]);
    } else {
        let t = parts.drop_last();
        assert forall|i: int| 0 <= i < t.len() implies !(#[trigger] t[i]).contains(sep) by {
            assert(t[i] == parts[i]);
        }
        lemma_joined_pieces(t, sep);
        lemma_pieces_append(joined(t, seq![sep]), parts.last(), sep);
        assert(parts == t.push(parts.last()));
    }
}

/// Joining undoes splitting.
pub proof fn lemma_pieces_joined(s: Seq<char>, sep: char)
    ensures
        pieces(s, sep).len() > 0,
        joined(pieces(s, sep), seq![sep]) == s,
    decreases s.len(),
{
    let p = pieces(s, sep);
    if s.len() == 0 {
        assert(joined(p, seq![sep]) == s);
    } else {
        let c = s.last();
        let q = pieces(s.drop_last(), sep);
        lemma_pieces_joined(s.drop_last(), sep);
        assert(s == s.drop_last().push(c));
        if c == sep {
            assert(p.drop_last() == q);
            assert(joined(p, seq![sep]) == s);
        } else {
            assert(p.drop_last() == q.drop_last());
            assert(joined(p, seq![sep]) == s);
        }
    }
}

/// The strings from position `from` on, with `sep` between them.
pub fn join_from(parts: &Vec<String>, from: usize, sep: &str) -> (r: String)
    requires
        from <= parts@.len(),
    ensures
        r@ == joined(string_views(parts@).skip(from as int), sep@),
{
    let mut out = String::new();
    let ghost all = string_views(parts@).skip(from as int);
    let mut i: usize = from;
    assert(all.take(0) == Seq::<Seq<char>>::empty());
    while i < parts.len()
        invariant
            from <= i <= parts@.len(),
            all == string_views(parts@).skip(from as int),
            out@ == joined(all.take(i - from), sep@),
        decreases parts@.len() - i,
    {
        proof {
            let next = all.take(i - from + 1);
            assert(next.drop_last() == all.take(i - from));
            assert(next.last() == parts@[i as int]@);
        }
        if i > from {
            out.append(sep);
        }
        out.append(parts[i].as_str());
        i += 1;
    }
    assert(all.take(parts@.len() - from) == all);
    out
}

/// Filtering by what holds of every item leaves them all.
pub proof fn lemma_filter_all<T>(s: Seq<T>, p: spec_fn(T) -> bool)
    requires
        forall|i: int| 0 <= i < s.len() ==> p(#[trigger] s[i]),
    ensures
        s.filter(p) == s,
    decreases s.len(),
{
    reveal(Seq::filter);
    if s.len() > 0 {
        let t = s.drop_last();
        assert forall|i: int| 0 <= i < t.len() implies p(#[trigger] t[i]) by {
            assert(p(s[i]));
        }
        lemma_filter_all(t, p);
        assert(p(s[s.len() - 1]));
        assert(t.push(s.last()) == s);
    }
}

/// The first `n` characters of `s`, or all where there are fewer.
pub open spec fn first_chars(s: Seq<char>, n: int) -> Seq<char> {
    if s.len() > n {
        s.take(n)
    } else {
        s
    }
}

/// The first `n` characters of `s`, or all where there are fewer.
pub fn take_chars(s: &str, n: usize) -> (r: String)
    ensures
        r@ == first_chars(s@, n as int),
{
    let chars = chars_of(s);
    let len: usize = if chars.len() > n {
        n
    } else {
        chars.len()
    };
    let r = string_of(&chars, 0, len);
    assert(r@ == first_chars(s@, n as int));
    r
}

/// `s` with as many spaces before it as it takes to fill `width` characters.
pub open spec fn right_aligned(s: Seq<char>, width: int) -> Seq<char> {
    if s.len() < width {
        Seq::new((width - s.len()) as nat, |i: int| ' ') + s
    } else {
        s
    }
}

/// `s` with as many spaces before it as it takes to fill `width` characters.
pub fn align_right(s: &str, width: usize) -> (r: String)
    ensures
        r@ == right_aligned(s@, width as int),
{
    let len: usize = s.unicode_len();
    let mut out = String::new();
    let mut i: usize = len;
    while i < width
        invariant
            len == s@.len(),
            len <= i,
            len < width ==> i <= width,
            len >= width ==> i == len,
            out@ == Seq::new((i - len) as nat, |k: int| ' '),
        decreases width - i,
    {
        let ghost before = out@;
        out.push(' ');
        assert(out@ == before.push(' '));
        i += 1;
        assert(out@ == Seq::new((i - len) as nat, |k: int| ' '));
    }
    out.append(s);
    assert(out@ == right_aligned(s@, width as int));
    out
}

/// Ten to the power of `k`.
pub open spec fn power_of_ten(k: nat) -> nat
    decreases k,
{
    if k == 0 {
        1
    } else {
        10 * power_of_ten((k - 1) as nat)
    }
}

/// A number below ten to the power of `k` has at most `k` digits.
pub proof fn lemma_decimal_len(n: nat, k: nat)
    requires
        k > 0,
        n < power_of_ten(k),
    ensures
        decimal(n).len() <= k,
    decreases k,
{
    if n >= 10 {
        assert(k > 1) by {
            reveal_with_fuel(power_of_ten, 2);
        }
        lemma_decimal_len(n / 10, (k - 1) as nat);
    }
}

/// What an item is mapped to is among what is left.
pub proof fn lemma_filter_map_has<A, B>(s: Seq<A>, f: spec_fn(A) -> Option<B>, a: A, b: B)
    requires
        s.contains(a),
        f(a) == Some(b),
    ensures
        s.filter_map(f).contains(b),
    decreases s.len(),
{
    let t = s.drop_last();
    if s.last() == a {
        let r = t.filter_map(f) + seq![b];
        assert(r[r.len() - 1] == b);
    } else {
        let i = choose|i: int| 0 <= i < s.len() && s[i] == a;
        assert(t[i] == a);
        lemma_filter_map_has(t, f, a, b);
        let k = choose|k: int| 0 <= k < t.filter_map(f).len() && t.filter_map(f)[k] == b;
        assert(s.filter_map(f)[k] == b);
    }
}

/// What is filtered by holds of what is left.
pub proof fn lemma_filter_holds<T>(s: Seq<T>, p: spec_fn(T) -> bool)
    ensures
        forall|i: int| 0 <= i < s.filter(p).len() ==> p(#[trigger] s.filter(p)[i]),
    decreases s.len(),
{
    reveal(Seq::filter);
    if s.len() > 0 {
        lemma_filter_holds(s.drop_last(), p);
    }
}

/// What is skipped in front is of the class, and what is left begins with a
/// character that is not.
pub proof fn law_leading_characters_are_skipped<P: CharClass>(s: Seq<char>, p: P)
    ensures
        ({
            let r = skip_leading(s, p);
            let n = s.len() - r.len();
            &&& 0 <= n
            &&& r == s.skip(n)
            &&& forall|i: int| 0 <= i < n ==> p.has(#[trigger] s[i])
            &&& r.len() > 0 ==> !p.has(r[0])
        }),
    decreases s.len(),
{
    if s.len() > 0 && p.has(s[0]) {
        let t = s.drop_first();
        law_leading_characters_are_skipped(t, p);
        let n = t.len() - skip_leading(t, p).len();
        assert(t.skip(n) == s.skip(n + 1));
        assert forall|i: int| 0 <= i < n + 1 implies p.has(#[trigger] s[i]) by {
            if i > 0 {
                assert(s[i] == t[i - 1]);
            }
        }
    } else {
        assert(s.skip(0) == s);
    }
}

/// What is skipped in the end is of the class, and what is left ends with a
/// character that is not.
pub proof fn law_trailing_characters_are_skipped<P: CharClass>(s: Seq<char>, p: P)
    ensures
        ({
            let r = skip_trailing(s, p);
            &&& r.len() <= s.len()
            &&& r == s.take(r.len() as int)
            &&& forall|i: int| r.len() <= i < s.len() ==> p.has(#[trigger] s[i])
            &&& r.len() > 0 ==> !p.has(r.last())
        }),
    decreases s.len(),
{
    if s.len() > 0 && p.has(s.last()) {
        let t = s.drop_last();
        law_trailing_characters_are_skipped(t, p);
        let r = skip_trailing(t, p);
        assert(t.take(r.len() as int) == s.take(r.len() as int));
        assert forall|i: int| r.len() <= i < s.len() implies p.has(#[trigger] s[i]) by {
            if i < t.len() {
                assert(s[i] == t[i]);
            }
        }
    } else {
        assert(s.take(s.len() as int) == s);
    }
}

/// Trimming takes the white space away on both sides, and nothing else: what is
/// left is the part of the text from its first to its last other character.
pub proof fn law_trimming_takes_white_space_away(s: Seq<char>, a: int, b: int)
    requires
        0 <= a <= b <= s.len(),
        forall|i: int| 0 <= i < a ==> is_white_space(#[trigger] s[i]),
        forall|i: int| b <= i < s.len() ==> is_white_space(#[trigger] s[i]),
        a < b ==> !is_white_space(s[a]) && !is_white_space(s[b - 1]),
    ensures
        trimmed(s) == s.subrange(a, b),
{
    let t = skip_leading(s, WhiteSpace);
    let r = skip_trailing(t, WhiteSpace);
    law_leading_characters_are_skipped(s, WhiteSpace);
    law_trailing_characters_are_skipped(t, WhiteSpace);
    let n = s.len() - t.len();
    if a < b {
        if n > a {
            assert(WhiteSpace.has(s[a]));
        }
        if n < a {
            assert(is_white_space(s[n]));
            assert(t[0] == s[n]);
        }
        assert(n == a);
        if r.len() < b - a {
            assert(WhiteSpace.has(t[b - 1 - a]));
            assert(t[b - 1 - a] == s[b - 1]);
        }
        if r.len() > b - a {
            assert(r.last() == t[r.len() - 1]);
            assert(t[r.len() - 1] == s[a + r.len() - 1]);
            assert(is_white_space(s[a + r.len() - 1]));
        }
        assert(r == s.subrange(a, b));
    } else {
        assert forall|i: int| 0 <= i < s.len() implies is_white_space(#[trigger] s[i]) by {}
        if t.len() > 0 {
            assert(t[0] == s[n]);
            assert(is_white_space(s[n]));
        }
        assert(r.len() == 0);
        assert(r == s.subrange(a, b));
    }
}

/// White space is spaces, tabs, the ends of lines and what Unicode counts to it;
/// no letter, digit or punctuation of ASCII is.
pub proof fn law_ascii_white_space(c: char)
    requires
        c <= '\u{7f}',
    ensures
        is_white_space(c) <==> c == ' ' || c == '\t' || c == '\n' || c == '\r' || c == '\u{b}' || c
            == '\u{c}',
{
}

/// Splitting at separators and splitting the two sides of one of them comes to
/// the same, and text without any is one piece.
pub proof fn law_pieces_are_what_is_between<T>(a: Seq<T>, b: Seq<T>, sep: T)
    ensures
        pieces(a + seq![sep] + b, sep) == pieces(a, sep) + pieces(b, sep),
        !b.contains(sep) ==> pieces(b, sep) == seq![b],
        pieces(b, sep).len() > 0,
    decreases b.len(),
{
    let whole = a + seq![sep] + b;
    let p = pieces(a, sep);
    if b.len() == 0 {
        assert(whole.drop_last() == a);
        assert(pieces(b, sep) == seq![Seq::<T>::empty()]);
        assert(b == Seq::<T>::empty());
        assert(pieces(whole, sep) == p + pieces(b, sep));
    } else {
        let c = b.drop_last();
        let q = pieces(c, sep);
        law_pieces_are_what_is_between(a, c, sep);
        assert(whole.drop_last() == a + seq![sep] + c);
        assert(whole.last() == b.last());
        assert(pieces(whole, sep) == p + pieces(b, sep));
        if !b.contains(sep) {
            assert forall|i: int| 0 <= i < c.len() implies c[i] != sep by {
                assert(b.contains(b[i]));
            }
            assert(b.contains(b[b.len() - 1]));
            assert(b == c.push(b.last()));
            assert(pieces(b, sep) == seq![b]);
        }
    }
}

/// A text that is cut to its first characters begins as it did, and is as long
/// as it may be.
pub proof fn law_first_characters_are_kept(s: Seq<char>, n: int)
    requires
        n >= 0,
    ensures
        first_chars(s, n).is_prefix_of(s),
        first_chars(s, n).len() == if s.len() < n {
            s.len() as int
        } else {
            n
        },
{
    assert(s.take(s.len() as int) == s);
}

/// Aligning to the right only adds spaces in front, up to the width.
pub proof fn law_aligning_adds_spaces(s: Seq<char>, width: int)
    ensures
        ({
            let r = right_aligned(s, width);
            &&& r.len() == if s.len() < width {
                width
            } else {
                s.len() as int
            }
            &&& r.skip(r.len() - s.len()) == s
            &&& forall|i: int| 0 <= i < r.len() - s.len() ==> #[trigger] r[i] == ' '
        }),
{
    let r = right_aligned(s, width);
    assert(r.skip(r.len() - s.len()) == s);
}

/// A number has no leading zero in decimal, and no two numbers have the same
/// decimal form.
pub proof fn law_decimal_is_exact(n: nat, m: nat)
    ensures
        decimal(n) == decimal(m) <==> n == m,
        decimal(n).len() > 1 ==> decimal(n)[0] != '0',
    decreases n,
{
    lemma_decimal_digits(n);
    lemma_decimal_digits(m);
    if n >= 10 {
        law_decimal_is_exact(n / 10, m);
        lemma_decimal_digits(n / 10);
        assert(decimal(n)[0] == decimal(n / 10)[0]);
        if n < 100 {
            assert(decimal(n / 10) == seq![digit(n / 10)]);
            assert(n / 10 > 0);
        } else {
            assert(n / 10 >= 10);
            lemma_decimal_two(n / 10);
        }
    }
}

proof fn lemma_decimal_two(n: nat)
    requires
        n >= 10,
    ensures
        decimal(n).len() > 1,
{
    lemma_decimal_digits(n / 10);
}

/// The value of digits goes by their places.
pub proof fn law_digits_go_by_their_places(s: Seq<char>, d: nat)
    requires
        d < 10,
    ensures
        digits_value(s.push(digit(d))) == 10 * digits_value(s) + d,
        digits_value(seq![]) == 0,
        digit(d) as int == '0' as int + d,
{
    assert(s.push(digit(d)).drop_last() == s);
}

/// Filtering goes item by item.
pub proof fn lemma_filter_concat<T>(a: Seq<T>, b: Seq<T>, p: spec_fn(T) -> bool)
    ensures
        (a + b).filter(p) == a.filter(p) + b.filter(p),
    decreases b.len(),
{
    broadcast use Seq::lemma_filter_push;

    reveal(Seq::filter);
    if b.len() == 0 {
        assert(a + b == a);
        assert(a.filter(p) + b.filter(p) == a.filter(p));
    } else {
        let c = b.drop_last();
        lemma_filter_concat(a, c, p);
        assert(a + b == (a + c).push(b.last()));
        assert(b == c.push(b.last()));
        assert((a + b).filter(p) == a.filter(p) + b.filter(p));
    }
}

/// Mapping what is left goes item by item.
pub proof fn lemma_filter_map_concat<A, B>(a: Seq<A>, b: Seq<A>, f: spec_fn(A) -> Option<B>)
    ensures
        (a + b).filter_map(f) == a.filter_map(f) + b.filter_map(f),
    decreases b.len(),
{
    if b.len() == 0 {
        assert(a + b == a);
        assert(a.filter_map(f) + b.filter_map(f) == a.filter_map(f));
    } else {
        lemma_filter_map_concat(a, b.drop_last(), f);
        assert((a + b).drop_last() == a + b.drop_last());
        assert((a + b).filter_map(f) == a.filter_map(f) + b.filter_map(f));
    }
}

/// Joining puts the separator between each two parts, and nowhere else.
pub proof fn law_separators_stand_between(a: Seq<Seq<char>>, b: Seq<Seq<char>>, sep: Seq<char>)
    ensures
        a.len() > 0 && b.len() > 0 ==> joined(a + b, sep) == joined(a, sep) + sep + joined(b, sep),
        a.len() == 1 ==> joined(a, sep) == a[0],
        a.len() == 0 ==> joined(a, sep).len() == 0,
    decreases b.len(),
{
    if a.len() > 0 && b.len() > 0 {
        let all = a + b;
        let t = b.drop_last();
        assert(all.drop_last() == a + t);
        assert(all.last() == b.last());
        if b.len() == 1 {
            assert(a + t == a);
            assert(joined(b, sep) == b[0]);
        } else {
            law_separators_stand_between(a, t, sep);
            assert(joined(all, sep) == joined(a, sep) + sep + joined(b, sep));
        }
    }
}

/// Lines end with line feeds and carriage returns, and with nothing else.
pub proof fn law_line_ends(c: char)
    ensures
        LineEnd.has(c) <==> c == '\n' || c == '\r',
{
}

/// A number is read from any digits of a value that fits, with or without a `+`
/// before them, and from nothing else.
pub proof fn law_numbers_are_digits(s: Seq<char>, i: int)
    ensures
        (s.len() > 0 && (forall|k: int| 0 <= k < s.len() ==> '0' <= #[trigger] s[k] <= '9')) ==> {
            &&& digits_value(s) <= u64::MAX ==> parsed_u64(s) == Some(digits_value(s) as u64)
            &&& digits_value(s) > u64::MAX ==> parsed_u64(s) is None
            &&& parsed_u64(seq!['+'] + s) == parsed_u64(s)
        },
        0 <= i < s.len() && !('0' <= s[i] <= '9') && !(i == 0 && s[0] == '+') ==> parsed_u64(
            s,
        ) is None,
        parsed_u64(seq![]) is None,
        parsed_u64(seq!['+']) is None,
{
    let e = Seq::<char>::empty();
    assert((seq!['+'] + s).drop_first() == s);
    assert(seq!['+'].drop_first() == e);
    if s.len() > 0 && (forall|k: int| 0 <= k < s.len() ==> '0' <= #[trigger] s[k] <= '9') {
        assert('0' <= s[0] <= '9');
        assert(unsigned_digits(s) == s);
        assert(unsigned_digits(seq!['+'] + s) == s);
    }
    if 0 <= i < s.len() && !('0' <= s[i] <= '9') && !(i == 0 && s[0] == '+') {
        let d = unsigned_digits(s);
        if s[0] == '+' {
            assert(!is_digit(d[i - 1]));
        } else {
            assert(!is_digit(d[i]));
        }
    }
}

/// The first separator is the one that counts, and without one there is no split.
pub proof fn law_first_separator_splits(a: Seq<char>, c: char, b: Seq<char>)
    requires
        !a.contains(c),
    ensures
        split_at_first(a + seq![c] + b, c) == Some((a, b)),
        split_at_first(a, c) is None,
{
    let s = a + seq![c] + b;
    assert forall|j: int| 0 <= j < a.len() implies !Only(c).has(#[trigger] s[j]) by {
        assert(a.contains(a[j]));
    }
    lemma_position_is(s, Only(c), a.len() as int);
    assert(s.take(a.len() as int) == a);
    assert(s.skip(a.len() as int + 1) == b);
    lemma_position(a, Only(c));
    if position(a, Only(c)) < a.len() {
        assert(a.contains(a[position(a, Only(c))]));
    }
}

/// Trimming leaves what stands between white space at both ends.
pub proof fn law_trimming_leaves_the_core(lead: Seq<char>, core: Seq<char>, tail: Seq<char>)
    requires
        forall|i: int| 0 <= i < lead.len() ==> is_white_space(#[trigger] lead[i]),
        forall|i: int| 0 <= i < tail.len() ==> is_white_space(#[trigger] tail[i]),
        core.len() > 0 ==> !is_white_space(core[0]) && !is_white_space(core.last()),
    ensures
        trimmed(lead + core + tail) == core,
{
    let s = lead + core + tail;
    let a = lead.len() as int;
    let b = a + core.len();
    assert forall|i: int| 0 <= i < a implies is_white_space(#[trigger] s[i]) by {
        assert(s[i] == lead[i]);
    }
    assert forall|i: int| b <= i < s.len() implies is_white_space(#[trigger] s[i]) by {
        assert(s[i] == tail[i - b]);
    }
    if core.len() > 0 {
        assert(s[a] == core[0]);
        assert(s[b - 1] == core.last());
    }
    law_trimming_takes_white_space_away(s, a, b);
    assert(s.subrange(a, b) == core);
}

/// The control characters of ASCII are those below the space, and the last one.
pub proof fn law_ascii_control_characters(c: char)
    requires
        c <= '\u{7f}',
    ensures
        is_control_char(c) <==> c < ' ' || c == '\u{7f}',
{
}

/// The bytes of a text are read as that text.
pub proof fn law_text_is_read_back(s: Seq<char>)
    ensures
        lossy_text(encode_utf8(s)) == s,
{
    encode_utf8_valid_utf8(s);
    encode_utf8_decode_utf8(s);
}

/// Beyond ASCII, white space is the next-line character, the spaces of different
/// widths, and the separators of lines and paragraphs.
pub proof fn law_other_white_space(c: char)
    requires
        c > '\u{7f}',
    ensures
        is_white_space(c) <==> c == '\u{85}' || c == '\u{a0}' || c == '\u{1680}' || (c >= '\u{2000}'
            && c <= '\u{200a}') || c == '\u{2028}' || c == '\u{2029}' || c == '\u{202f}' || c
            == '\u{205f}' || c == '\u{3000}',
        is_control_char(c) <==> c <= '\u{9f}',
{
}

/// The views of strings are theirs, one by one.
pub proof fn law_views_are_of_every_string(strings: Seq<String>, k: int)
    ensures
        string_views(strings).len() == strings.len(),
        0 <= k < strings.len() ==> string_views(strings)[k] == strings[k]@,
{
}

} // verus!
