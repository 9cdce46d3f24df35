//! Base64, in which ripgrep reports text that is not UTF-8.
use vstd::prelude::*;
use vstd::string::*;
use vstd::utf8::*;

verus! {

/// The six bits that a character of the standard base64 alphabet stands for.
pub open spec fn sextet(b: u8) -> Option<u8> {
    if 65 <= b <= 90 {
        Some((b - 65) as u8)
    } else if 97 <= b <= 122 {
        Some((b - 71) as u8)
    } else if 48 <= b <= 57 {
        Some((b + 4) as u8)
    } else if b == 43 {
        Some(62u8)
    } else if b == 47 {
        Some(63u8)
    } else {
        None
    }
}

/// The sextets that `s` writes; bytes outside the alphabet are skipped.
pub open spec fn sextets(s: Seq<u8>) -> Seq<u8> {
    s.filter_map(|b: u8| sextet(b))
}

/// The bytes that the bits of `v` make up, eight at a time. Bits that do not
/// fill a byte are dropped.
pub open spec fn packed(v: Seq<u8>) -> Seq<u8>
    decreases v.len(),
{
    if v.len() >= 4 {
        seq![
            (v[0] * 4 + v[1] / 16) as u8,
            (v[1] % 16 * 16 + v[2] / 4) as u8,
            (v[2] % 4 * 64 + v[3]) as u8,
        ] + packed(v.skip(4))
    } else if v.len() == 3 {
        seq![(v[0] * 4 + v[1] / 16) as u8, (v[1] % 16 * 16 + v[2] / 4) as u8]
    } else if v.len() == 2 {
        seq![(v[0] * 4 + v[1] / 16) as u8]
    } else {
        seq![]
    }
}

/// The bytes that the base64 text `s` stands for.
pub open spec fn base64_bytes(s: Seq<u8>) -> Seq<u8> {
    packed(sextets(s))
}

/// One sextet more completes at most one byte.
proof fn lemma_packed_push(v: Seq<u8>, x: u8)
    ensures
        v.len() % 4 == 0 ==> packed(v.push(x)) == packed(v),
        v.len() % 4 == 1 ==> packed(v.push(x)) == packed(v).push((v.last() * 4 + x / 16) as u8),
        v.len() % 4 == 2 ==> packed(v.push(x)) == packed(v).push(
            (v.last() % 16 * 16 + x / 4) as u8,
        ),
        v.len() % 4 == 3 ==> packed(v.push(x)) == packed(v).push((v.last() % 4 * 64 + x) as u8),
    decreases v.len(),
{
    if v.len() >= 4 {
        lemma_packed_push(v.skip(4), x);
        assert(v.push(x).skip(4) == v.skip(4).push(x));
        if v.len() % 4 != 0 {
            assert(v.skip(4).last() == v.last());
        }
        assert(v.len() % 4 == v.skip(4).len() % 4);
    } else {
        reveal_with_fuel(packed, 2);
        assert(v.push(x).skip(4) == Seq::<u8>::empty() || v.len() < 3);
    }
}

/// Decodes standard base64, padded or not, skipping invalid characters.
pub fn decode_base64(input: &str) -> (r: Vec<u8>)
    ensures
        r@ == base64_bytes(encode_utf8(input@)),
{
    let bytes = input.as_bytes();
    let mut out: Vec<u8> = Vec::new();
    let mut phase: u8 = 0;
    let mut last: u8 = 0;
    let mut i: usize = 0;
    let ghost f = |b: u8| sextet(b);
    let ghost mut v: Seq<u8> = Seq::empty();
    while i < bytes.len()
        invariant
            bytes@ == encode_utf8(input@),
            i <= bytes@.len(),
            f == (|b: u8| sextet(b)),
            v == bytes@.take(i as int).filter_map(f),
            phase == v.len() % 4,
            last < 64,
            v.len() > 0 ==> last == v.last(),
            out@ == packed(v),
        decreases bytes@.len() - i,
    {
        let b = bytes[i];
        proof {
            bytes@.lemma_filter_map_take_succ(f, i as int);
        }
        i += 1;
        let value: u8 = if 65 <= b && b <= 90 {
            b - 65
        } else if 97 <= b && b <= 122 {
            b - 71
        } else if 48 <= b && b <= 57 {
            b + 4
        } else if b == 43 {
            62
        } else if b == 47 {
            63
        } else {
            continue ;
        };
        proof {
            assert(f(b) == Some(value));
            lemma_packed_push(v, value);
            v = v.push(value);
            assert(v == bytes@.take(i as int).filter_map(f));
        }
        if phase == 1 {
            out.push(last * 4 + value / 16);
        } else if phase == 2 {
            out.push(last % 16 * 16 + value / 4);
        } else if phase == 3 {
            out.push(last % 4 * 64 + value);
        }
        phase = (phase + 1) % 4;
        last = value;
    }
    assert(bytes@.take(i as int) == bytes@);
    out
}

/// The character of the standard base64 alphabet for six bits.
pub open spec fn letter(v: int) -> u8 {
    if v < 26 {
        (v + 65) as u8
    } else if v < 52 {
        (v + 71) as u8
    } else if v < 62 {
        (v - 4) as u8
    } else if v == 62 {
        43u8
    } else {
        47u8
    }
}

/// The base64 text of `b`, with or without the `=` that fill up its last group.
pub open spec fn base64_text(b: Seq<u8>, padded: bool) -> Seq<u8>
    decreases b.len(),
{
    if b.len() >= 3 {
        seq![
            letter((b[0] / 4) as int),
            letter(b[0] % 4 * 16 + b[1] / 16),
            letter(b[1] % 16 * 4 + b[2] / 64),
            letter((b[2] % 64) as int),
        ] + base64_text(b.skip(3), padded)
    } else if b.len() == 2 {
        seq![
            letter((b[0] / 4) as int),
            letter(b[0] % 4 * 16 + b[1] / 16),
            letter(b[1] % 16 * 4),
        ] + if padded {
            seq![61u8]
        } else {
            seq![]
        }
    } else if b.len() == 1 {
        seq![letter((b[0] / 4) as int), letter(b[0] % 4 * 16)] + if padded {
            seq![61u8, 61u8]
        } else {
            seq![]
        }
    } else {
        seq![]
    }
}

proof fn lemma_sextets_concat(a: Seq<u8>, b: Seq<u8>)
    ensures
        sextets(a + b) == sextets(a) + sextets(b),
    decreases b.len(),
{
    let f = |b: u8| sextet(b);
    if b.len() == 0 {
        assert(a + b == a);
        assert(sextets(a) + sextets(b) == sextets(a));
    } else {
        lemma_sextets_concat(a, b.drop_last());
        assert((a + b).drop_last() == a + b.drop_last());
        assert((a + b).last() == b.last());
        assert(sextets(a + b) == sextets(a) + sextets(b));
    }
}

proof fn lemma_sextets_letter(s: Seq<u8>, v: int)
    requires
        0 <= v < 64,
    ensures
        sextets(s.push(letter(v))) == sextets(s).push(v as u8),
{
    let f = |b: u8| sextet(b);
    assert(s.push(letter(v)).drop_last() == s);
    assert(f(letter(v)) == Some(v as u8));
    assert(sextets(s) + seq![v as u8] == sextets(s).push(v as u8));
}

proof fn lemma_sextets_padding(s: Seq<u8>)
    ensures
        sextets(s.push(61u8)) == sextets(s),
{
    assert(s.push(61u8).drop_last() == s);
}

proof fn lemma_split_bits(x: u8, y: u8)
    ensures
        (x / 4) * 4 + (x % 4 * 16 + y / 16) / 16 == x,
        (x % 4 * 16 + y / 16) % 16 == y / 16,
        (x % 16 * 4 + y / 64) / 4 == x % 16,
        (x % 16 * 4 + y / 64) % 4 == y / 64,
        x / 16 * 16 + x % 16 == x,
        x / 64 * 64 + x % 64 == x,
        x % 4 * 16 + y / 16 < 64,
        x % 16 * 4 + y / 64 < 64,
{
}

/// The sextets of a group of three bytes are packed into them.
proof fn lemma_packed_group(x: u8, y: u8, z: u8, rest: Seq<u8>)
    ensures
        packed(
            seq![
                x / 4,
                (x % 4 * 16 + y / 16) as u8,
                (y % 16 * 4 + z / 64) as u8,
                z % 64,
            ] + rest,
        ) == seq![x, y, z] + packed(rest),
{
    let v = seq![
        x / 4,
        (x % 4 * 16 + y / 16) as u8,
        (y % 16 * 4 + z / 64) as u8,
        z % 64,
    ] + rest;
    lemma_split_bits(x, y);
    lemma_split_bits(y, z);
    lemma_split_bits(z, 0);
    assert(v.skip(4) == rest);
    assert(packed(v) == seq![x, y, z] + packed(rest));
}

/// Decoding gives back the bytes whose base64 text, padded or not, it is given.
#[verifier::spinoff_prover]
pub proof fn law_base64_roundtrip(b: Seq<u8>, padded: bool)
    ensures
        base64_bytes(base64_text(b, padded)) == b,
    decreases b.len(),
{
    let e = Seq::<u8>::empty();
    if b.len() == 0 {
        assert(packed(sextets(base64_text(b, padded))) == b);
    } else {
        let x = b[0];
        let y = if b.len() >= 2 { b[1] } else { 0u8 };
        let z = if b.len() >= 3 { b[2] } else { 0u8 };
        let v0 = (x / 4) as int;
        let v1 = x % 4 * 16 + y / 16;
        let v2 = y % 16 * 4 + z / 64;
        let v3 = (z % 64) as int;
        lemma_split_bits(x, y);
        lemma_split_bits(y, z);
        lemma_split_bits(z, 0);
        let t2 = e.push(letter(v0)).push(letter(v1));
        let t3 = t2.push(letter(v2));
        let t4 = t3.push(letter(v3));
        lemma_sextets_letter(e, v0);
        lemma_sextets_letter(e.push(letter(v0)), v1);
        lemma_sextets_letter(t2, v2);
        lemma_sextets_letter(t3, v3);
        let s2 = e.push(v0 as u8).push(v1 as u8);
        let s3 = s2.push(v2 as u8);
        let s4 = s3.push(v3 as u8);
        assert(sextets(e) == e);
        if b.len() >= 3 {
            let tail = base64_text(b.skip(3), padded);
            law_base64_roundtrip(b.skip(3), padded);
            lemma_sextets_concat(t4, tail);
            assert(base64_text(b, padded) == t4 + tail);
            lemma_packed_group(x, y, z, sextets(tail));
            assert(s4 == seq![v0 as u8, v1 as u8, v2 as u8, v3 as u8]);
            assert(b == seq![x, y, z] + b.skip(3));
        } else if b.len() == 2 {
            lemma_sextets_padding(t3);
            assert(base64_text(b, padded) == if padded { t3.push(61u8) } else { t3 });
            assert(packed(s3) == b);
        } else {
            lemma_sextets_padding(t2);
            lemma_sextets_padding(t2.push(61u8));
            assert(base64_text(b, padded) == if padded { t2.push(61u8).push(61u8) } else { t2 });
            assert(packed(s2) == b);
        }
    }
}

/// The letters of the alphabet, in its order, stand for the numbers from 0 to 63.
pub proof fn law_alphabet_is_in_order(c: u8)
    ensures
        sextet('A' as u8) == Some(0u8),
        'A' <= c < 'Z' || 'a' <= c < 'z' || '0' <= c < '9' ==> sextet(c) is Some && sextet(
            (c + 1) as u8,
        ) is Some && (sextet((c + 1) as u8)->0) == (sextet(c)->0) + 1,
        sextet('a' as u8)->0 == (sextet('Z' as u8)->0) + 1,
        sextet('0' as u8)->0 == (sextet('z' as u8)->0) + 1,
        sextet('+' as u8)->0 == (sextet('9' as u8)->0) + 1,
        sextet('/' as u8)->0 == (sextet('+' as u8)->0) + 1,
        sextet('/' as u8) == Some(63u8),
{
}

/// Characters outside the alphabet make no difference, wherever they stand.
pub proof fn law_other_characters_are_skipped(a: Seq<u8>, c: u8, b: Seq<u8>)
    requires
        !('A' <= c <= 'Z'),
        !('a' <= c <= 'z'),
        !('0' <= c <= '9'),
        c != '+' as u8,
        c != '/' as u8,
    ensures
        base64_bytes(a + seq![c] + b) == base64_bytes(a + b),
{
    let f = |b: u8| sextet(b);
    Seq::lemma_filter_map_singleton(c, f);
    lemma_sextets_concat(a, seq![c]);
    lemma_sextets_concat(a + seq![c], b);
    lemma_sextets_concat(a, b);
    assert(sextets(a) + sextets(seq![c]) == sextets(a));
}

/// Four characters stand for three bytes of the same bits, and what follows them
/// is decoded by itself.
pub proof fn law_four_characters_make_three_bytes(
    c0: u8,
    c1: u8,
    c2: u8,
    c3: u8,
    rest: Seq<u8>,
)
    requires
        sextet(c0) is Some,
        sextet(c1) is Some,
        sextet(c2) is Some,
        sextet(c3) is Some,
    ensures
        ({
            let r = base64_bytes(seq![c0, c1, c2, c3] + rest);
            let v = (((sextet(c0)->0) * 64 + (sextet(c1)->0)) * 64 + (sextet(c2)->0)) * 64
                + (sextet(c3)->0);
            &&& r.len() == 3 + base64_bytes(rest).len()
            &&& (r[0] * 256 + r[1]) * 256 + r[2] == v
            &&& r.skip(3) == base64_bytes(rest)
        }),
{
    let f = |b: u8| sextet(b);
    let e = Seq::<u8>::empty();
    let v0 = sextet(c0)->0;
    let v1 = sextet(c1)->0;
    let v2 = sextet(c2)->0;
    let v3 = sextet(c3)->0;
    lemma_sextets_concat(seq![c0, c1, c2, c3], rest);
    Seq::lemma_filter_map_singleton(c0, f);
    Seq::lemma_filter_map_singleton(c1, f);
    Seq::lemma_filter_map_singleton(c2, f);
    Seq::lemma_filter_map_singleton(c3, f);
    lemma_sextets_concat(seq![c0], seq![c1]);
    lemma_sextets_concat(seq![c0] + seq![c1], seq![c2]);
    lemma_sextets_concat(seq![c0] + seq![c1] + seq![c2], seq![c3]);
    assert(seq![c0] + seq![c1] + seq![c2] + seq![c3] == seq![c0, c1, c2, c3]);
    assert(seq![v0] + seq![v1] + seq![v2] + seq![v3] == seq![v0, v1, v2, v3]);
    let s = seq![v0, v1, v2, v3] + sextets(rest);
    assert(s.skip(4) == sextets(rest));
    let r = packed(s);
    assert(r.skip(3) == packed(sextets(rest)));
    assert(v0 < 64 && v1 < 64 && v2 < 64 && v3 < 64);
}

/// Of what is left behind the last four characters, three stand for two bytes and
/// two for one, the bits that do not fill a byte being dropped; one stands for none.
pub proof fn law_last_characters_make_what_is_whole(c0: u8, c1: u8, c2: u8)
    requires
        sextet(c0) is Some,
        sextet(c1) is Some,
        sextet(c2) is Some,
    ensures
        ({
            let r = base64_bytes(seq![c0, c1, c2]);
            &&& r.len() == 2
            &&& r[0] * 256 + r[1] == (((sextet(c0)->0) * 64 + (sextet(c1)->0)) * 64 + (sextet(
                c2,
            )->0)) / 4
        }),
        ({
            let r = base64_bytes(seq![c0, c1]);
            r.len() == 1 && r[0] == ((sextet(c0)->0) * 64 + (sextet(c1)->0)) / 16
        }),
        base64_bytes(seq![c0]).len() == 0,
        base64_bytes(seq![]).len() == 0,
{
    let f = |b: u8| sextet(b);
    let v0 = sextet(c0)->0;
    let v1 = sextet(c1)->0;
    let v2 = sextet(c2)->0;
    Seq::lemma_filter_map_singleton(c0, f);
    Seq::lemma_filter_map_singleton(c1, f);
    Seq::lemma_filter_map_singleton(c2, f);
    lemma_sextets_concat(seq![c0], seq![c1]);
    lemma_sextets_concat(seq![c0] + seq![c1], seq![c2]);
    assert(seq![c0] + seq![c1] == seq![c0, c1]);
    assert(seq![c0] + seq![c1] + seq![c2] == seq![c0, c1, c2]);
    assert(seq![v0] + seq![v1] == seq![v0, v1]);
    assert(seq![v0] + seq![v1] + seq![v2] == seq![v0, v1, v2]);
    assert(v0 < 64 && v1 < 64 && v2 < 64);
    assert(sextets(seq![]) == Seq::<u8>::empty());
}

} // verus!
