//! The order of strings, and stable sorting by an integer key.
use vstd::prelude::*;
use vstd::string::*;
use vstd::utf8::*;

use crate::text::{lemma_encode_concat, lemma_encode_injective};

verus! {

/// Lexicographic order of byte sequences.
pub open spec fn bytes_less(a: Seq<u8>, b: Seq<u8>) -> bool
    decreases a.len(),
{
    if b.len() == 0 {
        false
    } else if a.len() == 0 {
        true
    } else if a[0] != b[0] {
        a[0] < b[0]
    } else {
        bytes_less(a.drop_first(), b.drop_first())
    }
}

/// The order of strings: lexicographic in their UTF-8 bytes.
pub open spec fn str_less(a: Seq<char>, b: Seq<char>) -> bool {
    bytes_less(encode_utf8(a), encode_utf8(b))
}

proof fn lemma_bytes_irreflexive(a: Seq<u8>)
    ensures
        !bytes_less(a, a),
    decreases a.len(),
{
    if a.len() > 0 {
        lemma_bytes_irreflexive(a.drop_first());
    }
}

proof fn lemma_bytes_transitive(a: Seq<u8>, b: Seq<u8>, c: Seq<u8>)
    requires
        bytes_less(a, b),
        bytes_less(b, c),
    ensures
        bytes_less(a, c),
    decreases a.len(),
{
    if a.len() > 0 && a[0] == b[0] && b[0] == c[0] {
        lemma_bytes_transitive(a.drop_first(), b.drop_first(), c.drop_first());
    }
}

/// No string comes before itself.
pub proof fn lemma_str_irreflexive(a: Seq<char>)
    ensures
        !str_less(a, a),
{
    lemma_bytes_irreflexive(encode_utf8(a));
}

/// The order of strings is transitive.
pub proof fn lemma_str_transitive(a: Seq<char>, b: Seq<char>, c: Seq<char>)
    requires
        str_less(a, b),
        str_less(b, c),
    ensures
        str_less(a, c),
{
    lemma_bytes_transitive(encode_utf8(a), encode_utf8(b), encode_utf8(c));
}

proof fn lemma_bytes_total(a: Seq<u8>, b: Seq<u8>)
    ensures
        a == b || bytes_less(a, b) || bytes_less(b, a),
    decreases a.len(),
{
    if a.len() > 0 && b.len() > 0 && a[0] == b[0] {
        lemma_bytes_total(a.drop_first(), b.drop_first());
        if a.drop_first() == b.drop_first() {
            assert(a == seq![a[0]] + a.drop_first());
            assert(b == seq![b[0]] + b.drop_first());
        }
    }
}

/// Of two different strings one comes before the other.
pub proof fn lemma_str_total(a: Seq<char>, b: Seq<char>)
    ensures
        a == b || str_less(a, b) || str_less(b, a),
{
    lemma_bytes_total(encode_utf8(a), encode_utf8(b));
    if encode_utf8(a) == encode_utf8(b) {
        lemma_encode_injective(a, b);
    }
}

/// Whether `a` comes before `b`.
pub fn less(a: &str, b: &str) -> (r: bool)
    ensures
        r == str_less(a@, b@),
{
    let x = a.as_bytes();
    let y = b.as_bytes();
    let mut i: usize = 0;
    assert(x@.skip(0) == x@);
    assert(y@.skip(0) == y@);
    while i < x.len() && i < y.len()
        invariant
            x@ == encode_utf8(a@),
            y@ == encode_utf8(b@),
            i <= x@.len(),
            i <= y@.len(),
            bytes_less(x@, y@) == bytes_less(x@.skip(i as int), y@.skip(i as int)),
        decreases x@.len() - i,
    {
        if x[i] != y[i] {
            return x[i] < y[i];
        }
        assert(x@.skip(i as int).drop_first() == x@.skip(i + 1));
        assert(y@.skip(i as int).drop_first() == y@.skip(i + 1));
        i += 1;
    }
    i < y.len()
}

/// `s` with `x` put behind the last item whose key is not greater.
pub open spec fn insert_by_key<T>(s: Seq<T>, x: T, key: spec_fn(T) -> int) -> Seq<T>
    decreases s.len(),
{
    if s.len() > 0 && key(x) < key(s.last()) {
        insert_by_key(s.drop_last(), x, key).push(s.last())
    } else {
        s.push(x)
    }
}

/// The items of `s` by ascending key, those of one key in the order of `s`.
pub open spec fn stable_sorted<T>(s: Seq<T>, key: spec_fn(T) -> int) -> Seq<T>
    decreases s.len(),
{
    if s.len() == 0 {
        s
    } else {
        insert_by_key(stable_sorted(s.drop_last(), key), s.last(), key)
    }
}

/// Whether the keys of `s` ascend.
pub open spec fn ascending<T>(s: Seq<T>, key: spec_fn(T) -> int) -> bool {
    forall|i: int, j: int| 0 <= i <= j < s.len() ==> key(#[trigger] s[i]) <= key(#[trigger] s[j])
}

proof fn lemma_insert_ascending<T>(s: Seq<T>, x: T, key: spec_fn(T) -> int)
    requires
        ascending(s, key),
    ensures
        ascending(insert_by_key(s, x, key), key),
        insert_by_key(s, x, key).len() == s.len() + 1,
        key(insert_by_key(s, x, key).last()) == key(x) || (s.len() > 0 && key(
            insert_by_key(s, x, key).last(),
        ) == key(s.last())),
    decreases s.len(),
{
    if s.len() > 0 && key(x) < key(s.last()) {
        lemma_insert_ascending(s.drop_last(), x, key);
        let t = insert_by_key(s.drop_last(), x, key);
        assert forall|i: int, j: int| 0 <= i <= j < t.push(s.last()).len() implies key(
            #[trigger] t.push(s.last())[i],
        ) <= key(#[trigger] t.push(s.last())[j]) by {
            if i < t.len() {
                assert(key(t[i]) <= key(t.last()));
                if s.len() > 1 {
                    assert(key(s[s.len() - 2]) <= key(s[s.len() - 1]));
                }
            }
        }
    }
}

/// Sorting puts the keys in ascending order.
pub proof fn lemma_sorted_ascending<T>(s: Seq<T>, key: spec_fn(T) -> int)
    ensures
        ascending(stable_sorted(s, key), key),
        stable_sorted(s, key).len() == s.len(),
    decreases s.len(),
{
    if s.len() > 0 {
        lemma_sorted_ascending(s.drop_last(), key);
        lemma_insert_ascending(stable_sorted(s.drop_last(), key), s.last(), key);
    }
}

proof fn lemma_insert_filter<T>(
    s: Seq<T>,
    x: T,
    key: spec_fn(T) -> int,
    p: spec_fn(T) -> bool,
    k: int,
)
    requires
        forall|t: T| #[trigger] p(t) ==> key(t) == k,
    ensures
        insert_by_key(s, x, key).filter(p) == s.push(x).filter(p),
    decreases s.len(),
{
    broadcast use Seq::lemma_filter_push;

    if s.len() > 0 && key(x) < key(s.last()) {
        let init = s.drop_last();
        lemma_insert_filter(init, x, key, p, k);
        assert(s == init.push(s.last()));
        assert(insert_by_key(s, x, key).filter(p) == insert_by_key(init, x, key).push(
            s.last(),
        ).filter(p));
        if p(x) {
            assert(!p(s.last()));
        }
    }
}

/// Sorting keeps the order of the items of any one key, and so loses and adds
/// none.
pub proof fn law_sorting_is_stable<T>(s: Seq<T>, key: spec_fn(T) -> int, k: int)
    ensures
        stable_sorted(s, key).filter(|t: T| key(t) == k) == s.filter(|t: T| key(t) == k),
    decreases s.len(),
{
    broadcast use Seq::lemma_filter_push;

    if s.len() > 0 {
        let p = |t: T| key(t) == k;
        law_sorting_is_stable(s.drop_last(), key, k);
        lemma_insert_filter(stable_sorted(s.drop_last(), key), s.last(), key, p, k);
        assert(s == s.drop_last().push(s.last()));
    }
}

proof fn lemma_insert_map<A, B>(
    s: Seq<A>,
    x: A,
    f: spec_fn(A) -> B,
    ka: spec_fn(A) -> int,
    kb: spec_fn(B) -> int,
)
    requires
        forall|a: A| #[trigger] ka(a) == kb(f(a)),
    ensures
        insert_by_key(s, x, ka).map_values(f) == insert_by_key(s.map_values(f), f(x), kb),
    decreases s.len(),
{
    let m = s.map_values(f);
    if s.len() > 0 {
        assert(m.last() == f(s.last()));
        assert(m.drop_last() == s.drop_last().map_values(f));
        assert(ka(x) == kb(f(x)));
        assert(ka(s.last()) == kb(f(s.last())));
    }
    if s.len() > 0 && ka(x) < ka(s.last()) {
        lemma_insert_map(s.drop_last(), x, f, ka, kb);
        assert(insert_by_key(s, x, ka).map_values(f) == insert_by_key(
            s.drop_last(),
            x,
            ka,
        ).map_values(f).push(f(s.last())));
    } else {
        assert(s.push(x).map_values(f) == m.push(f(x)));
    }
}

/// Sorting commutes with a map that keeps the keys.
pub proof fn lemma_sorted_map<A, B>(
    s: Seq<A>,
    f: spec_fn(A) -> B,
    ka: spec_fn(A) -> int,
    kb: spec_fn(B) -> int,
)
    requires
        forall|a: A| #[trigger] ka(a) == kb(f(a)),
    ensures
        stable_sorted(s, ka).map_values(f) == stable_sorted(s.map_values(f), kb),
    decreases s.len(),
{
    let m = s.map_values(f);
    if s.len() > 0 {
        assert(m.last() == f(s.last()));
        assert(m.drop_last() == s.drop_last().map_values(f));
        lemma_sorted_map(s.drop_last(), f, ka, kb);
        lemma_insert_map(stable_sorted(s.drop_last(), ka), s.last(), f, ka, kb);
    } else {
        assert(s.map_values(f) == Seq::<B>::empty());
        assert(stable_sorted(m, kb) == m);
    }
}

proof fn lemma_insert_all<T>(s: Seq<T>, x: T, key: spec_fn(T) -> int, p: spec_fn(T) -> bool)
    requires
        forall|i: int| 0 <= i < s.len() ==> p(#[trigger] s[i]),
        p(x),
    ensures
        forall|i: int|
            0 <= i < insert_by_key(s, x, key).len() ==> p(
                #[trigger] insert_by_key(s, x, key)[i],
            ),
    decreases s.len(),
{
    if s.len() > 0 && key(x) < key(s.last()) {
        let t = insert_by_key(s.drop_last(), x, key);
        lemma_insert_all(s.drop_last(), x, key, p);
        assert forall|i: int| 0 <= i < t.push(s.last()).len() implies p(
            #[trigger] t.push(s.last())[i],
        ) by {
            if i < t.len() {
                assert(p(t[i]));
            } else {
                assert(p(s[s.len() - 1]));
            }
        }
    }
}

/// What holds of every item still does once they are sorted.
pub proof fn lemma_sorted_all<T>(s: Seq<T>, key: spec_fn(T) -> int, p: spec_fn(T) -> bool)
    requires
        forall|i: int| 0 <= i < s.len() ==> p(#[trigger] s[i]),
    ensures
        forall|i: int|
            0 <= i < stable_sorted(s, key).len() ==> p(#[trigger] stable_sorted(s, key)[i]),
    decreases s.len(),
{
    if s.len() > 0 {
        lemma_sorted_all(s.drop_last(), key, p);
        lemma_insert_all(stable_sorted(s.drop_last(), key), s.last(), key, p);
    }
}

proof fn lemma_insert_has<T>(s: Seq<T>, x: T, key: spec_fn(T) -> int, y: T)
    requires
        s.contains(y) || y == x,
    ensures
        insert_by_key(s, x, key).contains(y),
    decreases s.len(),
{
    let r = insert_by_key(s, x, key);
    if s.len() > 0 && key(x) < key(s.last()) {
        if y == s.last() {
            assert(r[r.len() - 1] == y);
        } else {
            if s.contains(y) {
                let i = choose|i: int| 0 <= i < s.len() && s[i] == y;
                assert(s.drop_last()[i] == y);
            }
            lemma_insert_has(s.drop_last(), x, key, y);
            let t = insert_by_key(s.drop_last(), x, key);
            let j = choose|j: int| 0 <= j < t.len() && t[j] == y;
            assert(r[j] == y);
        }
    } else if y == x {
        assert(r[s.len() as int] == y);
    } else {
        let i = choose|i: int| 0 <= i < s.len() && s[i] == y;
        assert(r[i] == y);
    }
}

/// Sorting loses no item.
pub proof fn lemma_sorted_has<T>(s: Seq<T>, key: spec_fn(T) -> int, y: T)
    requires
        s.contains(y),
    ensures
        stable_sorted(s, key).contains(y),
    decreases s.len(),
{
    if y != s.last() {
        let i = choose|i: int| 0 <= i < s.len() && s[i] == y;
        assert(s.drop_last()[i] == y);
        lemma_sorted_has(s.drop_last(), key, y);
    }
    lemma_insert_has(stable_sorted(s.drop_last(), key), s.last(), key, y);
}

/// An item with an integer to sort by.
pub trait Keyed {
    spec fn key(&self) -> int;

    fn sort_key(&self) -> (r: u64)
        ensures
            r == self.key(),
    ;
}

proof fn lemma_insert_at<T: Keyed>(s: Seq<T>, x: T, j: int)
    requires
        0 <= j <= s.len(),
        forall|i: int| j <= i < s.len() ==> x.key() < (#[trigger] s[i]).key(),
        j > 0 ==> x.key() >= s[j - 1].key(),
    ensures
        insert_by_key(s, x, |t: T| t.key()) == s.insert(j, x),
    decreases s.len(),
{
    let key = |t: T| t.key();
    if j < s.len() {
        assert(key(x) < key(s.last()));
        lemma_insert_at(s.drop_last(), x, j);
        assert(s.drop_last().insert(j, x).push(s.last()) == s.insert(j, x));
    } else {
        assert(!(s.len() > 0 && key(x) < key(s.last())));
        assert(s.push(x) == s.insert(j, x));
    }
}

/// Sorts by key, keeping the order of items of one key.
pub fn sort_stable<T: Keyed>(items: Vec<T>) -> (r: Vec<T>)
    ensures
        r@ == stable_sorted(items@, |t: T| t.key()),
{
    let mut out: Vec<T> = Vec::new();
    let ghost key = |t: T| t.key();
    let ghost all = items@;
    for x in it: items
        invariant
            key == (|t: T| t.key()),
            it.seq() == all,
            out@ == stable_sorted(it.seq().take(it.index()), key),
    {
        let k: u64 = x.sort_key();
        let mut j: usize = out.len();
        while j > 0 && k < out[j - 1].sort_key()
            invariant
                j <= out@.len(),
                k == x.key(),
                forall|i: int| j <= i < out@.len() ==> x.key() < (#[trigger] out@[i]).key(),
            decreases j,
        {
            j -= 1;
        }
        proof {
            lemma_insert_at(out@, x, j as int);
            let next = it.seq().take(it.index() + 1);
            assert(next.drop_last() == it.seq().take(it.index()));
            assert(next.last() == x);
        }
        out.insert(j, x);
    }
    assert(all.take(all.len() as int) == all);
    out
}

/// Bytes are ordered by the first one in which they differ, and a part of them
/// from the beginning comes before the whole.
pub proof fn law_first_difference_decides(
    common: Seq<u8>,
    x: u8,
    a: Seq<u8>,
    y: u8,
    b: Seq<u8>,
)
    requires
        x != y,
    ensures
        bytes_less(common + seq![x] + a, common + seq![y] + b) <==> x < y,
        bytes_less(common, common + seq![x] + a),
        !bytes_less(common + seq![x] + a, common),
    decreases common.len(),
{
    let p = common + seq![x] + a;
    let q = common + seq![y] + b;
    if common.len() > 0 {
        law_first_difference_decides(common.drop_first(), x, a, y, b);
        assert(p.drop_first() == common.drop_first() + seq![x] + a);
        assert(q.drop_first() == common.drop_first() + seq![y] + b);
        assert(p[0] == common[0] && q[0] == common[0]);
    } else {
        assert(p[0] == x && q[0] == y);
    }
}

/// Strings are ordered by their bytes, so ASCII text is ordered by its
/// characters, and a string comes before those that begin with it.
pub proof fn law_strings_are_in_the_order_of_their_characters(
    common: Seq<char>,
    x: char,
    a: Seq<char>,
    y: char,
    b: Seq<char>,
)
    requires
        x < y,
        y <= '\u{7f}',
    ensures
        str_less(common + seq![x] + a, common + seq![y] + b),
        str_less(common, common + seq![x] + a),
{
    let c = encode_utf8(common);
    lemma_encode_concat(common, seq![x]);
    lemma_encode_concat(common + seq![x], a);
    lemma_encode_concat(common, seq![y]);
    lemma_encode_concat(common + seq![y], b);
    lemma_ascii_byte(x);
    lemma_ascii_byte(y);
    law_first_difference_decides(c, x as u8, encode_utf8(a), y as u8, encode_utf8(b));
}

proof fn lemma_ascii_byte(x: char)
    requires
        x <= '\u{7f}',
    ensures
        encode_utf8(seq![x]) == seq![x as u8],
{
    is_ascii_chars_encode_utf8(seq![x]);
    assert(encode_utf8(seq![x]) =~= seq![x as u8]);
}

proof fn lemma_insert_multiset<T>(s: Seq<T>, x: T, key: spec_fn(T) -> int)
    ensures
        insert_by_key(s, x, key).to_multiset() == s.to_multiset().insert(x),
    decreases s.len(),
{
    if s.len() > 0 && key(x) < key(s.last()) {
        let init = s.drop_last();
        lemma_insert_multiset(init, x, key);
        vstd::seq_lib::to_multiset_build(insert_by_key(init, x, key), s.last());
        vstd::seq_lib::to_multiset_build(init, s.last());
        assert(s == init.push(s.last()));
        assert(insert_by_key(s, x, key).to_multiset() =~= s.to_multiset().insert(x));
    } else {
        vstd::seq_lib::to_multiset_build(s, x);
    }
}

/// Sorting loses no item and adds none, and leaves what is in order as it is.
pub proof fn law_sorting_keeps_the_items<T>(s: Seq<T>, key: spec_fn(T) -> int)
    ensures
        stable_sorted(s, key).to_multiset() == s.to_multiset(),
        ascending(s, key) ==> stable_sorted(s, key) == s,
    decreases s.len(),
{
    if s.len() > 0 {
        let init = s.drop_last();
        law_sorting_keeps_the_items(init, key);
        lemma_insert_multiset(stable_sorted(init, key), s.last(), key);
        vstd::seq_lib::to_multiset_build(init, s.last());
        assert(s == init.push(s.last()));
        if ascending(s, key) {
            assert(ascending(init, key)) by {
                assert forall|i: int, j: int| 0 <= i <= j < init.len() implies key(
                    #[trigger] init[i],
                ) <= key(#[trigger] init[j]) by {
                    assert(init[i] == s[i] && init[j] == s[j]);
                }
            }
            if init.len() > 0 {
                assert(key(s[s.len() - 2]) <= key(s[s.len() - 1]));
            }
        }
    }
}

/// Strings are ordered by the first byte in which they differ, and a string comes
/// before those that go on behind it.
pub proof fn law_strings_are_ordered_by_their_bytes(
    s: Seq<char>,
    t: Seq<char>,
    common: Seq<u8>,
    x: u8,
    a: Seq<u8>,
    y: u8,
    b: Seq<u8>,
)
    requires
        encode_utf8(s) == common + seq![x] + a,
        x != y,
    ensures
        encode_utf8(t) == common + seq![y] + b ==> (str_less(s, t) <==> x < y),
        encode_utf8(t) == common ==> str_less(t, s) && !str_less(s, t),
{
    law_first_difference_decides(common, x, a, y, b);
}

} // verus!
