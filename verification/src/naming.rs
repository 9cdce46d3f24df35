//! Slug and folder-name generation for gists.
use vstd::prelude::*;

use crate::model::Gist;
use crate::paths::is_name;
use crate::text::{
    chars_of, joined, law_pieces_are_what_is_between, law_trailing_characters_are_skipped,
    lemma_filter_all, lemma_filter_concat, lemma_filter_holds, lemma_pieces_joined, pieces,
    skip_trailing, string_of, trim_end_of, CharClass, Only,
};

verus! {

/// Maximum length of the slug portion of a folder name.
pub const MAX_SLUG_LEN: usize = 50;

/// Number of leading characters of the gist id used to disambiguate folders.
pub const SHORT_ID_LEN: usize = 8;

/// Whether `c` is an ASCII letter or digit.
pub open spec fn is_alphanumeric(c: char) -> bool {
    'a' <= c <= 'z' || 'A' <= c <= 'Z' || '0' <= c <= '9'
}

/// An ASCII letter in lower case, any other character as it is.
pub open spec fn lower(c: char) -> char {
    if 'A' <= c <= 'Z' {
        (c as u32 + 32) as char
    } else {
        c
    }
}

/// `s` in lower case, with a dash for everything but ASCII letters and digits.
pub open spec fn dashed(s: Seq<char>) -> Seq<char> {
    s.map_values(
        |c: char|
            if is_alphanumeric(c) {
                lower(c)
            } else {
                '-'
            },
    )
}

/// The words of `s`: its runs of ASCII letters and digits, in lower case.
pub open spec fn words(s: Seq<char>) -> Seq<Seq<char>> {
    pieces(dashed(s), '-').filter(|w: Seq<char>| w.len() > 0)
}

/// `s` cut off at the greatest length of a slug, and then behind its last
/// word character.
pub open spec fn capped(s: Seq<char>) -> Seq<char> {
    if s.len() > MAX_SLUG_LEN {
        skip_trailing(s.take(MAX_SLUG_LEN as int), Only('-'))
    } else {
        s
    }
}

/// The slug of `s`: its words with dashes between them, capped.
pub open spec fn slug(s: Seq<char>) -> Seq<char> {
    capped(joined(words(s), seq!['-']))
}

proof fn lemma_words_push(p: Seq<Seq<char>>, c: char)
    requires
        p.len() > 0,
    ensures
        ({
            let keep = |w: Seq<char>| w.len() > 0;
            let before = p.filter(keep);
            let after = p.update(p.len() - 1, p.last().push(c)).filter(keep);
            joined(after, seq!['-']) == (if p.last().len() == 0 && before.len() > 0 {
                joined(before, seq!['-']).push('-')
            } else {
                joined(before, seq!['-'])
            }).push(c) && after.len() > 0
        }),
{
    broadcast use Seq::lemma_filter_push;

    let keep = |w: Seq<char>| w.len() > 0;
    let q = p.drop_last();
    let l = p.last();
    let w = q.filter(keep);
    assert(p == q.push(l));
    assert(p.update(p.len() - 1, l.push(c)) == q.push(l.push(c)));
    assert(q.push(l.push(c)).filter(keep) == w.push(l.push(c)));
    assert(w.push(l.push(c)).drop_last() == w);
    if l.len() > 0 {
        assert(p.filter(keep) == w.push(l));
        assert(w.push(l).drop_last() == w);
        if w.len() == 0 {
            assert(joined(w.push(l.push(c)), seq!['-']) == l.push(c));
        } else {
            assert(joined(w.push(l.push(c)), seq!['-']) == joined(w, seq!['-']) + seq!['-']
                + l.push(c));
            assert(joined(w, seq!['-']) + seq!['-'] + l.push(c) == (joined(w, seq!['-']) + seq![
                '-',
            ] + l).push(c));
        }
    } else {
        assert(p.filter(keep) == w);
        assert(l.push(c) == seq![c]);
        if w.len() == 0 {
            assert(joined(w.push(l.push(c)), seq!['-']) == seq![c]);
            assert(joined(w, seq!['-']).push(c) == seq![c]);
        } else {
            assert(joined(w, seq!['-']) + seq!['-'] + seq![c] == joined(w, seq!['-']).push(
                '-',
            ).push(c));
        }
    }
}

/// Converts an arbitrary string into a filesystem-friendly slug.
///
/// Lowercases ASCII, replaces any run of non-alphanumeric characters (including
/// unicode) with a single `-`, and trims leading/trailing `-`. The result is
/// pure ASCII, capped at [`MAX_SLUG_LEN`] characters. Returns an empty string
/// when the input has no alphanumeric characters.
pub fn slugify(input: &str) -> (r: String)
    ensures
        r@ == slug(input@),
{
    let chars = chars_of(input);
    let mut out: Vec<char> = Vec::new();
    let mut gap = true;
    let mut i: usize = 0;
    let ghost keep = |w: Seq<char>| w.len() > 0;
    let ghost mut p = seq![Seq::<char>::empty()];
    proof {
        broadcast use Seq::lemma_filter_push;

        assert(p == Seq::<Seq<char>>::empty().push(Seq::empty()));
        reveal(Seq::filter);
        assert(p.filter(keep) == Seq::<Seq<char>>::empty());
        assert(dashed(input@.take(0)) == Seq::<char>::empty());
    }
    while i < chars.len()
        invariant
            keep == (|w: Seq<char>| w.len() > 0),
            chars@ == input@,
            i <= chars@.len(),
            p == pieces(dashed(input@.take(i as int)), '-'),
            p.len() > 0,
            gap == (p.last().len() == 0),
            out@ == joined(p.filter(keep), seq!['-']),
            out@.len() > 0 <==> p.filter(keep).len() > 0,
        decreases chars@.len() - i,
    {
        let c = chars[i];
        let ghost d = dashed(input@.take(i as int));
        let ghost before = p;
        let alphanumeric = ('a' <= c && c <= 'z') || ('A' <= c && c <= 'Z') || ('0' <= c && c
            <= '9');
        if alphanumeric {
            let l: char = if 'A' <= c && c <= 'Z' {
                ((c as u8) + 32) as char
            } else {
                c
            };
            proof {
                assert(l == lower(c));
                assert(dashed(input@.take(i + 1)) == d.push(l));
                assert(d.push(l).drop_last() == d);
                p = before.update(before.len() - 1, before.last().push(l));
                lemma_words_push(before, l);
            }
            if gap && out.len() > 0 {
                out.push('-');
            }
            out.push(l);
            gap = false;
        } else {
            proof {
                broadcast use Seq::lemma_filter_push;

                assert(dashed(input@.take(i + 1)) == d.push('-'));
                assert(d.push('-').drop_last() == d);
                p = before.push(Seq::empty());
                assert(p.filter(keep) == before.filter(keep));
            }
            gap = true;
        }
        i += 1;
    }
    assert(input@.take(i as int) == input@);
    let len: usize = out.len();
    let whole = string_of(&out, 0, len);
    assert(whole@ == out@);
    if len > MAX_SLUG_LEN {
        let cut = string_of(&out, 0, MAX_SLUG_LEN);
        assert(cut@ == out@.take(MAX_SLUG_LEN as int));
        trim_end_of(cut.as_str(), Only('-')).to_string()
    } else {
        whole
    }
}

/// The position of the last `.` of `s`, or -1.
pub open spec fn last_dot(s: Seq<char>) -> int
    decreases s.len(),
{
    if s.len() == 0 {
        -1
    } else if s.last() == '.' {
        s.len() - 1
    } else {
        last_dot(s.drop_last())
    }
}

/// A file name without its extension, unless nothing else would be left.
pub open spec fn stem(name: Seq<char>) -> Seq<char> {
    if last_dot(name) > 0 {
        name.take(last_dot(name))
    } else {
        name
    }
}

/// The first characters of an id.
pub open spec fn short_id(id: Seq<char>) -> Seq<char> {
    if id.len() > SHORT_ID_LEN {
        id.take(SHORT_ID_LEN as int)
    } else {
        id
    }
}

/// The slug of a gist: that of its description, else that of the stem of its
/// first file name, else `gist`.
pub open spec fn gist_slug(gist: Gist) -> Seq<char> {
    let from_description = match gist.description {
        Some(d) => slug(d@),
        None => seq![],
    };
    let from_filename = match gist.first_name() {
        Some(name) => slug(stem(name)),
        None => seq![],
    };
    if from_description.len() > 0 {
        from_description
    } else if from_filename.len() > 0 {
        from_filename
    } else {
        "gist"@
    }
}

/// The folder of a gist: its slug and, behind a dash, its short id.
pub open spec fn folder_of(gist: Gist) -> Seq<char> {
    let id = short_id(gist.id@);
    if id.len() > 0 {
        gist_slug(gist) + seq!['-'] + id
    } else {
        gist_slug(gist)
    }
}

/// A file name without its extension, unless nothing else would be left.
fn stem_of(name: &str) -> (r: String)
    ensures
        r@ == stem(name@),
{
    let chars = chars_of(name);
    let mut i: usize = chars.len();
    assert(name@.take(i as int) == name@);
    while i > 0 && chars[i - 1] != '.'
        invariant
            chars@ == name@,
            i <= chars@.len(),
            last_dot(name@) == last_dot(name@.take(i as int)),
        decreases i,
    {
        assert(name@.take(i as int).drop_last() == name@.take(i - 1));
        i -= 1;
    }
    if i > 1 {
        assert(name@.take(i as int).last() == '.');
        assert(last_dot(name@) == i - 1);
        string_of(&chars, 0, i - 1)
    } else {
        assert(last_dot(name@) <= 0);
        name.to_string()
    }
}

/// Computes the local folder name for a gist: `<slug>-<shortid>`.
///
/// The slug is derived from the description, falling back to the stem of the
/// first filename, and finally to `"gist"` if neither yields usable text. The
/// short id keeps folders unique even when descriptions collide.
pub fn folder_name(gist: &Gist) -> (r: String)
    ensures
        r@ == folder_of(*gist),
{
    let id = chars_of(gist.id.as_str());
    let len: usize = if id.len() > SHORT_ID_LEN {
        SHORT_ID_LEN
    } else {
        id.len()
    };
    let short = string_of(&id, 0, len);
    assert(short@ == short_id(gist.id@));
    let mut slug: String = match &gist.description {
        Some(d) => slugify(d.as_str()),
        None => String::new(),
    };
    if slug.as_str().unicode_len() == 0 {
        if let Some(first) = gist.first_filename() {
            let stem = stem_of(first);
            slug = slugify(stem.as_str());
        }
    }
    if slug.as_str().unicode_len() == 0 {
        slug = "gist".to_string();
    }
    assert(slug@ == gist_slug(*gist));
    if len > 0 {
        slug.push('-');
        slug.append(short.as_str());
        assert(slug@ == gist_slug(*gist) + seq!['-'] + short@);
    }
    slug
}

/// Whether `s` has the form of a slug: lower-case ASCII letters, digits and
/// single dashes between them.
pub open spec fn is_slug(s: Seq<char>) -> bool {
    &&& forall|i: int|
        0 <= i < s.len() ==> #[trigger] s[i] == '-' || is_alphanumeric(s[i]) && lower(s[i]) == s[i]
    &&& s.len() > 0 ==> s[0] != '-' && s.last() != '-'
    &&& forall|i: int| 0 < i < s.len() ==> #[trigger] s[i] != '-' || s[i - 1] != '-'
}

/// Whether `w` is a word: lower-case ASCII letters and digits, at least one.
spec fn is_word(w: Seq<char>) -> bool {
    &&& w.len() > 0
    &&& forall|i: int|
        0 <= i < w.len() ==> is_alphanumeric(#[trigger] w[i]) && lower(w[i]) == w[i] && w[i] != '-'
}

proof fn lemma_joined_words(ws: Seq<Seq<char>>)
    requires
        forall|i: int| 0 <= i < ws.len() ==> is_word(#[trigger] ws[i]),
    ensures
        is_slug(joined(ws, seq!['-'])),
        joined(ws, seq!['-']).len() > 0 <==> ws.len() > 0,
    decreases ws.len(),
{
    let r = joined(ws, seq!['-']);
    if ws.len() == 1 {
        assert(is_word(ws[0]));
        assert(r == ws[0]);
    } else if ws.len() > 1 {
        let t = ws.drop_last();
        let w = ws.last();
        let a = joined(t, seq!['-']);
        assert forall|i: int| 0 <= i < t.len() implies is_word(#[trigger] t[i]) by {
            assert(is_word(ws[i]));
        }
        lemma_joined_words(t);
        assert(is_word(ws[ws.len() - 1]));
        assert(r == a + seq!['-'] + w);
        assert forall|i: int| 0 <= i < r.len() implies #[trigger] r[i] == '-' || is_alphanumeric(
            r[i],
        ) && lower(r[i]) == r[i] by {
            if i < a.len() {
                assert(r[i] == a[i]);
            } else if i > a.len() {
                assert(r[i] == w[i - a.len() - 1]);
            }
        }
        assert forall|i: int| 0 < i < r.len() implies #[trigger] r[i] != '-' || r[i - 1] != '-' by {
            if i < a.len() {
                assert(r[i] == a[i] && r[i - 1] == a[i - 1]);
            } else if i == a.len() {
                assert(r[i - 1] == a.last());
            } else {
                assert(r[i] == w[i - a.len() - 1]);
            }
        }
        assert(r[0] == a[0]);
        assert(r.last() == w.last());
    }
}

proof fn lemma_dashed_pieces(s: Seq<char>)
    ensures
        pieces(dashed(s), '-').len() > 0,
        forall|i: int|
            0 <= i < pieces(dashed(s), '-').len() ==> (#[trigger] pieces(dashed(s), '-')[i]).len()
                == 0 || is_word(pieces(dashed(s), '-')[i]),
    decreases s.len(),
{
    let d = dashed(s);
    if s.len() > 0 {
        lemma_dashed_pieces(s.drop_last());
        assert(d.drop_last() == dashed(s.drop_last()));
        let p = pieces(d.drop_last(), '-');
        let c = d.last();
        if c != '-' {
            let l = p.last();
            assert(l == p[p.len() - 1]);
            assert(is_word(l.push(c)));
        }
    }
}

/// The words of a text are words.
proof fn lemma_words(s: Seq<char>)
    ensures
        forall|i: int| 0 <= i < words(s).len() ==> is_word(#[trigger] words(s)[i]),
{
    let p = pieces(dashed(s), '-');
    let keep = |w: Seq<char>| w.len() > 0;
    lemma_dashed_pieces(s);
    assert forall|i: int| 0 <= i < words(s).len() implies is_word(#[trigger] words(s)[i]) by {
        let w = words(s)[i];
        assert(p.filter(keep).contains(w));
        p.lemma_filter_contains_rev(keep, w);
        let j = choose|j: int| 0 <= j < p.len() && p[j] == w;
        assert(p[j].len() == 0 || is_word(p[j]));
        lemma_filter_holds(p, keep);
        assert(keep(p.filter(keep)[i]));
    }
}

proof fn lemma_skip_trailing_dash(s: Seq<char>)
    ensures
        skip_trailing(s, Only('-')).len() <= s.len(),
        skip_trailing(s, Only('-')) == s.take(skip_trailing(s, Only('-')).len() as int),
        skip_trailing(s, Only('-')).len() > 0 ==> skip_trailing(s, Only('-')).last() != '-',
        s.len() > 0 && s[0] != '-' ==> skip_trailing(s, Only('-')).len() > 0,
    decreases s.len(),
{
    if s.len() > 0 && s.last() == '-' {
        let t = s.drop_last();
        lemma_skip_trailing_dash(t);
        let n = skip_trailing(t, Only('-')).len() as int;
        assert(t.take(n) == s.take(n));
    } else {
        assert(s.take(s.len() as int) == s);
    }
}

/// A slug is made of lower-case ASCII letters, digits and single dashes
/// between them, and is no longer than the cap.
pub proof fn law_slug_form(s: Seq<char>)
    ensures
        is_slug(slug(s)),
        slug(s).len() <= MAX_SLUG_LEN,
{
    let j = joined(words(s), seq!['-']);
    lemma_words(s);
    lemma_joined_words(words(s));
    if j.len() > MAX_SLUG_LEN {
        let t = j.take(MAX_SLUG_LEN as int);
        lemma_skip_trailing_dash(t);
        let r = skip_trailing(t, Only('-'));
        assert forall|i: int| 0 <= i < r.len() implies #[trigger] r[i] == '-' || is_alphanumeric(
            r[i],
        ) && lower(r[i]) == r[i] by {
            assert(r[i] == j[i]);
        }
        assert forall|i: int| 0 < i < r.len() implies #[trigger] r[i] != '-' || r[i - 1] != '-' by {
            assert(r[i] == j[i] && r[i - 1] == j[i - 1]);
        }
        if r.len() > 0 {
            assert(r[0] == j[0]);
        }
    }
}

proof fn lemma_no_words(s: Seq<char>)
    ensures
        words(s).len() == 0 <==> (forall|i: int|
            0 <= i < s.len() ==> !is_alphanumeric(#[trigger] s[i])),
    decreases s.len(),
{
    broadcast use Seq::lemma_filter_push;

    let keep = |w: Seq<char>| w.len() > 0;
    let d = dashed(s);
    lemma_dashed_pieces(s);
    if s.len() == 0 {
        assert(pieces(d, '-') == Seq::empty().push(Seq::<char>::empty()));
        reveal(Seq::filter);
        assert(words(s).len() == 0);
    } else {
        let t = s.drop_last();
        lemma_no_words(t);
        lemma_dashed_pieces(t);
        assert(d.drop_last() == dashed(t));
        let p = pieces(dashed(t), '-');
        if is_alphanumeric(s.last()) {
            lemma_words_push(p, d.last());
            assert(words(s).len() > 0);
            assert(is_alphanumeric(s[s.len() - 1]));
        } else {
            assert(pieces(d, '-') == p.push(Seq::empty()));
            assert(words(s) == words(t));
            if words(s).len() == 0 {
                assert forall|i: int| 0 <= i < s.len() implies !is_alphanumeric(
                    #[trigger] s[i],
                ) by {
                    if i < t.len() {
                        assert(!is_alphanumeric(t[i]));
                    }
                }
            } else {
                let i = choose|i: int| 0 <= i < t.len() && is_alphanumeric(#[trigger] t[i]);
                assert(is_alphanumeric(s[i]));
            }
        }
    }
}

/// A slug is empty if and only if the text has no ASCII letter or digit.
pub proof fn law_slug_is_empty_without_letters_and_digits(s: Seq<char>)
    ensures
        slug(s).len() == 0 <==> (forall|i: int|
            0 <= i < s.len() ==> !is_alphanumeric(#[trigger] s[i])),
{
    let j = joined(words(s), seq!['-']);
    lemma_no_words(s);
    lemma_words(s);
    lemma_joined_words(words(s));
    if j.len() > MAX_SLUG_LEN {
        lemma_skip_trailing_dash(j.take(MAX_SLUG_LEN as int));
        assert(j.take(MAX_SLUG_LEN as int)[0] == j[0]);
    }
}

proof fn lemma_slug_pieces(s: Seq<char>)
    requires
        s.len() > 0 ==> s[0] != '-',
        forall|i: int| 0 < i < s.len() ==> #[trigger] s[i] != '-' || s[i - 1] != '-',
    ensures
        pieces(s, '-').len() > 0,
        forall|i: int|
            0 <= i < pieces(s, '-').len() - 1 ==> (#[trigger] pieces(s, '-')[i]).len() > 0,
        pieces(s, '-').last().len() == 0 <==> (s.len() == 0 || s.last() == '-'),
    decreases s.len(),
{
    if s.len() > 0 {
        let t = s.drop_last();
        assert forall|i: int| 0 < i < t.len() implies #[trigger] t[i] != '-' || t[i - 1] != '-' by {
            assert(s[i] == t[i] && s[i - 1] == t[i - 1]);
        }
        lemma_slug_pieces(t);
        let q = pieces(t, '-');
        if s.last() == '-' {
            assert(s.len() > 1);
            assert(s[s.len() - 1] == '-');
            assert(s[s.len() - 2] != '-');
            assert(t.last() != '-');
            assert forall|i: int| 0 <= i < q.len() implies (#[trigger] q[i]).len() > 0 by {}
        }
    }
}

/// The slug of a slug is that slug.
pub proof fn law_slug_of_a_slug(s: Seq<char>)
    ensures
        slug(slug(s)) == slug(s),
{
    let t = slug(s);
    let keep = |w: Seq<char>| w.len() > 0;
    law_slug_form(s);
    assert(dashed(t) == t) by {
        assert forall|i: int| 0 <= i < t.len() implies #[trigger] dashed(t)[i] == t[i] by {
            assert(t[i] == '-' || is_alphanumeric(t[i]) && lower(t[i]) == t[i]);
        }
    }
    lemma_slug_pieces(t);
    lemma_pieces_joined(t, '-');
    let p = pieces(t, '-');
    if t.len() > 0 {
        assert forall|i: int| 0 <= i < p.len() implies keep(#[trigger] p[i]) by {
            if i == p.len() - 1 {
                assert(p[i] == p.last());
            }
        }
        lemma_filter_all(p, keep);
    } else {
        broadcast use Seq::lemma_filter_push;

        assert(p == Seq::empty().push(Seq::<char>::empty()));
        reveal(Seq::filter);
        assert(p.filter(keep) == Seq::<Seq<char>>::empty());
        assert(joined(p.filter(keep), seq!['-']) == t);
    }
}

/// A folder name is a single name on a path, as long as the id has no slash:
/// it is not empty, begins with a letter or digit and has no slash.
pub proof fn law_folder_is_a_name(gist: Gist)
    requires
        !gist.id@.contains('/'),
    ensures
        is_name(folder_of(gist)),
        is_alphanumeric(folder_of(gist)[0]),
        !folder_of(gist).contains('/'),
{
    let g = gist_slug(gist);
    reveal_strlit("gist");
    reveal_strlit(".");
    reveal_strlit("..");
    lemma_gist_slug_form(gist);
    let f = folder_of(gist);
    assert(f[0] == g[0]);
    assert(g[0] != '-');
    assert forall|i: int| 0 <= i < f.len() implies f[i] != '/' by {
        if i < g.len() {
            assert(f[i] == g[i]);
        } else if i > g.len() {
            assert(gist.id@.contains(gist.id@[i - g.len() - 1]));
        }
    }
}

proof fn lemma_gist_slug_form(gist: Gist)
    ensures
        is_slug(gist_slug(gist)),
        gist_slug(gist).len() > 0,
        gist_slug(gist).len() <= MAX_SLUG_LEN,
{
    reveal_strlit("gist");
    assert("gist"@ == seq!['g', 'i', 's', 't']);
    assert(is_slug("gist"@));
    if let Some(d) = gist.description {
        law_slug_form(d@);
    }
    if let Some(name) = gist.first_name() {
        law_slug_form(stem(name));
    }
}

/// The short id keeps folders apart even when descriptions collide: gists with
/// different short ids have different folders, where these are of one length,
/// as they are of any two ids of at least eight characters, or have no dash.
pub proof fn law_folders_of_different_ids_differ(a: Gist, b: Gist)
    requires
        short_id(a.id@) != short_id(b.id@),
        short_id(a.id@).len() > 0,
        short_id(b.id@).len() > 0,
        short_id(a.id@).len() == short_id(b.id@).len() || !short_id(a.id@).contains('-')
            && !short_id(b.id@).contains('-'),
    ensures
        folder_of(a) != folder_of(b),
{
    let x = short_id(a.id@);
    let y = short_id(b.id@);
    let f = folder_of(a);
    let g = folder_of(b);
    if f == g {
        let i = f.len() - x.len();
        let j = g.len() - y.len();
        assert(f.skip(i) == x);
        assert(g.skip(j) == y);
        assert(f[i - 1] == '-');
        assert(g[j - 1] == '-');
        if i < j {
            assert(x[j - 1 - i] == '-');
            assert(x.contains(x[j - 1 - i]));
        } else if j < i {
            assert(y[i - 1 - j] == '-');
            assert(y.contains(y[i - 1 - j]));
        }
    }
}

/// Whether `s` has no ASCII letter or digit.
pub open spec fn has_no_alphanumeric(s: Seq<char>) -> bool {
    forall|i: int| 0 <= i < s.len() ==> !is_alphanumeric(#[trigger] s[i])
}

/// Whether `s` is made of ASCII letters and digits alone.
pub open spec fn is_all_alphanumeric(s: Seq<char>) -> bool {
    forall|i: int| 0 <= i < s.len() ==> is_alphanumeric(#[trigger] s[i])
}

/// The letters and digits of ASCII, and their lower case: that of a letter is the
/// letter of the same place in the lower-case alphabet.
pub proof fn law_lower_case_is_that_of_ascii(c: char)
    ensures
        'A' <= c <= 'Z' ==> lower(c) as int - 'a' as int == c as int - 'A' as int,
        !('A' <= c <= 'Z') ==> lower(c) == c,
        is_alphanumeric(c) ==> c <= '\u{7f}',
        is_alphanumeric(c) <==> 'a' <= lower(c) <= 'z' || '0' <= lower(c) <= '9',
{
}

proof fn lemma_words_gap(a: Seq<char>, sep: Seq<char>)
    requires
        has_no_alphanumeric(sep),
    ensures
        words(a + sep) == words(a),
    decreases sep.len(),
{
    broadcast use Seq::lemma_filter_push;

    if sep.len() == 0 {
        assert(a + sep == a);
    } else {
        let t = sep.drop_last();
        let c = sep.last();
        assert(c == sep[sep.len() - 1]);
        assert forall|i: int| 0 <= i < t.len() implies !is_alphanumeric(#[trigger] t[i]) by {
            assert(t[i] == sep[i]);
        }
        lemma_words_gap(a, t);
        let d = dashed(a + t);
        assert(dashed(a + sep) == d.push('-'));
        assert(d.push('-').drop_last() == d);
        let keep = |w: Seq<char>| w.len() > 0;
        let p = pieces(d, '-');
        assert(pieces(d.push('-'), '-') == p.push(Seq::empty()));
        assert(p.push(Seq::<char>::empty()).filter(keep) == p.filter(keep));
    }
}

/// A text is cut into words at whatever is not an ASCII letter or digit, however
/// long that is; a run of letters and digits is one word, in lower case.
pub proof fn law_words_are_the_runs(a: Seq<char>, sep: Seq<char>, b: Seq<char>)
    ensures
        sep.len() > 0 && has_no_alphanumeric(sep) ==> words(a + sep + b) == words(a) + words(b),
        b.len() > 0 && is_all_alphanumeric(b) ==> words(b) == seq![
            b.map_values(|c: char| lower(c)),
        ],
        has_no_alphanumeric(b) ==> words(b).len() == 0,
{
    broadcast use Seq::lemma_filter_push;

    let keep = |w: Seq<char>| w.len() > 0;
    lemma_no_words(b);
    if sep.len() > 0 && has_no_alphanumeric(sep) {
        let t = sep.drop_last();
        assert forall|i: int| 0 <= i < t.len() implies !is_alphanumeric(#[trigger] t[i]) by {
            assert(t[i] == sep[i]);
        }
        lemma_words_gap(a, t);
        assert(!is_alphanumeric(sep[sep.len() - 1]));
        let x = dashed(a + t);
        let y = dashed(b);
        assert(dashed(a + sep + b) == x + seq!['-'] + y);
        law_pieces_are_what_is_between(x, y, '-');
        lemma_filter_concat(pieces(x, '-'), pieces(y, '-'), keep);
    }
    if b.len() > 0 && is_all_alphanumeric(b) {
        let d = dashed(b);
        let w = b.map_values(|c: char| lower(c));
        assert(d == w) by {
            assert forall|i: int| 0 <= i < b.len() implies #[trigger] d[i] == w[i] by {
                assert(is_alphanumeric(b[i]));
            }
        }
        assert forall|i: int| 0 <= i < d.len() implies d[i] != '-' by {
            assert(is_alphanumeric(b[i]));
        }
        law_pieces_are_what_is_between(d, d, '-');
        let none = Seq::<Seq<char>>::empty();
        assert(seq![d] == none.push(d));
        assert(none.filter(keep) == none) by {
            reveal(Seq::filter);
        }
        assert(none.push(d).filter(keep) == none.push(d));
    }
}

/// A slug is all words of the text with a dash between each two, as long as that
/// is no longer than the cap; else it is cut off there, and a dash that it would
/// end with goes too.
pub proof fn law_slug_is_the_words(s: Seq<char>)
    ensures
        ({
            let all = joined(words(s), seq!['-']);
            &&& all.len() <= 50 ==> slug(s) == all
            &&& all.len() > 50 && all[49] != '-' ==> slug(s) == all.take(50)
            &&& all.len() > 50 && all[49] == '-' ==> slug(s) == all.take(49)
        }),
{
    let all = joined(words(s), seq!['-']);
    lemma_words(s);
    lemma_joined_words(words(s));
    if all.len() > 50 {
        let t = all.take(50);
        law_trailing_characters_are_skipped(t, Only('-'));
        let r = skip_trailing(t, Only('-'));
        assert(t[49] == all[49]);
        if all[49] != '-' {
            if r.len() < 50 {
                assert(Only('-').has(t[49]));
            }
            assert(r == all.take(50));
        } else {
            assert(all[48] != '-');
            assert(t[48] == all[48]);
            if r.len() < 49 {
                assert(Only('-').has(t[48]));
            }
            if r.len() == 50 {
                assert(r.last() == t[49]);
            }
            assert(r == all.take(49));
        }
    }
}

/// Two texts one behind the other, with something else between them, make a slug
/// of both of theirs.
pub proof fn law_slugs_are_joined_by_dashes(a: Seq<char>, sep: Seq<char>, b: Seq<char>)
    requires
        sep.len() > 0,
        has_no_alphanumeric(sep),
        slug(a).len() > 0,
        slug(b).len() > 0,
        joined(words(a), seq!['-']).len() + 1 + joined(words(b), seq!['-']).len() <= 50,
    ensures
        slug(a + sep + b) == slug(a) + seq!['-'] + slug(b),
{
    law_words_are_the_runs(a, sep, b);
    law_slug_is_the_words(a);
    law_slug_is_the_words(b);
    lemma_words(a);
    lemma_words(b);
    lemma_joined_words(words(a));
    lemma_joined_words(words(b));
    lemma_joined_concat(words(a), words(b));
    law_slug_is_the_words(a + sep + b);
}

proof fn lemma_joined_concat(a: Seq<Seq<char>>, b: Seq<Seq<char>>)
    requires
        a.len() > 0,
        b.len() > 0,
    ensures
        joined(a + b, seq!['-']) == joined(a, seq!['-']) + seq!['-'] + joined(b, seq!['-']),
    decreases b.len(),
{
    let all = a + b;
    let t = b.drop_last();
    assert(all.drop_last() == a + t);
    assert(all.last() == b.last());
    if b.len() == 1 {
        assert(a + t == a);
        assert(joined(b, seq!['-']) == b[0]);
    } else {
        lemma_joined_concat(a, t);
        assert(joined(all, seq!['-']) == joined(a, seq!['-']) + seq!['-'] + joined(b, seq!['-']));
    }
}

/// The stem of a file name is what stands before its last dot. A name without a
/// dot, or with one only in front, is its own stem.
pub proof fn law_stem_is_before_the_last_dot(a: Seq<char>, extension: Seq<char>)
    requires
        !extension.contains('.'),
    ensures
        a.len() > 0 ==> stem(a + seq!['.'] + extension) == a,
        stem(seq!['.'] + extension) == seq!['.'] + extension,
        stem(extension) == extension,
    decreases extension.len(),
{
    lemma_last_dot(a, extension);
    lemma_last_dot(seq![], extension);
    lemma_no_dot(extension);
    let name = a + seq!['.'] + extension;
    assert(name.take(a.len() as int) == a);
    assert(Seq::<char>::empty() + seq!['.'] + extension == seq!['.'] + extension);
}

proof fn lemma_no_dot(s: Seq<char>)
    requires
        !s.contains('.'),
    ensures
        last_dot(s) == -1,
    decreases s.len(),
{
    if s.len() > 0 {
        let t = s.drop_last();
        assert(s.contains(s[s.len() - 1]));
        assert forall|i: int| 0 <= i < t.len() implies t[i] != '.' by {
            assert(s.contains(s[i]));
        }
        lemma_no_dot(t);
    }
}

proof fn lemma_last_dot(a: Seq<char>, extension: Seq<char>)
    requires
        !extension.contains('.'),
    ensures
        last_dot(a + seq!['.'] + extension) == a.len(),
    decreases extension.len(),
{
    let name = a + seq!['.'] + extension;
    if extension.len() > 0 {
        let t = extension.drop_last();
        assert(extension.contains(extension[extension.len() - 1]));
        assert forall|i: int| 0 <= i < t.len() implies t[i] != '.' by {
            assert(extension.contains(extension[i]));
        }
        lemma_last_dot(a, t);
        assert(name.drop_last() == a + seq!['.'] + t);
        assert(name.last() == extension.last());
    } else {
        assert(name.last() == '.');
    }
}

/// A folder is named after the description of the gist, if that has a letter or
/// digit of ASCII, else after the stem of its first file, if that has one, else
/// it is `gist`; behind a dash stand the first eight characters of the id.
pub proof fn law_folder_is_named_after_the_gist(gist: Gist)
    ensures
        ({
            let described = gist.description is Some && !has_no_alphanumeric(
                (gist.description->0)@,
            );
            let named = gist.first_name() is Some && !has_no_alphanumeric(
                stem(gist.first_name()->0),
            );
            let name = if described {
                slug((gist.description->0)@)
            } else if named {
                slug(stem(gist.first_name()->0))
            } else {
                seq!['g', 'i', 's', 't']
            };
            &&& gist.id@.len() >= 8 ==> folder_of(gist) == name + seq!['-'] + gist.id@.take(8)
            &&& 0 < gist.id@.len() < 8 ==> folder_of(gist) == name + seq!['-'] + gist.id@
            &&& gist.id@.len() == 0 ==> folder_of(gist) == name
        }),
{
    reveal_strlit("gist");
    assert("gist"@ =~= seq!['g', 'i', 's', 't']);
    if let Some(d) = gist.description {
        law_slug_is_empty_without_letters_and_digits(d@);
    }
    if let Some(name) = gist.first_name() {
        law_slug_is_empty_without_letters_and_digits(stem(name));
    }
    assert(gist.id@.len() == 8 ==> gist.id@.take(8) == gist.id@);
}

} // verus!
