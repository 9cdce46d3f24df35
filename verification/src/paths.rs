//! Paths, as text with `/` between the names.
use vstd::prelude::*;

use crate::text::{
    law_pieces_are_what_is_between, lemma_filter_concat, lemma_filter_holds, lemma_pieces_append,
    lemma_pieces_joined, pieces, same, split_on, string_views,
};

verus! {

/// Whether `part` of a path names something, rather than being empty or one
/// of the names for the directory itself and the one above.
pub open spec fn is_name(part: Seq<char>) -> bool {
    part.len() > 0 && part != "."@ && part != ".."@
}

/// The names along a path.
pub open spec fn path_names(path: Seq<char>) -> Seq<Seq<char>> {
    pieces(path, '/').filter(|part: Seq<char>| is_name(part))
}

/// The path of `name` seen from `dir`.
pub open spec fn path_join(dir: Seq<char>, name: Seq<char>) -> Seq<char> {
    if name.len() > 0 && name[0] == '/' {
        name
    } else if dir.len() == 0 || dir.last() == '/' {
        dir + name
    } else {
        dir + seq!['/'] + name
    }
}

/// Appends `name` to the path `dir`.
pub fn join(dir: &str, name: &str) -> (r: String)
    ensures
        r@ == path_join(dir@, name@),
{
    let name_len: usize = name.unicode_len();
    let dir_len: usize = dir.unicode_len();
    if name_len > 0 && name.get_char(0) == '/' {
        return name.to_string();
    }
    let mut out = dir.to_string();
    if dir_len > 0 && dir.get_char(dir_len - 1) != '/' {
        out.push('/');
        assert(out@ == dir@ + seq!['/']);
    }
    out.append(name);
    out
}

/// The parts of a path that lead somewhere else than where they stand.
pub open spec fn path_steps(path: Seq<char>) -> Seq<Seq<char>> {
    pieces(path, '/').filter(|part: Seq<char>| part.len() > 0 && part != "."@)
}

/// The name that a path ends with, if it ends with one.
pub open spec fn last_name(path: Seq<char>) -> Option<Seq<char>> {
    let steps = path_steps(path);
    if steps.len() > 0 && steps.last() != ".."@ {
        Some(steps.last())
    } else {
        None
    }
}

/// The name that a path ends with, if it ends with one.
pub fn file_name(path: &str) -> (r: Option<String>)
    ensures
        match r {
            Some(name) => last_name(path@) == Some(name@),
            None => last_name(path@) is None,
        },
{
    broadcast use Seq::lemma_filter_push;

    let parts = split_on(path, '/');
    let ghost all = pieces(path@, '/');
    let ghost p = |part: Seq<char>| part.len() > 0 && part != "."@;
    let mut last: Option<usize> = None;
    let mut i: usize = 0;
    assert(all.take(0).filter(p).len() == 0) by {
        reveal(Seq::filter);
    }
    while i < parts.len()
        invariant
            p == (|part: Seq<char>| part.len() > 0 && part != "."@),
            all == string_views(parts@),
            i <= parts@.len(),
            match last {
                Some(k) => k < parts@.len() && all.take(i as int).filter(p).len() > 0 && all.take(
                    i as int,
                ).filter(p).last() == all[k as int],
                None => all.take(i as int).filter(p).len() == 0,
            },
        decreases parts@.len() - i,
    {
        broadcast use Seq::lemma_filter_push;

        let part = parts[i].as_str();
        assert(all.take(i + 1) == all.take(i as int).push(part@));
        if part.unicode_len() > 0 && !same(part, ".") {
            last = Some(i);
        }
        i += 1;
    }
    assert(all.take(i as int) == all);
    match last {
        Some(k) => if same(parts[k].as_str(), "..") {
            None
        } else {
            Some(parts[k].clone())
        },
        None => None,
    }
}

/// A file name that does not end in a name of its own.
#[derive(Debug, Clone, PartialEq, Eq)]
pub struct UnsafeName {
    pub filename: String,
}

/// Joins `filename` onto `dir`, guarding against path traversal. Gist filenames
/// are flat, but only the final path component is used. Names are separated by
/// `/` alone, on every system: a name with `\` in it, or with a drive before it,
/// is kept whole, and where these mean something, as on Windows, whoever opens
/// the file takes the final component once more.
pub fn safe_file_path(dir: &str, filename: &str) -> (r: Result<String, UnsafeName>)
    ensures
        match r {
            Ok(path) => last_name(filename@) is Some && path@ == path_join(
                dir@,
                last_name(filename@)->0,
            ),
            Err(e) => last_name(filename@) is None && e.filename@ == filename@,
        },
{
    match file_name(filename) {
        Some(name) => Ok(join(dir, name.as_str())),
        None => Err(UnsafeName { filename: filename.to_string() }),
    }
}

proof fn lemma_pieces_without(s: Seq<char>, sep: char, i: int)
    requires
        0 <= i < pieces(s, sep).len(),
    ensures
        !pieces(s, sep)[i].contains(sep),
    decreases s.len(),
{
    if s.len() > 0 {
        let rest = pieces(s.drop_last(), sep);
        lemma_pieces_joined(s.drop_last(), sep);
        let p = pieces(s, sep)[i];
        if s.last() == sep && i == rest.len() {
            assert(p == Seq::<char>::empty());
        } else {
            lemma_pieces_without(s.drop_last(), sep, i);
            if p.contains(sep) {
                let k = choose|k: int| 0 <= k < p.len() && p[k] == sep;
                if i == rest.len() - 1 && s.last() != sep {
                    assert(p == rest[i].push(s.last()));
                } else {
                    assert(p == rest[i]);
                }
                assert(rest[i].contains(rest[i][k]));
            }
        }
    }
}

/// Whatever the file name, a safe path is the directory with one name behind
/// it: it never leads out of the directory, nor deeper into it.
pub proof fn law_safe_path_stays_in_the_directory(dir: Seq<char>, filename: Seq<char>)
    requires
        last_name(filename) is Some,
        dir.len() > 0,
    ensures
        is_name(last_name(filename)->0),
        !(last_name(filename)->0).contains('/'),
        path_join(dir, last_name(filename)->0) == if dir.last() == '/' {
            dir + last_name(filename)->0
        } else {
            dir + seq!['/'] + last_name(filename)->0
        },
{
    let p = |part: Seq<char>| part.len() > 0 && part != "."@;
    let all = pieces(filename, '/');
    let steps = path_steps(filename);
    let name = steps.last();
    assert(steps.contains(steps[steps.len() - 1]));
    all.lemma_filter_contains_rev(p, name);
    let i = choose|i: int| 0 <= i < all.len() && all[i] == name;
    lemma_pieces_without(filename, '/', i);
    lemma_filter_holds(all, p);
    assert(p(steps[steps.len() - 1]));
    if name[0] == '/' {
        assert(name.contains(name[0]));
    }
}

/// A flat file name, as gists have them, is used as it is.
pub proof fn law_flat_name_is_kept(filename: Seq<char>)
    requires
        is_name(filename),
        !filename.contains('/'),
    ensures
        last_name(filename) == Some(filename),
{
    broadcast use Seq::lemma_filter_push;

    let p = |part: Seq<char>| part.len() > 0 && part != "."@;
    lemma_pieces_append(seq![], filename, '/');
    let all = pieces(filename, '/');
    assert(all == Seq::empty().push(filename));
    reveal(Seq::filter);
    assert(all.filter(p) == seq![filename]);
}

/// The name behind the last slash is the one that counts, whatever stands before
/// it; slashes and dots behind it do not matter, and `..` is no name.
pub proof fn law_last_name_counts(before: Seq<char>, name: Seq<char>)
    requires
        !name.contains('/'),
    ensures
        is_name(name) ==> last_name(before + seq!['/'] + name) == Some(name),
        last_name(before + seq!['/']) == last_name(before),
        last_name(before + seq!['/'] + "."@) == last_name(before),
        last_name(before + seq!['/'] + ".."@) is None,
        last_name(".."@) is None,
        last_name("."@) is None,
        last_name(seq![]) is None,
{
    broadcast use Seq::lemma_filter_push;

    let p = |part: Seq<char>| part.len() > 0 && part != "."@;
    let e = Seq::<char>::empty();
    reveal_strlit(".");
    reveal_strlit("..");
    assert(!"."@.contains('/'));
    assert(!".."@.contains('/'));
    assert(!e.contains('/'));
    let all = pieces(before, '/');
    lemma_pieces_append(before, name, '/');
    lemma_pieces_append(before, e, '/');
    lemma_pieces_append(before, "."@, '/');
    lemma_pieces_append(before, ".."@, '/');
    assert(before + seq!['/'] + e == before + seq!['/']);
    assert(all.push(name).filter(p) == if p(name) {
        all.filter(p).push(name)
    } else {
        all.filter(p)
    });
    assert(all.push(e).filter(p) == all.filter(p));
    assert(all.push("."@).filter(p) == all.filter(p));
    assert(all.push(".."@).filter(p) == all.filter(p).push(".."@));
    let none = Seq::<Seq<char>>::empty();
    assert(none.filter(p).len() == 0) by {
        reveal(Seq::filter);
    }
    assert(seq![e] == none.push(e));
    assert(seq!["."@] == none.push("."@));
    assert(seq![".."@] == none.push(".."@));
    assert(none.push(e).filter(p) == none.filter(p));
    assert(none.push("."@).filter(p) == none.filter(p));
    assert(none.push(".."@).filter(p).last() == ".."@);
}

/// A name is put behind a directory with one slash between them; an absolute one
/// stands for itself.
pub proof fn law_joining_puts_a_slash_between(dir: Seq<char>, name: Seq<char>)
    requires
        name.len() > 0,
    ensures
        name[0] == '/' ==> path_join(dir, name) == name,
        name[0] != '/' ==> name.is_suffix_of(path_join(dir, name)) && dir.is_prefix_of(
            path_join(dir, name),
        ),
        name[0] != '/' && dir.len() > 0 ==> path_join(dir, name)[path_join(dir, name).len()
            - name.len() - 1] == '/',
        name[0] != '/' && dir.len() > 0 && dir.last() != '/' ==> path_join(dir, name).len()
            == dir.len() + 1 + name.len(),
        name[0] != '/' && (dir.len() == 0 || dir.last() == '/') ==> path_join(dir, name).len()
            == dir.len() + name.len(),
{
    let r = path_join(dir, name);
    if name[0] != '/' {
        assert(r.skip(r.len() - name.len()) == name);
        assert(r.take(dir.len() as int) == dir);
    }
}

/// The names along a path are those along what stands before a slash, and those
/// along what stands behind it. What is not empty, `.` or `..` is a name.
pub proof fn law_names_are_between_the_slashes(a: Seq<char>, b: Seq<char>)
    ensures
        path_names(a + seq!['/'] + b) == path_names(a) + path_names(b),
        !b.contains('/') && b.len() > 0 && b != "."@ && b != ".."@ ==> path_names(b) == seq![b],
        path_names(seq![]).len() == 0,
        path_names("."@).len() == 0,
        path_names(".."@).len() == 0,
{
    broadcast use Seq::lemma_filter_push;

    let p = |part: Seq<char>| is_name(part);
    let e = Seq::<char>::empty();
    reveal_strlit(".");
    reveal_strlit("..");
    reveal(Seq::filter);
    law_pieces_are_what_is_between(a, b, '/');
    law_pieces_are_what_is_between(a, e, '/');
    law_pieces_are_what_is_between(a, "."@, '/');
    law_pieces_are_what_is_between(a, ".."@, '/');
    lemma_filter_concat(pieces(a, '/'), pieces(b, '/'), p);
    assert(!e.contains('/'));
    assert(!"."@.contains('/'));
    assert(!".."@.contains('/'));
    let none = Seq::<Seq<char>>::empty();
    assert(seq![b] == none.push(b));
    assert(seq![e] == none.push(e));
    assert(seq!["."@] == none.push("."@));
    assert(seq![".."@] == none.push(".."@));
    assert(none.filter(p) == none);
    assert(none.push(b).filter(p) == if p(b) {
        none.push(b)
    } else {
        none
    });
}

} // verus!
