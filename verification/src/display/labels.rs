//! Labels for gists, and the texts about a sync run.
use vstd::prelude::*;

use crate::model::Gist;
use crate::sync::{Action, Summary};
use crate::text::{
    align_right, decimal, decimal_of, first_chars, is_white_space, law_aligning_adds_spaces,
    law_first_characters_are_kept, law_trimming_leaves_the_core, push_decimal, right_aligned,
    take_chars, trim, trimmed,
};

verus! {

/// A number and its noun.
pub open spec fn counted(n: int, one: Seq<char>, many: Seq<char>) -> Seq<char> {
    decimal(n as nat) + seq![' '] + if n == 1 {
        one
    } else {
        many
    }
}

/// `n` followed by the singular or plural noun.
pub fn count(n: usize, one: &str, many: &str) -> (r: String)
    ensures
        r@ == counted(n as int, one@, many@),
{
    let mut out = decimal_of(n as u64);
    out.push(' ');
    out.append(
        if n == 1 {
            one
        } else {
            many
        },
    );
    assert(out@ == counted(n as int, one@, many@));
    out
}

/// What a gist is called: its description, else its first file name, else its
/// id.
pub open spec fn label_of(gist: Gist) -> Seq<char> {
    let desc = match gist.description {
        Some(d) => trimmed(d@),
        None => seq![],
    };
    if desc.len() > 0 {
        first_chars(desc, 60)
    } else {
        match gist.first_name() {
            Some(name) => name,
            None => gist.id@,
        }
    }
}

/// A short human-readable label for a gist (description or first filename).
pub fn gist_label(gist: &Gist) -> (r: String)
    ensures
        r@ == label_of(*gist),
{
    if let Some(d) = &gist.description {
        let desc = trim(d.as_str());
        if desc.unicode_len() > 0 {
            return take_chars(desc, 60);
        }
    }
    match gist.first_filename() {
        Some(name) => name.to_string(),
        None => gist.id.clone(),
    }
}

/// The word for an action.
pub open spec fn verb_of(action: Action) -> Seq<char> {
    match action {
        Action::Create => "new"@,
        Action::Update => "updated"@,
        Action::Skip => "skip"@,
    }
}

/// The line printed for a gist that is done.
pub open spec fn done_text(action: Action, label: Seq<char>) -> Seq<char> {
    "  "@ + right_aligned(verb_of(action), 7) + "  "@ + label
}

/// The line printed for a gist that is done: the action, right-aligned, and
/// the label.
pub fn done_line(action: Action, label: &str) -> (r: String)
    ensures
        r@ == "  "@ + right_aligned(verb_of(action), 7) + "  "@ + label@,
        r@ == done_text(action, label@),
{
    let verb = match action {
        Action::Create => "new",
        Action::Update => "updated",
        Action::Skip => "skip",
    };
    let mut out = "  ".to_string();
    out.append(align_right(verb, 7).as_str());
    out.append("  ");
    out.append(label);
    out
}

/// The sign for an action.
pub open spec fn sign_of(action: Action) -> Seq<char> {
    match action {
        Action::Create => "✚ "@,
        Action::Update => "↻ "@,
        Action::Skip => "· "@,
    }
}

/// The message next to the progress bar.
pub open spec fn message_text(action: Action, label: Seq<char>) -> Seq<char> {
    sign_of(action) + first_chars(label, 28)
}

/// The message next to the progress bar: a sign for the action, and the
/// beginning of the label.
pub fn done_message(action: Action, label: &str) -> (r: String)
    ensures
        r@ == sign_of(action) + first_chars(label@, 28),
        r@ == message_text(action, label@),
{
    let mut out = match action {
        Action::Create => "✚ ".to_string(),
        Action::Update => "↻ ".to_string(),
        Action::Skip => "· ".to_string(),
    };
    out.append(take_chars(label, 28).as_str());
    out
}

/// What a tally in the summary of a run counts.
#[derive(Debug, Clone, Copy, PartialEq, Eq, Structural)]
pub enum Tally {
    New,
    Updated,
    Unchanged,
    Pruned,
    Errors,
}

/// A tally and its text.
pub open spec fn tally(kind: Tally, n: int, word: Seq<char>) -> (Tally, Seq<char>) {
    (kind, decimal(n as nat) + word)
}

/// The tallies in the summary of a run. Pruned gists and errors are only
/// mentioned where there are any.
pub open spec fn tallies_of(s: Summary) -> Seq<(Tally, Seq<char>)> {
    seq![
        tally(Tally::New, s.created as int, " new"@),
        tally(Tally::Updated, s.updated as int, " updated"@),
        tally(Tally::Unchanged, s.skipped as int, " unchanged"@),
    ] + (if s.pruned > 0 {
        seq![tally(Tally::Pruned, s.pruned as int, " pruned"@)]
    } else {
        seq![]
    }) + (if s.errors@.len() > 0 {
        seq![tally(Tally::Errors, s.errors@.len() as int, " errors"@)]
    } else {
        seq![]
    })
}

/// What each of `s` says.
pub open spec fn tally_views(s: Seq<(Tally, String)>) -> Seq<(Tally, Seq<char>)> {
    s.map_values(|t: (Tally, String)| (t.0, t.1@))
}

/// Appends a tally.
fn push_tally(out: &mut Vec<(Tally, String)>, kind: Tally, n: usize, word: &str)
    ensures
        tally_views(final(out)@) == tally_views(old(out)@).push(tally(kind, n as int, word@)),
{
    let mut text = decimal_of(n as u64);
    text.append(word);
    out.push((kind, text));
    assert(tally_views(out@) == tally_views(old(out)@).push(tally(kind, n as int, word@)));
}

/// The tallies in the one-line summary of the run.
pub fn summary_parts(s: &Summary) -> (r: Vec<(Tally, String)>)
    ensures
        tally_views(r@) == tallies_of(*s),
{
    let mut out: Vec<(Tally, String)> = Vec::new();
    push_tally(&mut out, Tally::New, s.created, " new");
    push_tally(&mut out, Tally::Updated, s.updated, " updated");
    push_tally(&mut out, Tally::Unchanged, s.skipped, " unchanged");
    if s.pruned > 0 {
        push_tally(&mut out, Tally::Pruned, s.pruned, " pruned");
    }
    if s.errors.len() > 0 {
        push_tally(&mut out, Tally::Errors, s.errors.len(), " errors");
    }
    assert(tally_views(out@) == tallies_of(*s));
    out
}

/// The note on files behind the tallies.
pub open spec fn note_text(files: nat, dry_run: bool) -> Seq<char> {
    "("@ + decimal(files) + " files "@ + (if dry_run {
        "planned"@
    } else {
        "written"@
    }) + ")"@
}

/// The note on files behind the tallies.
pub fn files_note(s: &Summary, dry_run: bool) -> (r: String)
    ensures
        r@ == "("@ + decimal(s.files_written as nat) + " files "@ + (if dry_run {
            "planned"@
        } else {
            "written"@
        }) + ")"@,
        r@ == note_text(s.files_written as nat, dry_run),
{
    let mut out = "(".to_string();
    push_decimal(&mut out, s.files_written as u64);
    out.append(" files ");
    out.append(
        if dry_run {
            "planned"
        } else {
            "written"
        },
    );
    out.append(")");
    out
}

/// One of a kind is named in the singular, and any other number of them in the
/// plural.
pub proof fn law_noun_goes_by_the_number(n: nat, one: Seq<char>, many: Seq<char>)
    ensures
        counted(1, one, many) == seq!['1', ' '] + one,
        n != 1 ==> counted(n as int, one, many) == decimal(n) + seq![' '] + many,
{
    assert(decimal(1) == seq!['1']);
    assert(seq!['1'] + seq![' '] == seq!['1', ' ']);
}

/// A gist is called by the beginning of its description, up to sixty characters of
/// it; without one by the name of its first file; and without files by its id.
pub proof fn law_label_is_the_first_there_is(
    gist: Gist,
    lead: Seq<char>,
    core: Seq<char>,
    tail: Seq<char>,
)
    requires
        gist.description is None ==> (lead + core + tail).len() == 0,
        gist.description matches Some(d) ==> d@ == lead + core + tail,
        forall|i: int| 0 <= i < lead.len() ==> is_white_space(#[trigger] lead[i]),
        forall|i: int| 0 <= i < tail.len() ==> is_white_space(#[trigger] tail[i]),
        core.len() > 0 ==> !is_white_space(core[0]) && !is_white_space(core.last()),
    ensures
        0 < core.len() <= 60 ==> label_of(gist) == core,
        core.len() > 60 ==> label_of(gist) == core.take(60),
        core.len() == 0 && gist.files@.len() > 0 ==> label_of(gist) == gist.files@[0].1.filename@,
        core.len() == 0 && gist.files@.len() == 0 ==> label_of(gist) == gist.id@,
{
    law_trimming_leaves_the_core(lead, core, tail);
    law_first_characters_are_kept(core, 60);
    if core.len() <= 60 {
        assert(core.take(core.len() as int) == core);
    }
}

/// The summary of a run says each of its numbers: of new, updated and unchanged
/// gists always, of pruned ones and of errors where there are any.
pub proof fn law_summary_says_every_number(s: Summary)
    ensures
        ({
            let t = tallies_of(s);
            &&& t.contains((Tally::New, decimal(s.created as nat) + " new"@))
            &&& t.contains((Tally::Updated, decimal(s.updated as nat) + " updated"@))
            &&& t.contains((Tally::Unchanged, decimal(s.skipped as nat) + " unchanged"@))
            &&& s.pruned > 0 ==> t.contains((Tally::Pruned, decimal(s.pruned as nat) + " pruned"@))
            &&& s.errors@.len() > 0 ==> t.contains(
                (Tally::Errors, decimal(s.errors@.len()) + " errors"@),
            )
            &&& t.len() == 3 + (if s.pruned > 0 {
                1int
            } else {
                0
            }) + (if s.errors@.len() > 0 {
                1int
            } else {
                0
            })
        }),
{
    let t = tallies_of(s);
    assert(t[0] == tally(Tally::New, s.created as int, " new"@));
    assert(t[1] == tally(Tally::Updated, s.updated as int, " updated"@));
    assert(t[2] == tally(Tally::Unchanged, s.skipped as int, " unchanged"@));
    if s.pruned > 0 {
        assert(t[3] == tally(Tally::Pruned, s.pruned as int, " pruned"@));
    }
    if s.errors@.len() > 0 {
        assert(t[t.len() - 1] == tally(Tally::Errors, s.errors@.len() as int, " errors"@));
    }
}

/// Actions have different words and different signs.
pub proof fn law_actions_are_told_apart(a: Action, b: Action)
    ensures
        verb_of(a) == verb_of(b) <==> a == b,
        sign_of(a) == sign_of(b) <==> a == b,
        verb_of(a).len() <= 7,
{
    reveal_strlit("new");
    reveal_strlit("updated");
    reveal_strlit("skip");
    reveal_strlit("✚ ");
    reveal_strlit("↻ ");
    reveal_strlit("· ");
    assert("new"@.len() == 3 && "updated"@.len() == 7 && "skip"@.len() == 4);
    assert("✚ "@[0] == '✚' && "↻ "@[0] == '↻' && "· "@[0] == '·');
}

/// The line for a gist that is done begins with the word for the action, and the
/// labels stand below one another, whatever the action; the label is there whole.
pub proof fn law_done_lines_are_aligned(action: Action, label: Seq<char>)
    ensures
        ({
            let line = done_text(action, label);
            &&& line.len() == 11 + label.len()
            &&& line.skip(11) == label
            &&& line.subrange(9 - verb_of(action).len(), 9) == verb_of(action)
            &&& forall|i: int| 0 <= i < 9 - verb_of(action).len() ==> #[trigger] line[i] == ' '
        }),
{
    reveal_strlit("  ");
    law_actions_are_told_apart(action, action);
    let verb = verb_of(action);
    law_aligning_adds_spaces(verb, 7);
    let line = done_text(action, label);
    let r = right_aligned(verb, 7);
    assert(line.skip(11) == label);
    assert(r.skip(7 - verb.len()) == verb);
    assert forall|i: int| 0 <= i < verb.len() implies line[9 - verb.len() + i] == verb[i] by {
        assert(r.skip(7 - verb.len())[i] == verb[i]);
        assert(line[9 - verb.len() + i] == r[7 - verb.len() + i]);
    }
    assert(line.subrange(9 - verb.len(), 9) == verb);
    assert forall|i: int| 0 <= i < 9 - verb.len() implies #[trigger] line[i] == ' ' by {
        if i >= 2 {
            assert(line[i] == r[i - 2]);
        }
    }
}

/// The message next to the progress bar is the sign and the label, or the first
/// twenty-eight characters of it.
pub proof fn law_message_has_the_beginning_of_the_label(action: Action, label: Seq<char>)
    ensures
        label.len() <= 28 ==> message_text(action, label) == sign_of(action) + label,
        label.len() > 28 ==> message_text(action, label) == sign_of(action) + label.take(28),
{
    law_first_characters_are_kept(label, 28);
    if label.len() <= 28 {
        assert(label.take(label.len() as int) == label);
    }
}

/// The note says how many files there are, and whether they were written or only
/// would be.
pub proof fn law_note_says_the_number_of_files(n: nat)
    ensures
        note_text(n, true) == "("@ + decimal(n) + " files planned)"@,
        note_text(n, false) == "("@ + decimal(n) + " files written)"@,
{
    reveal_strlit(" files ");
    reveal_strlit("planned");
    reveal_strlit("written");
    reveal_strlit(")");
    reveal_strlit(" files planned)");
    reveal_strlit(" files written)");
    assert(" files "@ + "planned"@ + ")"@ == " files planned)"@);
    assert(" files "@ + "written"@ + ")"@ == " files written)"@);
    assert(note_text(n, true) == "("@ + decimal(n) + " files planned)"@);
    assert(note_text(n, false) == "("@ + decimal(n) + " files written)"@);
}

} // verus!
