use grass::cli::Cli;
use grass::display::highlight::{
    can_highlight, clean, clip, highlight_line, highlight_segments, render, render_as, scroll,
};
use grass::display::labels::{
    count, done_line, done_message, files_note, gist_label, summary_parts, Tally,
};
use grass::display::report::{can_report, search_report, ReportLine};
use grass::model::{Gist, GistFile};
use grass::search::{Engine, FileMatches, GistMatches, LineMatch, SearchResults};
use grass::strmap::StrMap;
use grass::sync::{Action, Summary};

fn line(text: &str, ranges: Vec<std::ops::Range<usize>>) -> LineMatch {
    LineMatch {
        line_number: 1,
        text: text.to_string(),
        ranges,
    }
}

fn plain(s: &str) -> String {
    console::strip_ansi_codes(s).into_owned()
}

#[test]
fn highlight_drops_indentation() {
    let l = line("    let x = 1;  ", vec![8..9]);
    assert_eq!(plain(&highlight_line(&l, None)), "let x = 1;");
}

#[test]
fn highlight_keeps_matched_indentation() {
    let l = line("  x", vec![0..3]);
    assert_eq!(plain(&highlight_line(&l, None)), "  x");
}

#[test]
fn highlight_clips_to_width() {
    let l = line("abcdefghij needle", vec![0..3]);
    assert_eq!(plain(&highlight_line(&l, Some(8))), "abcdefg…");
}

#[test]
fn highlight_scrolls_to_first_match() {
    let text = format!("{}needle{}", "a".repeat(100), "b".repeat(100));
    let l = line(&text, vec![100..106]);
    let out = plain(&highlight_line(&l, Some(40)));
    assert_eq!(out.chars().count(), 40);
    assert!(out.starts_with('…'));
    assert!(out.ends_with('…'));
    assert!(out.contains("needle"));
}

#[test]
fn highlight_sanitizes_control_characters() {
    let l = line("a\tb\x1b[31mc", vec![]);
    assert_eq!(plain(&highlight_line(&l, None)), "a    b\u{fffd}[31mc");
}

#[test]
fn count_pluralizes() {
    assert_eq!(count(1, "gist", "gists"), "1 gist");
    assert_eq!(count(2, "match", "matches"), "2 matches");
}

#[test]
fn clean_expands_tabs_and_replaces_controls() {
    assert_eq!(clean("\ta\u{7f}\u{85}é\n"), "    a\u{fffd}\u{fffd}é\u{fffd}");
    assert_eq!(clean(""), "");
}

fn segments(l: &LineMatch, width: Option<usize>) -> Vec<(String, bool)> {
    assert!(can_highlight(l));
    highlight_segments(l, width)
}

fn owned(parts: &[(&str, bool)]) -> Vec<(String, bool)> {
    parts.iter().map(|(s, m)| (s.to_string(), *m)).collect()
}

#[test]
fn segments_alternate() {
    let l = line("  héllo  ", vec![2..3, 3..5]);
    assert_eq!(
        segments(&l, None),
        owned(&[("", false), ("h", true), ("", false), ("é", true), ("llo", false)])
    );
    let l = line("  abc def  ", vec![2..4, 6..9]);
    assert_eq!(
        segments(&l, None),
        owned(&[("", false), ("ab", true), ("c ", false), ("def", true), ("", false)])
    );
    // A range that overlaps the one before it is left out.
    let l = line("abcdef", vec![1..4, 2..5, 4..5]);
    assert_eq!(
        segments(&l, None),
        owned(&[("a", false), ("bcd", true), ("", false), ("e", true), ("f", false)])
    );
}

#[test]
fn bad_ranges_cannot_be_highlighted() {
    assert!(can_highlight(&line("héllo", vec![0..1, 3..6])));
    // Not on a character boundary, too long, or backwards.
    assert!(!can_highlight(&line("héllo", vec![0..2])));
    assert!(!can_highlight(&line("héllo", vec![0..7])));
    assert!(!can_highlight(&line("abc", vec![std::ops::Range { start: 2, end: 1 }])));
    // Ranges that are not shown do not matter.
    assert!(can_highlight(&line("abc", vec![0..3, 1..99])));
}

#[test]
fn scrolling_keeps_a_quarter_of_the_width() {
    let parts = owned(&[("abcdefghij", false), ("match", true), ("", false)]);
    assert_eq!(
        scroll(parts.clone(), Some(12)),
        owned(&[("…hij", false), ("match", true), ("", false)])
    );
    // Lead and match fill the width, and clipping would cover the match.
    let full = owned(&[("abcdefg", false), ("X", true), ("zz", false)]);
    assert_eq!(
        scroll(full, Some(8)),
        owned(&[("…fg", false), ("X", true), ("zz", false)])
    );
    let later = owned(&[("abcdefg", false), ("X", true), ("", false), ("y", true), ("", false)]);
    assert_eq!(scroll(later, Some(8))[0].0, "…fg");
    let nothing_behind = owned(&[("abcdefg", false), ("X", true), ("", false)]);
    assert_eq!(scroll(nothing_behind.clone(), Some(8)), nothing_behind);
    // The match is in view already.
    assert_eq!(scroll(parts.clone(), Some(15)), parts);
    assert_eq!(scroll(parts.clone(), None), parts);
    let single = owned(&[("abcdefghij", false)]);
    assert_eq!(scroll(single.clone(), Some(4)), single);
    // Less than a quarter of the width stands before the match.
    let short = owned(&[("ab", false), ("a long match", true), ("", false)]);
    assert_eq!(scroll(short.clone(), Some(8)), short);
}

#[test]
fn rendering_shows_every_part() {
    let parts = owned(&[("a ", false), ("match", true), (" b", false)]);
    assert_eq!(plain(&render(&parts, None)), "a match b");
    assert_eq!(plain(&render(&parts, Some(9))), "a match b");
    assert_eq!(plain(&render(&parts, Some(5))), "a ma…");
}

#[test]
fn matches_are_black_on_yellow() {
    console::set_colors_enabled(true);
    let parts = owned(&[("a ", false), ("match", true), (" b", false)]);
    assert_eq!(
        render(&parts, None),
        "a \x1b[30m\x1b[43mmatch\x1b[0m b"
    );
    assert_eq!(plain(&render(&parts, Some(5))), "a ma…");
}

#[test]
fn first_match_stays_in_view() {
    let l = line("abcdefgXzz", vec![7..8]);
    assert_eq!(plain(&highlight_line(&l, Some(8))), "…fgXzz");
    for width in 3..30 {
        for lead in 0..30 {
            for tail in 0..12 {
                let text = format!("{}X{}", "a".repeat(lead), "b".repeat(tail));
                let l = line(&text, vec![lead..lead + 1]);
                let out = plain(&highlight_line(&l, Some(width)));
                assert!(out.contains('X'), "{lead} {tail} {width}: {out}");
                assert!(out.chars().count() <= width);
            }
        }
    }
}

#[test]
fn rendering_goes_by_whether_colors_are_on() {
    let parts = owned(&[("a ", false), ("m", true), (" ", false), ("n", true), ("", false)]);
    assert_eq!(render_as(&parts, false, None), "a m n");
    assert_eq!(
        render_as(&parts, true, None),
        "a \x1b[30m\x1b[43mm\x1b[0m \x1b[30m\x1b[43mn\x1b[0m"
    );
    assert_eq!(render_as(&parts, false, Some(4)), "a m…");
    assert_eq!(
        render_as(&parts, true, Some(4)),
        "a \x1b[30m\x1b[43mm\x1b[0m…\x1b[30m\x1b[43m\x1b[0m"
    );
}

#[test]
fn color_codes_take_no_columns() {
    let parts = owned(&[("ab", false), ("cd", true), ("ef", false), ("g", true), ("", false)]);
    let text = "abcdefg";
    for colored in [false, true] {
        for width in 1..9 {
            let out = render_as(&parts, colored, Some(width));
            let expected = if width >= text.len() {
                text.to_string()
            } else {
                format!("{}…", &text[..width - 1])
            };
            assert_eq!(plain(&out), expected);
            assert_eq!(out.matches("\x1b[43m").count(), if colored { 2 } else { 0 });
            assert_eq!(out.matches("\x1b[0m").count(), if colored { 2 } else { 0 });
        }
    }
    assert_eq!(
        render_as(&parts, true, Some(4)),
        "ab\x1b[30m\x1b[43mc…\x1b[0m\x1b[30m\x1b[43m\x1b[0m"
    );
    assert_eq!(
        render_as(&parts, true, Some(3)),
        "ab\x1b[30m\x1b[43m…\x1b[0m\x1b[30m\x1b[43m\x1b[0m"
    );
    // Codes of one or two digits, wherever they stand.
    assert_eq!(clip("\x1b[1mab\x1b[31m5m\x1b[0m", Some(3)), "\x1b[1mab\x1b[31m…\x1b[0m");
    assert_eq!(clip("\x1b[1mab\x1b[31m5m\x1b[0m", Some(4)), "\x1b[1mab\x1b[31m5m\x1b[0m");
}

#[test]
fn narrow_text_takes_a_column_for_each_character() {
    let mut narrow: String = (' '..='~').collect();
    narrow.push_str("……x…");
    let all: Vec<char> = narrow.chars().collect();
    for width in 1..=all.len() + 1 {
        let expected = if all.len() <= width {
            narrow.clone()
        } else {
            all[..width - 1].iter().collect::<String>() + "…"
        };
        assert_eq!(clip(&narrow, Some(width)), expected);
    }
}

#[test]
fn clipping_leaves_what_fits() {
    assert_eq!(clip("abc", Some(3)), "abc");
    assert_eq!(clip("abcd", Some(3)), "ab…");
    assert_eq!(clip("abcd", None), "abcd");
    assert_eq!(clip("日本語", Some(5)), "日本…");
}

fn gist(description: Option<&str>, filenames: &[&str]) -> Gist {
    let mut files = StrMap::new();
    for name in filenames {
        files.insert(
            name.to_string(),
            GistFile {
                filename: name.to_string(),
                raw_url: None,
                size: 0,
                content_type: None,
                language: None,
            },
        );
    }
    Gist {
        id: "abc123".to_string(),
        description: description.map(str::to_string),
        public: true,
        created_at: String::new(),
        updated_at: String::new(),
        html_url: None,
        files,
    }
}

#[test]
fn labels_fall_back() {
    assert_eq!(gist_label(&gist(Some(" My notes "), &["a"])), "My notes");
    assert_eq!(gist_label(&gist(Some(" "), &["b", "a"])), "a");
    assert_eq!(gist_label(&gist(None, &[])), "abc123");
    let long = "é".repeat(70);
    assert_eq!(gist_label(&gist(Some(&long), &[])), "é".repeat(60));
}

#[test]
fn progress_texts() {
    assert_eq!(done_line(Action::Create, "notes"), "      new  notes");
    assert_eq!(done_line(Action::Update, "notes"), "  updated  notes");
    assert_eq!(done_line(Action::Skip, "notes"), "     skip  notes");
    assert_eq!(done_message(Action::Create, "notes"), "✚ notes");
    assert_eq!(done_message(Action::Update, "notes"), "↻ notes");
    assert_eq!(
        done_message(Action::Skip, &"x".repeat(40)),
        format!("· {}", "x".repeat(28))
    );
}

#[test]
fn summary_texts() {
    let mut s = Summary::default();
    s.created = 1;
    s.skipped = 20;
    s.files_written = 3;
    let part = |kind: Tally, text: &str| (kind, text.to_string());
    assert_eq!(
        summary_parts(&s),
        vec![
            part(Tally::New, "1 new"),
            part(Tally::Updated, "0 updated"),
            part(Tally::Unchanged, "20 unchanged"),
        ]
    );
    s.pruned = 4;
    s.errors.push("x".to_string());
    assert_eq!(
        summary_parts(&s)[3..],
        [part(Tally::Pruned, "4 pruned"), part(Tally::Errors, "1 errors")]
    );
    assert_eq!(files_note(&s, false), "(3 files written)");
    assert_eq!(files_note(&s, true), "(3 files planned)");
}

fn results() -> SearchResults {
    let numbered = |n: u64, text: &str, ranges: Vec<std::ops::Range<usize>>| LineMatch {
        line_number: n,
        text: text.to_string(),
        ranges,
    };
    SearchResults {
        engine: Engine::Ripgrep,
        gists: vec![
            GistMatches {
                folder: "a-1".to_string(),
                description: Some("First".to_string()),
                url: Some("https://gist.github.com/1".to_string()),
                files: vec![FileMatches {
                    filename: "x".to_string(),
                    lines: vec![
                        numbered(7, "a hit", vec![2..5]),
                        numbered(120, "hit hit", vec![0..3, 4..7]),
                    ],
                }],
            },
            GistMatches {
                folder: "b-2".to_string(),
                description: None,
                url: None,
                files: vec![FileMatches {
                    filename: "y".to_string(),
                    lines: vec![numbered(1, "lossy", vec![])],
                }],
            },
        ],
        warning: None,
    }
}

#[test]
fn search_results_are_laid_out() {
    let r = results();
    assert!(can_report(&r));
    let report = search_report(&r, Some(100));
    assert_eq!(report.text_width, Some(90));
    assert_eq!(
        report.lines,
        vec![
            ReportLine::Title("First".to_string()),
            ReportLine::Url("https://gist.github.com/1".to_string()),
            ReportLine::File("x".to_string()),
            ReportLine::Match {
                number: "  7".to_string(),
                segments: owned(&[("a ", false), ("hit", true), ("", false)]),
            },
            ReportLine::Match {
                number: "120".to_string(),
                segments: owned(&[
                    ("", false),
                    ("hit", true),
                    (" ", false),
                    ("hit", true),
                    ("", false)
                ]),
            },
            ReportLine::Blank,
            ReportLine::Title("b-2".to_string()),
            ReportLine::File("y".to_string()),
            ReportLine::Match {
                number: "  1".to_string(),
                segments: owned(&[("lossy", false)]),
            },
            ReportLine::Blank,
        ]
    );
    // A line whose matches could not be located counts as one.
    assert_eq!(report.totals, ["4 matches", "2 files", "2 gists"]);
    assert_eq!(report.via, "(via rg)");
}

#[test]
fn narrow_terminals_get_twenty_columns() {
    let r = results();
    assert_eq!(search_report(&r, Some(30)).text_width, Some(20));
    assert_eq!(search_report(&r, Some(31)).text_width, Some(21));
    assert_eq!(search_report(&r, Some(0)).text_width, Some(20));
    assert_eq!(search_report(&r, None).text_width, None);
}

#[test]
fn results_with_bad_ranges_cannot_be_printed() {
    let mut r = results();
    r.gists[0].files[0].lines[0].ranges.push(9..10);
    assert!(!can_report(&r));
}

#[test]
fn command_line_gives_the_options() {
    let mut cli = Cli {
        output: "./gists".to_string(),
        token: None,
        prune: true,
        dry_run: false,
        force: true,
        concurrency: 8,
        verbose: true,
        quiet: false,
    };
    let opts = cli.sync_options();
    assert_eq!(opts.output, "./gists");
    assert_eq!(opts.concurrency, 8);
    assert!(opts.prune && opts.force && !opts.dry_run);
    assert!(cli.prints_actions());
    cli.quiet = true;
    assert!(!cli.prints_actions());
    cli.verbose = false;
    cli.quiet = false;
    assert!(!cli.prints_actions());
}
