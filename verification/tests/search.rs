use grass::search::{
    command, conclude, decode_base64, group, line_match, parse_grep, parse_rg, read_message, run,
    split_path, strip_sgr, Engine, FileMatches, GistInfo, GistMatches, Hit, LineMatch, Query,
    SearchError, SearchEvent, SearchResults, SearchStep, ToolOutput, ToolRun,
};
use grass::state::STATE_FILE;
use grass::sync::META_FILE;
use std::ops::Range;

fn query(pattern: &str) -> Query {
    Query {
        pattern: pattern.to_string(),
        ignore_case: false,
        fixed_strings: false,
        word: false,
    }
}

fn hit(path: &str, line_number: u64, text: &str, ranges: Vec<Range<usize>>) -> Hit {
    Hit {
        path: path.to_string(),
        line: LineMatch {
            line_number,
            text: text.to_string(),
            ranges,
        },
    }
}

/// What `rg` prints for "needle" in two gists.
const RG_OUTPUT: &[u8] = br#"{"type":"begin","data":{"path":{"text":"./my-notes-aaa11111/notes.md"}}}
{"type":"match","data":{"path":{"text":"./my-notes-aaa11111/notes.md"},"lines":{"text":"a needle here\n"},"line_number":2,"absolute_offset":6,"submatches":[{"match":{"text":"needle"},"start":2,"end":8}]}}
{"type":"end","data":{"path":{"text":"./my-notes-aaa11111/notes.md"},"binary_offset":null,"stats":{"elapsed":{"secs":0,"nanos":1,"human":"0s"}}}}
{"type":"begin","data":{"path":{"text":"./deploy-bbb22222/deploy.sh"}}}
{"type":"match","data":{"path":{"text":"./deploy-bbb22222/deploy.sh"},"lines":{"text":"needle needle\n"},"line_number":1,"absolute_offset":0,"submatches":[{"match":{"text":"needle"},"start":0,"end":6},{"match":{"text":"needle"},"start":7,"end":13}]}}
{"type":"end","data":{"path":{"text":"./deploy-bbb22222/deploy.sh"},"binary_offset":null,"stats":{}}}
{"type":"summary","data":{"elapsed_total":{"human":"0s","nanos":1,"secs":0},"stats":{}}}
"#;

/// What `grep` prints for "needle" in two gists.
const GREP_OUTPUT: &[u8] = b"./my-notes-aaa11111/notes.md\x002:a \x1b[01;31m\x1b[Kneedle\x1b[m\x1b[K here\n\
./deploy-bbb22222/deploy.sh\x001:\x1b[01;31m\x1b[Kneedle\x1b[m\x1b[K \x1b[01;31m\x1b[Kneedle\x1b[m\x1b[K\n";

/// What each tool prints besides when case is ignored.
const RG_DOTFILE: &[u8] = br#"{"type":"match","data":{"path":{"text":"./my-notes-aaa11111/.bashrc"},"lines":{"text":"export NEEDLE=1\n"},"line_number":1,"absolute_offset":0,"submatches":[{"match":{"text":"NEEDLE"},"start":7,"end":13}]}}
"#;
const GREP_DOTFILE: &[u8] =
    b"./my-notes-aaa11111/.bashrc\x001:export \x1b[01;31m\x1b[KNEEDLE\x1b[m\x1b[K=1\n";

const SIDECAR: &[u8] = br#"{"id":"aaa111","description":"My notes","html_url":"https://gist.github.com/aaa111","files":[{"filename":"needle"}]}"#;

fn check_engine(engine: Engine, stdout: &[u8]) {
    let output = ToolOutput {
        code: Some(0),
        status: "exit status: 0".to_string(),
        stdout: stdout.to_vec(),
        stderr: Vec::new(),
    };
    let event = SearchEvent::Ran(engine, ToolRun::Finished(output));
    let mut results = done(run("gists", &query("needle"), event));
    assert_eq!(results.engine, engine);
    assert_eq!(results.warning, None);
    for gist in &mut results.gists {
        let sidecar = if gist.folder == "my-notes-aaa11111" {
            Some(SIDECAR)
        } else {
            None
        };
        gist.attach(GistInfo::load(sidecar));
    }
    let gists = results.gists;

    assert_eq!(gists.len(), 2);
    let deploy = &gists[0];
    assert_eq!(deploy.folder, "deploy-bbb22222");
    assert_eq!(deploy.title(), "deploy-bbb22222");
    assert_eq!(deploy.url, None);
    assert_eq!(
        deploy.files,
        vec![FileMatches {
            filename: "deploy.sh".to_string(),
            lines: vec![LineMatch {
                line_number: 1,
                text: "needle needle".to_string(),
                ranges: vec![0..6, 7..13],
            }],
        }]
    );

    // The metadata sidecar and the (case-mismatched) dotfile don't match.
    let notes = &gists[1];
    assert_eq!(notes.title(), "My notes");
    assert_eq!(notes.url.as_deref(), Some("https://gist.github.com/aaa111"));
    assert_eq!(notes.files.len(), 1);
    assert_eq!(notes.files[0].filename, "notes.md");
    assert_eq!(notes.files[0].lines[0].line_number, 2);
    assert_eq!(notes.files[0].lines[0].ranges, vec![2..8]);

    // Dotfiles are searched too.
    let mut q = query("needle");
    q.ignore_case = true;
    let args = command(engine, &q).args;
    assert!(args.iter().any(|a| a == "-i"));
    let hits = match engine {
        Engine::Ripgrep => parse_rg(&[stdout, RG_DOTFILE].concat()),
        Engine::Grep => parse_grep(&[stdout, GREP_DOTFILE].concat()),
    };
    assert_eq!(hits.len(), 3);
    assert!(hits.iter().any(|h| h.path.ends_with(".bashrc")));
    assert!(!hits.iter().any(|h| h.path.ends_with(META_FILE)));
    assert!(!hits.iter().any(|h| h.path.ends_with(STATE_FILE)));
}

fn done(step: SearchStep) -> SearchResults {
    match step {
        SearchStep::Done(results) => results,
        other => panic!("{other:?}"),
    }
}

#[test]
fn searches_with_ripgrep() {
    check_engine(Engine::Ripgrep, RG_OUTPUT);
}

#[test]
fn searches_with_grep() {
    check_engine(Engine::Grep, GREP_OUTPUT);
}

#[test]
fn missing_dir_is_an_error() {
    let step = run("nope", &query("x"), SearchEvent::Begin { is_dir: false });
    match step {
        SearchStep::Fail(err) => {
            assert!(err.message().contains("no gists found"));
            assert_eq!(
                err.message(),
                "no gists found at nope — run `grass` to download them first, or pass --output"
            );
        }
        other => panic!("{other:?}"),
    }
}

#[test]
fn parses_rg_json() {
    let out = br#"{"type":"begin","data":{"path":{"text":"./a-1/x.rs"}}}
{"type":"match","data":{"path":{"text":"./a-1/x.rs"},"lines":{"text":"let tokio = tokio;\r\n"},"line_number":3,"absolute_offset":0,"submatches":[{"match":{"text":"tokio"},"start":4,"end":9},{"match":{"text":"tokio"},"start":12,"end":17}]}}
{"type":"end","data":{"path":{"text":"./a-1/x.rs"},"binary_offset":null,"stats":{}}}
{"type":"summary","data":{"elapsed_total":{"secs":0,"nanos":1,"human":"0s"},"stats":{}}}
"#;
    assert_eq!(
        parse_rg(out),
        vec![Hit {
            path: "./a-1/x.rs".to_string(),
            line: LineMatch {
                line_number: 3,
                text: "let tokio = tokio;".to_string(),
                ranges: vec![4..9, 12..17],
            },
        }]
    );
}

#[test]
fn parses_rg_non_utf8_lines_without_highlights() {
    // "caf\xe9 ok\n" in base64.
    let out = br#"{"type":"match","data":{"path":{"text":"g-1/f"},"lines":{"bytes":"Y2Fm6SBvawo="},"line_number":1,"submatches":[{"match":{"text":"ok"},"start":5,"end":7}]}}"#;
    let hits = parse_rg(out);
    assert_eq!(hits[0].line.text, "caf\u{fffd} ok");
    assert!(hits[0].line.ranges.is_empty());
}

#[test]
fn parses_grep_color_output() {
    let out = b"./a-1/x.rs\x003:let \x1b[01;31mtokio\x1b[m = \x1b[01;31mtokio\x1b[m;\n\
                ./b-2/y:z.txt\x0012:a:b \x1b[01;31m\x1b[Kc\x1b[m\x1b[K\n";
    assert_eq!(
        parse_grep(out),
        vec![
            Hit {
                path: "./a-1/x.rs".to_string(),
                line: LineMatch {
                    line_number: 3,
                    text: "let tokio = tokio;".to_string(),
                    ranges: vec![4..9, 12..17],
                },
            },
            Hit {
                path: "./b-2/y:z.txt".to_string(),
                line: LineMatch {
                    line_number: 12,
                    text: "a:b c".to_string(),
                    ranges: vec![4..5],
                },
            },
        ]
    );
}

#[test]
fn strip_sgr_ignores_colored_prefix() {
    // A grep that colors filenames anyway: only the match range survives
    // once rebased onto the line text.
    let out = b"\x1b[35m./a-1/x\x1b[0m\x001:hi \x1b[1;31mthere\x1b[0m\n";
    let hits = parse_grep(out);
    assert_eq!(hits[0].path, "./a-1/x");
    assert_eq!(hits[0].line.text, "hi there");
    assert_eq!(hits[0].line.ranges, vec![3..8]);
}

#[test]
fn strip_sgr_handles_unterminated_and_stray_escapes() {
    assert_eq!(strip_sgr("a\x1b[31mb"), ("ab".to_string(), vec![1..2]));
    assert_eq!(strip_sgr("a\x1bb"), ("a\x1bb".to_string(), vec![]));
}

#[test]
fn strip_sgr_edge_cases() {
    // A control sequence without a final byte is text.
    assert_eq!(strip_sgr("a\x1b[31"), ("a\x1b[31".to_string(), vec![]));
    // Color that begins twice ends once.
    assert_eq!(
        strip_sgr("\x1b[1m\x1b[31mab\x1b[0;0mc\x1b[md"),
        ("abcd".to_string(), vec![0..2])
    );
    // Ranges count bytes.
    assert_eq!(
        strip_sgr("é\x1b[31mü\x1b[m"),
        ("éü".to_string(), vec![2..4])
    );
    // Other sequences leave no trace.
    assert_eq!(strip_sgr("a\x1b[2Kb\x1b[Hc"), ("abc".to_string(), vec![]));
    assert_eq!(strip_sgr(""), (String::new(), vec![]));
}

#[test]
fn base64_roundtrip() {
    assert_eq!(decode_base64("aGVsbG8="), b"hello");
    assert_eq!(decode_base64("aGVsbG8"), b"hello");
    assert_eq!(decode_base64("Y2Fm6Q=="), b"caf\xe9");
    assert_eq!(decode_base64(""), b"");
}

#[test]
fn base64_skips_what_is_not_of_the_alphabet() {
    assert_eq!(decode_base64("aG\nVs bG8="), b"hello");
    assert_eq!(decode_base64("+/+/"), [0xfb, 0xff, 0xbf]);
    assert_eq!(decode_base64("A"), b"");
}

#[test]
fn line_match_drops_bad_ranges() {
    let m = line_match(
        1,
        "héllo\n".to_string(),
        vec![Range { start: 3, end: 1 }, 2..3, 0..1, 4..99],
    );
    assert_eq!(m.text, "héllo");
    assert_eq!(m.ranges, vec![0..1, 4..6]);
}

#[test]
fn line_match_sorts_ranges() {
    let m = line_match(7, "abcdef\r\n".to_string(), vec![3..4, 0..2, 3..5, 6..6, 7..9]);
    assert_eq!(m.line_number, 7);
    assert_eq!(m.text, "abcdef");
    assert_eq!(m.ranges, vec![0..2, 3..4, 3..5]);
}

#[test]
fn split_path_finds_folder_and_file() {
    assert_eq!(
        split_path("./notes-a1/notes.md"),
        Some(("notes-a1".to_string(), "notes.md".to_string()))
    );
    assert_eq!(
        split_path("notes-a1/.bashrc"),
        Some(("notes-a1".to_string(), ".bashrc".to_string()))
    );
    assert_eq!(split_path("./stray.txt"), None);
}

#[test]
fn split_path_keeps_the_names() {
    assert_eq!(
        split_path("/a//b/./c/../d/"),
        Some(("a".to_string(), "b/c/d".to_string()))
    );
    assert_eq!(split_path(""), None);
    assert_eq!(split_path("a/.."), None);
}

#[test]
fn title_falls_back_to_folder() {
    let mut g = GistMatches {
        folder: "deploy-a1".to_string(),
        description: Some("  ".to_string()),
        url: None,
        files: vec![],
    };
    assert_eq!(g.title(), "deploy-a1");
    g.description = Some("Deploy script".to_string());
    assert_eq!(g.title(), "Deploy script");
}

#[test]
fn grep_lines_that_are_no_records_are_skipped() {
    assert_eq!(parse_grep(b""), vec![]);
    assert_eq!(parse_grep(b"Binary file x matches\n"), vec![]);
    assert_eq!(parse_grep(b"a/b\x00x:text\n"), vec![]);
    assert_eq!(parse_grep(b"a/b\x0012\n"), vec![]);
    // Bytes that are not UTF-8 are replaced, and ranges count the result.
    assert_eq!(
        parse_grep(b"a/b\x001:\xff\x1b[31mx\x1b[m\n"),
        vec![hit("a/b", 1, "\u{fffd}x", vec![3..4])]
    );
}

#[test]
fn rg_lines_that_are_no_matches_are_skipped() {
    assert_eq!(parse_rg(b""), vec![]);
    assert_eq!(parse_rg(b"not json\n{}\n[]\nnull\n"), vec![]);
    // The data must be there and of the right form.
    assert_eq!(parse_rg(br#"{"type":"match"}"#), vec![]);
    assert_eq!(parse_rg(br#"{"type":"match","data":{"path":{},"lines":3}}"#), vec![]);
    assert_eq!(
        parse_rg(br#"{"type":"match","data":{"path":{},"lines":{},"line_number":-1}}"#),
        vec![]
    );
    assert_eq!(
        parse_rg(br#"{"type":"match","data":{"path":{},"lines":{},"submatches":[{"start":0}]}}"#),
        vec![]
    );
    // What may be left out is left out.
    assert_eq!(
        parse_rg(br#"{"type":"match","data":{"path":{},"lines":{"text":"x"},"line_number":null}}"#),
        vec![hit("", 0, "x", vec![])]
    );
    // Structures can be written as lists.
    assert_eq!(
        parse_rg(br#"["match",[["p",null],["text",null],5,[[0,2]]]]"#),
        vec![hit("p", 5, "text", vec![0..2])]
    );
    assert_eq!(parse_rg(br#"["match",[["p"],["text",null],5]]"#), vec![]);
}

#[test]
fn rg_message_is_read_from_its_line() {
    let message = br#"{"type":"match","data":{"path":{"text":"a/b"},"lines":{"text":"xyz\n"},"line_number":9,"submatches":[{"start":1,"end":2}]}}"#;
    assert_eq!(read_message(message), Some(hit("a/b", 9, "xyz", vec![1..2])));
    assert_eq!(read_message(b"null"), None);
}

#[test]
fn rg_messages_with_repeated_members() {
    let data = r#"{"path":{"text":"p"},"lines":{"text":"x"}}"#;
    let found = Some(hit("p", 0, "x", vec![]));
    let read = |text: String| read_message(text.as_bytes());
    assert_eq!(read(format!(r#"{{"data":{data},"type":"match"}}"#)), found);
    assert_eq!(read(format!(r#"{{"type":"match","type":"match","data":{data}}}"#)), None);
    assert_eq!(read(format!(r#"{{"type":"match","data":{data},"data":{data}}}"#)), None);
    // Other members are passed over, whatever is in them.
    let deep = format!("{}{}", "[".repeat(500), "]".repeat(500));
    assert_eq!(
        read(format!(r#"{{"x":1e999,"x":{deep},"type":"match","data":{data},"y":"\ud800"}}"#)),
        found
    );
    // In the data the last one counts, and all of it must be readable.
    let twice = r#"{"path":{"text":"o"},"path":{"text":"p"},"lines":{"text":"x"}}"#;
    assert_eq!(read(format!(r#"{{"type":"match","data":{twice}}}"#)), found);
    let wrong = r#"{"path":{"text":"p"},"lines":{"text":"x"},"x":1e999}"#;
    assert_eq!(read(format!(r#"{{"type":"match","data":{wrong}}}"#)), None);
    // Together with the message it nests 127 levels deep at most.
    let nested = |n: usize| {
        let x = format!("{}{}", "[".repeat(n), "]".repeat(n));
        format!(
            r#"{{"type":"match","data":{{"path":{{"text":"p"}},"lines":{{"text":"x"}},"x":{x}}}}}"#
        )
    };
    assert_eq!(read(nested(125)), found);
    assert_eq!(read(nested(126)), None);
}

#[test]
fn hits_are_grouped_and_sorted() {
    let gists = group(vec![
        hit("./b/y.txt", 9, "nine", vec![]),
        hit("top.txt", 1, "dropped", vec![]),
        hit("./a/z.txt", 1, "one", vec![]),
        hit("./b/y.txt", 2, "two", vec![]),
        hit("./b/x.txt", 5, "five", vec![]),
        hit("./b/y.txt", 2, "two again", vec![]),
    ]);
    let folders: Vec<&str> = gists.iter().map(|g| g.folder.as_str()).collect();
    assert_eq!(folders, ["a", "b"]);
    let files: Vec<&str> = gists[1].files.iter().map(|f| f.filename.as_str()).collect();
    assert_eq!(files, ["x.txt", "y.txt"]);
    let lines: Vec<&str> = gists[1].files[1].lines.iter().map(|l| l.text.as_str()).collect();
    assert_eq!(lines, ["two", "two again", "nine"]);
    assert_eq!(gists[1].description, None);
    assert_eq!(gists[1].url, None);
    assert_eq!(group(vec![]), vec![]);
}

#[test]
fn rg_is_called_with_its_arguments() {
    let mut q = query("TODO(");
    q.ignore_case = true;
    q.fixed_strings = true;
    q.word = true;
    let c = command(Engine::Ripgrep, &q);
    assert_eq!(c.program, "rg");
    assert_eq!(
        c.args,
        [
            "--json",
            "--no-config",
            "--hidden",
            "--no-ignore",
            "--glob",
            &format!("!{META_FILE}"),
            "--glob",
            &format!("!{STATE_FILE}*"),
            "--fixed-strings",
            "-i",
            "-w",
            "-e",
            "TODO(",
            ".",
        ]
    );
    assert!(c.set_env.is_empty());
    assert!(c.unset_env.is_empty());
}

#[test]
fn grep_is_called_with_its_arguments() {
    let c = command(Engine::Grep, &query("-x"));
    assert_eq!(c.program, "grep");
    assert_eq!(
        c.args,
        [
            "-r",
            "-n",
            "-I",
            "--null",
            "--color=always",
            "--exclude=.grass-meta.json",
            "--exclude=.grass-state.json*",
            "-E",
            "-e",
            "-x",
            ".",
        ]
    );
    assert_eq!(
        c.set_env,
        [(
            "GREP_COLORS".to_string(),
            "mt=01;31:sl=:cx=:fn=:ln=:bn=:se=:ne".to_string()
        )]
    );
    assert_eq!(c.unset_env, ["GREP_COLOR"]);
    let mut q = query("x");
    q.fixed_strings = true;
    assert_eq!(command(Engine::Grep, &q).args[7], "-F");
}

#[test]
fn rg_is_tried_before_grep() {
    let q = query("x");
    match run("d", &q, SearchEvent::Begin { is_dir: true }) {
        SearchStep::Execute(engine, c) => {
            assert_eq!(engine, Engine::Ripgrep);
            assert_eq!(c, command(Engine::Ripgrep, &q));
        }
        other => panic!("{other:?}"),
    }
    match run("d", &q, SearchEvent::Ran(Engine::Ripgrep, ToolRun::Missing)) {
        SearchStep::Execute(engine, c) => {
            assert_eq!(engine, Engine::Grep);
            assert_eq!(c, command(Engine::Grep, &q));
        }
        other => panic!("{other:?}"),
    }
}

fn error(step: SearchStep) -> SearchError {
    match step {
        SearchStep::Fail(e) => e,
        other => panic!("{other:?}"),
    }
}

#[test]
fn search_errors_say_what_is_wrong() {
    let q = query("x");
    let e = error(run("d", &q, SearchEvent::Ran(Engine::Grep, ToolRun::Missing)));
    assert_eq!(e, SearchError::NoTool);
    assert_eq!(
        e.message(),
        "searching requires ripgrep (`rg`) or `grep` on your PATH"
    );
    let e = error(run(
        "d",
        &q,
        SearchEvent::Ran(Engine::Ripgrep, ToolRun::NotRun("permission denied".to_string())),
    ));
    assert_eq!(e.message(), "running rg: permission denied");
    let failed = |stderr: &[u8]| {
        error(run(
            "d",
            &q,
            SearchEvent::Ran(
                Engine::Ripgrep,
                ToolRun::Finished(ToolOutput {
                    code: Some(2),
                    status: "exit status: 2".to_string(),
                    stdout: Vec::new(),
                    stderr: stderr.to_vec(),
                }),
            ),
        ))
    };
    assert_eq!(failed(b" regex parse error\n").message(), "regex parse error");
    assert_eq!(failed(b"\n").message(), "rg failed (exit status: 2)");
}

#[test]
fn failure_with_matches_is_a_warning() {
    let hits = || vec![hit("a/b", 1, "x", vec![0..1])];
    let r = conclude(
        Engine::Grep,
        hits(),
        Some(2),
        "exit status: 2".to_string(),
        "c: unreadable".to_string(),
    )
    .unwrap();
    assert_eq!(r.warning.as_deref(), Some("c: unreadable"));
    assert_eq!(r.gists[0].description, None);
    assert_eq!(r.gists[0].url, None);
    assert_eq!(r.exit_code(), 0);
    assert_eq!(r.gists.len(), 1);
    // A tool that was ended by a signal failed too.
    let r = conclude(Engine::Grep, hits(), None, "signal: 9".to_string(), String::new()).unwrap();
    assert_eq!(r.warning, None);
    assert!(conclude(Engine::Grep, vec![], None, "signal: 9".to_string(), String::new()).is_err());
    // Nothing found is no failure.
    let r = conclude(Engine::Grep, vec![], Some(1), "s".to_string(), "noise".to_string()).unwrap();
    assert_eq!(r.warning, None);
    assert!(r.gists.is_empty());
    assert_eq!(r.exit_code(), 1);
}

#[test]
fn sidecar_is_read_or_left_out() {
    let info = GistInfo::load(Some(SIDECAR));
    assert_eq!(info.description.as_deref(), Some("My notes"));
    assert_eq!(info.html_url.as_deref(), Some("https://gist.github.com/aaa111"));
    for bad in [&b"{"[..], b"3", b"{\"description\":1}", b"[1]", b"[null,null,null]", b""] {
        let info = GistInfo::load(Some(bad));
        assert_eq!((info.description, info.html_url), (None, None));
    }
    let info = GistInfo::load(Some(br#"{"html_url":null,"description":"d"}"#));
    assert_eq!((info.description.as_deref(), info.html_url), (Some("d"), None));
    let info = GistInfo::load(Some(br#"["d","u"]"#));
    assert_eq!(info.description.as_deref(), Some("d"));
    assert_eq!(info.html_url.as_deref(), Some("u"));
    let info = GistInfo::load(None);
    assert_eq!((info.description, info.html_url), (None, None));
    // A repeated field is refused, and other members are passed over.
    let info = GistInfo::load(Some(br#"{"description":"d","html_url":"u","html_url":"u"}"#));
    assert_eq!((info.description, info.html_url), (None, None));
    let info = GistInfo::load(Some(br#"{"x":1e999,"description":"d","x":[{}],"html_url":"u"}"#));
    assert_eq!(info.description.as_deref(), Some("d"));
    assert_eq!(info.html_url.as_deref(), Some("u"));
}
