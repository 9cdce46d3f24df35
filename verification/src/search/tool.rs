//! The external tools that search, and how they are called.
use vstd::prelude::*;

use crate::state::STATE_FILE;
use crate::sync::META_FILE;
use crate::text::string_views;

verus! {

/// What to search for.
#[derive(Debug, Clone)]
pub struct Query {
    pub pattern: String,
    pub ignore_case: bool,
    pub fixed_strings: bool,
    pub word: bool,
}

/// The external tool that performed a search.
#[derive(Debug, Clone, Copy, PartialEq, Eq, Structural)]
pub enum Engine {
    Ripgrep,
    Grep,
}

impl Engine {
    /// The executable name of a tool.
    pub open spec fn program_name(self) -> Seq<char> {
        match self {
            Engine::Ripgrep => "rg"@,
            Engine::Grep => "grep"@,
        }
    }

    /// The executable name, as looked up on `PATH`.
    pub fn program(self) -> (r: &'static str)
        ensures
            r@ == self.program_name(),
    {
        match self {
            Engine::Ripgrep => "rg",
            Engine::Grep => "grep",
        }
    }
}

/// A command to run: the program, its arguments, and the changes to its
/// environment.
#[derive(Debug, Clone, PartialEq, Eq)]
pub struct CommandLine {
    pub program: String,
    pub args: Vec<String>,
    /// Variables to set, with their values.
    pub set_env: Vec<(String, String)>,
    /// Variables to take out.
    pub unset_env: Vec<String>,
}

/// What a [`CommandLine`] holds.
#[verifier::ext_equal]
pub struct CommandView {
    pub program: Seq<char>,
    pub args: Seq<Seq<char>>,
    pub set_env: Seq<(Seq<char>, Seq<char>)>,
    pub unset_env: Seq<Seq<char>>,
}

impl View for CommandLine {
    type V = CommandView;

    open spec fn view(&self) -> CommandView {
        CommandView {
            program: self.program@,
            args: string_views(self.args@),
            set_env: self.set_env@.map_values(|e: (String, String)| (e.0@, e.1@)),
            unset_env: string_views(self.unset_env@),
        }
    }
}

/// The arguments that are particular to a tool.
///
/// For rg, `--json` gives exact match offsets. `--no-config` keeps a user's
/// ripgreprc from changing the output. `--hidden` and `--no-ignore` are needed
/// because gists can be dotfiles (`.bashrc`) or contain a `.gitignore`, and
/// the output dir may itself be git-ignored.
///
/// grep has no structured output, so it is asked to color matches, and their
/// positions are recovered from the escape codes.
pub open spec fn engine_args(engine: Engine, fixed_strings: bool) -> Seq<Seq<char>> {
    match engine {
        Engine::Ripgrep => seq![
            "--json"@,
            "--no-config"@,
            "--hidden"@,
            "--no-ignore"@,
            "--glob"@,
            "!"@ + META_FILE@,
            "--glob"@,
            "!"@ + STATE_FILE@ + "*"@,
        ] + if fixed_strings {
            seq!["--fixed-strings"@]
        } else {
            seq![]
        },
        Engine::Grep => seq![
            "-r"@,
            "-n"@,
            "-I"@,
            "--null"@,
            "--color=always"@,
            "--exclude="@ + META_FILE@,
            "--exclude="@ + STATE_FILE@ + "*"@,
            if fixed_strings {
                "-F"@
            } else {
                "-E"@
            },
        ],
    }
}

/// The arguments that say what to look for: the pattern behind `-e`, so that
/// it is never taken for an option, and where to look.
pub open spec fn pattern_args(query: Query) -> Seq<Seq<char>> {
    (if query.ignore_case {
        seq!["-i"@]
    } else {
        seq![]
    }) + (if query.word {
        seq!["-w"@]
    } else {
        seq![]
    }) + seq!["-e"@, query.pattern@, "."@]
}

/// The command for a search.
///
/// `GREP_COLORS` turns off every color but the match itself (GNU grep; BSD
/// grep only ever colors matches).
pub open spec fn command_of(engine: Engine, query: Query) -> CommandView {
    CommandView {
        program: engine.program_name(),
        args: engine_args(engine, query.fixed_strings) + pattern_args(query),
        set_env: match engine {
            Engine::Ripgrep => seq![],
            Engine::Grep => seq![("GREP_COLORS"@, "mt=01;31:sl=:cx=:fn=:ln=:bn=:se=:ne"@)],
        },
        unset_env: match engine {
            Engine::Ripgrep => seq![],
            Engine::Grep => seq!["GREP_COLOR"@],
        },
    }
}

/// Appends an argument made of three parts.
fn push_arg(args: &mut Vec<String>, a: &str, b: &str, c: &str)
    ensures
        string_views(final(args)@) == string_views(old(args)@).push(a@ + b@ + c@),
{
    let mut arg = a.to_string();
    arg.append(b);
    arg.append(c);
    args.push(arg);
    assert(string_views(args@) == string_views(old(args)@).push(a@ + b@ + c@));
}

/// Appends an argument.
fn push_flag(args: &mut Vec<String>, flag: &str)
    ensures
        string_views(final(args)@) == string_views(old(args)@).push(flag@),
{
    args.push(flag.to_string());
    assert(string_views(args@) == string_views(old(args)@).push(flag@));
}

/// Builds the command line for `engine`, searching the current directory.
pub fn command(engine: Engine, query: &Query) -> (r: CommandLine)
    ensures
        r@ == command_of(engine, *query),
{
    let mut args: Vec<String> = Vec::new();
    let mut set_env: Vec<(String, String)> = Vec::new();
    let mut unset_env: Vec<String> = Vec::new();
    let ghost e = Seq::<char>::empty();
    match engine {
        Engine::Ripgrep => {
            push_flag(&mut args, "--json");
            push_flag(&mut args, "--no-config");
            push_flag(&mut args, "--hidden");
            push_flag(&mut args, "--no-ignore");
            push_flag(&mut args, "--glob");
            push_arg(&mut args, "!", META_FILE, "");
            push_flag(&mut args, "--glob");
            push_arg(&mut args, "!", STATE_FILE, "*");
            if query.fixed_strings {
                push_flag(&mut args, "--fixed-strings");
            }
        },
        Engine::Grep => {
            push_flag(&mut args, "-r");
            push_flag(&mut args, "-n");
            push_flag(&mut args, "-I");
            push_flag(&mut args, "--null");
            push_flag(&mut args, "--color=always");
            push_arg(&mut args, "--exclude=", META_FILE, "");
            push_arg(&mut args, "--exclude=", STATE_FILE, "*");
            if query.fixed_strings {
                push_flag(&mut args, "-F");
            } else {
                push_flag(&mut args, "-E");
            }
            set_env.push(
                (
                    "GREP_COLORS".to_string(),
                    "mt=01;31:sl=:cx=:fn=:ln=:bn=:se=:ne".to_string(),
                ),
            );
            unset_env.push("GREP_COLOR".to_string());
        },
    }
    proof {
        reveal_strlit("");
        assert(""@ == e);
        assert("!"@ + META_FILE@ + e == "!"@ + META_FILE@);
        assert("--exclude="@ + META_FILE@ + e == "--exclude="@ + META_FILE@);
        assert(string_views(args@) == engine_args(engine, query.fixed_strings));
    }
    if query.ignore_case {
        push_flag(&mut args, "-i");
    }
    if query.word {
        push_flag(&mut args, "-w");
    }
    push_flag(&mut args, "-e");
    push_flag(&mut args, query.pattern.as_str());
    push_flag(&mut args, ".");
    let r = CommandLine { program: engine.program().to_string(), args, set_env, unset_env };
    assert(r@.args == command_of(engine, *query).args);
    assert(r@.set_env == command_of(engine, *query).set_env);
    assert(r@.unset_env == command_of(engine, *query).unset_env);
    r
}

/// The pattern is handed to the tool as it is, right behind `-e`, and the tool
/// is told to leave out the files that hold the state and the metadata.
pub proof fn law_command_hands_on_the_pattern(engine: Engine, query: Query)
    ensures
        ({
            let args = command_of(engine, query).args;
            &&& args.len() > 3
            &&& args[args.len() - 3] == "-e"@
            &&& args[args.len() - 2] == query.pattern@
            &&& match engine {
                Engine::Ripgrep => {
                    &&& args[4] == "--glob"@
                    &&& args[5] == "!"@ + META_FILE@
                    &&& args[6] == "--glob"@
                    &&& args[7] == "!"@ + STATE_FILE@ + "*"@
                },
                Engine::Grep => {
                    &&& args[5] == "--exclude="@ + META_FILE@
                    &&& args[6] == "--exclude="@ + STATE_FILE@ + "*"@
                },
            }
        }),
{
}

/// The arguments that no tool takes for an option of the query.
proof fn lemma_flags_differ()
    ensures
        "-i"@ == seq!['-', 'i'],
        "-w"@ == seq!['-', 'w'],
        "-F"@ == seq!['-', 'F'],
        "-E"@ == seq!['-', 'E'],
        "-r"@ == seq!['-', 'r'],
        "-n"@ == seq!['-', 'n'],
        "-I"@ == seq!['-', 'I'],
        "--json"@.len() == 6,
        "--no-config"@.len() == 11,
        "--hidden"@.len() == 8,
        "--no-ignore"@.len() == 11 && "--no-ignore"@[5] == 'i',
        "--glob"@.len() == 6,
        "--null"@.len() == 6,
        "--color=always"@.len() == 14,
        "--fixed-strings"@.len() == 15 && "--fixed-strings"@[0] == '-',
        "--exclude="@.len() == 10,
        "!"@.len() == 1 && "!"@[0] == '!',
        "*"@.len() == 1,
        META_FILE@.len() == 16,
        STATE_FILE@.len() == 17,
{
    reveal_strlit("-i");
    reveal_strlit("-w");
    reveal_strlit("-F");
    reveal_strlit("-E");
    reveal_strlit("-r");
    reveal_strlit("-n");
    reveal_strlit("-I");
    reveal_strlit("--json");
    reveal_strlit("--no-config");
    reveal_strlit("--hidden");
    reveal_strlit("--no-ignore");
    reveal_strlit("--glob");
    reveal_strlit("--null");
    reveal_strlit("--color=always");
    reveal_strlit("--fixed-strings");
    reveal_strlit("--exclude=");
    reveal_strlit("!");
    reveal_strlit("*");
    reveal_strlit(".grass-meta.json");
    reveal_strlit(".grass-state.json");
    assert("-i"@ =~= seq!['-', 'i']);
    assert("-w"@ =~= seq!['-', 'w']);
    assert("-F"@ =~= seq!['-', 'F']);
    assert("-E"@ =~= seq!['-', 'E']);
    assert("-r"@ =~= seq!['-', 'r']);
    assert("-n"@ =~= seq!['-', 'n']);
    assert("-I"@ =~= seq!['-', 'I']);
}

/// The options in front of the pattern.
pub open spec fn options_of(engine: Engine, query: Query) -> Seq<Seq<char>> {
    let args = command_of(engine, query).args;
    args.take(args.len() - 3)
}

/// Each option of the query reaches either tool, whatever the other options, and
/// only where it is asked for: `-i` to ignore case, `-w` for whole words, and the
/// tool's own flag for literal strings.
pub proof fn law_options_reach_the_tool(engine: Engine, query: Query)
    ensures
        options_of(engine, query).contains("-i"@) <==> query.ignore_case,
        options_of(engine, query).contains("-w"@) <==> query.word,
        options_of(engine, query).contains(
            match engine {
                Engine::Ripgrep => "--fixed-strings"@,
                Engine::Grep => "-F"@,
            },
        ) <==> query.fixed_strings,
        engine == Engine::Grep ==> (options_of(engine, query).contains("-E"@)
            <==> !query.fixed_strings),
{
    lemma_flags_differ();
    let front = options_of(engine, query);
    let base = engine_args(engine, query.fixed_strings);
    let i = base.len() as int;
    let w = if query.ignore_case {
        i + 1
    } else {
        i
    };
    assert forall|k: int| 0 <= k < base.len() implies front[k] == #[trigger] base[k] by {}
    assert(!base.contains("-i"@) && !base.contains("-w"@)) by {
        assert forall|k: int| 0 <= k < base.len() implies #[trigger] base[k] != "-i"@ && base[k]
            != "-w"@ by {
            if base[k].len() == 2 {
                assert(base[k][1] == 'r' || base[k][1] == 'n' || base[k][1] == 'I' || base[k][1]
                    == 'F' || base[k][1] == 'E');
            }
        }
    }
    assert("-i"@[1] == 'i' && "-w"@[1] == 'w' && "-F"@[1] == 'F' && "-E"@[1] == 'E');
    assert("-r"@[1] == 'r' && "-n"@[1] == 'n' && "-I"@[1] == 'I');
    if query.ignore_case {
        assert(front[i] == "-i"@);
    }
    if query.word {
        assert(front[w] == "-w"@);
    }
    if front.contains("-i"@) {
        let k = choose|k: int| 0 <= k < front.len() && front[k] == "-i"@;
        if k < i {
            assert(base.contains(base[k]));
        }
    }
    if front.contains("-w"@) {
        let k = choose|k: int| 0 <= k < front.len() && front[k] == "-w"@;
        if k < i {
            assert(base.contains(base[k]));
        }
    }
    match engine {
        Engine::Ripgrep => {
            if query.fixed_strings {
                assert(front[8] == "--fixed-strings"@);
            }
            if front.contains("--fixed-strings"@) {
                let k = choose|k: int| 0 <= k < front.len() && front[k] == "--fixed-strings"@;
                assert(k == 8);
            }
        },
        Engine::Grep => {
            assert(front[7] == if query.fixed_strings {
                "-F"@
            } else {
                "-E"@
            });
            assert forall|k: int| 0 <= k < front.len() && k != 7 implies #[trigger] front[k]
                != "-F"@ && front[k] != "-E"@ by {
                if k < 7 {
                    assert(front[k] == base[k]);
                    assert(base[0] == "-r"@ && base[1] == "-n"@ && base[2] == "-I"@);
                    assert(base[3].len() == 6 && base[4].len() == 14);
                    assert(base[5].len() == 26 && base[6].len() == 28);
                } else {
                    assert(front[k] == "-i"@ || front[k] == "-w"@);
                }
            }
            assert("-F"@[1] != "-E"@[1]);
        },
    }
}

/// Turning an option on adds one argument and changes no other.
pub proof fn law_options_do_not_interfere(engine: Engine, a: Query, b: Query)
    requires
        a.pattern@ == b.pattern@,
        a.fixed_strings == b.fixed_strings,
        !a.ignore_case,
        !a.word,
    ensures
        ({
            let n = options_of(engine, a).len() as int;
            &&& options_of(engine, b).take(n) == options_of(engine, a)
            &&& options_of(engine, b).skip(n) == (if b.ignore_case {
                seq!["-i"@]
            } else {
                seq![]
            }) + (if b.word {
                seq!["-w"@]
            } else {
                seq![]
            })
        }),
{
    let n = options_of(engine, a).len() as int;
    assert(options_of(engine, b).take(n) == options_of(engine, a));
    assert(options_of(engine, b).skip(n) == (if b.ignore_case {
        seq!["-i"@]
    } else {
        seq![]
    }) + (if b.word {
        seq!["-w"@]
    } else {
        seq![]
    }));
}

/// Both tools are asked for what their output is read by: every file, dotfiles
/// too, with the position of each match, and nothing that a user has set up for
/// themselves.
pub proof fn law_tools_are_asked_for_what_is_read(engine: Engine, query: Query)
    ensures
        ({
            let cmd = command_of(engine, query);
            let opts = options_of(engine, query);
            &&& cmd.args.last() == "."@
            &&& match engine {
                Engine::Ripgrep => {
                    &&& cmd.program == "rg"@
                    &&& opts.contains("--json"@)
                    &&& opts.contains("--no-config"@)
                    &&& opts.contains("--hidden"@)
                    &&& opts.contains("--no-ignore"@)
                    &&& cmd.set_env.len() == 0
                    &&& cmd.unset_env.len() == 0
                },
                Engine::Grep => {
                    &&& cmd.program == "grep"@
                    &&& opts.contains("-r"@)
                    &&& opts.contains("-n"@)
                    &&& opts.contains("-I"@)
                    &&& opts.contains("--null"@)
                    &&& opts.contains("--color=always"@)
                    &&& cmd.set_env.len() == 1
                    &&& cmd.set_env[0] == ("GREP_COLORS"@, "mt=01;31:sl=:cx=:fn=:ln=:bn=:se=:ne"@)
                    &&& cmd.unset_env.len() == 1
                    &&& cmd.unset_env[0] == "GREP_COLOR"@
                },
            }
        }),
{
    let opts = options_of(engine, query);
    match engine {
        Engine::Ripgrep => {
            assert(opts[0] == "--json"@ && opts[1] == "--no-config"@);
            assert(opts[2] == "--hidden"@ && opts[3] == "--no-ignore"@);
        },
        Engine::Grep => {
            assert(opts[0] == "-r"@ && opts[1] == "-n"@ && opts[2] == "-I"@);
            assert(opts[3] == "--null"@ && opts[4] == "--color=always"@);
        },
    }
}

/// Nothing is asked for beside what each tool always needs, the two kinds of files
/// to leave out, and the options of the query; so an option more is an argument
/// more, and patterns make no difference to the options.
pub proof fn law_nothing_else_is_asked_for(engine: Engine, query: Query, other: Query)
    ensures
        options_of(engine, query).len() == 8 + (if query.word {
            1int
        } else {
            0
        }) + (if query.ignore_case {
            1int
        } else {
            0
        }) + (if query.fixed_strings && engine == Engine::Ripgrep {
            1int
        } else {
            0
        }),
        command_of(engine, query).args.len() == options_of(engine, query).len() + 3,
        query.ignore_case == other.ignore_case && query.word == other.word && query.fixed_strings
            == other.fixed_strings ==> options_of(engine, query) == options_of(engine, other),
{
    assert(options_of(engine, query).len() == command_of(engine, query).args.len() - 3);
    if query.ignore_case == other.ignore_case && query.word == other.word && query.fixed_strings
        == other.fixed_strings {
        assert(options_of(engine, query) == options_of(engine, other));
    }
}

/// What a command line holds is all of it: the program, every argument, and every
/// change to the environment.
pub proof fn law_command_line_is_all_of_it(c: CommandLine, k: int)
    ensures
        c@.program == c.program@,
        c@.args.len() == c.args@.len(),
        0 <= k < c.args@.len() ==> c@.args[k] == c.args@[k]@,
        c@.set_env.len() == c.set_env@.len(),
        0 <= k < c.set_env@.len() ==> c@.set_env[k] == (c.set_env@[k].0@, c.set_env@[k].1@),
        c@.unset_env.len() == c.unset_env@.len(),
        0 <= k < c.unset_env@.len() ==> c@.unset_env[k] == c.unset_env@[k]@,
{
}

} // verus!
