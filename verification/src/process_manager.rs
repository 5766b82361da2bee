//! What a supervised application runs and how its runs end: the commands for
//! each kind of application, the shell line that launches them, the status a
//! finished run leaves, and the steps of the supervising loop with its
//! automatic restart.

use vstd::prelude::*;
use vstd::string::*;
use crate::app_config::{AppConfig, AppKind};
use crate::text::{chars_of, append_decimal, decimal, is_blank, join, join_strings, split_whitespace, split_ws, trim, views, lemma_views_push};

verus! {

#[verifier::external_type_specification]
#[verifier::external_body]
pub struct ExIoError(std::io::Error);

/// Lifecycle status of an application.
#[derive(Debug, Clone, PartialEq)]
pub enum AppStatus {
    Stopped,
    Building,
    Running,
    Failed(String),
}

/// An application status as plain values.
pub enum StatusView {
    Stopped,
    Building,
    Running,
    Failed(Seq<char>),
}

impl View for AppStatus {
    type V = StatusView;

    open spec fn view(&self) -> StatusView {
        match self {
            AppStatus::Stopped => StatusView::Stopped,
            AppStatus::Building => StatusView::Building,
            AppStatus::Running => StatusView::Running,
            AppStatus::Failed(m) => StatusView::Failed(m@),
        }
    }
}

impl AppStatus {
    /// A copy with the same plain value.
    pub fn duplicate(&self) -> (r: AppStatus)
        ensures
            r@ == self@,
    {
        match self {
            AppStatus::Stopped => AppStatus::Stopped,
            AppStatus::Building => AppStatus::Building,
            AppStatus::Running => AppStatus::Running,
            AppStatus::Failed(m) => AppStatus::Failed(m.clone()),
        }
    }

    /// Whether a process is underway (building or running).
    pub fn is_active(&self) -> (r: bool)
        ensures
            r == is_active_status(self@),
    {
        match self {
            AppStatus::Running | AppStatus::Building => true,
            _ => false,
        }
    }
}

pub open spec fn is_active_status(s: StatusView) -> bool {
    s is Running || s is Building
}

/// One program invocation.
#[derive(Debug, Clone, PartialEq, Eq)]
pub struct CommandSpec {
    pub program: String,
    pub args: Vec<String>,
}

impl View for CommandSpec {
    type V = (Seq<char>, Seq<Seq<char>>);

    open spec fn view(&self) -> (Seq<char>, Seq<Seq<char>>) {
        (self.program@, views(self.args@))
    }
}


/// The views of a sequence of string slices.
pub open spec fn str_views(v: Seq<&str>) -> Seq<Seq<char>> {
    v.map_values(|w: &str| w@)
}

/// The words of `command`, or `defaults` when it is blank.
pub open spec fn words_or(command: Seq<char>, defaults: Seq<Seq<char>>) -> Seq<Seq<char>> {
    if trim(command).len() == 0 {
        defaults
    } else {
        split_ws(command)
    }
}

fn owned_strings(words: &[&str]) -> (r: Vec<String>)
    ensures
        views(r@) == str_views(words@),
{
    let mut r: Vec<String> = Vec::new();
    for i in 0..words.len()
        invariant
            views(r@) == str_views(words@.take(i as int)),
    {
        let ghost before = r@;
        let s: &str = words[i];
        assert(s@ == words@[i as int]@);
        let w = s.to_owned();
        proof {
            lemma_views_push(r@, w);
        }
        r.push(w);
        assert(words@.take(i + 1) =~= words@.take(i as int).push(words@[i as int]));
        assert(views(r@) =~= str_views(words@.take(i + 1)));
    }
    assert(words@.take(words@.len() as int) =~= words@);
    r
}

/// The user's words when the command is not blank, the defaults otherwise.
fn command_words_or(command: &str, defaults: &[&str]) -> (r: Vec<String>)
    ensures
        views(r@) == words_or(command@, str_views(defaults@)),
{
    if is_blank(command) {
        owned_strings(defaults)
    } else {
        split_whitespace(command)
    }
}

/// The invocations each kind of application runs, in order.
pub open spec fn spec_commands(kind: AppKind, command: Seq<char>) -> Seq<(Seq<char>, Seq<Seq<char>>)> {
    match kind {
        AppKind::Cargo => seq![("cargo"@, seq!["build"@]), ("cargo"@, seq!["run"@])],
        AppKind::Npm => seq![("npm"@, split_ws(command))],
        AppKind::Dotnet => seq![("dotnet"@, seq!["run"@] + split_ws(command))],
        AppKind::Maven => seq![("mvn"@, words_or(command, seq!["spring-boot:run"@]))],
        AppKind::Python => seq![("python3"@, words_or(command, seq!["main.py"@]))],
        AppKind::Go => seq![("go"@, seq!["run"@] + words_or(command, seq!["."@]))],
        AppKind::Raw => seq![("sh"@, seq!["-c"@, command])],
    }
}

pub open spec fn commands_view(v: Seq<CommandSpec>) -> Seq<(Seq<char>, Seq<Seq<char>>)> {
    v.map_values(|c: CommandSpec| c@)
}

fn one_word(w: &str) -> (r: Vec<String>)
    ensures
        views(r@) == seq![w@],
{
    let mut r: Vec<String> = Vec::new();
    r.push(w.to_owned());
    assert(views(r@) =~= seq![w@]);
    r
}

fn word_then(w: &str, mut rest: Vec<String>) -> (r: Vec<String>)
    ensures
        views(r@) == seq![w@] + views(rest@),
{
    let mut r = one_word(w);
    let ghost first = r@;
    let ghost tail = rest@;
    r.append(&mut rest);
    assert(views(r@) =~= seq![w@] + views(tail));
    r
}

fn single(program: &str, args: Vec<String>) -> (r: Vec<CommandSpec>)
    ensures
        commands_view(r@) == seq![(program@, views(args@))],
{
    let mut r: Vec<CommandSpec> = Vec::new();
    let c = CommandSpec { program: program.to_owned(), args };
    r.push(c);
    assert(commands_view(r@) =~= seq![(program@, views(args@))]);
    r
}

/// The invocations that launch the application, in order: `cargo build` then
/// `cargo run` for Cargo, one invocation for every other kind.
pub fn build_commands(config: &AppConfig) -> (r: Vec<CommandSpec>)
    ensures
        commands_view(r@) == spec_commands(config.kind, config.command@),
{
    let command = config.command.as_str();
    match config.kind {
        AppKind::Cargo => {
            let mut r: Vec<CommandSpec> = Vec::new();
            r.push(CommandSpec { program: "cargo".to_owned(), args: one_word("build") });
            r.push(CommandSpec { program: "cargo".to_owned(), args: one_word("run") });
            assert(commands_view(r@) =~= spec_commands(config.kind, config.command@));
            r
        },
        AppKind::Npm => single("npm", split_whitespace(command)),
        AppKind::Dotnet => single("dotnet", word_then("run", split_whitespace(command))),
        AppKind::Maven => {
            let d = ["spring-boot:run"];
            assert(str_views(d@) =~= seq!["spring-boot:run"@]);
            single("mvn", command_words_or(command, &d))
        },
        AppKind::Python => {
            let d = ["main.py"];
            assert(str_views(d@) =~= seq!["main.py"@]);
            single("python3", command_words_or(command, &d))
        },
        AppKind::Go => {
            let d = ["."];
            assert(str_views(d@) =~= seq!["."@]);
            single("go", word_then("run", command_words_or(command, &d)))
        },
        AppKind::Raw => {
            let mut args = one_word("-c");
            let ghost first = args@;
            let c = config.command.clone();
            assert(c@ == config.command@);
            proof {
                lemma_views_push(args@, c);
            }
            args.push(c);
            assert(views(args@) =~= seq!["-c"@, config.command@]);
            single("sh", args)
        },
    }
}


/// Whether `s` is the status a run that ended with `result` leaves.
pub open spec fn resolves_to(result: std::io::Result<i32>, stop_requested: bool, s: StatusView) -> bool {
    match result {
        Ok(code) => if stop_requested || code == 0 {
            s == StatusView::Stopped
        } else {
            s == StatusView::Failed("exit code "@ + decimal(code as int))
        },
        Err(e) => exists|t: String|
            #[trigger] to_string_from_display_ensures::<std::io::Error>(&e, t)
                && s == StatusView::Failed("process error: "@ + t@),
    }
}

/// The status a finished run leaves: stopped when the stop was asked for or the
/// exit code is 0, failed with the exit code otherwise, and failed with the
/// error's text when the process could not be run or waited for.
pub fn resolve_final_status(result: &std::io::Result<i32>, stop_requested: bool) -> (r: AppStatus)
    ensures
        resolves_to(*result, stop_requested, r@),
{
    match result {
        Ok(code) => {
            if stop_requested || *code == 0 {
                AppStatus::Stopped
            } else {
                let mut m = "exit code ".to_owned();
                append_decimal(&mut m, *code);
                AppStatus::Failed(m)
            }
        },
        Err(e) => {
            let mut m = "process error: ".to_owned();
            let text = e.to_string();
            m.append(text.as_str());
            assert(m@ == "process error: "@ + text@);
            AppStatus::Failed(m)
        },
    }
}

/// A run ended in a crash, a candidate for automatic restart, when the stop was
/// not asked for and the process did not exit cleanly with code 0.
pub fn is_crash(result: &std::io::Result<i32>, stop_requested: bool) -> (r: bool)
    ensures
        r == (!stop_requested && !(result matches Ok(0))),
{
    if stop_requested {
        return false;
    }
    match result {
        Ok(0) => false,
        _ => true,
    }
}

/// The body of a single-quoted shell word: each `'` becomes `'\''`.
pub open spec fn quote_body(s: Seq<char>) -> Seq<char>
    decreases s.len(),
{
    if s.len() == 0 {
        Seq::empty()
    } else {
        quote_body(s.drop_last()) + (if s.last() == '\'' {
            seq!['\'', '\\', '\'', '\'']
        } else {
            seq![s.last()]
        })
    }
}

/// `value` as one single-quoted shell word.
pub open spec fn shell_quoted(value: Seq<char>) -> Seq<char> {
    seq!['\''] + quote_body(value) + seq!['\'']
}

/// A character a POSIX shell takes literally outside quotes: a letter, a digit,
/// or one of `-_./,:@+%^`.
pub open spec fn is_plain_shell_char(c: char) -> bool {
    ||| ('a' <= c && c <= 'z')
    ||| ('A' <= c && c <= 'Z')
    ||| ('0' <= c && c <= '9')
    ||| c == '-' || c == '_' || c == '.' || c == '/' || c == ',' || c == ':' || c == '@' || c == '+'
        || c == '%' || c == '^'
}

/// The word a POSIX shell reads from `s` when `s` is one word made of plain
/// characters, single-quoted runs and backslash escapes (`quoted`: inside
/// single quotes). Inside single quotes every character but `'` is literal
/// and `'` closes them; outside, `'` opens them, `\` takes the next character
/// literally, and a plain character stands for itself. Anything else (white
/// space, an unquoted special character, an unclosed quote, a trailing `\`)
/// is outside this form and gives `None`.
pub open spec fn read_shell_word(s: Seq<char>, quoted: bool) -> Option<Seq<char>>
    decreases s.len(),
{
    if s.len() == 0 {
        if quoted { None } else { Some(Seq::empty()) }
    } else if quoted {
        if s[0] == '\'' {
            read_shell_word(s.drop_first(), false)
        } else {
            match read_shell_word(s.drop_first(), true) {
                Some(w) => Some(seq![s[0]] + w),
                None => None,
            }
        }
    } else if s[0] == '\'' {
        read_shell_word(s.drop_first(), true)
    } else if s[0] == '\\' && s.len() >= 2 {
        match read_shell_word(s.skip(2), false) {
            Some(w) => Some(seq![s[1]] + w),
            None => None,
        }
    } else if is_plain_shell_char(s[0]) {
        match read_shell_word(s.drop_first(), false) {
            Some(w) => Some(seq![s[0]] + w),
            None => None,
        }
    } else {
        None
    }
}

/// Quotes a value so that a POSIX shell reads it back as one literal word.
pub fn shell_quote(value: &str) -> (r: String)
    ensures
        r@ == shell_quoted(value@),
{
    let v = chars_of(value);
    let mut r = "'".to_owned();
    proof {
        reveal_strlit("'");
        reveal_strlit("'\\''");
    }
    assert(v@.take(0) =~= Seq::<char>::empty());
    for i in 0..v.len()
        invariant
            v@ == value@,
            r@ == seq!['\''] + quote_body(v@.take(i as int)),
    {
        let ghost before = r@;
        proof {
            reveal_strlit("'\\''");
        }
        if v[i] == '\'' {
            r.append("'\\''");
            assert("'\\''"@ =~= seq!['\'', '\\', '\'', '\'']);
        } else {
            let one = value.substring_char(i, i + 1);
            assert(one@ =~= seq![v@[i as int]]);
            r.append(one);
        }
        assert(v@.take(i + 1).drop_last() =~= v@.take(i as int));
        assert(v@.take(i + 1).last() == v@[i as int]);
        assert(r@ =~= seq!['\''] + quote_body(v@.take(i + 1)));
    }
    r.append("'");
    assert(v@.take(v.len() as int) =~= v@);
    assert(r@ =~= shell_quoted(value@));
    r
}

/// The program followed by its arguments.
pub open spec fn words_of(spec: (Seq<char>, Seq<Seq<char>>)) -> Seq<Seq<char>> {
    seq![spec.0] + spec.1
}

/// The line handed to `sh -c` on Unix: every word quoted, separated by spaces.
pub fn shell_command_line(spec: &CommandSpec) -> (r: String)
    ensures
        r@ == join(words_of(spec@).map_values(|w: Seq<char>| shell_quoted(w)), " "@),
{
    let mut quoted: Vec<String> = Vec::new();
    let q = shell_quote(spec.program.as_str());
    proof {
        lemma_views_push(quoted@, q);
    }
    quoted.push(q);
    let n = spec.args.len();
    for i in 0..n
        invariant
            n == spec.args.len(),
            views(quoted@) == words_of(spec@).take(i + 1).map_values(|w: Seq<char>| shell_quoted(w)),
    {
        let q = shell_quote(spec.args[i].as_str());
        proof {
            lemma_views_push(quoted@, q);
        }
        quoted.push(q);
        assert(words_of(spec@).take(i + 2) =~= words_of(spec@).take(i + 1).push(spec@.1[i as int]));
        assert(views(quoted@) =~= words_of(spec@).take(i + 2).map_values(|w: Seq<char>| shell_quoted(w)));
    }
    assert(words_of(spec@).take(n + 1) =~= words_of(spec@));
    join_strings(&quoted, " ")
}

/// The line handed to `cmd.exe /C` on Windows: the words separated by spaces.
pub fn plain_command_line(spec: &CommandSpec) -> (r: String)
    ensures
        r@ == join(words_of(spec@), " "@),
{
    let mut words: Vec<String> = Vec::new();
    let p = spec.program.clone();
    proof {
        lemma_views_push(words@, p);
    }
    words.push(p);
    let n = spec.args.len();
    for i in 0..n
        invariant
            n == spec.args.len(),
            views(words@) == words_of(spec@).take(i + 1),
    {
        let a = spec.args[i].clone();
        proof {
            lemma_views_push(words@, a);
        }
        words.push(a);
        assert(views(words@) =~= words_of(spec@).take(i + 2));
    }
    assert(words_of(spec@).take(n + 1) =~= words_of(spec@));
    join_strings(&words, " ")
}

/// The log line announcing an invocation.
pub fn command_echo(spec: &CommandSpec) -> (r: String)
    ensures
        r@ == "[devtool] $ "@ + spec@.0 + " "@ + join(spec@.1, " "@),
{
    let mut r = "[devtool] $ ".to_owned();
    r.append(spec.program.as_str());
    r.append(" ");
    let args = join_strings(&spec.args, " ");
    r.append(args.as_str());
    r
}


/// What the supervising loop of an application does next.
pub enum RunStep {
    /// Report `status`, then run invocation `command` of `build_commands`.
    Launch { command: usize, status: AppStatus },
    /// Log the crash, wait the restart delay, then ask `after_restart_delay`.
    RestartAfterDelay { command: usize },
    /// Report `status`; the supervision ends.
    Finish { status: AppStatus },
}

/// The first step: Cargo applications build first, the others run at once.
pub fn first_step(kind: AppKind) -> (step: RunStep)
    ensures
        step matches RunStep::Launch { command, status } && command == 0
            && status@ == (if kind == AppKind::Cargo { StatusView::Building } else { StatusView::Running }),
{
    match kind {
        AppKind::Cargo => RunStep::Launch { command: 0, status: AppStatus::Building },
        _ => RunStep::Launch { command: 0, status: AppStatus::Running },
    }
}

/// The step after invocation `command` ended with `result`. The build of a
/// Cargo application ends the supervision when it was stopped or failed, and is
/// followed by the run otherwise. A run that crashed restarts when the
/// application restarts automatically; any other end of a run ends the
/// supervision with the status the run leaves.
pub fn after_command(
    kind: AppKind,
    auto_restart: bool,
    command: usize,
    result: &std::io::Result<i32>,
    stop_requested: bool,
) -> (step: RunStep)
    ensures
        kind == AppKind::Cargo && command == 0 ==> {
            if stop_requested {
                step matches RunStep::Finish { status } && resolves_to(*result, true, status@)
            } else if !(*result matches Ok(0)) {
                step matches RunStep::Finish { status } && resolves_to(*result, false, status@)
            } else {
                step matches RunStep::Launch { command, status } && command == 1 && status@ == StatusView::Running
            }
        },
        !(kind == AppKind::Cargo && command == 0) ==> {
            if auto_restart && !stop_requested && !(*result matches Ok(0)) {
                step matches RunStep::RestartAfterDelay { command: c } && c == command
            } else {
                step matches RunStep::Finish { status } && resolves_to(*result, stop_requested, status@)
            }
        },
{
    if kind == AppKind::Cargo && command == 0 {
        if stop_requested {
            return RunStep::Finish { status: resolve_final_status(result, true) };
        }
        match result {
            Ok(0) => RunStep::Launch { command: 1, status: AppStatus::Running },
            _ => RunStep::Finish { status: resolve_final_status(result, false) },
        }
    } else if auto_restart && is_crash(result, stop_requested) {
        RunStep::RestartAfterDelay { command }
    } else {
        RunStep::Finish { status: resolve_final_status(result, stop_requested) }
    }
}

/// The step after the restart delay: stopped if the stop was asked for in the
/// meantime, the same invocation again otherwise.
pub fn after_restart_delay(command: usize, stop_requested: bool) -> (step: RunStep)
    ensures
        stop_requested ==> (step matches RunStep::Finish { status } && status@ == StatusView::Stopped),
        !stop_requested ==> (step matches RunStep::Launch { command: c, status } && c == command
            && status@ == StatusView::Running),
{
    if stop_requested {
        RunStep::Finish { status: AppStatus::Stopped }
    } else {
        RunStep::Launch { command, status: AppStatus::Running }
    }
}

} // verus!
