//! The command line of the interactive loop: which builtin runs, background
//! and redirection markers, and what the simpler builtins print.

use vstd::prelude::*;
use crate::text::{
    ascii_digit, chars_of, decimal, digit_char, decimal_string, is_ascii_digit, join, join_strings, owned,
    str_eq, trim, trimmed, views,
};

verus! {

/// What a command name runs.
#[derive(PartialEq, Eq, Structural, Debug, Clone, Copy)]
pub enum CommandKind {
    Exit,
    Echo,
    History,
    Declare,
    Type,
    Complete,
    Pwd,
    Cd,
    Jobs,
    /// A program found on the search path.
    External,
}

/// The command that a name runs.
pub open spec fn command_kind_spec(name: Seq<char>) -> CommandKind {
    if name == "exit"@ {
        CommandKind::Exit
    } else if name == "echo"@ {
        CommandKind::Echo
    } else if name == "history"@ {
        CommandKind::History
    } else if name == "declare"@ {
        CommandKind::Declare
    } else if name == "type"@ {
        CommandKind::Type
    } else if name == "complete"@ {
        CommandKind::Complete
    } else if name == "pwd"@ {
        CommandKind::Pwd
    } else if name == "cd"@ {
        CommandKind::Cd
    } else if name == "jobs"@ {
        CommandKind::Jobs
    } else {
        CommandKind::External
    }
}

/// Which command `name` runs.
pub fn command_kind(name: &str) -> (k: CommandKind)
    ensures
        k == command_kind_spec(name@),
{
    if str_eq(name, "exit") {
        CommandKind::Exit
    } else if str_eq(name, "echo") {
        CommandKind::Echo
    } else if str_eq(name, "history") {
        CommandKind::History
    } else if str_eq(name, "declare") {
        CommandKind::Declare
    } else if str_eq(name, "type") {
        CommandKind::Type
    } else if str_eq(name, "complete") {
        CommandKind::Complete
    } else if str_eq(name, "pwd") {
        CommandKind::Pwd
    } else if str_eq(name, "cd") {
        CommandKind::Cd
    } else if str_eq(name, "jobs") {
        CommandKind::Jobs
    } else {
        CommandKind::External
    }
}

/// The names that `type` reports as builtins: at the prompt all nine, in a
/// pipeline the seven that a pipeline runs itself.
#[derive(PartialEq, Eq, Structural, Debug, Clone, Copy)]
pub enum BuiltinSet {
    Prompt,
    Pipeline,
}

/// `name` is one of the builtins of `set`.
pub open spec fn in_builtin_set(set: BuiltinSet, name: Seq<char>) -> bool {
    ||| name == "echo"@
    ||| name == "exit"@
    ||| name == "type"@
    ||| name == "pwd"@
    ||| name == "cd"@
    ||| name == "jobs"@
    ||| name == "declare"@
    ||| (set == BuiltinSet::Prompt && (name == "complete"@ || name == "history"@))
}

/// Whether `name` is a builtin of `set`.
pub fn is_builtin(set: BuiltinSet, name: &str) -> (r: bool)
    ensures
        r == in_builtin_set(set, name@),
{
    str_eq(name, "echo") || str_eq(name, "exit") || str_eq(name, "type") || str_eq(name, "pwd")
        || str_eq(name, "cd") || str_eq(name, "jobs") || str_eq(name, "declare") || (set
        == BuiltinSet::Prompt && (str_eq(name, "complete") || str_eq(name, "history")))
}

/// What `type NAME` prints: that it is a builtin, where the program is, or
/// that it is not found; `found` is where the search path has it.
pub open spec fn type_line_spec(set: BuiltinSet, name: Seq<char>, found: Option<Seq<char>>) -> Seq<char> {
    if in_builtin_set(set, name) {
        name + " is a shell builtin\n"@
    } else {
        match found {
            Some(path) => name + " is "@ + path + "\n"@,
            None => name + ": not found\n"@,
        }
    }
}

/// `type NAME` reports NAME as a shell builtin whenever it is a builtin of
/// the set in use, whatever the search path holds; otherwise it gives the
/// path where the program was found, or says it is not found.
pub proof fn lemma_type_reports_builtins(set: BuiltinSet, name: Seq<char>, found: Option<Seq<char>>)
    ensures
        in_builtin_set(set, name) ==> type_line_spec(set, name, found) == name + " is a shell builtin\n"@,
        !in_builtin_set(set, name) && found is Some ==> type_line_spec(set, name, found) == name + " is "@
            + found->0 + "\n"@,
        !in_builtin_set(set, name) && found is None ==> type_line_spec(set, name, found) == name
            + ": not found\n"@,
{
}

/// At the prompt, `type` knows nine builtins, `history` and `complete`
/// among them; a pipeline knows the seven that it runs itself.
pub proof fn lemma_builtin_sets()
    ensures
        forall|set: BuiltinSet|
            #![trigger in_builtin_set(set, "echo"@)]
            in_builtin_set(set, "echo"@) && in_builtin_set(set, "exit"@) && in_builtin_set(set, "type"@)
                && in_builtin_set(set, "pwd"@) && in_builtin_set(set, "cd"@) && in_builtin_set(set, "jobs"@)
                && in_builtin_set(set, "declare"@),
        in_builtin_set(BuiltinSet::Prompt, "history"@),
        in_builtin_set(BuiltinSet::Prompt, "complete"@),
{
}

/// The line that `type` prints for `name`.
pub fn type_line(set: BuiltinSet, name: &str, found: Option<&str>) -> (r: String)
    ensures
        r@ == type_line_spec(
            set,
            name@,
            match found {
                Some(p) => Some(p@),
                None => None,
            },
        ),
{
    let mut r = owned(name);
    if is_builtin(set, name) {
        r.append(" is a shell builtin\n");
    } else {
        match found {
            Some(path) => {
                r.append(" is ");
                r.append(path);
                r.append("\n");
            },
            None => {
                r.append(": not found\n");
            },
        }
    }
    r
}

/// What `echo` prints: its arguments separated by spaces, and a line end.
pub open spec fn echo_line_spec(args: Seq<Seq<char>>) -> Seq<char> {
    join(args, " "@) + "\n"@
}

/// The line that `echo` prints.
pub fn echo_line(args: &[String]) -> (r: String)
    ensures
        r@ == echo_line_spec(views(args@)),
{
    let mut r = join_strings(args, " ");
    r.append("\n");
    r
}

/// Splits a trailing `&` off the arguments: the command then runs in the
/// background.
pub fn split_background(parts: &Vec<String>) -> (r: (Vec<String>, bool))
    ensures
        r.1 == (parts@.len() > 0 && parts@.last()@ == "&"@),
        views(r.0@) == if r.1 { views(parts@).drop_last() } else { views(parts@) },
{
    let mut v = parts.clone();
    assert(v@ =~= parts@);
    let n = v.len();
    if n > 0 && str_eq(v[n - 1].as_str(), "&") {
        v.pop();
        assert(views(v@) == views(parts@).drop_last());
        (v, true)
    } else {
        (v, false)
    }
}

/// Where the command's output and error output go.
pub struct Redirection {
    pub stdout_file: Option<String>,
    pub append_stdout: bool,
    pub stderr_file: Option<String>,
    pub append_stderr: bool,
}

/// The arguments and redirections read so far.
pub struct RedirScan {
    pub args: Seq<Seq<char>>,
    pub stdout_file: Option<Seq<char>>,
    pub append_stdout: bool,
    pub stderr_file: Option<Seq<char>>,
    pub append_stderr: bool,
}

/// `>` or `1>`: output to a file.
pub open spec fn is_stdout_op(p: Seq<char>) -> bool {
    p == ">"@ || p == "1>"@
}

/// `>>` or `1>>`: output appended to a file.
pub open spec fn is_stdout_append_op(p: Seq<char>) -> bool {
    p == ">>"@ || p == "1>>"@
}

/// Any of the redirection operators.
pub open spec fn is_redirection_op(p: Seq<char>) -> bool {
    is_stdout_op(p) || is_stdout_append_op(p) || p == "2>"@ || p == "2>>"@
}

/// Reads `parts` from position `idx`: `>` and `1>` send output to the next
/// part, `>>` and `1>>` append output to it, `2>` and `2>>` do the same for
/// error output; a later redirection replaces an earlier one, and once set,
/// appending stays set. Other parts are arguments.
pub open spec fn redir_scan(parts: Seq<Seq<char>>, idx: int, st: RedirScan) -> RedirScan
    decreases parts.len() - idx + 1,
{
    if idx < 0 || idx >= parts.len() {
        st
    } else {
        let p = parts[idx];
        if is_stdout_op(p) {
            redir_scan(parts, idx + 2, RedirScan { stdout_file: Some(parts[idx + 1]), ..st })
        } else if is_stdout_append_op(p) {
            redir_scan(parts, idx + 2, RedirScan { stdout_file: Some(parts[idx + 1]), append_stdout: true, ..st })
        } else if p == "2>"@ {
            redir_scan(parts, idx + 2, RedirScan { stderr_file: Some(parts[idx + 1]), ..st })
        } else if p == "2>>"@ {
            redir_scan(parts, idx + 2, RedirScan { stderr_file: Some(parts[idx + 1]), append_stderr: true, ..st })
        } else {
            redir_scan(parts, idx + 1, RedirScan { args: st.args.push(p), ..st })
        }
    }
}

/// Every redirection operator read from position `idx` on has a part after it.
pub open spec fn redirections_complete_from(parts: Seq<Seq<char>>, idx: int) -> bool
    decreases parts.len() - idx + 1,
{
    if idx < 0 || idx >= parts.len() {
        true
    } else if is_redirection_op(parts[idx]) {
        idx + 1 < parts.len() && redirections_complete_from(parts, idx + 2)
    } else {
        redirections_complete_from(parts, idx + 1)
    }
}

/// No argument and no redirection yet.
pub open spec fn no_redirection() -> RedirScan {
    RedirScan { args: Seq::empty(), stdout_file: None, append_stdout: false, stderr_file: None, append_stderr: false }
}

fn redirection_op(p: &str) -> (r: u8)
    ensures
        r == (if is_stdout_op(p@) { 1u8 } else if is_stdout_append_op(p@) { 2u8 } else if p@ == "2>"@ { 3u8 } else if p@ == "2>>"@ { 4u8 } else { 0u8 }),
{
    if str_eq(p, ">") || str_eq(p, "1>") {
        1
    } else if str_eq(p, ">>") || str_eq(p, "1>>") {
        2
    } else if str_eq(p, "2>") {
        3
    } else if str_eq(p, "2>>") {
        4
    } else {
        0
    }
}

/// Whether every redirection operator after the command name has a file
/// name after it.
pub fn redirections_complete(parts: &[String]) -> (r: bool)
    ensures
        r == redirections_complete_from(views(parts@), 1),
{
    let ghost ps = views(parts@);
    let mut idx: usize = 1;
    while idx < parts.len()
        invariant
            ps == views(parts@),
            idx >= 1,
            redirections_complete_from(ps, 1) == redirections_complete_from(ps, idx as int),
        decreases parts.len() - idx,
    {
        assert(ps[idx as int] == parts@[idx as int]@);
        if redirection_op(parts[idx].as_str()) != 0 {
            if idx + 1 >= parts.len() {
                return false;
            }
            idx += 2;
        } else {
            idx += 1;
        }
    }
    true
}

/// `st` with arguments `args`.
pub open spec fn with_args(st: RedirScan, args: Seq<Seq<char>>) -> RedirScan {
    RedirScan { args, ..st }
}

proof fn lemma_plain_scan(parts: Seq<Seq<char>>, idx: int, st: RedirScan)
    requires
        0 <= idx <= parts.len(),
        forall|k: int| idx <= k < parts.len() ==> !is_redirection_op(#[trigger] parts[k]),
    ensures
        redir_scan(parts, idx, st) == with_args(st, st.args + parts.skip(idx)),
    decreases parts.len() - idx,
{
    if idx < parts.len() {
        assert(!is_redirection_op(parts[idx]));
        lemma_plain_scan(parts, idx + 1, with_args(st, st.args.push(parts[idx])));
        assert(st.args.push(parts[idx]) + parts.skip(idx + 1) == st.args + parts.skip(idx));
    } else {
        assert(st.args + parts.skip(idx) == st.args);
    }
}

/// Without redirection operators, every part after the command name is an
/// argument and nothing is redirected.
pub proof fn lemma_no_redirection(parts: Seq<Seq<char>>)
    requires
        parts.len() >= 1,
        forall|k: int| 1 <= k < parts.len() ==> !is_redirection_op(#[trigger] parts[k]),
    ensures
        redirections_complete_from(parts, 1),
        redir_scan(parts, 1, no_redirection()) == with_args(no_redirection(), parts.drop_first()),
{
    lemma_plain_scan(parts, 1, no_redirection());
    assert(Seq::<Seq<char>>::empty() + parts.skip(1) == parts.drop_first());
    lemma_plain_complete(parts, 1);
}

proof fn lemma_plain_complete(parts: Seq<Seq<char>>, idx: int)
    requires
        0 <= idx <= parts.len(),
        forall|k: int| idx <= k < parts.len() ==> !is_redirection_op(#[trigger] parts[k]),
    ensures
        redirections_complete_from(parts, idx),
    decreases parts.len() - idx,
{
    if idx < parts.len() {
        assert(!is_redirection_op(parts[idx]));
        lemma_plain_complete(parts, idx + 1);
    }
}

proof fn lemma_scan_append_kept(parts: Seq<Seq<char>>, idx: int, st: RedirScan)
    ensures
        st.append_stdout ==> redir_scan(parts, idx, st).append_stdout,
        st.append_stderr ==> redir_scan(parts, idx, st).append_stderr,
    decreases parts.len() - idx + 1,
{
    if 0 <= idx < parts.len() {
        let p = parts[idx];
        if is_stdout_op(p) {
            lemma_scan_append_kept(parts, idx + 2, RedirScan { stdout_file: Some(parts[idx + 1]), ..st });
        } else if is_stdout_append_op(p) {
            lemma_scan_append_kept(parts, idx + 2, RedirScan { stdout_file: Some(parts[idx + 1]), append_stdout: true, ..st });
        } else if p == "2>"@ {
            lemma_scan_append_kept(parts, idx + 2, RedirScan { stderr_file: Some(parts[idx + 1]), ..st });
        } else if p == "2>>"@ {
            lemma_scan_append_kept(parts, idx + 2, RedirScan { stderr_file: Some(parts[idx + 1]), append_stderr: true, ..st });
        } else {
            lemma_scan_append_kept(parts, idx + 1, with_args(st, st.args.push(p)));
        }
    }
}

proof fn lemma_scan_no_append(parts: Seq<Seq<char>>, idx: int, st: RedirScan)
    requires
        0 <= idx,
    ensures
        (forall|k: int| idx <= k < parts.len() ==> !is_stdout_append_op(#[trigger] parts[k]))
            ==> redir_scan(parts, idx, st).append_stdout == st.append_stdout,
        (forall|k: int| idx <= k < parts.len() ==> #[trigger] parts[k] != "2>>"@)
            ==> redir_scan(parts, idx, st).append_stderr == st.append_stderr,
    decreases parts.len() - idx + 1,
{
    if idx < parts.len() {
        let p = parts[idx];
        if is_stdout_op(p) {
            lemma_scan_no_append(parts, idx + 2, RedirScan { stdout_file: Some(parts[idx + 1]), ..st });
        } else if is_stdout_append_op(p) {
            lemma_scan_no_append(parts, idx + 2, RedirScan { stdout_file: Some(parts[idx + 1]), append_stdout: true, ..st });
        } else if p == "2>"@ {
            lemma_scan_no_append(parts, idx + 2, RedirScan { stderr_file: Some(parts[idx + 1]), ..st });
        } else if p == "2>>"@ {
            lemma_scan_no_append(parts, idx + 2, RedirScan { stderr_file: Some(parts[idx + 1]), append_stderr: true, ..st });
        } else {
            lemma_scan_no_append(parts, idx + 1, with_args(st, st.args.push(p)));
        }
    }
}

/// Output is appended only when an appending operator (`>>` or `1>>`)
/// appears after the command name, and error output only when `2>>` does:
/// with `>`, `1>` or `2>` alone the files are overwritten.
pub proof fn lemma_append_needs_append_operator(parts: Seq<Seq<char>>)
    ensures
        (forall|k: int| 1 <= k < parts.len() ==> !is_stdout_append_op(#[trigger] parts[k]))
            ==> !redir_scan(parts, 1, no_redirection()).append_stdout,
        (forall|k: int| 1 <= k < parts.len() ==> #[trigger] parts[k] != "2>>"@)
            ==> !redir_scan(parts, 1, no_redirection()).append_stderr,
{
    lemma_scan_no_append(parts, 1, no_redirection());
}

/// `>>` or `1>>` as the first operator after the command name makes output
/// go to the part after it and appends, whatever follows; a later `>`
/// may change the file but not back to overwriting.
pub proof fn lemma_append_operator_appends(parts: Seq<Seq<char>>, k: int)
    requires
        1 <= k,
        k + 1 < parts.len(),
        is_stdout_append_op(parts[k]),
        forall|j: int| 1 <= j < k ==> !is_redirection_op(#[trigger] parts[j]),
    ensures
        redir_scan(parts, 1, no_redirection()).append_stdout,
        redir_scan(parts, 1, no_redirection()).stdout_file is Some,
{
    lemma_scan_prefix_plain(parts, 1, k, no_redirection());
    assert(Seq::<Seq<char>>::empty() + parts.subrange(1, k) == parts.subrange(1, k));
    let st = with_args(no_redirection(), parts.subrange(1, k));
    let next = RedirScan { stdout_file: Some(parts[k + 1]), append_stdout: true, ..st };
    assert(!is_stdout_op(parts[k])) by {
        reveal_strlit(">");
        reveal_strlit("1>");
        reveal_strlit(">>");
        reveal_strlit("1>>");
        if parts[k] == ">>"@ {
            assert(">>"@.len() != ">"@.len());
            assert(">>"@[0] != "1>"@[0]);
        } else {
            assert("1>>"@.len() != ">"@.len());
            assert("1>>"@.len() != "1>"@.len());
        }
    }
    assert(redir_scan(parts, k, st) == redir_scan(parts, k + 2, next));
    lemma_scan_append_kept(parts, k + 2, next);
    lemma_scan_file_kept(parts, k + 2, next);
}

proof fn lemma_scan_prefix_plain(parts: Seq<Seq<char>>, idx: int, k: int, st: RedirScan)
    requires
        0 <= idx <= k <= parts.len(),
        forall|j: int| idx <= j < k ==> !is_redirection_op(#[trigger] parts[j]),
    ensures
        redir_scan(parts, idx, st) == redir_scan(parts, k, with_args(st, st.args + parts.subrange(idx, k))),
    decreases k - idx,
{
    if idx < k {
        assert(!is_redirection_op(parts[idx]));
        lemma_scan_prefix_plain(parts, idx + 1, k, with_args(st, st.args.push(parts[idx])));
        assert(st.args.push(parts[idx]) + parts.subrange(idx + 1, k) == st.args + parts.subrange(idx, k));
    } else {
        assert(st.args + parts.subrange(idx, k) == st.args);
        assert(with_args(st, st.args) == st);
    }
}

proof fn lemma_scan_file_kept(parts: Seq<Seq<char>>, idx: int, st: RedirScan)
    ensures
        st.stdout_file is Some ==> redir_scan(parts, idx, st).stdout_file is Some,
        st.stderr_file is Some ==> redir_scan(parts, idx, st).stderr_file is Some,
    decreases parts.len() - idx + 1,
{
    if 0 <= idx < parts.len() {
        let p = parts[idx];
        if is_stdout_op(p) {
            lemma_scan_file_kept(parts, idx + 2, RedirScan { stdout_file: Some(parts[idx + 1]), ..st });
        } else if is_stdout_append_op(p) {
            lemma_scan_file_kept(parts, idx + 2, RedirScan { stdout_file: Some(parts[idx + 1]), append_stdout: true, ..st });
        } else if p == "2>"@ {
            lemma_scan_file_kept(parts, idx + 2, RedirScan { stderr_file: Some(parts[idx + 1]), ..st });
        } else if p == "2>>"@ {
            lemma_scan_file_kept(parts, idx + 2, RedirScan { stderr_file: Some(parts[idx + 1]), append_stderr: true, ..st });
        } else {
            lemma_scan_file_kept(parts, idx + 1, with_args(st, st.args.push(p)));
        }
    }
}

/// `CMD ARGS... > FILE` (or `1>`), with no other operator: the arguments
/// are those before `>`, output goes to FILE, overwriting it, and error
/// output is not redirected.
pub proof fn lemma_overwrite_redirection(parts: Seq<Seq<char>>)
    requires
        parts.len() >= 3,
        is_stdout_op(parts[parts.len() - 2]),
        forall|j: int| 1 <= j < parts.len() - 2 ==> !is_redirection_op(#[trigger] parts[j]),
    ensures
        redir_scan(parts, 1, no_redirection()).args == parts.subrange(1, parts.len() - 2),
        redir_scan(parts, 1, no_redirection()).stdout_file == Some(parts.last()),
        !redir_scan(parts, 1, no_redirection()).append_stdout,
        redir_scan(parts, 1, no_redirection()).stderr_file is None,
        !redir_scan(parts, 1, no_redirection()).append_stderr,
{
    let k = parts.len() - 2;
    lemma_scan_prefix_plain(parts, 1, k, no_redirection());
    assert(Seq::<Seq<char>>::empty() + parts.subrange(1, k) == parts.subrange(1, k));
    let st = with_args(no_redirection(), parts.subrange(1, k));
    let next = RedirScan { stdout_file: Some(parts[k + 1]), ..st };
    assert(redir_scan(parts, k, st) == redir_scan(parts, k + 2, next));
    assert(redir_scan(parts, k + 2, next) == next);
}

/// The arguments and redirections after the command name `parts[0]`.
pub fn parse_redirections(parts: &[String]) -> (r: (Vec<String>, Redirection))
    requires
        redirections_complete_from(views(parts@), 1),
    ensures
        ({
            let s = redir_scan(views(parts@), 1, no_redirection());
            &&& views(r.0@) == s.args
            &&& (match r.1.stdout_file { Some(f) => Some(f@), None => None }) == s.stdout_file
            &&& r.1.append_stdout == s.append_stdout
            &&& (match r.1.stderr_file { Some(f) => Some(f@), None => None }) == s.stderr_file
            &&& r.1.append_stderr == s.append_stderr
        }),
{
    let ghost ps = views(parts@);
    let mut args: Vec<String> = Vec::new();
    let mut stdout_file: Option<String> = None;
    let mut append_stdout = false;
    let mut stderr_file: Option<String> = None;
    let mut append_stderr = false;
    let mut idx: usize = 1;
    assert(views(args@) =~= Seq::<Seq<char>>::empty());
    while idx < parts.len()
        invariant
            ps == views(parts@),
            idx >= 1,
            redirections_complete_from(ps, idx as int),
            redir_scan(ps, 1, no_redirection()) == redir_scan(
                ps,
                idx as int,
                RedirScan {
                    args: views(args@),
                    stdout_file: match stdout_file { Some(f) => Some(f@), None => None },
                    append_stdout,
                    stderr_file: match stderr_file { Some(f) => Some(f@), None => None },
                    append_stderr,
                },
            ),
        decreases parts.len() - idx,
    {
        assert(ps[idx as int] == parts@[idx as int]@);
        let op = redirection_op(parts[idx].as_str());
        if op != 0 {
            assert(ps[idx + 1] == parts@[idx + 1]@);
            let target = parts[idx + 1].clone();
            if op == 1 || op == 2 {
                stdout_file = Some(target);
                if op == 2 {
                    append_stdout = true;
                }
            } else {
                stderr_file = Some(target);
                if op == 4 {
                    append_stderr = true;
                }
            }
            idx += 2;
        } else {
            let ghost before = args@;
            args.push(parts[idx].clone());
            assert(views(args@) == views(before).push(ps[idx as int]));
            idx += 1;
        }
    }
    (args, Redirection { stdout_file, append_stdout, stderr_file, append_stderr })
}

/// What `cd` does with its arguments.
pub enum CdTarget {
    /// No argument: nothing.
    Stay,
    /// `~`: the home directory.
    Home,
    /// Any other directory.
    Dir(String),
}

/// The directory that `cd` changes to.
pub fn cd_target(args: &[String]) -> (r: CdTarget)
    ensures
        args@.len() == 0 <==> r is Stay,
        args@.len() > 0 && args@[0]@ == "~"@ <==> r is Home,
        r matches CdTarget::Dir(d) ==> d@ == args@[0]@,
{
    if args.len() == 0 {
        CdTarget::Stay
    } else if str_eq(args[0].as_str(), "~") {
        CdTarget::Home
    } else {
        CdTarget::Dir(args[0].clone())
    }
}

/// The value of a string of decimal digits.
pub open spec fn digits_value(s: Seq<char>) -> nat
    decreases s.len(),
{
    if s.len() == 0 {
        0
    } else {
        digits_value(s.drop_last()) * 10 + ((s.last() as u32) - ('0' as u32)) as nat
    }
}

/// Every character of `d` is an ASCII digit.
pub open spec fn all_digits(d: Seq<char>) -> bool {
    forall|k: int| 0 <= k < d.len() ==> is_ascii_digit(#[trigger] d[k])
}

/// What parsing `s` as a `usize` gives (as `str::parse::<usize>` does): an
/// optional `+`, then at least one ASCII digit and nothing else, with a
/// value that fits.
pub open spec fn parse_usize_spec(s: Seq<char>) -> Option<usize> {
    let d = if s.len() > 0 && s[0] == '+' { s.drop_first() } else { s };
    if d.len() > 0 && all_digits(d) && digits_value(d) <= usize::MAX {
        Some(digits_value(d) as usize)
    } else {
        None
    }
}

proof fn lemma_digits_value_grows(s: Seq<char>, j: int)
    requires
        0 <= j <= s.len(),
        forall|k: int| 0 <= k < s.len() ==> is_ascii_digit(#[trigger] s[k]),
    ensures
        digits_value(s.take(j)) <= digits_value(s),
    decreases s.len(),
{
    if j < s.len() {
        assert(s.drop_last().take(j) == s.take(j));
        lemma_digits_value_grows(s.drop_last(), j);
    } else {
        assert(s.take(j) == s);
    }
}

/// Parses `s` as a `usize`, as `parse_usize_spec` says.
pub fn parse_usize(s: &str) -> (r: Option<usize>)
    ensures
        r == parse_usize_spec(s@),
{
    let v = chars_of(s);
    let start: usize = if v.len() > 0 && v[0] == '+' { 1 } else { 0 };
    let ghost d = if s@.len() > 0 && s@[0] == '+' { s@.drop_first() } else { s@ };
    assert(d == v@.subrange(start as int, v@.len() as int));
    if start >= v.len() {
        assert(d.len() == 0);
        return None;
    }
    let mut k = start;
    while k < v.len()
        invariant
            start <= k <= v.len(),
            d == v@.subrange(start as int, v@.len() as int),
            d == (if s@.len() > 0 && s@[0] == '+' { s@.drop_first() } else { s@ }),
            forall|q: int| 0 <= q < k - start ==> is_ascii_digit(#[trigger] d[q]),
        decreases v.len() - k,
    {
        if !ascii_digit(v[k]) {
            assert(!is_ascii_digit(d[k - start]));
            return None;
        }
        k += 1;
    }
    let mut value: usize = 0;
    let mut k = start;
    while k < v.len()
        invariant
            start <= k <= v.len(),
            d == v@.subrange(start as int, v@.len() as int),
            d == (if s@.len() > 0 && s@[0] == '+' { s@.drop_first() } else { s@ }),
            forall|q: int| 0 <= q < d.len() ==> is_ascii_digit(#[trigger] d[q]),
            value == digits_value(d.take(k - start)),
        decreases v.len() - k,
    {
        let c = v[k];
        assert(d[k - start] == c);
        assert(d.take(k - start + 1).drop_last() == d.take(k - start));
        assert(d.take(k - start + 1).last() == c);
        let dig = (c as u32 - '0' as u32) as usize;
        proof {
            lemma_digits_value_grows(d, k - start + 1);
        }
        match value.checked_mul(10) {
            None => {
                return None;
            },
            Some(m) => match m.checked_add(dig) {
                None => {
                    return None;
                },
                Some(nv) => {
                    value = nv;
                },
            },
        }
        k += 1;
    }
    assert(d.take(d.len() as int) == d);
    Some(value)
}

proof fn lemma_decimal_digits(n: nat)
    ensures
        decimal(n).len() > 0,
        all_digits(decimal(n)),
        digits_value(decimal(n)) == n,
    decreases n,
{
    let c = digit_char(n % 10);
    assert((c as u32) == ('0' as u32) + n % 10);
    if n >= 10 {
        lemma_decimal_digits(n / 10);
        let s = decimal(n / 10);
        assert(decimal(n) == s.push(c));
        assert(s.push(c).drop_last() == s);
        assert(s.push(c).last() == c);
        assert(digits_value(s.push(c)) == digits_value(s) * 10 + n % 10);
        assert((n / 10) * 10 + n % 10 == n) by (nonlinear_arith);
        assert forall|k: int| 0 <= k < s.len() + 1 implies is_ascii_digit(#[trigger] s.push(c)[k]) by {
            if k < s.len() {
                assert(s.push(c)[k] == s[k]);
            }
        }
    } else {
        assert(seq![c].drop_last() == Seq::<char>::empty());
        assert(seq![c].last() == c);
        assert(digits_value(Seq::<char>::empty()) == 0);
        assert(digits_value(seq![c]) == n % 10);
    }
}

/// Parsing the decimal representation of a number gives the number back.
pub proof fn lemma_parse_decimal(n: usize)
    ensures
        parse_usize_spec(decimal(n as nat)) == Some(n),
{
    lemma_decimal_digits(n as nat);
    let d = decimal(n as nat);
    assert(is_ascii_digit(d[0]));
}

/// What the `history` builtin is asked to do.
pub enum HistoryCommand {
    /// `-a FILE`: append the entries added since the last append or read.
    Append(String),
    /// `-r FILE`: add the nonblank lines of the file.
    Read(String),
    /// `-w FILE`: write all entries.
    Write(String),
    /// List the last entries (all, or as many as the first argument says).
    List,
}

/// What `history` does with its arguments.
pub fn history_command(args: &[String]) -> (r: HistoryCommand)
    ensures
        args@.len() >= 2 && args@[0]@ == "-a"@ ==> (r matches HistoryCommand::Append(f) && f@ == args@[1]@),
        args@.len() >= 2 && args@[0]@ != "-a"@ && args@[0]@ == "-r"@ ==> (r matches HistoryCommand::Read(f) && f@ == args@[1]@),
        args@.len() >= 2 && args@[0]@ != "-a"@ && args@[0]@ != "-r"@ && args@[0]@ == "-w"@ ==> (r matches HistoryCommand::Write(f) && f@ == args@[1]@),
        !(args@.len() >= 2 && (args@[0]@ == "-a"@ || args@[0]@ == "-r"@ || args@[0]@ == "-w"@)) ==> r is List,
{
    if args.len() >= 2 && str_eq(args[0].as_str(), "-a") {
        HistoryCommand::Append(args[1].clone())
    } else if args.len() >= 2 && str_eq(args[0].as_str(), "-r") {
        HistoryCommand::Read(args[1].clone())
    } else if args.len() >= 2 && str_eq(args[0].as_str(), "-w") {
        HistoryCommand::Write(args[1].clone())
    } else {
        HistoryCommand::List
    }
}

/// How many of the last entries `history` lists: the number given as first
/// argument, or all of them when there is none or it does not parse.
pub open spec fn history_limit(args: Seq<Seq<char>>, total: nat) -> nat {
    if args.len() > 0 {
        match parse_usize_spec(args[0]) {
            Some(n) => n as nat,
            None => total,
        }
    } else {
        total
    }
}

/// The position of the first listed entry.
pub open spec fn history_skip(args: Seq<Seq<char>>, total: nat) -> nat {
    if history_limit(args, total) >= total {
        0
    } else {
        (total - history_limit(args, total)) as nat
    }
}

/// The line for entry `i`: its number from one, a space, the entry.
pub open spec fn history_entry_line(entries: Seq<Seq<char>>, i: int) -> Seq<char> {
    decimal((i + 1) as nat) + " "@ + entries[i] + "\n"@
}

/// Without an argument, or with one that is not a number, `history` lists
/// every entry.
pub proof fn lemma_history_lists_all(args: Seq<Seq<char>>, total: nat)
    requires
        args.len() == 0 || (parse_usize_spec(args[0]) is None),
    ensures
        history_skip(args, total) == 0,
{
}

/// The lines that `history` lists: the last entries, each with its number.
pub fn history_lines(entries: &[String], args: &[String]) -> (r: Vec<String>)
    ensures
        r@.len() == entries@.len() - history_skip(views(args@), entries@.len()),
        forall|k: int|
            0 <= k < r@.len() ==> (#[trigger] r@[k])@ == history_entry_line(
                views(entries@),
                history_skip(views(args@), entries@.len()) + k,
            ),
{
    let total = entries.len();
    let limit = if args.len() > 0 {
        match parse_usize(args[0].as_str()) {
            Some(n) => n,
            None => total,
        }
    } else {
        total
    };
    proof {
        assert(args@.len() > 0 ==> views(args@)[0] == args@[0]@);
    }
    let skip = total.saturating_sub(limit);
    let mut r: Vec<String> = Vec::new();
    let mut i = skip;
    while i < total
        invariant
            skip <= i <= total == entries@.len(),
            skip == history_skip(views(args@), total as nat),
            r@.len() == i - skip,
            forall|k: int|
                0 <= k < r@.len() ==> (#[trigger] r@[k])@ == history_entry_line(views(entries@), skip + k),
        decreases total - i,
    {
        let mut line = decimal_string(i + 1);
        line.append(" ");
        line.append(entries[i].as_str());
        line.append("\n");
        assert(views(entries@)[i as int] == entries@[i as int]@);
        r.push(line);
        i += 1;
    }
    r
}

/// A line read from a history file is kept when it is not blank.
pub fn is_blank(line: &str) -> (r: bool)
    ensures
        r == (trimmed(line@).len() == 0),
{
    trim(line).as_str().is_empty()
}

/// A file is run as a program when some execute permission bit is set.
pub open spec fn executable_mode(mode: u32) -> bool {
    mode & 0o111u32 != 0
}

/// A candidate that exists with an execute bit.
pub open spec fn runnable(c: Option<u32>) -> bool {
    match c {
        Some(m) => executable_mode(m),
        None => false,
    }
}

/// The first candidate on the search path that exists with an execute bit:
/// `candidates[i]` is the permission bits of the file in the `i`-th
/// directory, or `None` when there is no such file.
pub fn first_executable(candidates: &[Option<u32>]) -> (r: Option<usize>)
    ensures
        r matches Some(i) ==> i < candidates@.len() && runnable(candidates@[i as int]) && forall|j: int|
            0 <= j < i ==> !runnable(#[trigger] candidates@[j]),
        r is None ==> forall|j: int| 0 <= j < candidates@.len() ==> !runnable(#[trigger] candidates@[j]),
{
    let mut i: usize = 0;
    while i < candidates.len()
        invariant
            i <= candidates@.len(),
            forall|j: int| 0 <= j < i ==> !runnable(#[trigger] candidates@[j]),
        decreases candidates.len() - i,
    {
        match candidates[i] {
            Some(mode) => {
                if mode & 0o111u32 != 0 {
                    return Some(i);
                }
            },
            None => {},
        }
        i += 1;
    }
    None
}

} // verus!
