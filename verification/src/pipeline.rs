//! Pipelines: splitting a line at `|`, and how each stage is run and
//! connected to the next.

use vstd::prelude::*;
use crate::args::{arguments, parse_arguments};
use crate::command::{echo_line, echo_line_spec, in_builtin_set, is_builtin, type_line, type_line_spec, BuiltinSet};
use crate::text::{chars_of, owned, str_eq, string_of, views};
use crate::vars::{declare_effect, execute_declare, StringTable};

verus! {

/// The pieces of `s` between occurrences of `c`, empty ones included (what
/// `str::split` gives for a character).
pub open spec fn split_pieces(s: Seq<char>, c: char) -> Seq<Seq<char>>
    decreases s.len(),
{
    if s.len() == 0 {
        seq![Seq::empty()]
    } else {
        let p = split_pieces(s.drop_last(), c);
        if s.last() == c {
            p.push(Seq::empty())
        } else {
            p.update(p.len() - 1, p.last().push(s.last()))
        }
    }
}

proof fn lemma_split_pieces_nonempty(s: Seq<char>, c: char)
    ensures
        split_pieces(s, c).len() >= 1,
    decreases s.len(),
{
    if s.len() > 0 {
        lemma_split_pieces_nonempty(s.drop_last(), c);
    }
}

/// The pieces of `s` between occurrences of `c`.
pub fn split_at_char(s: &str, c: char) -> (r: Vec<String>)
    ensures
        views(r@) == split_pieces(s@, c),
{
    let v = chars_of(s);
    let mut pieces: Vec<String> = Vec::new();
    let mut cur: Vec<char> = Vec::new();
    let mut i: usize = 0;
    while i < v.len()
        invariant
            i <= v.len(),
            v@ == s@,
            views(pieces@).push(cur@) == split_pieces(v@.take(i as int), c),
        decreases v.len() - i,
    {
        proof {
            assert(v@.take(i + 1).drop_last() == v@.take(i as int));
            assert(v@.take(i + 1).last() == v@[i as int]);
            lemma_split_pieces_nonempty(v@.take(i as int), c);
        }
        let ch = v[i];
        if ch == c {
            let w = string_of(&cur);
            let ghost before = pieces@;
            pieces.push(w);
            proof {
                assert(views(pieces@) == views(before).push(w@));
                assert(views(pieces@).push(Seq::<char>::empty()) == views(before).push(cur@).push(Seq::<char>::empty()));
            }
            cur = Vec::new();
            assert(cur@ == Seq::<char>::empty());
        } else {
            let ghost old_cur = cur@;
            cur.push(ch);
            proof {
                let p = views(pieces@).push(old_cur);
                assert(views(pieces@).push(cur@) == p.update(p.len() - 1, p.last().push(ch)));
            }
        }
        i += 1;
    }
    assert(v@.take(v@.len() as int) == v@);
    let w = string_of(&cur);
    let ghost before = pieces@;
    pieces.push(w);
    assert(views(pieces@) == views(before).push(cur@));
    pieces
}

/// How a stage of a pipeline is run.
#[derive(PartialEq, Eq, Structural, Debug, Clone, Copy)]
pub enum StageKind {
    /// No command in it: skipped.
    Skip,
    /// A builtin of the pipeline set, run by the shell.
    Builtin,
    /// A program.
    External,
}

/// Where a program of a pipeline reads its input.
#[derive(PartialEq, Eq, Structural, Debug, Clone, Copy)]
pub enum StageInput {
    /// The shell's own input.
    Inherit,
    /// The output of the previous program.
    Previous,
    /// The output of the last builtin, written to it by the shell.
    Buffer,
}

/// A stage of a pipeline: how it runs, its command and arguments, where a
/// program reads, and whether its output goes on to the next stage (for a
/// builtin: is kept for the next program) instead of the shell's output.
pub struct PlannedStage {
    pub kind: StageKind,
    pub name: String,
    pub args: Vec<String>,
    pub input: StageInput,
    pub pipe_output: bool,
}

/// A stage, with strings as character sequences.
pub struct StageView {
    pub kind: StageKind,
    pub name: Seq<char>,
    pub args: Seq<Seq<char>>,
    pub input: StageInput,
    pub pipe_output: bool,
}

/// A stage, with strings as character sequences.
pub open spec fn stage_view(st: PlannedStage) -> StageView {
    StageView { kind: st.kind, name: st.name@, args: views(st.args@), input: st.input, pipe_output: st.pipe_output }
}

/// The stages, with strings as character sequences.
pub open spec fn stage_views(v: Seq<PlannedStage>) -> Seq<StageView> {
    v.map_values(|st: PlannedStage| stage_view(st))
}

/// The stages from piece `i` on, given whether a builtin's output waits for
/// the next program (`buffered`) and whether the previous program's output
/// does (`previous`). A stage without a command is skipped. A builtin's
/// output goes to the shell's output in the last stage, else it waits. A
/// program reads the waiting builtin output, else the waiting program
/// output, else the shell's input; its output waits for the next stage
/// unless it is the last.
pub open spec fn plan_from(pieces: Seq<Seq<char>>, i: int, buffered: bool, previous: bool) -> Seq<StageView>
    decreases pieces.len() - i,
{
    if i < 0 || i >= pieces.len() {
        Seq::empty()
    } else {
        let a = arguments(pieces[i]);
        let last = i == pieces.len() - 1;
        if a.len() == 0 {
            seq![StageView { kind: StageKind::Skip, name: Seq::empty(), args: Seq::empty(), input: StageInput::Inherit, pipe_output: false }]
                + plan_from(pieces, i + 1, buffered, previous)
        } else if in_builtin_set(BuiltinSet::Pipeline, a[0]) {
            seq![StageView { kind: StageKind::Builtin, name: a[0], args: a.drop_first(), input: StageInput::Inherit, pipe_output: !last }]
                + plan_from(pieces, i + 1, if last { buffered } else { true }, previous)
        } else {
            let input = if buffered {
                StageInput::Buffer
            } else if previous {
                StageInput::Previous
            } else {
                StageInput::Inherit
            };
            seq![StageView { kind: StageKind::External, name: a[0], args: a.drop_first(), input, pipe_output: !last }]
                + plan_from(pieces, i + 1, false, if !last { true } else { previous && input != StageInput::Previous })
        }
    }
}

/// The stages of the pipeline `command`, or none when it has no `|`.
pub open spec fn pipeline_plan(command: Seq<char>) -> Option<Seq<StageView>> {
    let pieces = split_pieces(command, '|');
    if pieces.len() < 2 {
        None
    } else {
        Some(plan_from(pieces, 0, false, false))
    }
}

proof fn lemma_plan_shape(pieces: Seq<Seq<char>>, i: int, buffered: bool, previous: bool)
    requires
        0 <= i <= pieces.len(),
    ensures
        plan_from(pieces, i, buffered, previous).len() == pieces.len() - i,
        i < pieces.len() ==> !plan_from(pieces, i, buffered, previous).last().pipe_output,
    decreases pieces.len() - i,
{
    if i < pieces.len() {
        lemma_plan_shape(pieces, i + 1, false, true);
        lemma_plan_shape(pieces, i + 1, false, false);
        lemma_plan_shape(pieces, i + 1, false, previous);
        lemma_plan_shape(pieces, i + 1, true, previous);
        lemma_plan_shape(pieces, i + 1, buffered, previous);
    }
}

/// Each piece of a pipeline between `|` becomes one stage, and the last stage
/// writes to the shell's output.
pub proof fn lemma_pipeline_stages(command: Seq<char>)
    requires
        pipeline_plan(command) is Some,
    ensures
        pipeline_plan(command)->0.len() == split_pieces(command, '|').len(),
        !pipeline_plan(command)->0.last().pipe_output,
{
    lemma_plan_shape(split_pieces(command, '|'), 0, false, false);
}

/// Plans the pipeline `command`, as `pipeline_plan` says.
pub fn plan_pipeline(command: &str) -> (r: Option<Vec<PlannedStage>>)
    ensures
        match r {
            Some(v) => pipeline_plan(command@) == Some(stage_views(v@)),
            None => pipeline_plan(command@) is None,
        },
{
    let pieces = split_at_char(command, '|');
    let n = pieces.len();
    if n < 2 {
        return None;
    }
    let ghost ps = views(pieces@);
    let mut stages: Vec<PlannedStage> = Vec::new();
    let mut buffered = false;
    let mut previous = false;
    let mut i: usize = 0;
    while i < n
        invariant
            n == pieces@.len() == ps.len(),
            ps == views(pieces@),
            i <= n,
            plan_from(ps, 0, false, false) == stage_views(stages@) + plan_from(ps, i as int, buffered, previous),
        decreases n - i,
    {
        let a = parse_arguments(pieces[i].as_str());
        assert(ps[i as int] == pieces@[i as int]@);
        let last = i == n - 1;
        let ghost before = stages@;
        let ghost rest = plan_from(ps, i + 1, buffered, previous);
        if a.len() == 0 {
            let st = PlannedStage { kind: StageKind::Skip, name: String::new(), args: Vec::new(), input: StageInput::Inherit, pipe_output: false };
            stages.push(st);
            proof {
                assert(views(st.args@) =~= Seq::<Seq<char>>::empty());
                assert(stage_views(stages@) == stage_views(before).push(stage_view(st)));
                assert(stage_views(before) + plan_from(ps, i as int, buffered, previous)
                    == stage_views(stages@) + rest);
            }
        } else {
            let name = a[0].clone();
            let mut rest_args: Vec<String> = Vec::new();
            let mut k: usize = 1;
            while k < a.len()
                invariant
                    1 <= k <= a.len(),
                    views(rest_args@) == views(a@).subrange(1, k as int),
                decreases a.len() - k,
            {
                let ghost b = rest_args@;
                rest_args.push(a[k].clone());
                assert(views(rest_args@) == views(b).push(a@[k as int]@));
                assert(views(a@).subrange(1, k + 1) == views(a@).subrange(1, k as int).push(views(a@)[k as int]));
                k += 1;
            }
            proof {
                assert(views(a@).subrange(1, a@.len() as int) == views(a@).drop_first());
                assert(views(a@)[0] == a@[0]@);
            }
            if is_builtin(BuiltinSet::Pipeline, name.as_str()) {
                let st = PlannedStage { kind: StageKind::Builtin, name, args: rest_args, input: StageInput::Inherit, pipe_output: !last };
                stages.push(st);
                proof {
                    assert(stage_views(stages@) == stage_views(before).push(stage_view(st)));
                    assert(stage_views(before) + plan_from(ps, i as int, buffered, previous)
                        == stage_views(stages@) + plan_from(ps, i + 1, if last { buffered } else { true }, previous));
                }
                if !last {
                    buffered = true;
                }
            } else {
                let input = if buffered {
                    StageInput::Buffer
                } else if previous {
                    StageInput::Previous
                } else {
                    StageInput::Inherit
                };
                let st = PlannedStage { kind: StageKind::External, name, args: rest_args, input, pipe_output: !last };
                stages.push(st);
                let next_previous = if !last { true } else { previous && input != StageInput::Previous };
                proof {
                    assert(stage_views(stages@) == stage_views(before).push(stage_view(st)));
                    assert(stage_views(before) + plan_from(ps, i as int, buffered, previous)
                        == stage_views(stages@) + plan_from(ps, i + 1, false, next_previous));
                }
                buffered = false;
                previous = next_previous;
            }
        }
        i += 1;
    }
    assert(stage_views(stages@) + Seq::<StageView>::empty() == stage_views(stages@));
    Some(stages)
}

/// What a builtin prints in a pipeline: `echo` its arguments, `pwd` the
/// current directory (`cwd`, when it could be read), `declare` what it
/// prints at the prompt, `type NAME` its line (`found` is where the search
/// path has `NAME`); other builtins print nothing.
pub open spec fn pipeline_builtin_spec(
    name: Seq<char>,
    args: Seq<Seq<char>>,
    vars: Map<Seq<char>, Seq<char>>,
    cwd: Option<Seq<char>>,
    found: Option<Seq<char>>,
) -> (Seq<char>, Map<Seq<char>, Seq<char>>) {
    if name == "echo"@ {
        (echo_line_spec(args), vars)
    } else if name == "pwd"@ {
        (
            match cwd {
                Some(p) => p + "\n"@,
                None => Seq::empty(),
            },
            vars,
        )
    } else if name == "declare"@ {
        declare_effect(args, vars)
    } else if name == "type"@ && args.len() > 0 {
        (type_line_spec(BuiltinSet::Pipeline, args[0], found), vars)
    } else {
        (Seq::empty(), vars)
    }
}

/// The name to look up on the search path for a builtin of a pipeline:
/// the argument of `type`, when it is not a builtin itself.
pub fn pipeline_lookup(name: &str, args: &[String]) -> (r: Option<String>)
    ensures
        r matches Some(a) ==> name@ == "type"@ && args@.len() > 0 && a@ == args@[0]@
            && !in_builtin_set(BuiltinSet::Pipeline, a@),
        r is None ==> !(name@ == "type"@ && args@.len() > 0 && !in_builtin_set(BuiltinSet::Pipeline, args@[0]@)),
{
    if str_eq(name, "type") && args.len() > 0 && !is_builtin(BuiltinSet::Pipeline, args[0].as_str()) {
        Some(args[0].clone())
    } else {
        None
    }
}

/// Runs a builtin of a pipeline: returns what it prints and updates `vars`
/// as `pipeline_builtin_spec` says.
pub fn pipeline_builtin_output(
    name: &str,
    args: &[String],
    vars: &mut StringTable,
    cwd: Option<&str>,
    found: Option<&str>,
) -> (out: String)
    ensures
        (out@, final(vars)@) == pipeline_builtin_spec(
            name@,
            views(args@),
            old(vars)@,
            match cwd {
                Some(p) => Some(p@),
                None => None,
            },
            match found {
                Some(p) => Some(p@),
                None => None,
            },
        ),
{
    if str_eq(name, "echo") {
        echo_line(args)
    } else if str_eq(name, "pwd") {
        match cwd {
            Some(p) => {
                let mut out = owned(p);
                out.append("\n");
                out
            },
            None => String::new(),
        }
    } else if str_eq(name, "declare") {
        execute_declare(args, vars)
    } else if str_eq(name, "type") && args.len() > 0 {
        assert(views(args@)[0] == args@[0]@);
        type_line(BuiltinSet::Pipeline, args[0].as_str(), found)
    } else {
        String::new()
    }
}

/// The message for a command that cannot be found or started.
pub fn command_not_found_line(name: &str) -> (r: String)
    ensures
        r@ == name@ + ": command not found\n"@,
{
    let mut r = owned(name);
    r.append(": command not found\n");
    r
}

} // verus!
