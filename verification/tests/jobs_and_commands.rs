use minishell::command::{
    cd_target, command_kind, echo_line, first_executable, history_command, history_lines,
    is_blank, is_builtin, parse_redirections, redirections_complete, split_background, type_line,
    BuiltinSet, CdTarget, CommandKind, HistoryCommand,
};
use minishell::jobs::{
    get_markers, ids_of, job_command, job_marker, job_started_line, jobs_line, next_job_id,
    reap_decision, JobInfo, JobPoll, ReapAction,
};
use minishell::pipeline::{
    command_not_found_line, pipeline_builtin_output, pipeline_lookup, plan_pipeline,
    split_at_char, StageInput, StageKind,
};
use minishell::vars::StringTable;

fn strings(v: &[&str]) -> Vec<String> {
    v.iter().map(|s| s.to_string()).collect()
}

fn job(id: u32, command: &str) -> JobInfo {
    JobInfo { id, command: command.to_string() }
}

#[test]
fn markers_are_largest_two() {
    assert_eq!(get_markers(&[]), (None, None));
    assert_eq!(get_markers(&[4]), (Some(4), None));
    assert_eq!(get_markers(&[2, 7, 5]), (Some(7), Some(5)));
    assert_eq!(get_markers(&[3, 3]), (Some(3), Some(3)));
    assert_eq!(job_marker(&[2, 7, 5], 7), '+');
    assert_eq!(job_marker(&[2, 7, 5], 5), '-');
    assert_eq!(job_marker(&[2, 7, 5], 2), ' ');
}

#[test]
fn next_job_numbers() {
    assert_eq!(next_job_id(&[]), 1);
    assert_eq!(next_job_id(&[1, 3, 2]), 4);
}

#[test]
fn reap_lines() {
    let jobs = vec![job(1, "sleep 5"), job(2, "sleep 1")];
    match reap_decision(&jobs, 1, JobPoll::Finished) {
        ReapAction::Remove(Some(t)) => assert_eq!(t, "[2]+  Done                sleep 1 \n"),
        _ => panic!("expected a removal with a line"),
    }
    match reap_decision(&jobs, 0, JobPoll::Finished) {
        ReapAction::Remove(Some(t)) => assert_eq!(t, "[1]-  Done                sleep 5 \n"),
        _ => panic!("expected a removal with a line"),
    }
    assert!(matches!(reap_decision(&jobs, 0, JobPoll::Running), ReapAction::Keep));
    assert!(matches!(reap_decision(&jobs, 0, JobPoll::Failed), ReapAction::Remove(None)));
    assert_eq!(ids_of(&jobs), vec![1, 2]);
}

#[test]
fn jobs_listing_lines() {
    let jobs = vec![job(1, "sleep 5"), job(2, "sleep 1"), job(3, "yes")];
    assert_eq!(
        jobs_line(&jobs, 2, JobPoll::Running).unwrap(),
        "[3]+  Running                yes &\n"
    );
    assert_eq!(
        jobs_line(&jobs, 1, JobPoll::Finished).unwrap(),
        "[2]-  Done                 sleep 1\n"
    );
    assert_eq!(jobs_line(&jobs, 0, JobPoll::Failed), None);
}

#[test]
fn background_command_text() {
    assert_eq!(job_command("sleep", &strings(&["10"])), "sleep 10");
    assert_eq!(job_command("ls", &strings(&[])), "ls");
    assert_eq!(job_started_line(3, 4242), "[3] 4242\n");
}

#[test]
fn command_kinds_and_builtins() {
    assert_eq!(command_kind("exit"), CommandKind::Exit);
    assert_eq!(command_kind("history"), CommandKind::History);
    assert_eq!(command_kind("ls"), CommandKind::External);
    assert!(is_builtin(BuiltinSet::Prompt, "history"));
    assert!(!is_builtin(BuiltinSet::Pipeline, "history"));
    assert!(is_builtin(BuiltinSet::Pipeline, "declare"));
    assert_eq!(type_line(BuiltinSet::Prompt, "cd", None), "cd is a shell builtin\n");
    assert_eq!(type_line(BuiltinSet::Prompt, "ls", Some("/bin/ls")), "ls is /bin/ls\n");
    assert_eq!(type_line(BuiltinSet::Prompt, "nope", None), "nope: not found\n");
    assert_eq!(type_line(BuiltinSet::Pipeline, "complete", None), "complete: not found\n");
}

#[test]
fn echo_and_background() {
    assert_eq!(echo_line(&strings(&["a", "b"])), "a b\n");
    assert_eq!(echo_line(&strings(&[])), "\n");
    let (parts, bg) = split_background(&strings(&["sleep", "5", "&"]));
    assert!(bg);
    assert_eq!(parts, strings(&["sleep", "5"]));
    let (parts, bg) = split_background(&strings(&["ls"]));
    assert!(!bg);
    assert_eq!(parts, strings(&["ls"]));
}

#[test]
fn redirections() {
    let parts = strings(&["echo", "hi", ">", "out", "there", "2>>", "err", "1>>", "o2", ">", "o3"]);
    assert!(redirections_complete(&parts));
    let (args, r) = parse_redirections(&parts);
    assert_eq!(args, strings(&["hi", "there"]));
    assert_eq!(r.stdout_file.as_deref(), Some("o3"));
    assert!(r.append_stdout);
    assert_eq!(r.stderr_file.as_deref(), Some("err"));
    assert!(r.append_stderr);
    assert!(!redirections_complete(&strings(&["echo", "hi", ">"])));
    let (args, r) = parse_redirections(&strings(&["ls", "-l"]));
    assert_eq!(args, strings(&["-l"]));
    assert!(r.stdout_file.is_none() && r.stderr_file.is_none());
}

#[test]
fn cd_history_and_blank_lines() {
    assert!(matches!(cd_target(&strings(&[])), CdTarget::Stay));
    assert!(matches!(cd_target(&strings(&["~"])), CdTarget::Home));
    assert!(matches!(cd_target(&strings(&["/tmp"])), CdTarget::Dir(d) if d == "/tmp"));
    assert!(matches!(history_command(&strings(&["-a", "f"])), HistoryCommand::Append(f) if f == "f"));
    assert!(matches!(history_command(&strings(&["-r", "f"])), HistoryCommand::Read(f) if f == "f"));
    assert!(matches!(history_command(&strings(&["-w", "f"])), HistoryCommand::Write(f) if f == "f"));
    assert!(matches!(history_command(&strings(&["-a"])), HistoryCommand::List));
    assert!(is_blank("  \t"));
    assert!(!is_blank(" x "));
}

#[test]
fn history_listing() {
    let entries = strings(&["ls", "pwd", "echo hi"]);
    assert_eq!(history_lines(&entries, &strings(&[])), strings(&["1 ls\n", "2 pwd\n", "3 echo hi\n"]));
    assert_eq!(history_lines(&entries, &strings(&["2"])), strings(&["2 pwd\n", "3 echo hi\n"]));
    assert_eq!(history_lines(&entries, &strings(&["9"])).len(), 3);
    assert_eq!(history_lines(&entries, &strings(&["x"])).len(), 3);
    assert_eq!(history_lines(&entries, &strings(&["0"])).len(), 0);
}

#[test]
fn executable_search() {
    assert_eq!(first_executable(&[None, Some(0o644), Some(0o755), Some(0o700)]), Some(2));
    assert_eq!(first_executable(&[Some(0o600)]), None);
    assert_eq!(first_executable(&[Some(0o001)]), Some(0));
}

#[test]
fn pipeline_pieces_and_plan() {
    assert_eq!(split_at_char("a|b||c", '|'), strings(&["a", "b", "", "c"]));
    assert_eq!(split_at_char("", '|'), strings(&[""]));
    assert!(plan_pipeline("ls -l").is_none());
    let plan = plan_pipeline("cat f | echo x | wc -l | grep 1").unwrap();
    assert_eq!(plan.len(), 4);
    assert_eq!(plan[0].kind, StageKind::External);
    assert_eq!(plan[0].input, StageInput::Inherit);
    assert!(plan[0].pipe_output);
    assert_eq!(plan[1].kind, StageKind::Builtin);
    assert_eq!(plan[1].args, strings(&["x"]));
    assert!(plan[1].pipe_output);
    assert_eq!(plan[2].kind, StageKind::External);
    assert_eq!(plan[2].input, StageInput::Buffer);
    assert_eq!(plan[3].input, StageInput::Previous);
    assert!(!plan[3].pipe_output);
    let plan = plan_pipeline("ls | | wc").unwrap();
    assert_eq!(plan[1].kind, StageKind::Skip);
    assert_eq!(plan[2].input, StageInput::Previous);
}

#[test]
fn pipeline_builtins() {
    let mut vars = StringTable::new();
    assert_eq!(pipeline_builtin_output("echo", &strings(&["a", "b"]), &mut vars, None, None), "a b\n");
    assert_eq!(pipeline_builtin_output("pwd", &strings(&[]), &mut vars, Some("/tmp"), None), "/tmp\n");
    assert_eq!(pipeline_builtin_output("declare", &strings(&["v=1"]), &mut vars, None, None), "");
    assert_eq!(vars.get("v"), Some("1".to_string()));
    assert_eq!(pipeline_builtin_output("type", &strings(&["ls"]), &mut vars, None, Some("/bin/ls")), "ls is /bin/ls\n");
    assert_eq!(pipeline_builtin_output("type", &strings(&[]), &mut vars, None, None), "");
    assert_eq!(pipeline_builtin_output("cd", &strings(&["/"]), &mut vars, None, None), "");
    assert_eq!(pipeline_lookup("type", &strings(&["ls"])), Some("ls".to_string()));
    assert_eq!(pipeline_lookup("type", &strings(&["echo"])), None);
    assert_eq!(pipeline_lookup("echo", &strings(&["ls"])), None);
    assert_eq!(command_not_found_line("foo"), "foo: command not found\n");
}
