use minishell::completion::{
    candidate_lines, complete_command, complete_files, complete_from_program, completer_args,
    file_target, is_offered, Completion, TabAction, TabState,
};
use minishell::order::DirEntry;

fn strings(v: &[&str]) -> Vec<String> {
    v.iter().map(|s| s.to_string()).collect()
}

fn entry(name: &str, is_dir: bool) -> DirEntry {
    DirEntry { name: name.to_string(), is_dir }
}

fn replaced(c: &Completion) -> Option<(usize, String, String)> {
    match c {
        Completion::Replace { start, display, replacement } => {
            Some((*start, display.clone(), replacement.clone()))
        }
        _ => None,
    }
}

#[test]
fn tab_presses_ring_then_list() {
    let mut st = TabState::new();
    assert_eq!(st.press("ab"), TabAction::Bell);
    assert_eq!(st.press("ab"), TabAction::List);
    assert_eq!(st.press("ab"), TabAction::Bell);
    assert_eq!(st.press("abc"), TabAction::Bell);
    assert_eq!(st.press("ab"), TabAction::Bell);
    assert_eq!(st.press("ab"), TabAction::List);
}

#[test]
fn completer_arguments() {
    let a = completer_args("git co", "git co");
    assert_eq!((a.command.as_str(), a.current.as_str(), a.previous.as_str()), ("git", "co", "git"));
    let a = completer_args("git commit ", "git commit ");
    assert_eq!((a.command.as_str(), a.current.as_str(), a.previous.as_str()), ("git", "", "commit"));
    let a = completer_args("git", "git");
    assert_eq!((a.command.as_str(), a.current.as_str(), a.previous.as_str()), ("git", "git", ""));
    let a = completer_args("", "");
    assert_eq!((a.command.as_str(), a.current.as_str(), a.previous.as_str()), ("", "", ""));
}

#[test]
fn candidates_are_trimmed_nonblank_lines() {
    assert_eq!(candidate_lines(" one \n\n  \ntwo\r\nthree"), strings(&["one", "two", "three"]));
    assert_eq!(candidate_lines(""), Vec::<String>::new());
}

#[test]
fn program_completion_single_and_common_prefix() {
    let mut st = TabState::new();
    let c = complete_from_program("commit\n", "git co", "git co", &mut st).unwrap();
    assert_eq!(replaced(&c), Some((4, "commit".to_string(), "commit ".to_string())));
    let c = complete_from_program("checkout\ncherry\n", "git c", "git c", &mut st).unwrap();
    assert_eq!(replaced(&c), Some((4, "che".to_string(), "che".to_string())));
    assert!(complete_from_program("\n \n", "git c", "git c", &mut st).is_none());
}

#[test]
fn program_completion_bell_then_sorted_listing() {
    let mut st = TabState::new();
    let c = complete_from_program("push\npull\n", "git pu", "git pu", &mut st).unwrap();
    assert!(matches!(c, Completion::Bell { start: 6 }));
    let c = complete_from_program("push\npull\n", "git pu", "git pu", &mut st).unwrap();
    match c {
        Completion::Listing { start, text } => {
            assert_eq!(start, 6);
            assert_eq!(text, "pull  push");
        }
        other => panic!("unexpected {:?}", other),
    }
}

#[test]
fn file_targets() {
    assert!(file_target("ls").is_none());
    let t = file_target("cat src/ma").unwrap();
    assert_eq!(t.dir.as_deref(), Some("src"));
    assert_eq!(t.part, "ma");
    assert_eq!(t.start, 8);
    let t = file_target("cat /et").unwrap();
    assert_eq!(t.dir.as_deref(), Some("."));
    assert_eq!(t.part, "et");
    assert_eq!(t.start, 5);
    let t = file_target("cat src/").unwrap();
    assert_eq!(t.dir.as_deref(), Some("src/"));
    assert_eq!(t.part, "");
    assert_eq!(t.start, 8);
    let t = file_target("cat RE").unwrap();
    assert_eq!(t.dir, None);
    assert_eq!(t.part, "RE");
    assert_eq!(t.start, 4);
    let t = file_target("é ñ/x").unwrap();
    assert_eq!(t.dir.as_deref(), Some("ñ"));
    assert_eq!(t.start, 6);
}

#[test]
fn hidden_files_need_a_dot() {
    assert!(!is_offered(".git", ""));
    assert!(is_offered(".git", ".g"));
    assert!(is_offered("main.rs", "ma"));
    assert!(!is_offered("main.rs", "x"));
}

#[test]
fn file_completion_cases() {
    let mut st = TabState::new();
    let entries = vec![entry("src", true), entry("README", false), entry("Cargo.toml", false)];
    let c = complete_files(&entries, "s", 4, "cat s", &mut st);
    assert_eq!(replaced(&c), Some((4, "src/".to_string(), "src/".to_string())));
    let c = complete_files(&entries, "R", 4, "cat R", &mut st);
    assert_eq!(replaced(&c), Some((4, "README ".to_string(), "README ".to_string())));
    let c = complete_files(&entries, "z", 4, "cat z", &mut st);
    assert!(matches!(c, Completion::Nothing { start: 5 }));
    let more = vec![entry("apple", false), entry("apricot", true)];
    let c = complete_files(&more, "a", 4, "cat a", &mut st);
    assert_eq!(replaced(&c), Some((4, "ap".to_string(), "ap".to_string())));
    let c = complete_files(&more, "ap", 4, "cat ap", &mut st);
    assert!(matches!(c, Completion::Bell { start: 6 }));
    let c = complete_files(&more, "ap", 4, "cat ap", &mut st);
    match c {
        Completion::Listing { start, text } => {
            assert_eq!(start, 6);
            assert_eq!(text, "apple  apricot/");
        }
        other => panic!("unexpected {:?}", other),
    }
}

#[test]
fn command_completion_cases() {
    let mut st = TabState::new();
    let path = strings(&["ls", "less", "ls", "dd"]);
    let c = complete_command(&path, "ec", &mut st);
    assert_eq!(replaced(&c), Some((0, "echo".to_string(), "echo ".to_string())));
    let c = complete_command(&path, "q", &mut st);
    assert!(matches!(c, Completion::Nothing { start: 0 }));
    let c = complete_command(&path, "e", &mut st);
    assert!(matches!(c, Completion::Bell { start: 0 }));
    let c = complete_command(&path, "e", &mut st);
    match c {
        Completion::Listing { start, text } => {
            assert_eq!(start, 0);
            assert_eq!(text, "echo  exit");
        }
        other => panic!("unexpected {:?}", other),
    }
    let c = complete_command(&path, "l", &mut st);
    assert!(matches!(c, Completion::Bell { .. }));
    let c = complete_command(&path, "l", &mut st);
    match c {
        Completion::Listing { text, .. } => assert_eq!(text, "less  ls"),
        other => panic!("unexpected {:?}", other),
    }
    let c = complete_command(&strings(&["declared_x", "declared_y"]), "decl", &mut st);
    assert_eq!(replaced(&c), Some((0, "declare".to_string(), "declare".to_string())));
}

#[test]
fn offsets_count_bytes() {
    let mut st = TabState::new();
    let c = complete_from_program("éclair\n", "x é", "x é", &mut st).unwrap();
    assert_eq!(replaced(&c), Some((2, "éclair".to_string(), "éclair ".to_string())));
    let entries = vec![entry("ñandú", false)];
    let t = file_target("cat dir/ñ").unwrap();
    assert_eq!(t.start, 8);
    let c = complete_files(&entries, &t.part, t.start, "cat dir/ñ", &mut st);
    assert_eq!(replaced(&c), Some((8, "ñandú ".to_string(), "ñandú ".to_string())));
}
