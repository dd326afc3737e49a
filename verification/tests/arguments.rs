use minishell::args::parse_arguments;
use minishell::vars::{execute_complete, execute_declare, is_valid_identifier, StringTable};

fn strings(v: &[&str]) -> Vec<String> {
    v.iter().map(|s| s.to_string()).collect()
}

#[test]
fn splits_on_blanks() {
    assert_eq!(parse_arguments("echo  hello\tworld "), strings(&["echo", "hello", "world"]));
    assert_eq!(parse_arguments(""), Vec::<String>::new());
    assert_eq!(parse_arguments("   \t  "), Vec::<String>::new());
}

#[test]
fn single_quotes_keep_everything() {
    assert_eq!(parse_arguments("echo 'a  b\\c \"d\"'"), strings(&["echo", "a  b\\c \"d\""]));
    assert_eq!(parse_arguments("'ab''cd'"), strings(&["abcd"]));
}

#[test]
fn double_quotes_keep_blanks_and_escape() {
    assert_eq!(parse_arguments("echo \"a  'b' \\\"c\\\"\""), strings(&["echo", "a  'b' \"c\""]));
    assert_eq!(parse_arguments("\"x\"y'z'"), strings(&["xyz"]));
}

#[test]
fn backslash_escapes_outside_quotes() {
    assert_eq!(parse_arguments("a\\ b c"), strings(&["a b", "c"]));
    assert_eq!(parse_arguments("\\'x\\'"), strings(&["'x'"]));
    assert_eq!(parse_arguments("\\\\"), strings(&["\\"]));
}

#[test]
fn empty_quotes_make_no_argument() {
    assert_eq!(parse_arguments("echo '' \"\""), strings(&["echo"]));
}

#[test]
fn unterminated_quote_keeps_text() {
    assert_eq!(parse_arguments("echo 'a b"), strings(&["echo", "a b"]));
}

#[test]
fn identifiers() {
    assert!(is_valid_identifier("abc"));
    assert!(is_valid_identifier("_a1"));
    assert!(is_valid_identifier("A_B_9"));
    assert!(!is_valid_identifier(""));
    assert!(!is_valid_identifier("1abc"));
    assert!(!is_valid_identifier("a-b"));
    assert!(!is_valid_identifier("a b"));
    assert!(!is_valid_identifier("é"));
}

#[test]
fn declare_then_print() {
    let mut vars = StringTable::new();
    assert_eq!(execute_declare(&strings(&["name=value one"]), &mut vars), "");
    assert_eq!(
        execute_declare(&strings(&["-p", "name"]), &mut vars),
        "declare -- name=\"value one\"\n"
    );
    assert_eq!(vars.get("name"), Some("value one".to_string()));
}

#[test]
fn declare_trims_the_name_and_splits_at_first_equal() {
    let mut vars = StringTable::new();
    assert_eq!(execute_declare(&strings(&[" x =a=b"]), &mut vars), "");
    assert_eq!(vars.get("x"), Some("a=b".to_string()));
    assert_eq!(execute_declare(&strings(&["y="]), &mut vars), "");
    assert_eq!(vars.get("y"), Some(String::new()));
}

#[test]
fn declare_errors() {
    let mut vars = StringTable::new();
    assert_eq!(
        execute_declare(&strings(&["1x=3"]), &mut vars),
        "declare: '1x=3': not a valid identifier\n"
    );
    assert_eq!(vars.get("1x"), None);
    assert_eq!(
        execute_declare(&strings(&["-p", "9"]), &mut vars),
        "declare: '9': not a valid identifier\n"
    );
    assert_eq!(execute_declare(&strings(&["-p", "nope"]), &mut vars), "declare: nope: not found\n");
    assert_eq!(
        execute_declare(&strings(&["a-b"]), &mut vars),
        "declare: 'a-b': not a valid identifier\n"
    );
    assert_eq!(execute_declare(&strings(&["ok"]), &mut vars), "");
    assert_eq!(execute_declare(&strings(&[]), &mut vars), "");
    assert_eq!(
        execute_declare(&strings(&["-p"]), &mut vars),
        "declare: '-p': not a valid identifier\n"
    );
}

#[test]
fn complete_register_print_remove() {
    let mut specs = StringTable::new();
    assert_eq!(execute_complete(&strings(&["-C", "/bin/comp", "git"]), &mut specs), "");
    assert_eq!(
        execute_complete(&strings(&["-p", "git"]), &mut specs),
        "complete -C '/bin/comp' git\n"
    );
    assert_eq!(execute_complete(&strings(&["-r", "git"]), &mut specs), "");
    assert_eq!(
        execute_complete(&strings(&["-p", "git"]), &mut specs),
        "complete: git: no completion specification\n"
    );
    assert_eq!(execute_complete(&strings(&["-x", "git"]), &mut specs), "");
}

#[test]
fn blank_outside_quotes_splits_independently() {
    let a = "echo 'x y'";
    let b = "\"p q\" r";
    let mut both = parse_arguments(a);
    both.extend(parse_arguments(b));
    assert_eq!(parse_arguments(&format!("{} {}", a, b)), both);
    assert_eq!(parse_arguments(&format!("{}\t{}", a, b)), both);
}

#[test]
fn declare_failure_changes_nothing() {
    let mut vars = StringTable::new();
    execute_declare(&strings(&["a=1"]), &mut vars);
    let out = execute_declare(&strings(&["-p", "a"]), &mut vars);
    assert_eq!(out, "declare -- a=\"1\"\n");
    assert_eq!(vars.get("a"), Some("1".to_string()));
    let out = execute_declare(&strings(&["2a=5"]), &mut vars);
    assert!(!out.is_empty());
    assert_eq!(vars.get("a"), Some("1".to_string()));
    assert_eq!(vars.get("2a"), None);
}
