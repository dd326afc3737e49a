use minishell::command::parse_usize;
use minishell::order::{longest_common_prefix_of, sort_strings, sorted_unique, sorted_unique_entries, DirEntry};
use minishell::text::{decimal_string, join_strings, split_words_of, trim, white_space, Separator};

fn strings(v: &[&str]) -> Vec<String> {
    v.iter().map(|s| s.to_string()).collect()
}

#[test]
fn white_space_matches_std() {
    for u in 0u32..0x11000 {
        if let Some(c) = char::from_u32(u) {
            assert_eq!(white_space(c), c.is_whitespace(), "char {:x}", u);
        }
    }
}

#[test]
fn trim_matches_std() {
    for s in ["", "  ", " a ", "\t\na b\u{3000}", "x", "\u{85}y\u{2028}"] {
        assert_eq!(trim(s), s.trim());
    }
}

#[test]
fn split_whitespace_matches_std() {
    for s in ["", "  a  b ", "one\ttwo\nthree", "\u{a0}x\u{a0}", "abc"] {
        let ours = split_words_of(s, Separator::WhiteSpace);
        let std: Vec<String> = s.split_whitespace().map(|w| w.to_string()).collect();
        assert_eq!(ours, std);
    }
}

#[test]
fn sort_matches_std() {
    let v = strings(&["b", "a", "ab", "é", "Z", "a", "", "ä"]);
    let mut expected = v.clone();
    expected.sort();
    assert_eq!(sort_strings(&v), expected);
    let mut unique = v.clone();
    unique.sort();
    unique.dedup();
    assert_eq!(sorted_unique(&v), unique);
}

#[test]
fn entries_keep_the_first_of_each_name() {
    let v = vec![
        DirEntry { name: "b".to_string(), is_dir: true },
        DirEntry { name: "a".to_string(), is_dir: false },
        DirEntry { name: "b".to_string(), is_dir: false },
    ];
    let r = sorted_unique_entries(&v);
    assert_eq!(r.len(), 2);
    assert_eq!((r[0].name.as_str(), r[0].is_dir), ("a", false));
    assert_eq!((r[1].name.as_str(), r[1].is_dir), ("b", true));
}

#[test]
fn longest_common_prefix() {
    assert_eq!(longest_common_prefix_of(&strings(&["foobar", "foobaz", "foo"])), "foo");
    assert_eq!(longest_common_prefix_of(&strings(&["abc"])), "abc");
    assert_eq!(longest_common_prefix_of(&strings(&["x", "y"])), "");
    assert_eq!(longest_common_prefix_of(&strings(&["héllo", "hélp"])), "hél");
}

#[test]
fn join_and_decimal() {
    assert_eq!(join_strings(&strings(&["a", "b", "c"]), "  "), "a  b  c");
    assert_eq!(join_strings(&strings(&[]), " "), "");
    assert_eq!(decimal_string(0), "0");
    assert_eq!(decimal_string(1203), "1203");
    assert_eq!(decimal_string(usize::MAX), usize::MAX.to_string());
}

#[test]
fn parse_usize_matches_std() {
    let max = usize::MAX.to_string();
    let over = format!("{}0", max);
    for s in ["", "+", "0", "12", "+7", "-1", " 3", "3 ", "0012", "x1", max.as_str(), over.as_str()] {
        assert_eq!(parse_usize(s), s.parse::<usize>().ok(), "input {:?}", s);
    }
}

#[test]
fn decimal_parses_back() {
    for n in [0usize, 7, 10, 99, 100, 123456, usize::MAX] {
        assert_eq!(parse_usize(&decimal_string(n)), Some(n));
    }
}
