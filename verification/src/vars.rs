//! Shell state keyed by name: variables set with `declare` and completion
//! programs registered with `complete`.

use vstd::prelude::*;
use vstd::hash_map::StringHashMap;
use crate::text::{
    ascii_alnum, ascii_alpha, chars_of, owned, is_ascii_alnum, is_ascii_alpha, str_eq, string_of_range,
    trim, trimmed,
};

verus! {

/// A table from names to string values.
pub struct StringTable {
    entries: StringHashMap<String>,
}

impl View for StringTable {
    type V = Map<Seq<char>, Seq<char>>;

    closed spec fn view(&self) -> Map<Seq<char>, Seq<char>> {
        self.entries@.map_values(|v: String| v@)
    }
}

impl StringTable {
    /// An empty table.
    pub fn new() -> (t: Self)
        ensures
            t@ == Map::<Seq<char>, Seq<char>>::empty(),
    {
        let t = StringTable { entries: StringHashMap::new() };
        assert(t@ =~= Map::<Seq<char>, Seq<char>>::empty());
        t
    }

    /// The value of `key`, if it has one.
    pub fn get(&self, key: &str) -> (r: Option<String>)
        ensures
            match r {
                Some(v) => self@.contains_key(key@) && v@ == self@[key@],
                None => !self@.contains_key(key@),
            },
    {
        match self.entries.get(key) {
            Some(v) => Some(v.clone()),
            None => None,
        }
    }

    /// Sets `key` to `value`.
    pub fn insert(&mut self, key: String, value: String)
        ensures
            final(self)@ == old(self)@.insert(key@, value@),
    {
        self.entries.insert(key, value);
        assert(self@ =~= old(self)@.insert(key@, value@));
    }

    /// Removes `key`, if it is there.
    pub fn remove(&mut self, key: &str)
        ensures
            final(self)@ == old(self)@.remove(key@),
    {
        self.entries.remove(key);
        assert(self@ =~= old(self)@.remove(key@));
    }
}

/// A name made of ASCII letters, digits and underscores that does not start
/// with a digit.
pub open spec fn valid_identifier(s: Seq<char>) -> bool {
    &&& s.len() > 0
    &&& (is_ascii_alpha(s[0]) || s[0] == '_')
    &&& forall|k: int| 1 <= k < s.len() ==> is_ascii_alnum(#[trigger] s[k]) || s[k] == '_'
}

/// Whether `s` is a valid variable name.
pub fn is_valid_identifier(s: &str) -> (r: bool)
    ensures
        r == valid_identifier(s@),
{
    let v = chars_of(s);
    if v.len() == 0 {
        return false;
    }
    let first = v[0];
    if !ascii_alpha(first) && first != '_' {
        return false;
    }
    let mut k: usize = 1;
    while k < v.len()
        invariant
            v@ == s@,
            1 <= k <= v.len(),
            forall|j: int| 1 <= j < k ==> is_ascii_alnum(#[trigger] v@[j]) || v@[j] == '_',
        decreases v.len() - k,
    {
        let c = v[k];
        if !(ascii_alnum(c) || c == '_') {
            return false;
        }
        k += 1;
    }
    true
}

/// The position of the first `c` in `s`, if any.
pub open spec fn first_index(s: Seq<char>, c: char) -> Option<nat>
    decreases s.len(),
{
    if s.len() == 0 {
        None
    } else if s[0] == c {
        Some(0)
    } else {
        match first_index(s.drop_first(), c) {
            Some(i) => Some(i + 1),
            None => None,
        }
    }
}

proof fn lemma_first_index(s: Seq<char>, c: char, i: int)
    requires
        0 <= i <= s.len(),
        forall|j: int| 0 <= j < i ==> s[j] != c,
    ensures
        i < s.len() && s[i] == c ==> first_index(s, c) == Some(i as nat),
        i == s.len() ==> first_index(s, c) is None,
    decreases i,
{
    if i > 0 {
        lemma_first_index(s.drop_first(), c, i - 1);
    }
}

/// The position of the first `c` in `v`, if any.
fn find_char(v: &Vec<char>, c: char) -> (r: Option<usize>)
    ensures
        r matches Some(i) ==> i < v.len() && first_index(v@, c) == Some(i as nat),
        r is None ==> first_index(v@, c) is None,
{
    let mut k: usize = 0;
    while k < v.len()
        invariant
            k <= v.len(),
            forall|j: int| 0 <= j < k ==> v@[j] != c,
        decreases v.len() - k,
    {
        if v[k] == c {
            proof {
                lemma_first_index(v@, c, k as int);
            }
            return Some(k);
        }
        k += 1;
    }
    proof {
        lemma_first_index(v@, c, k as int);
    }
    None
}

/// The message for a name that is not a valid identifier.
pub open spec fn invalid_identifier_message(name: Seq<char>) -> Seq<char> {
    "declare: '"@ + name + "': not a valid identifier\n"@
}

/// What `declare` prints, and the variables after it, for arguments `args`
/// and variables `vars`:
/// - `-p NAME` prints `declare -- NAME="VALUE"` for a set variable, says that
///   the name is not found for an unset one, and rejects an invalid name;
/// - `NAME=VALUE` (split at the first `=`, the name trimmed of white space)
///   sets the variable and prints nothing, or rejects the whole argument when
///   the name is not valid;
/// - a lone `NAME` prints nothing, or rejects an invalid name;
/// - no argument prints nothing.
pub open spec fn declare_effect(args: Seq<Seq<char>>, vars: Map<Seq<char>, Seq<char>>) -> (
    Seq<char>,
    Map<Seq<char>, Seq<char>>,
) {
    if args.len() >= 2 && args[0] == "-p"@ {
        let name = args[1];
        if !valid_identifier(name) {
            (invalid_identifier_message(name), vars)
        } else if vars.contains_key(name) {
            ("declare -- "@ + name + "=\""@ + vars[name] + "\"\n"@, vars)
        } else {
            ("declare: "@ + name + ": not found\n"@, vars)
        }
    } else if args.len() >= 1 && first_index(args[0], '=') is Some {
        let i = first_index(args[0], '=')->0 as int;
        let name = trimmed(args[0].take(i));
        if valid_identifier(name) {
            (Seq::empty(), vars.insert(name, args[0].skip(i + 1)))
        } else {
            (invalid_identifier_message(args[0]), vars)
        }
    } else if args.len() >= 1 && !valid_identifier(args[0]) {
        (invalid_identifier_message(args[0]), vars)
    } else {
        (Seq::empty(), vars)
    }
}

/// Runs the `declare` builtin: returns what it prints and updates `vars`
/// as `declare_effect` says.
pub fn execute_declare(args: &[String], vars: &mut StringTable) -> (out: String)
    ensures
        out@ == declare_effect(crate::text::views(args@), old(vars)@).0,
        final(vars)@ == declare_effect(crate::text::views(args@), old(vars)@).1,
{
    let ghost a = crate::text::views(args@);
    assert(args.len() >= 1 ==> a[0] == args@[0]@);
    assert(args.len() >= 2 ==> a[1] == args@[1]@);
    if args.len() >= 2 && str_eq(args[0].as_str(), "-p") {
        let name = args[1].as_str();
        assert(a[1] == name@);
        if !is_valid_identifier(name) {
            let mut out = owned("declare: '");
            out.append(name);
            out.append("': not a valid identifier\n");
            out
        } else {
            match vars.get(name) {
                Some(val) => {
                    let mut out = owned("declare -- ");
                    out.append(name);
                    out.append("=\"");
                    out.append(val.as_str());
                    out.append("\"\n");
                    out
                },
                None => {
                    let mut out = owned("declare: ");
                    out.append(name);
                    out.append(": not found\n");
                    out
                },
            }
        }
    } else if args.len() >= 1 {
        let arg = args[0].as_str();
        assert(a[0] == arg@);
        let v = chars_of(arg);
        match find_char(&v, '=') {
            Some(i) => {
                let raw_name = string_of_range(&v, 0, i);
                let value = string_of_range(&v, i + 1, v.len());
                let name = trim(raw_name.as_str());
                assert(v@.take(i as int) == v@.subrange(0, i as int));
                assert(v@.skip(i + 1) == v@.subrange(i + 1, v@.len() as int));
                assert(first_index(a[0], '=') == Some(i as nat));
                assert(name@ == trimmed(a[0].take(i as int)));
                if is_valid_identifier(name.as_str()) {
                    vars.insert(name, value);
                    assert(vars@ == declare_effect(a, old(vars)@).1);
                    String::new()
                } else {
                    let mut out = owned("declare: '");
                    out.append(arg);
                    out.append("': not a valid identifier\n");
                    out
                }
            },
            None => {
                if !is_valid_identifier(arg) {
                    let mut out = owned("declare: '");
                    out.append(arg);
                    out.append("': not a valid identifier\n");
                    out
                } else {
                    String::new()
                }
            },
        }
    } else {
        String::new()
    }
}

/// What the `complete` builtin prints, and the completion table after it:
/// - `-C PROGRAM COMMAND` registers `PROGRAM` to complete `COMMAND`;
/// - `-r COMMAND` removes the registration of `COMMAND`;
/// - `-p COMMAND` prints the registration of `COMMAND`, or says it has none;
/// - anything else does nothing.
pub open spec fn complete_effect(args: Seq<Seq<char>>, specs: Map<Seq<char>, Seq<char>>) -> (
    Seq<char>,
    Map<Seq<char>, Seq<char>>,
) {
    if args.len() >= 3 && args[0] == "-C"@ {
        (Seq::empty(), specs.insert(args[2], args[1]))
    } else if args.len() >= 2 && args[0] == "-r"@ {
        (Seq::empty(), specs.remove(args[1]))
    } else if args.len() >= 2 && args[0] == "-p"@ {
        if specs.contains_key(args[1]) {
            ("complete -C '"@ + specs[args[1]] + "' "@ + args[1] + "\n"@, specs)
        } else {
            ("complete: "@ + args[1] + ": no completion specification\n"@, specs)
        }
    } else {
        (Seq::empty(), specs)
    }
}

/// Runs the `complete` builtin: returns what it prints and updates `specs`
/// as `complete_effect` says.
pub fn execute_complete(args: &[String], specs: &mut StringTable) -> (out: String)
    ensures
        out@ == complete_effect(crate::text::views(args@), old(specs)@).0,
        final(specs)@ == complete_effect(crate::text::views(args@), old(specs)@).1,
{
    let ghost a = crate::text::views(args@);
    assert(args.len() >= 1 ==> a[0] == args@[0]@);
    assert(args.len() >= 2 ==> a[1] == args@[1]@);
    assert(args.len() >= 3 ==> a[2] == args@[2]@);
    if args.len() >= 3 && str_eq(args[0].as_str(), "-C") {
        specs.insert(args[2].clone(), args[1].clone());
        String::new()
    } else if args.len() >= 2 && str_eq(args[0].as_str(), "-r") {
        specs.remove(args[1].as_str());
        String::new()
    } else if args.len() >= 2 && str_eq(args[0].as_str(), "-p") {
        let cmd = args[1].as_str();
        match specs.get(cmd) {
            Some(path) => {
                let mut out = owned("complete -C '");
                out.append(path.as_str());
                out.append("' ");
                out.append(cmd);
                out.append("\n");
                out
            },
            None => {
                let mut out = owned("complete: ");
                out.append(cmd);
                out.append(": no completion specification\n");
                out
            },
        }
    } else {
        String::new()
    }
}

proof fn lemma_option_literals_differ()
    ensures
        "-p"@ != "-r"@,
        "-p"@ != "-C"@,
        "-r"@ != "-C"@,
{
    reveal_strlit("-p");
    reveal_strlit("-r");
    reveal_strlit("-C");
    assert("-p"@[1] != "-r"@[1]);
    assert("-p"@[1] != "-C"@[1]);
    assert("-r"@[1] != "-C"@[1]);
}

proof fn lemma_identifier_trimmed(n: Seq<char>)
    requires
        valid_identifier(n),
    ensures
        trimmed(n) == n,
{
    assert(!crate::text::is_white_space(n[0]));
    assert(!crate::text::is_white_space(n.last()));
}

/// After `declare NAME=VALUE` with a valid name, nothing is printed, the
/// variable holds `VALUE`, and `declare -p NAME` prints
/// `declare -- NAME="VALUE"`.
pub proof fn lemma_declare_then_print(vars: Map<Seq<char>, Seq<char>>, n: Seq<char>, v: Seq<char>)
    requires
        valid_identifier(n),
    ensures
        declare_effect(seq![n + seq!['='] + v], vars).0 == Seq::<char>::empty(),
        declare_effect(seq![n + seq!['='] + v], vars).1 == vars.insert(n, v),
        declare_effect(seq!["-p"@, n], declare_effect(seq![n + seq!['='] + v], vars).1).0
            == "declare -- "@ + n + "=\""@ + v + "\"\n"@,
{
    let arg = n + seq!['='] + v;
    assert forall|j: int| 0 <= j < n.len() implies arg[j] != '=' by {
        assert(arg[j] == n[j]);
        if j >= 1 {
            assert(is_ascii_alnum(n[j]) || n[j] == '_');
        }
    }
    lemma_first_index(arg, '=', n.len() as int);
    assert(arg.take(n.len() as int) == n);
    assert(arg.skip(n.len() as int + 1) == v);
    lemma_identifier_trimmed(n);
    let args2 = seq!["-p"@, n];
    assert(args2[1] == n);
}

/// `declare` either prints something or changes variables, never both: when
/// the variables change, nothing is printed.
pub proof fn lemma_declare_change_is_silent(args: Seq<Seq<char>>, vars: Map<Seq<char>, Seq<char>>)
    ensures
        declare_effect(args, vars).1 != vars ==> declare_effect(args, vars).0 == Seq::<char>::empty(),
{
}

/// `declare -p` never changes variables.
pub proof fn lemma_declare_print_keeps(name: Seq<char>, vars: Map<Seq<char>, Seq<char>>)
    ensures
        declare_effect(seq!["-p"@, name], vars).1 == vars,
{
}

/// After `complete -C PROGRAM COMMAND`, `complete -p COMMAND` prints
/// `complete -C 'PROGRAM' COMMAND`.
pub proof fn lemma_complete_register_then_print(
    specs: Map<Seq<char>, Seq<char>>,
    program: Seq<char>,
    command: Seq<char>,
)
    ensures
        complete_effect(
            seq!["-p"@, command],
            complete_effect(seq!["-C"@, program, command], specs).1,
        ).0 == "complete -C '"@ + program + "' "@ + command + "\n"@,
{
    lemma_option_literals_differ();
    let a1 = seq!["-C"@, program, command];
    assert(a1[2] == command && a1[1] == program);
    let a2 = seq!["-p"@, command];
    assert(a2[1] == command);
}

/// After `complete -r COMMAND`, `complete -p COMMAND` says that `COMMAND` has
/// no completion specification.
pub proof fn lemma_complete_remove_then_print(specs: Map<Seq<char>, Seq<char>>, command: Seq<char>)
    ensures
        complete_effect(seq!["-p"@, command], complete_effect(seq!["-r"@, command], specs).1).0
            == "complete: "@ + command + ": no completion specification\n"@,
{
    lemma_option_literals_differ();
    let a1 = seq!["-r"@, command];
    assert(a1[1] == command);
    let a2 = seq!["-p"@, command];
    assert(a2[1] == command);
}

} // verus!
