//! Tab completion decisions: what to complete against (a registered
//! completion program, files, or command names), what to insert, and when a
//! repeated press rings the bell or lists the choices.

use vstd::prelude::*;
use crate::order::{
    entry_names, entry_views, lcp, longest_common_prefix_of, names_of, sort_strings, sorted_entries,
    lemma_sorted_set_of_list, lex_lt, sorted_set, sorted_unique, strictly_sorted, sorted_unique_entries, sorted_version, DirEntry,
};
use crate::text::{
    has_prefix, last_index, byte_len, join, join_strings, lemma_split_words_bytes, owned, split_words, split_words_of,
    str_eq, trim, trimmed, views, Separator,
};

verus! {

/// What a press of the tab key does when nothing can be inserted.
#[derive(PartialEq, Eq, Structural, Debug, Clone, Copy)]
pub enum TabAction {
    /// Ring the bell.
    Bell,
    /// List the choices.
    List,
}

/// The prefix of the last press that could not insert anything, and how many
/// such presses in a row there have been on it (0 or 1).
pub struct TabState {
    last_prefix: String,
    tab_count: usize,
}

impl View for TabState {
    type V = (Seq<char>, nat);

    closed spec fn view(&self) -> (Seq<char>, nat) {
        (self.last_prefix@, self.tab_count as nat)
    }
}

/// A press on `prefix`: a repeated press on the same prefix counts one more,
/// another prefix starts again at one. The first press rings the bell; the
/// second lists the choices and starts the count again.
pub open spec fn press_effect(st: (Seq<char>, nat), prefix: Seq<char>) -> (TabAction, (Seq<char>, nat)) {
    let count = if st.0 == prefix { st.1 + 1 } else { 1 };
    if count == 1 {
        (TabAction::Bell, (prefix, 1))
    } else {
        (TabAction::List, (prefix, 0))
    }
}

impl TabState {
    #[verifier::type_invariant]
    spec fn count_bounded(self) -> bool {
        self.tab_count <= 1
    }

    /// No press yet.
    pub fn new() -> (st: Self)
        ensures
            st@ == (Seq::<char>::empty(), 0nat),
    {
        TabState { last_prefix: String::new(), tab_count: 0 }
    }

    /// Records a press of the tab key on `prefix` that could not insert
    /// anything, and says whether to ring the bell or list the choices.
    pub fn press(&mut self, prefix: &str) -> (a: TabAction)
        ensures
            (a, final(self)@) == press_effect(old(self)@, prefix@),
            final(self)@.1 <= 1,
    {
        proof {
            use_type_invariant(&*self);
        }
        let same = str_eq(self.last_prefix.as_str(), prefix);
        if same && self.tab_count == 1 {
            *self = TabState { last_prefix: owned(prefix), tab_count: 0 };
            TabAction::List
        } else {
            *self = TabState { last_prefix: owned(prefix), tab_count: 1 };
            TabAction::Bell
        }
    }
}

/// A press on a prefix other than the last one rings the bell.
pub proof fn lemma_press_new_prefix_rings(st: (Seq<char>, nat), prefix: Seq<char>)
    requires
        st.0 != prefix,
    ensures
        press_effect(st, prefix).0 == TabAction::Bell,
{
}

/// After a press that rings the bell, a press on the same prefix lists the
/// choices.
pub proof fn lemma_bell_then_list(st: (Seq<char>, nat), prefix: Seq<char>)
    requires
        press_effect(st, prefix).0 == TabAction::Bell,
    ensures
        press_effect(press_effect(st, prefix).1, prefix).0 == TabAction::List,
{
}

/// After a press that lists the choices, a press on the same prefix rings
/// the bell again.
pub proof fn lemma_list_then_bell(st: (Seq<char>, nat), prefix: Seq<char>)
    requires
        press_effect(st, prefix).0 == TabAction::List,
    ensures
        press_effect(press_effect(st, prefix).1, prefix).0 == TabAction::Bell,
{
}

/// A completion to offer: where the replaced text starts (a byte offset in
/// the line) and what to show and insert, or that nothing is inserted.
#[derive(Debug)]
pub enum Completion {
    /// Replace the text from `start` to the cursor with `replacement`.
    Replace { start: usize, display: String, replacement: String },
    /// Insert nothing and ring the bell.
    Bell { start: usize },
    /// Insert nothing; show `text` on a line of its own, then the prompt again.
    Listing { start: usize, text: String },
    /// Insert nothing.
    Nothing { start: usize },
}

/// A completion, with strings as character sequences.
pub enum CompletionView {
    Replace { start: nat, display: Seq<char>, replacement: Seq<char> },
    Bell { start: nat },
    Listing { start: nat, text: Seq<char> },
    Nothing { start: nat },
}

impl View for Completion {
    type V = CompletionView;

    open spec fn view(&self) -> CompletionView {
        match self {
            Completion::Replace { start, display, replacement } => CompletionView::Replace {
                start: *start as nat,
                display: display@,
                replacement: replacement@,
            },
            Completion::Bell { start } => CompletionView::Bell { start: *start as nat },
            Completion::Listing { start, text } => CompletionView::Listing {
                start: *start as nat,
                text: text@,
            },
            Completion::Nothing { start } => CompletionView::Nothing { start: *start as nat },
        }
    }
}

/// The arguments handed to a completion program: the command (the first word
/// of the line), the word being completed (empty after a space) and the word
/// before it.
pub struct CompleterArgs {
    pub command: String,
    pub current: String,
    pub previous: String,
}

/// The first word of the line, the word being completed and the one before
/// it; `prefix` is the line up to the cursor.
pub open spec fn completer_args_spec(line: Seq<char>, prefix: Seq<char>) -> (Seq<char>, Seq<char>, Seq<char>) {
    let lw = split_words(line, Separator::WhiteSpace);
    let pw = split_words(prefix, Separator::WhiteSpace);
    let after_space = prefix.len() > 0 && prefix.last() == ' ';
    let command = if lw.len() > 0 { lw[0] } else { Seq::empty() };
    let current = if after_space || pw.len() == 0 { Seq::empty() } else { pw.last() };
    let previous = if after_space {
        if pw.len() > 0 { pw.last() } else { Seq::empty() }
    } else if pw.len() >= 2 {
        pw[pw.len() - 2]
    } else {
        Seq::empty()
    };
    (command, current, previous)
}

/// The arguments for a completion program, for the line `line` with the
/// cursor after `prefix`.
pub fn completer_args(line: &str, prefix: &str) -> (r: CompleterArgs)
    ensures
        (r.command@, r.current@, r.previous@) == completer_args_spec(line@, prefix@),
{
    let lw = split_words_of(line, Separator::WhiteSpace);
    let pw = split_words_of(prefix, Separator::WhiteSpace);
    let pv = crate::text::chars_of(prefix);
    let after_space = pv.len() > 0 && pv[pv.len() - 1] == ' ';
    let command = if lw.len() > 0 { lw[0].clone() } else { String::new() };
    let n = pw.len();
    proof {
        assert(n > 0 ==> views(pw@)[n - 1] == pw@[n - 1]@);
        assert(n >= 2 ==> views(pw@)[n - 2] == pw@[n - 2]@);
        assert(lw.len() > 0 ==> views(lw@)[0] == lw@[0]@);
    }
    let current = if after_space || n == 0 { String::new() } else { pw[n - 1].clone() };
    let previous = if after_space {
        if n > 0 { pw[n - 1].clone() } else { String::new() }
    } else if n >= 2 {
        pw[n - 2].clone()
    } else {
        String::new()
    };
    CompleterArgs { command, current, previous }
}

/// The lines trimmed of white space, without those left empty.
pub open spec fn nonblank_trimmed(lines: Seq<Seq<char>>) -> Seq<Seq<char>>
    decreases lines.len(),
{
    if lines.len() == 0 {
        Seq::empty()
    } else {
        let rest = nonblank_trimmed(lines.drop_last());
        let t = trimmed(lines.last());
        if t.len() > 0 {
            rest.push(t)
        } else {
            rest
        }
    }
}

/// The nonblank lines of a completion program's output, trimmed.
pub open spec fn candidates(output: Seq<char>) -> Seq<Seq<char>> {
    nonblank_trimmed(split_words(output, Separator::LineFeed))
}

/// The candidates that a completion program printed, one per line.
pub fn candidate_lines(output: &str) -> (r: Vec<String>)
    ensures
        views(r@) == candidates(output@),
{
    let lines = split_words_of(output, Separator::LineFeed);
    let ghost all = split_words(output@, Separator::LineFeed);
    let mut r: Vec<String> = Vec::new();
    let mut i: usize = 0;
    while i < lines.len()
        invariant
            i <= lines.len(),
            views(lines@) == all,
            all == split_words(output@, Separator::LineFeed),
            views(r@) == nonblank_trimmed(all.take(i as int)),
        decreases lines.len() - i,
    {
        let t = trim(lines[i].as_str());
        proof {
            assert(views(lines@)[i as int] == lines@[i as int]@);
            assert(all.take(i + 1).drop_last() == all.take(i as int));
            assert(all.take(i + 1).last() == all[i as int]);
        }
        if !t.as_str().is_empty() {
            assert(views(r@.push(t)) == views(r@).push(t@));
            r.push(t);
        }
        i += 1;
    }
    assert(all.take(all.len() as int) == all);
    r
}

/// What completing with a program's output gives: nothing when it printed no
/// candidate (then other completions are tried); the candidate and a space
/// for a single one; otherwise their longest common prefix when it is longer
/// (in bytes) than the word being completed; otherwise the bell, or on a
/// repeated press the sorted candidates separated by two spaces. Replacements
/// start where the word being completed starts.
pub open spec fn program_completion(
    output: Seq<char>,
    line: Seq<char>,
    prefix: Seq<char>,
    st: (Seq<char>, nat),
) -> (Option<CompletionView>, (Seq<char>, nat)) {
    let c = candidates(output);
    let current = completer_args_spec(line, prefix).1;
    let pos = byte_len(prefix);
    let start = (pos - byte_len(current)) as nat;
    if c.len() == 0 {
        (None, st)
    } else if c.len() == 1 {
        (Some(CompletionView::Replace { start, display: c[0], replacement: c[0].push(' ') }), st)
    } else if byte_len(lcp(c)) > byte_len(current) {
        (Some(CompletionView::Replace { start, display: lcp(c), replacement: lcp(c) }), st)
    } else {
        let (a, st2) = press_effect(st, prefix);
        match a {
            TabAction::Bell => (Some(CompletionView::Bell { start: pos }), st2),
            TabAction::List => (
                Some(CompletionView::Listing { start: pos, text: join(sorted_version(c), "  "@) }),
                st2,
            ),
        }
    }
}

/// Completes with the output of the completion program registered for the
/// line's command, as `program_completion` says.
pub fn complete_from_program(output: &str, line: &str, prefix: &str, state: &mut TabState) -> (r:
    Option<Completion>)
    ensures
        (match r {
            Some(c) => Some(c@),
            None => None,
        }, final(state)@) == program_completion(output@, line@, prefix@, old(state)@),
{
    let cands = candidate_lines(output);
    let args = completer_args(line, prefix);
    let pos = crate::text::byte_length(prefix);
    proof {
        lemma_split_words_bytes(prefix@, Separator::WhiteSpace);
        let pw = split_words(prefix@, Separator::WhiteSpace);
        if pw.len() > 0 {
            assert(byte_len(pw[pw.len() - 1]) <= byte_len(prefix@));
        }
    }
    let start = pos - crate::text::byte_length(args.current.as_str());
    if cands.len() == 0 {
        return None;
    }
    if cands.len() == 1 {
        let display = cands[0].clone();
        let mut replacement = cands[0].clone();
        crate::text::push_char(&mut replacement, ' ');
        assert(views(cands@)[0] == cands@[0]@);
        return Some(Completion::Replace { start, display, replacement });
    }
    let common = longest_common_prefix_of(&cands);
    if crate::text::byte_length(common.as_str()) > crate::text::byte_length(args.current.as_str()) {
        let display = common.clone();
        return Some(Completion::Replace { start, display, replacement: common });
    }
    match state.press(prefix) {
        TabAction::Bell => Some(Completion::Bell { start: pos }),
        TabAction::List => {
            let sorted = sort_strings(&cands);
            let text = join_strings(&sorted, "  ");
            Some(Completion::Listing { start: pos, text })
        },
    }
}

/// Where to look for files to complete a path: the directory (`None` for
/// the current one), the start of the file name that is typed, and the byte
/// offset in the line where the replaced text starts.
pub struct FileTarget {
    pub dir: Option<String>,
    pub part: String,
    pub start: usize,
}

/// The file completion target of `prefix`, the line up to the cursor; none
/// when `prefix` has no space (then command names are completed). The word
/// after the last space is the path typed so far:
/// - ending in `/`, it is the directory, nothing of the name is typed yet,
///   and the replacement starts at the cursor;
/// - with a `/` inside, what comes before the last `/` (`.` when nothing
///   does) is the directory, what comes after it the name typed, and the
///   replacement starts after that `/`;
/// - without `/`, the current directory is searched for names starting with
///   the word, and the replacement starts after the space.
pub open spec fn file_target_spec(prefix: Seq<char>) -> Option<(Option<Seq<char>>, Seq<char>, nat)> {
    match last_index(prefix, ' ') {
        None => None,
        Some(k) => {
            let fp = prefix.skip(k as int + 1);
            let after_space = byte_len(prefix.take(k as int)) + 1;
            if fp.len() > 0 && fp.last() == '/' {
                Some((Some(fp), Seq::empty(), byte_len(prefix)))
            } else {
                match last_index(fp, '/') {
                    Some(j) => {
                        let d = fp.take(j as int);
                        Some(
                            (
                                Some(if d.len() == 0 { "."@ } else { d }),
                                fp.skip(j as int + 1),
                                after_space + byte_len(d) + 1,
                            ),
                        )
                    },
                    None => Some((None, fp, after_space)),
                }
            }
        },
    }
}

proof fn lemma_last_index(s: Seq<char>, c: char)
    ensures
        last_index(s, c) is None <==> !s.contains(c),
        forall|k: int|
            0 <= k < s.len() && s[k] == c && (forall|j: int| k < j < s.len() ==> s[j] != c)
                ==> last_index(s, c) == Some(k as nat),
    decreases s.len(),
{
    if s.len() > 0 {
        let t = s.drop_last();
        lemma_last_index(t, c);
        if s.last() != c {
            assert(t.contains(c) <==> s.contains(c)) by {
                if s.contains(c) {
                    let k = choose|k: int| 0 <= k < s.len() && s[k] == c;
                    assert(t[k] == c);
                }
                if t.contains(c) {
                    let k = choose|k: int| 0 <= k < t.len() && t[k] == c;
                    assert(s[k] == c);
                }
            }
            assert forall|k: int|
                0 <= k < s.len() && s[k] == c && (forall|j: int| k < j < s.len() ==> s[j] != c)
                    implies last_index(s, c) == Some(k as nat) by {
                assert(t[k] == c);
                assert forall|j: int| k < j < t.len() implies t[j] != c by {
                    assert(t[j] == s[j]);
                }
            }
        } else {
            assert(s[s.len() - 1] == c);
        }
    }
}

/// Completing after a space always completes a path: `prefix` has a file
/// target exactly when it contains a space.
pub proof fn lemma_file_target_after_space(prefix: Seq<char>)
    ensures
        file_target_spec(prefix) is Some <==> prefix.contains(' '),
{
    lemma_last_index(prefix, ' ');
}

/// When the text after the last space has no `/` (it may be empty), the
/// current directory is searched for names starting with that text, and
/// the replacement starts right after the space.
pub proof fn lemma_file_target_in_current_dir(prefix: Seq<char>, k: int)
    requires
        0 <= k < prefix.len(),
        prefix[k] == ' ',
        forall|j: int| k < j < prefix.len() ==> prefix[j] != ' ' && prefix[j] != '/',
    ensures
        file_target_spec(prefix) == Some((None::<Seq<char>>, prefix.skip(k + 1), byte_len(prefix.take(k + 1)))),
{
    lemma_last_index(prefix, ' ');
    let fp = prefix.skip(k + 1);
    lemma_last_index(fp, '/');
    assert(!fp.contains('/')) by {
        if fp.contains('/') {
            let j = choose|j: int| 0 <= j < fp.len() && fp[j] == '/';
            assert(prefix[k + 1 + j] == '/');
        }
    }
    if fp.len() > 0 {
        assert(fp.last() == prefix[prefix.len() - 1]);
    }
    crate::text::lemma_byte_len_subrange(prefix, k, k + 1);
    assert(prefix.subrange(k, k + 1) == seq![' ']);
    crate::text::lemma_byte_len_ascii(' ');
}

/// When the text after the last space ends with `/`, that text is the
/// directory, nothing of the name is typed, and the replacement starts at
/// the cursor.
pub proof fn lemma_file_target_directory(prefix: Seq<char>, k: int)
    requires
        0 <= k < prefix.len() - 1,
        prefix[k] == ' ',
        forall|j: int| k < j < prefix.len() ==> prefix[j] != ' ',
        prefix.last() == '/',
    ensures
        file_target_spec(prefix) == Some((Some(prefix.skip(k + 1)), Seq::<char>::empty(), byte_len(prefix))),
{
    lemma_last_index(prefix, ' ');
    assert(prefix.skip(k + 1).last() == '/');
}

/// Where to complete a path in `prefix`, as `file_target_spec` says.
pub fn file_target(prefix: &str) -> (r: Option<FileTarget>)
    ensures
        match r {
            Some(t) => file_target_spec(prefix@) == Some((
                match t.dir {
                    Some(d) => Some(d@),
                    None => None,
                },
                t.part@,
                t.start as nat,
            )),
            None => file_target_spec(prefix@) is None,
        },
{
    let v = crate::text::chars_of(prefix);
    let total = crate::text::byte_length(prefix);
    let k = match crate::text::find_last(&v, ' ') {
        None => return None,
        Some(k) => k,
    };
    let n = v.len();
    let fpv = crate::text::string_of_range(&v, k + 1, n);
    let fp = crate::text::chars_of(fpv.as_str());
    let head = crate::text::string_of_range(&v, 0, k);
    let head_len = crate::text::byte_length(head.as_str());
    proof {
        assert(v@.skip(k + 1) == fp@);
        assert(v@.take(k as int) == head@);
        crate::text::lemma_byte_len_subrange(v@, k as int, n as int);
        crate::text::lemma_byte_len_subrange(v@, k + 1, n as int);
        crate::text::lemma_byte_len_subrange(v@, k as int, k + 1);
        assert(v@.subrange(k as int, k + 1) == seq![' ']);
        crate::text::lemma_byte_len_ascii(' ');
        assert(v@.take(n as int) == v@);
    }
    if fp.len() > 0 && fp[fp.len() - 1] == '/' {
        return Some(FileTarget { dir: Some(fpv), part: String::new(), start: total });
    }
    match crate::text::find_last(&fp, '/') {
        Some(j) => {
            let d = crate::text::string_of_range(&fp, 0, j);
            let part = crate::text::string_of_range(&fp, j + 1, fp.len());
            let d_len = crate::text::byte_length(d.as_str());
            proof {
                assert(fp@.take(j as int) == d@);
                assert(fp@.skip(j + 1) == part@);
                crate::text::lemma_byte_len_subrange(fp@, j as int, j + 1);
                crate::text::lemma_byte_len_subrange(fp@, 0, j as int);
                crate::text::lemma_byte_len_subrange(fp@, j + 1, fp@.len() as int);
                crate::text::lemma_byte_len_subrange(fp@, j as int, fp@.len() as int);
                assert(fp@.subrange(j as int, j + 1) == seq!['/']);
                crate::text::lemma_byte_len_ascii('/');
                assert(fp@.take(fp@.len() as int) == fp@);
                assert(fp@.subrange(0, j as int) == d@);
                assert(v@.subrange(k + 1, n as int) == fp@);
            }
            let dir = if d.as_str().is_empty() { owned(".") } else { d };
            Some(FileTarget { dir: Some(dir), part, start: head_len + 1 + d_len + 1 })
        },
        None => Some(FileTarget { dir: None, part: fpv, start: head_len + 1 }),
    }
}

/// A file named `name` is offered for the typed `part`: it starts with
/// `part`, and it is not hidden (starting with `.`) unless `part` starts
/// with `.`.
pub open spec fn offered(name: Seq<char>, part: Seq<char>) -> bool {
    &&& !(name.len() > 0 && name[0] == '.' && !(part.len() > 0 && part[0] == '.'))
    &&& has_prefix(name, part)
}

/// Whether the file `name` is offered for the typed `part`.
pub fn is_offered(name: &str, part: &str) -> (r: bool)
    ensures
        r == offered(name@, part@),
{
    let nv = crate::text::chars_of(name);
    let pv = crate::text::chars_of(part);
    if nv.len() > 0 && nv[0] == '.' && !(pv.len() > 0 && pv[0] == '.') {
        return false;
    }
    crate::text::starts_with(name, part)
}

/// The entries offered for `part`, in order.
pub open spec fn offered_entries(v: Seq<(Seq<char>, bool)>, part: Seq<char>) -> Seq<(Seq<char>, bool)>
    decreases v.len(),
{
    if v.len() == 0 {
        Seq::empty()
    } else {
        let rest = offered_entries(v.drop_last(), part);
        if offered(v.last().0, part) {
            rest.push(v.last())
        } else {
            rest
        }
    }
}

proof fn lemma_offered_entries(v: Seq<(Seq<char>, bool)>, part: Seq<char>)
    ensures
        forall|k: int|
            0 <= k < offered_entries(v, part).len() ==> offered(#[trigger] offered_entries(v, part)[k].0, part),
    decreases v.len(),
{
    if v.len() > 0 {
        lemma_offered_entries(v.drop_last(), part);
        let rest = offered_entries(v.drop_last(), part);
        let all = offered_entries(v, part);
        assert forall|k: int| 0 <= k < all.len() implies offered(#[trigger] all[k].0, part) by {
            if k < rest.len() {
                assert(all[k] == rest[k]);
            }
        }
    }
}

/// How an entry is listed: a directory with a `/` after its name.
pub open spec fn listed_names(q: Seq<(Seq<char>, bool)>) -> Seq<Seq<char>>
    decreases q.len(),
{
    if q.len() == 0 {
        Seq::empty()
    } else {
        let e = q.last();
        listed_names(q.drop_last()).push(if e.1 { e.0.push('/') } else { e.0 })
    }
}

/// What completing a path gives, with `entries` the files of the target
/// directory (name and whether it is a directory), `part` the name typed and
/// `start` where the replacement starts. The offered files are taken one per
/// name, in order of name. A single one is inserted with a `/` after a
/// directory and a space after another file; several give their longest
/// common prefix when it is longer (in bytes) than `part`, otherwise the
/// bell, or on a repeated press the list of names (directories with a `/`)
/// separated by two spaces; none gives nothing.
pub open spec fn file_completion(
    entries: Seq<(Seq<char>, bool)>,
    part: Seq<char>,
    start: nat,
    prefix: Seq<char>,
    st: (Seq<char>, nat),
) -> (CompletionView, (Seq<char>, nat)) {
    let q = sorted_entries(offered_entries(entries, part));
    let pos = byte_len(prefix);
    if q.len() == 1 {
        let d = q[0].0.push(if q[0].1 { '/' } else { ' ' });
        (CompletionView::Replace { start, display: d, replacement: d }, st)
    } else if q.len() > 1 {
        let l = lcp(names_of(q));
        if byte_len(l) > byte_len(part) {
            (CompletionView::Replace { start, display: l, replacement: l }, st)
        } else {
            let (a, st2) = press_effect(st, prefix);
            match a {
                TabAction::Bell => (CompletionView::Bell { start: pos }, st2),
                TabAction::List => (CompletionView::Listing { start: pos, text: join(listed_names(q), "  "@) }, st2),
            }
        }
    } else {
        (CompletionView::Nothing { start: pos }, st)
    }
}

/// Completes a path from the files of its directory, as `file_completion`
/// says.
pub fn complete_files(
    entries: &Vec<DirEntry>,
    part: &str,
    start: usize,
    prefix: &str,
    state: &mut TabState,
) -> (r: Completion)
    ensures
        (r@, final(state)@) == file_completion(entry_views(entries@), part@, start as nat, prefix@, old(state)@),
        r matches Completion::Replace { replacement, .. } ==> has_prefix(replacement@, part@),
{
    let pos = crate::text::byte_length(prefix);
    let mut offered_list: Vec<DirEntry> = Vec::new();
    let mut i: usize = 0;
    while i < entries.len()
        invariant
            i <= entries.len(),
            entry_views(offered_list@) == offered_entries(entry_views(entries@).take(i as int), part@),
        decreases entries.len() - i,
    {
        proof {
            let ev = entry_views(entries@);
            assert(ev.take(i + 1).drop_last() == ev.take(i as int));
            assert(ev.take(i + 1).last() == ev[i as int]);
        }
        if is_offered(entries[i].name.as_str(), part) {
            let e = DirEntry { name: entries[i].name.clone(), is_dir: entries[i].is_dir };
            let ghost before = offered_list@;
            offered_list.push(e);
            assert(entry_views(offered_list@) == entry_views(before).push((e.name@, e.is_dir)));
        }
        i += 1;
    }
    assert(entry_views(entries@).take(entries@.len() as int) == entry_views(entries@));
    let q = sorted_unique_entries(&offered_list);
    let ghost qv = entry_views(q@);
    proof {
        let ov = entry_views(offered_list@);
        lemma_offered_entries(entry_views(entries@), part@);
        assert forall|k: int| 0 <= k < q@.len() implies has_prefix(#[trigger] q@[k].name@, part@) by {
            assert(entry_names(q@)[k] == q@[k].name@);
            assert(entry_names(q@).contains(q@[k].name@));
            assert(entry_names(offered_list@).contains(q@[k].name@));
            let j = choose|j: int| 0 <= j < offered_list@.len() && entry_names(offered_list@)[j] == q@[k].name@;
            assert(ov[j].0 == q@[k].name@);
            assert(offered(ov[j].0, part@));
        }
    }
    if q.len() == 1 {
        let mut d = q[0].name.clone();
        let suffix = if q[0].is_dir { '/' } else { ' ' };
        proof {
            crate::text::lemma_prefix_push(q@[0].name@, part@, suffix);
        }
        crate::text::push_char(&mut d, suffix);
        let display = d.clone();
        return Completion::Replace { start, display, replacement: d };
    }
    if q.len() > 1 {
        let mut names: Vec<String> = Vec::new();
        let mut k: usize = 0;
        while k < q.len()
            invariant
                k <= q.len(),
                qv == entry_views(q@),
                views(names@) == names_of(qv).take(k as int),
            decreases q.len() - k,
        {
            let ghost before = names@;
            names.push(q[k].name.clone());
            proof {
                assert(views(names@) == views(before).push(q@[k as int].name@));
                assert(names_of(qv).take(k + 1) == names_of(qv).take(k as int).push(names_of(qv)[k as int]));
            }
            k += 1;
        }
        assert(names_of(qv).take(q.len() as int) == names_of(qv));
        let common = longest_common_prefix_of(&names);
        if crate::text::byte_length(common.as_str()) > crate::text::byte_length(part) {
            proof {
                assert(views(names@)[0] == q@[0].name@);
                crate::text::lemma_longer_prefix(q@[0].name@, common@, part@);
            }
            let display = common.clone();
            return Completion::Replace { start, display, replacement: common };
        }
        return match state.press(prefix) {
            TabAction::Bell => Completion::Bell { start: pos },
            TabAction::List => {
                let mut listed: Vec<String> = Vec::new();
                let mut k: usize = 0;
                while k < q.len()
                    invariant
                        k <= q.len(),
                        qv == entry_views(q@),
                        views(listed@) == listed_names(qv.take(k as int)),
                    decreases q.len() - k,
                {
                    let mut name = q[k].name.clone();
                    if q[k].is_dir {
                        crate::text::push_char(&mut name, '/');
                    }
                    let ghost before = listed@;
                    listed.push(name);
                    proof {
                        assert(views(listed@) == views(before).push(name@));
                        assert(qv.take(k + 1).drop_last() == qv.take(k as int));
                        assert(qv.take(k + 1).last() == qv[k as int]);
                    }
                    k += 1;
                }
                assert(qv.take(q.len() as int) == qv);
                let text = join_strings(&listed, "  ");
                Completion::Listing { start: pos, text }
            },
        };
    }
    Completion::Nothing { start: pos }
}

/// The commands of the shell itself that are offered as completions.
pub open spec fn builtin_commands() -> Seq<Seq<char>> {
    seq!["echo"@, "exit"@, "type"@, "pwd"@, "cd"@, "jobs"@, "declare"@]
}

/// The elements of `names` that start with `p`, in order.
pub open spec fn with_prefix(names: Seq<Seq<char>>, p: Seq<char>) -> Seq<Seq<char>>
    decreases names.len(),
{
    if names.len() == 0 {
        Seq::empty()
    } else {
        let rest = with_prefix(names.drop_last(), p);
        if has_prefix(names.last(), p) {
            rest.push(names.last())
        } else {
            rest
        }
    }
}

/// The command names that start with `prefix`, each once, in order: the
/// shell's own and those found on the search path.
pub open spec fn matching_commands(path_names: Seq<Seq<char>>, prefix: Seq<char>) -> Seq<Seq<char>> {
    with_prefix(sorted_set((builtin_commands() + path_names).to_set()), prefix)
}

/// What completing a command name gives: nothing when no command matches;
/// the command and a space for a single one; otherwise their longest common
/// prefix when it is longer (in bytes) than what is typed; otherwise the
/// bell, or on a repeated press the matching names separated by two spaces.
/// The replacement starts at the beginning of the line.
pub open spec fn command_completion(path_names: Seq<Seq<char>>, prefix: Seq<char>, st: (Seq<char>, nat)) -> (
    CompletionView,
    (Seq<char>, nat),
) {
    let m = matching_commands(path_names, prefix);
    if m.len() == 0 {
        (CompletionView::Nothing { start: 0 }, st)
    } else if m.len() == 1 {
        (CompletionView::Replace { start: 0, display: m[0], replacement: m[0].push(' ') }, st)
    } else if byte_len(lcp(m)) > byte_len(prefix) {
        (CompletionView::Replace { start: 0, display: lcp(m), replacement: lcp(m) }, st)
    } else {
        let (a, st2) = press_effect(st, prefix);
        match a {
            TabAction::Bell => (CompletionView::Bell { start: 0 }, st2),
            TabAction::List => (CompletionView::Listing { start: 0, text: join(m, "  "@) }, st2),
        }
    }
}

proof fn lemma_with_prefix(names: Seq<Seq<char>>, p: Seq<char>)
    ensures
        forall|k: int| 0 <= k < with_prefix(names, p).len() ==> has_prefix(#[trigger] with_prefix(names, p)[k], p),
    decreases names.len(),
{
    if names.len() > 0 {
        lemma_with_prefix(names.drop_last(), p);
        let rest = with_prefix(names.drop_last(), p);
        let all = with_prefix(names, p);
        assert forall|k: int| 0 <= k < all.len() implies has_prefix(#[trigger] all[k], p) by {
            if k < rest.len() {
                assert(all[k] == rest[k]);
            }
        }
    }
}

proof fn lemma_with_prefix_contents(names: Seq<Seq<char>>, p: Seq<char>)
    ensures
        forall|x: Seq<char>| with_prefix(names, p).contains(x) <==> (names.contains(x) && has_prefix(x, p)),
        strictly_sorted(names) ==> strictly_sorted(with_prefix(names, p)),
    decreases names.len(),
{
    if names.len() > 0 {
        let t = names.drop_last();
        let y = names.last();
        lemma_with_prefix_contents(t, p);
        let rest = with_prefix(t, p);
        let all = with_prefix(names, p);
        assert forall|x: Seq<char>| names.contains(x) <==> (t.contains(x) || x == y) by {
            if names.contains(x) {
                let k = choose|k: int| 0 <= k < names.len() && names[k] == x;
                if k < names.len() - 1 {
                    assert(t[k] == x);
                }
            }
            if t.contains(x) {
                let k = choose|k: int| 0 <= k < t.len() && t[k] == x;
                assert(names[k] == x);
            }
            if x == y {
                assert(names[names.len() - 1] == x);
            }
        }
        assert forall|x: Seq<char>| all.contains(x) <==> (names.contains(x) && has_prefix(x, p)) by {
            if has_prefix(y, p) {
                if all.contains(x) {
                    let k = choose|k: int| 0 <= k < all.len() && all[k] == x;
                    if k < rest.len() {
                        assert(rest[k] == x);
                    }
                }
                if rest.contains(x) {
                    let k = choose|k: int| 0 <= k < rest.len() && rest[k] == x;
                    assert(all[k] == x);
                }
                if x == y {
                    assert(all[rest.len() as int] == x);
                }
            }
        }
        if strictly_sorted(names) {
            assert(strictly_sorted(t)) by {
                assert forall|a: int, b: int| 0 <= a < b < t.len() implies lex_lt(#[trigger] t[a], #[trigger] t[b]) by {
                    assert(t[a] == names[a] && t[b] == names[b]);
                }
            }
            if has_prefix(y, p) {
                assert forall|a: int, b: int| 0 <= a < b < all.len() implies lex_lt(#[trigger] all[a], #[trigger] all[b]) by {
                    assert(all[a] == rest[a]);
                    if b < rest.len() {
                        assert(all[b] == rest[b]);
                    } else {
                        assert(rest.contains(rest[a]));
                        assert(t.contains(rest[a]));
                        let k = choose|k: int| 0 <= k < t.len() && t[k] == rest[a];
                        assert(names[k] == rest[a]);
                        assert(lex_lt(names[k], names[names.len() - 1]));
                    }
                }
            }
        }
    }
}

/// The command names offered for `prefix` are exactly the shell's own
/// commands and the search-path names that start with `prefix` (one equal to
/// it included), each once, in strictly increasing order.
pub proof fn lemma_matching_commands(path_names: Seq<Seq<char>>, prefix: Seq<char>)
    ensures
        forall|x: Seq<char>|
            matching_commands(path_names, prefix).contains(x) <==> ((builtin_commands()
                + path_names).contains(x) && has_prefix(x, prefix)),
        strictly_sorted(matching_commands(path_names, prefix)),
{
    let all = builtin_commands() + path_names;
    lemma_sorted_set_of_list(all);
    lemma_with_prefix_contents(sorted_set(all.to_set()), prefix);
}

/// Completes a command name, with `path_names` the names of the files in
/// the directories of the search path, as `command_completion` says.
pub fn complete_command(path_names: &Vec<String>, prefix: &str, state: &mut TabState) -> (r: Completion)
    ensures
        (r@, final(state)@) == command_completion(views(path_names@), prefix@, old(state)@),
        r matches Completion::Replace { replacement, .. } ==> has_prefix(replacement@, prefix@),
{
    let mut all: Vec<String> = vec![
        owned("echo"),
        owned("exit"),
        owned("type"),
        owned("pwd"),
        owned("cd"),
        owned("jobs"),
        owned("declare"),
    ];
    assert(views(all@) == builtin_commands());
    let mut i: usize = 0;
    while i < path_names.len()
        invariant
            i <= path_names.len(),
            views(all@) == builtin_commands() + views(path_names@).take(i as int),
        decreases path_names.len() - i,
    {
        let ghost before = all@;
        all.push(path_names[i].clone());
        proof {
            assert(views(all@) == views(before).push(path_names@[i as int]@));
            assert(views(path_names@).take(i + 1) == views(path_names@).take(i as int).push(views(path_names@)[i as int]));
        }
        i += 1;
    }
    assert(views(path_names@).take(path_names.len() as int) == views(path_names@));
    let unique = sorted_unique(&all);
    let ghost u = views(unique@);
    let mut m: Vec<String> = Vec::new();
    let mut k: usize = 0;
    while k < unique.len()
        invariant
            k <= unique.len(),
            u == views(unique@),
            views(m@) == with_prefix(u.take(k as int), prefix@),
        decreases unique.len() - k,
    {
        proof {
            assert(u.take(k + 1).drop_last() == u.take(k as int));
            assert(u.take(k + 1).last() == u[k as int]);
        }
        if crate::text::starts_with(unique[k].as_str(), prefix) {
            let ghost before = m@;
            m.push(unique[k].clone());
            assert(views(m@) == views(before).push(unique@[k as int]@));
        }
        k += 1;
    }
    assert(u.take(unique.len() as int) == u);
    proof {
        lemma_with_prefix(u, prefix@);
        assert(m@.len() > 0 ==> views(m@)[0] == m@[0]@);
    }
    if m.len() == 0 {
        return Completion::Nothing { start: 0 };
    }
    if m.len() == 1 {
        let display = m[0].clone();
        let mut replacement = m[0].clone();
        crate::text::push_char(&mut replacement, ' ');
        assert(views(m@)[0] == m@[0]@);
        proof {
            crate::text::lemma_prefix_push(m@[0]@, prefix@, ' ');
        }
        return Completion::Replace { start: 0, display, replacement };
    }
    let common = longest_common_prefix_of(&m);
    if crate::text::byte_length(common.as_str()) > crate::text::byte_length(prefix) {
        proof {
            crate::text::lemma_longer_prefix(views(m@)[0], common@, prefix@);
        }
        let display = common.clone();
        return Completion::Replace { start: 0, display, replacement: common };
    }
    match state.press(prefix) {
        TabAction::Bell => Completion::Bell { start: 0 },
        TabAction::List => {
            let text = join_strings(&m, "  ");
            Completion::Listing { start: 0, text }
        },
    }
}

} // verus!
