//! Splitting a command line into arguments, with single quotes, double quotes
//! and backslash escapes.

use vstd::prelude::*;
use crate::text::{chars_of, string_of, views};

verus! {

/// Where the argument scanner stands after reading part of a line.
pub struct ArgScan {
    /// Arguments completed so far.
    pub parts: Seq<Seq<char>>,
    /// The argument being read.
    pub current: Seq<char>,
    pub in_single: bool,
    pub in_double: bool,
    /// The previous character was an escaping backslash.
    pub escape: bool,
}

/// A space or a tab: what separates arguments outside quotes.
pub open spec fn is_blank(c: char) -> bool {
    c == ' ' || c == '\t'
}

/// Nothing read yet.
pub open spec fn scan_start() -> ArgScan {
    ArgScan { parts: Seq::empty(), current: Seq::empty(), in_single: false, in_double: false, escape: false }
}

/// `st` with `cur` as the argument being read and no escape pending.
pub open spec fn with_current(st: ArgScan, cur: Seq<char>) -> ArgScan {
    ArgScan { parts: st.parts, current: cur, in_single: st.in_single, in_double: st.in_double, escape: false }
}

/// How the scanner reads one character.
/// - after an escaping backslash, the character is taken literally;
/// - a backslash escapes the next character, except inside single quotes;
/// - a single quote outside double quotes opens or closes a single-quoted part;
/// - a double quote outside single quotes opens or closes a double-quoted part;
/// - a blank outside quotes ends the current argument, if there is one;
/// - any other character is added to the current argument.
pub open spec fn scan_step(st: ArgScan, c: char) -> ArgScan {
    if st.escape {
        with_current(st, st.current.push(c))
    } else if c == '\\' && (st.in_double || !st.in_single) {
        ArgScan { escape: true, ..st }
    } else if c == '\'' && !st.in_double {
        ArgScan { in_single: !st.in_single, ..st }
    } else if c == '"' && !st.in_single {
        ArgScan { in_double: !st.in_double, ..st }
    } else if is_blank(c) && !st.in_single && !st.in_double {
        if st.current.len() > 0 {
            ArgScan { parts: st.parts.push(st.current), current: Seq::empty(), ..st }
        } else {
            st
        }
    } else {
        with_current(st, st.current.push(c))
    }
}

/// The scanner's state after reading all of `s`, starting from `st`.
pub open spec fn scan_from(st: ArgScan, s: Seq<char>) -> ArgScan
    decreases s.len(),
{
    if s.len() == 0 {
        st
    } else {
        scan_step(scan_from(st, s.drop_last()), s.last())
    }
}

/// The arguments of a state: the completed ones and the current one, if any.
pub open spec fn finish(st: ArgScan) -> Seq<Seq<char>> {
    if st.current.len() > 0 {
        st.parts.push(st.current)
    } else {
        st.parts
    }
}

/// The arguments of the line `s`.
pub open spec fn arguments(s: Seq<char>) -> Seq<Seq<char>> {
    finish(scan_from(scan_start(), s))
}

/// Splits a command line into arguments. Blanks (spaces and tabs) outside
/// quotes separate arguments; single quotes keep everything up to the next
/// single quote literally; double quotes keep blanks and single quotes, but a
/// backslash in them still escapes the next character; outside quotes a
/// backslash escapes the next character. Quotes themselves are dropped, and
/// no argument is empty.
pub fn parse_arguments(input: &str) -> (parts: Vec<String>)
    ensures
        views(parts@) == arguments(input@),
{
    let v = chars_of(input);
    let n = v.len();
    let mut parts: Vec<String> = Vec::new();
    let mut current: Vec<char> = Vec::new();
    let mut in_single = false;
    let mut in_double = false;
    let mut escape = false;
    let mut i: usize = 0;
    while i < n
        invariant
            n == v@.len(),
            v@ == input@,
            i <= n,
            ({
                let st = scan_from(scan_start(), v@.take(i as int));
                &&& views(parts@) == st.parts
                &&& current@ == st.current
                &&& in_single == st.in_single
                &&& in_double == st.in_double
                &&& escape == st.escape
            }),
        decreases n - i,
    {
        let c = v[i];
        assert(v@.take(i + 1).drop_last() == v@.take(i as int));
        if escape {
            current.push(c);
            escape = false;
        } else if c == '\\' {
            if in_double || !in_single {
                escape = true;
            } else {
                current.push(c);
            }
        } else if c == '\'' && !in_double {
            in_single = !in_single;
        } else if c == '"' && !in_single {
            in_double = !in_double;
        } else if (c == ' ' || c == '\t') && !in_single && !in_double {
            if current.len() > 0 {
                let word = string_of(&current);
                proof {
                    assert(views(parts@.push(word)) == views(parts@).push(word@));
                }
                parts.push(word);
                current = Vec::new();
            }
        } else {
            current.push(c);
        }
        i += 1;
    }
    assert(v@.take(n as int) == v@);
    if current.len() > 0 {
        let word = string_of(&current);
        proof {
            assert(views(parts@.push(word)) == views(parts@).push(word@));
        }
        parts.push(word);
    }
    parts
}

/// No quote is open and no escape is pending.
pub open spec fn is_neutral(st: ArgScan) -> bool {
    !st.in_single && !st.in_double && !st.escape
}

/// `st` with `p` put in front of its completed arguments.
pub open spec fn shifted(p: Seq<Seq<char>>, st: ArgScan) -> ArgScan {
    ArgScan { parts: p + st.parts, ..st }
}

proof fn lemma_scan_concat(st: ArgScan, x: Seq<char>, y: Seq<char>)
    ensures
        scan_from(st, x + y) == scan_from(scan_from(st, x), y),
    decreases y.len(),
{
    if y.len() == 0 {
        assert(x + y == x);
    } else {
        assert((x + y).drop_last() == x + y.drop_last());
        assert((x + y).last() == y.last());
        lemma_scan_concat(st, x, y.drop_last());
    }
}

proof fn lemma_scan_shifted(p: Seq<Seq<char>>, st: ArgScan, y: Seq<char>)
    ensures
        scan_from(shifted(p, st), y) == shifted(p, scan_from(st, y)),
    decreases y.len(),
{
    if y.len() > 0 {
        lemma_scan_shifted(p, st, y.drop_last());
        let prev = scan_from(st, y.drop_last());
        let c = y.last();
        if !prev.escape && !(c == '\\' && (prev.in_double || !prev.in_single)) && !(c == '\''
            && !prev.in_double) && !(c == '"' && !prev.in_single) && is_blank(c)
            && !prev.in_single && !prev.in_double && prev.current.len() > 0 {
            assert((p + prev.parts).push(prev.current) == p + prev.parts.push(prev.current));
        }
    }
}

proof fn lemma_parts_nonempty(s: Seq<char>)
    ensures
        forall|i: int|
            0 <= i < scan_from(scan_start(), s).parts.len() ==> #[trigger] scan_from(
                scan_start(),
                s,
            ).parts[i].len() > 0,
    decreases s.len(),
{
    if s.len() > 0 {
        lemma_parts_nonempty(s.drop_last());
        let prev = scan_from(scan_start(), s.drop_last());
        let now = scan_from(scan_start(), s);
        assert(now == scan_step(prev, s.last()));
        assert forall|i: int| 0 <= i < now.parts.len() implies #[trigger] now.parts[i].len() > 0 by {
            if i < prev.parts.len() {
                assert(prev.parts[i].len() > 0);
            }
        }
    }
}

/// No argument is empty.
pub proof fn lemma_arguments_nonempty(s: Seq<char>)
    ensures
        forall|i: int| 0 <= i < arguments(s).len() ==> #[trigger] arguments(s)[i].len() > 0,
{
    lemma_parts_nonempty(s);
}

/// A blank outside quotes splits a line in two that are parsed independently:
/// when the scan of `a` ends with no quote open and no escape pending, the
/// arguments of `a`, a blank, then `b` are those of `a` followed by those of `b`.
pub proof fn lemma_arguments_split_at_blank(a: Seq<char>, c: char, b: Seq<char>)
    requires
        is_blank(c),
        is_neutral(scan_from(scan_start(), a)),
    ensures
        arguments(a + seq![c] + b) == arguments(a) + arguments(b),
{
    let sa = scan_from(scan_start(), a);
    lemma_scan_concat(scan_start(), a + seq![c], b);
    assert((a + seq![c]).drop_last() == a);
    let t = scan_from(scan_start(), a + seq![c]);
    assert((a + seq![c]).last() == c);
    assert(t == scan_step(sa, c));
    assert(finish(sa) + Seq::<Seq<char>>::empty() == finish(sa));
    if sa.current.len() == 0 {
        assert(sa.current == Seq::<char>::empty());
    }
    assert(t == shifted(finish(sa), scan_start()));
    lemma_scan_shifted(finish(sa), scan_start(), b);
    let sb = scan_from(scan_start(), b);
    if sb.current.len() > 0 {
        assert((finish(sa) + sb.parts).push(sb.current) == finish(sa) + sb.parts.push(sb.current));
    } else {
        assert(finish(sa) + sb.parts == finish(sa) + finish(sb));
    }
}

/// A word with no blank, quote or backslash is one argument, itself.
pub open spec fn is_plain_word(w: Seq<char>) -> bool {
    forall|k: int|
        0 <= k < w.len() ==> !is_blank(#[trigger] w[k]) && w[k] != '\'' && w[k] != '"' && w[k]
            != '\\'
}

proof fn lemma_scan_plain(w: Seq<char>)
    requires
        is_plain_word(w),
    ensures
        scan_from(scan_start(), w) == with_current(scan_start(), w),
    decreases w.len(),
{
    if w.len() > 0 {
        lemma_scan_plain(w.drop_last());
        assert(w.drop_last().push(w.last()) == w);
    } else {
        assert(w == Seq::<char>::empty());
    }
}

/// A nonempty word with no blank, quote or backslash is one argument, itself.
pub proof fn lemma_arguments_plain_word(w: Seq<char>)
    requires
        w.len() > 0,
        is_plain_word(w),
    ensures
        arguments(w) == seq![w],
{
    lemma_scan_plain(w);
    assert(Seq::<Seq<char>>::empty().push(w) == seq![w]);
}

/// Inside single quotes (`single`) or double quotes, with no escape pending.
pub open spec fn quoted(p: Seq<Seq<char>>, cur: Seq<char>, single: bool) -> ArgScan {
    ArgScan { parts: p, current: cur, in_single: single, in_double: !single, escape: false }
}

proof fn lemma_scan_single_quoted(p: Seq<Seq<char>>, cur: Seq<char>, w: Seq<char>)
    requires
        forall|k: int| 0 <= k < w.len() ==> #[trigger] w[k] != '\'',
    ensures
        scan_from(quoted(p, cur, true), w) == quoted(p, cur + w, true),
    decreases w.len(),
{
    if w.len() > 0 {
        lemma_scan_single_quoted(p, cur, w.drop_last());
        assert(cur + w.drop_last().push(w.last()) == cur + w);
        assert(w.drop_last().push(w.last()) == w);
    } else {
        assert(cur + w == cur);
    }
}

/// Inside single quotes everything but a single quote is kept literally: a
/// nonempty word without single quotes, in single quotes, is one argument,
/// the word itself.
pub proof fn lemma_arguments_single_quoted(w: Seq<char>)
    requires
        w.len() > 0,
        forall|k: int| 0 <= k < w.len() ==> #[trigger] w[k] != '\'',
    ensures
        arguments(seq!['\''] + w + seq!['\'']) == seq![w],
{
    reveal_with_fuel(scan_from, 2);
    let q = seq!['\''];
    lemma_scan_concat(scan_start(), q, w);
    lemma_scan_concat(scan_start(), q + w, q);
    assert(q.drop_last() == Seq::<char>::empty());
    let s1 = scan_from(scan_start(), q);
    assert(s1 == quoted(Seq::empty(), Seq::empty(), true));
    lemma_scan_single_quoted(Seq::empty(), Seq::empty(), w);
    assert(Seq::<char>::empty() + w == w);
    assert(Seq::<Seq<char>>::empty().push(w) == seq![w]);
}

proof fn lemma_scan_double_quoted(p: Seq<Seq<char>>, cur: Seq<char>, w: Seq<char>)
    requires
        forall|k: int| 0 <= k < w.len() ==> #[trigger] w[k] != '"' && w[k] != '\\',
    ensures
        scan_from(quoted(p, cur, false), w) == quoted(p, cur + w, false),
    decreases w.len(),
{
    if w.len() > 0 {
        lemma_scan_double_quoted(p, cur, w.drop_last());
        assert(cur + w.drop_last().push(w.last()) == cur + w);
        assert(w.drop_last().push(w.last()) == w);
    } else {
        assert(cur + w == cur);
    }
}

/// Inside double quotes blanks and single quotes are kept: a nonempty word
/// without double quotes or backslashes, in double quotes, is one argument,
/// the word itself.
pub proof fn lemma_arguments_double_quoted(w: Seq<char>)
    requires
        w.len() > 0,
        forall|k: int| 0 <= k < w.len() ==> #[trigger] w[k] != '"' && w[k] != '\\',
    ensures
        arguments(seq!['"'] + w + seq!['"']) == seq![w],
{
    reveal_with_fuel(scan_from, 2);
    let q = seq!['"'];
    lemma_scan_concat(scan_start(), q, w);
    lemma_scan_concat(scan_start(), q + w, q);
    assert(q.drop_last() == Seq::<char>::empty());
    lemma_scan_double_quoted(Seq::empty(), Seq::empty(), w);
    assert(Seq::<char>::empty() + w == w);
    assert(Seq::<Seq<char>>::empty().push(w) == seq![w]);
}

/// Outside quotes a backslash makes the next character part of the argument,
/// even a blank or a quote: backslash then `c` is the one argument `c`.
pub proof fn lemma_arguments_escaped_char(c: char)
    ensures
        arguments(seq!['\\', c]) == seq![seq![c]],
{
    reveal_with_fuel(scan_from, 3);
    let s = seq!['\\', c];
    assert(s.drop_last() == seq!['\\']);
    assert(seq!['\\'].drop_last() == Seq::<char>::empty());
    assert(Seq::<char>::empty().push(c) == seq![c]);
    assert(Seq::<Seq<char>>::empty().push(seq![c]) == seq![seq![c]]);
}

} // verus!
