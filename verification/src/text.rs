//! Characters and strings: character classes, trimming, prefixes, joining,
//! decimal formatting and parsing, and the lexicographic order of strings.

use vstd::prelude::*;
use vstd::string::*;

verus! {

/// The characters that have the Unicode `White_Space` property, which is what
/// `char::is_whitespace` tests.
pub open spec fn is_white_space(c: char) -> bool {
    let u = c as u32;
    (0x09 <= u && u <= 0x0D) || u == 0x20 || u == 0x85 || u == 0xA0 || u == 0x1680 || (0x2000
        <= u && u <= 0x200A) || u == 0x2028 || u == 0x2029 || u == 0x202F || u == 0x205F || u
        == 0x3000
}

/// Whether `c` is a Unicode white-space character.
pub fn white_space(c: char) -> (r: bool)
    ensures
        r == is_white_space(c),
{
    let u = c as u32;
    (0x09 <= u && u <= 0x0D) || u == 0x20 || u == 0x85 || u == 0xA0 || u == 0x1680 || (0x2000
        <= u && u <= 0x200A) || u == 0x2028 || u == 0x2029 || u == 0x202F || u == 0x205F || u
        == 0x3000
}

/// `A`-`Z` or `a`-`z`.
pub open spec fn is_ascii_alpha(c: char) -> bool {
    ('A' as u32 <= c as u32 && c as u32 <= 'Z' as u32) || ('a' as u32 <= c as u32 && c as u32
        <= 'z' as u32)
}

/// `0`-`9`.
pub open spec fn is_ascii_digit(c: char) -> bool {
    '0' as u32 <= c as u32 && c as u32 <= '9' as u32
}

/// An ASCII letter or digit.
pub open spec fn is_ascii_alnum(c: char) -> bool {
    is_ascii_alpha(c) || is_ascii_digit(c)
}

/// Whether `c` is an ASCII letter.
pub fn ascii_alpha(c: char) -> (r: bool)
    ensures
        r == is_ascii_alpha(c),
{
    ('A' <= c && c <= 'Z') || ('a' <= c && c <= 'z')
}

/// Whether `c` is an ASCII digit.
pub fn ascii_digit(c: char) -> (r: bool)
    ensures
        r == is_ascii_digit(c),
{
    '0' <= c && c <= '9'
}

/// Whether `c` is an ASCII letter or digit.
pub fn ascii_alnum(c: char) -> (r: bool)
    ensures
        r == is_ascii_alnum(c),
{
    ascii_alpha(c) || ascii_digit(c)
}

/// Appends a character to a string. Trusted: the body is `String::push`,
/// and the contract claims that afterwards the string holds its old
/// characters followed by `c`, as the documentation of `String::push` says.
#[verifier::external_body]
pub(crate) fn push_char(s: &mut String, c: char)
    ensures
        final(s)@ == old(s)@.push(c),
{
    s.push(c);
}

/// The characters of `s`, in order.
pub fn chars_of(s: &str) -> (r: Vec<char>)
    ensures
        r@ == s@,
{
    let mut r: Vec<char> = Vec::new();
    for c in it: s.chars()
        invariant
            r@ == it.seq().take(it.index() as int),
    {
        r.push(c);
    }
    r
}

/// The string made of `v[from..to]`.
pub fn string_of_range(v: &Vec<char>, from: usize, to: usize) -> (r: String)
    requires
        from <= to <= v.len(),
    ensures
        r@ == v@.subrange(from as int, to as int),
{
    let mut r = String::new();
    let mut k = from;
    while k < to
        invariant
            from <= k <= to <= v.len(),
            r@ == v@.subrange(from as int, k as int),
        decreases to - k,
    {
        push_char(&mut r, v[k]);
        assert(v@.subrange(from as int, k + 1) == v@.subrange(from as int, k as int).push(v@[k as int]));
        k += 1;
    }
    r
}

/// The string made of all of `v`.
pub fn string_of(v: &Vec<char>) -> (r: String)
    ensures
        r@ == v@,
{
    let r = string_of_range(v, 0, v.len());
    assert(v@.subrange(0, v@.len() as int) == v@);
    r
}

/// A copy of `s` as an owned string.
pub fn owned(s: &str) -> (r: String)
    ensures
        r@ == s@,
{
    s.to_owned()
}

/// `s` without its leading white space.
pub open spec fn trim_start(s: Seq<char>) -> Seq<char>
    decreases s.len(),
{
    if s.len() > 0 && is_white_space(s[0]) {
        trim_start(s.drop_first())
    } else {
        s
    }
}

/// `s` without its trailing white space.
pub open spec fn trim_end(s: Seq<char>) -> Seq<char>
    decreases s.len(),
{
    if s.len() > 0 && is_white_space(s.last()) {
        trim_end(s.drop_last())
    } else {
        s
    }
}

/// `s` without its leading and trailing white space (what `str::trim` gives).
pub open spec fn trimmed(s: Seq<char>) -> Seq<char> {
    trim_end(trim_start(s))
}

/// `s` with leading and trailing white space removed.
pub fn trim(s: &str) -> (r: String)
    ensures
        r@ == trimmed(s@),
{
    let v = chars_of(s);
    let n = v.len();
    let mut i: usize = 0;
    assert(v@.subrange(0, n as int) == v@);
    while i < n && white_space(v[i])
        invariant
            i <= n == v@.len(),
            trim_start(v@) == trim_start(v@.subrange(i as int, n as int)),
        decreases n - i,
    {
        assert(v@.subrange(i as int, n as int).drop_first() == v@.subrange(i + 1, n as int));
        i += 1;
    }
    assert(trim_start(v@.subrange(i as int, n as int)) == v@.subrange(i as int, n as int));
    let mut j: usize = n;
    while j > i && white_space(v[j - 1])
        invariant
            i <= j <= n == v@.len(),
            trim_end(v@.subrange(i as int, n as int)) == trim_end(v@.subrange(i as int, j as int)),
        decreases j,
    {
        assert(v@.subrange(i as int, j as int).drop_last() == v@.subrange(i as int, j - 1));
        j -= 1;
    }
    assert(trim_end(v@.subrange(i as int, j as int)) == v@.subrange(i as int, j as int));
    string_of_range(&v, i, j)
}

/// `p` is a prefix of `s`.
pub open spec fn has_prefix(s: Seq<char>, p: Seq<char>) -> bool {
    p.len() <= s.len() && s.take(p.len() as int) == p
}

/// Whether `s` starts with `p`.
pub fn starts_with(s: &str, p: &str) -> (r: bool)
    ensures
        r == has_prefix(s@, p@),
{
    let sv = chars_of(s);
    let pv = chars_of(p);
    if pv.len() > sv.len() {
        return false;
    }
    let mut k: usize = 0;
    while k < pv.len()
        invariant
            pv.len() <= sv.len(),
            sv@ == s@,
            pv@ == p@,
            k <= pv.len(),
            sv@.take(k as int) == pv@.take(k as int),
        decreases pv.len() - k,
    {
        if sv[k] != pv[k] {
            assert(sv@.take(pv@.len() as int)[k as int] == sv@[k as int]);
            assert(sv@.take(pv@.len() as int) != pv@);
            return false;
        }
        assert(sv@.take(k + 1) == sv@.take(k as int).push(sv@[k as int]));
        assert(pv@.take(k + 1) == pv@.take(k as int).push(pv@[k as int]));
        k += 1;
    }
    assert(pv@.take(pv@.len() as int) == pv@);
    true
}

/// Whether `s` contains the character `c`.
pub fn contains_char(s: &str, c: char) -> (r: bool)
    ensures
        r == s@.contains(c),
{
    let v = chars_of(s);
    let mut k: usize = 0;
    while k < v.len()
        invariant
            k <= v.len(),
            v@ == s@,
            forall|j: int| 0 <= j < k ==> v@[j] != c,
        decreases v.len() - k,
    {
        if v[k] == c {
            assert(s@[k as int] == c);
            return true;
        }
        k += 1;
    }
    false
}

/// Whether the two strings are equal.
pub fn str_eq(a: &str, b: &str) -> (r: bool)
    ensures
        r == (a@ == b@),
{
    let av = chars_of(a);
    let bv = chars_of(b);
    if av.len() != bv.len() {
        return false;
    }
    let mut k: usize = 0;
    while k < av.len()
        invariant
            av.len() == bv.len(),
            av@ == a@,
            bv@ == b@,
            k <= av.len(),
            forall|j: int| 0 <= j < k ==> av@[j] == bv@[j],
        decreases av.len() - k,
    {
        if av[k] != bv[k] {
            assert(a@[k as int] != b@[k as int]);
            return false;
        }
        k += 1;
    }
    assert(av@ =~= bv@);
    true
}

/// The elements of `parts` with `sep` between each two of them.
pub open spec fn join(parts: Seq<Seq<char>>, sep: Seq<char>) -> Seq<char>
    decreases parts.len(),
{
    if parts.len() == 0 {
        Seq::empty()
    } else if parts.len() == 1 {
        parts[0]
    } else {
        join(parts.drop_last(), sep) + sep + parts.last()
    }
}

/// The views of a vector of strings.
pub open spec fn views(v: Seq<String>) -> Seq<Seq<char>> {
    v.map_values(|s: String| s@)
}

/// `parts` joined with `sep` between each two of them.
pub fn join_strings(parts: &[String], sep: &str) -> (r: String)
    ensures
        r@ == join(views(parts@), sep@),
{
    let mut r = String::new();
    let n = parts.len();
    let ghost all = views(parts@);
    let mut i: usize = 0;
    while i < n
        invariant
            n == parts@.len() == all.len(),
            i <= n,
            all == views(parts@),
            r@ == join(all.take(i as int), sep@),
        decreases n - i,
    {
        assert(all.take(i + 1).drop_last() == all.take(i as int));
        if i != 0 {
            r.append(sep);
        }
        r.append(parts[i].as_str());
        i += 1;
    }
    assert(all.take(n as int) == all);
    r
}

/// The character of the decimal digit `d`.
pub open spec fn digit_char(d: nat) -> char {
    (('0' as u32) + d) as char
}

/// The decimal representation of `n`, without leading zeros.
pub open spec fn decimal(n: nat) -> Seq<char>
    decreases n,
{
    if n < 10 {
        seq![digit_char(n)]
    } else {
        decimal(n / 10).push(digit_char(n % 10))
    }
}

fn digit(d: usize) -> (c: char)
    requires
        d < 10,
    ensures
        c == digit_char(d as nat),
{
    if d == 0 { '0' } else if d == 1 { '1' } else if d == 2 { '2' } else if d == 3 { '3' }
    else if d == 4 { '4' } else if d == 5 { '5' } else if d == 6 { '6' } else if d == 7 { '7' }
    else if d == 8 { '8' } else { '9' }
}

/// The decimal representation of `n`.
pub fn decimal_string(n: usize) -> (r: String)
    ensures
        r@ == decimal(n as nat),
{
    let mut m = n;
    let mut low: Vec<char> = Vec::new();
    while m >= 10
        invariant
            decimal(n as nat) == decimal(m as nat) + low@.reverse(),
        decreases m,
    {
        let d = m % 10;
        let c = digit(d);
        proof {
            assert(decimal(m as nat) == decimal((m / 10) as nat).push(c));
            assert(low@.push(c).reverse() == seq![c] + low@.reverse());
            assert(decimal((m / 10) as nat).push(c) + low@.reverse() == decimal((m / 10) as nat) + (seq![c] + low@.reverse()));
        }
        low.push(c);
        m = m / 10;
    }
    let mut r = String::new();
    let c0 = digit(m);
    push_char(&mut r, c0);
    let mut k = low.len();
    while k > 0
        invariant
            k <= low.len(),
            r@ == decimal(m as nat) + low@.subrange(k as int, low@.len() as int).reverse(),
        decreases k,
    {
        k -= 1;
        push_char(&mut r, low[k]);
        assert(low@.subrange(k as int, low@.len() as int) == seq![low@[k as int]] + low@.subrange(k + 1, low@.len() as int));
        assert((seq![low@[k as int]] + low@.subrange(k + 1, low@.len() as int)).reverse()
            == low@.subrange(k + 1, low@.len() as int).reverse().push(low@[k as int]));
    }
    assert(low@.subrange(0, low@.len() as int) == low@);
    r
}

/// What separates words.
pub enum Separator {
    /// Unicode white space (as `str::split_whitespace` uses).
    WhiteSpace,
    /// A line feed (lines).
    LineFeed,
}

/// `c` separates words of kind `k`.
pub open spec fn separates(k: Separator, c: char) -> bool {
    match k {
        Separator::WhiteSpace => is_white_space(c),
        Separator::LineFeed => c == '\n',
    }
}

fn separates_exec(k: &Separator, c: char) -> (r: bool)
    ensures
        r == separates(*k, c),
{
    match k {
        Separator::WhiteSpace => white_space(c),
        Separator::LineFeed => c == '\n',
    }
}

/// Reading `s` from the left: the words completed so far and the word being
/// read.
pub open spec fn split_scan(s: Seq<char>, k: Separator) -> (Seq<Seq<char>>, Seq<char>)
    decreases s.len(),
{
    if s.len() == 0 {
        (Seq::empty(), Seq::empty())
    } else {
        let (parts, cur) = split_scan(s.drop_last(), k);
        if separates(k, s.last()) {
            if cur.len() > 0 {
                (parts.push(cur), Seq::empty())
            } else {
                (parts, cur)
            }
        } else {
            (parts, cur.push(s.last()))
        }
    }
}

/// The maximal runs of non-separator characters of `s`, in order.
pub open spec fn split_words(s: Seq<char>, k: Separator) -> Seq<Seq<char>> {
    let (parts, cur) = split_scan(s, k);
    if cur.len() > 0 {
        parts.push(cur)
    } else {
        parts
    }
}

/// The maximal runs of characters of `s` that are not separators of kind `k`.
pub fn split_words_of(s: &str, k: Separator) -> (r: Vec<String>)
    ensures
        views(r@) == split_words(s@, k),
{
    let v = chars_of(s);
    let mut parts: Vec<String> = Vec::new();
    let mut cur: Vec<char> = Vec::new();
    let mut i: usize = 0;
    while i < v.len()
        invariant
            i <= v.len(),
            v@ == s@,
            views(parts@) == split_scan(v@.take(i as int), k).0,
            cur@ == split_scan(v@.take(i as int), k).1,
        decreases v.len() - i,
    {
        assert(v@.take(i + 1).drop_last() == v@.take(i as int));
        let c = v[i];
        if separates_exec(&k, c) {
            if cur.len() > 0 {
                let w = string_of(&cur);
                assert(views(parts@.push(w)) == views(parts@).push(w@));
                parts.push(w);
                cur = Vec::new();
            }
        } else {
            cur.push(c);
        }
        i += 1;
    }
    assert(v@.take(v@.len() as int) == v@);
    if cur.len() > 0 {
        let w = string_of(&cur);
        assert(views(parts@.push(w)) == views(parts@).push(w@));
        parts.push(w);
    }
    parts
}

/// The number of bytes of the UTF-8 encoding of `s` (what `str::len` gives).
pub open spec fn byte_len(s: Seq<char>) -> nat {
    vstd::utf8::encode_utf8(s).len()
}

/// The number of bytes of `s` (`str::len`).
pub fn byte_length(s: &str) -> (n: usize)
    ensures
        n == byte_len(s@),
{
    let b = s.as_bytes();
    b.len()
}

/// The bytes of two strings put together are those of each.
pub proof fn lemma_byte_len_concat(a: Seq<char>, b: Seq<char>)
    ensures
        byte_len(a + b) == byte_len(a) + byte_len(b),
    decreases a.len(),
{
    if a.len() == 0 {
        assert(a + b == b);
    } else {
        assert((a + b).drop_first() == a.drop_first() + b);
        assert((a + b)[0] == a[0]);
        lemma_byte_len_concat(a.drop_first(), b);
    }
}

/// A part of `s` takes no more bytes than `s`.
pub proof fn lemma_byte_len_subrange(s: Seq<char>, i: int, j: int)
    requires
        0 <= i <= j <= s.len(),
    ensures
        byte_len(s.subrange(i, j)) <= byte_len(s),
        byte_len(s.take(i)) + byte_len(s.subrange(i, j)) == byte_len(s.take(j)),
{
    lemma_byte_len_concat(s.take(i), s.subrange(i, j));
    assert(s.take(i) + s.subrange(i, j) == s.take(j));
    lemma_byte_len_concat(s.take(j), s.skip(j));
    assert(s.take(j) + s.skip(j) == s);
}

/// Of two prefixes of the same string, the one with more bytes extends the
/// other.
pub proof fn lemma_longer_prefix(x: Seq<char>, a: Seq<char>, b: Seq<char>)
    requires
        has_prefix(x, a),
        has_prefix(x, b),
        byte_len(a) > byte_len(b),
    ensures
        has_prefix(a, b),
{
    if a.len() <= b.len() {
        assert(a == b.take(a.len() as int));
        lemma_byte_len_subrange(b, 0, a.len() as int);
        assert(b.subrange(0, a.len() as int) == a);
    } else {
        assert(a.take(b.len() as int) == x.take(b.len() as int));
    }
}

/// Adding a character keeps a prefix.
pub proof fn lemma_prefix_push(x: Seq<char>, p: Seq<char>, c: char)
    requires
        has_prefix(x, p),
    ensures
        has_prefix(x.push(c), p),
{
    assert(x.push(c).take(p.len() as int) == x.take(p.len() as int));
}

/// An ASCII character takes one byte.
pub proof fn lemma_byte_len_ascii(c: char)
    requires
        (c as u32) < 0x80,
    ensures
        byte_len(seq![c]) == 1,
{
    reveal_with_fuel(vstd::utf8::encode_utf8, 2);
    assert(seq![c].drop_first() == Seq::<char>::empty());
}

proof fn lemma_split_scan_bytes(s: Seq<char>, k: Separator)
    ensures
        s.take(s.len() - split_scan(s, k).1.len()) + split_scan(s, k).1 == s,
        split_scan(s, k).1.len() <= s.len(),
        forall|i: int|
            0 <= i < split_scan(s, k).0.len() ==> byte_len(#[trigger] split_scan(s, k).0[i])
                <= byte_len(s),
    decreases s.len(),
{
    if s.len() > 0 {
        let t = s.drop_last();
        lemma_split_scan_bytes(t, k);
        let (parts, cur) = split_scan(t, k);
        lemma_byte_len_concat(t, seq![s.last()]);
        assert(t + seq![s.last()] == s);
        lemma_byte_len_subrange(t, t.len() - cur.len(), t.len() as int);
        assert(t.subrange(t.len() - cur.len(), t.len() as int) == cur);
        if !separates(k, s.last()) {
            assert(s.take(s.len() - (cur.len() + 1)) == t.take(t.len() - cur.len()));
            assert(t.take(t.len() - cur.len()) + cur.push(s.last()) == s);
        } else {
            assert(s.take(s.len() as int) == s);
            assert(s + Seq::<char>::empty() == s);
        }
    } else {
        assert(s.take(0) + Seq::<char>::empty() == s);
    }
}

/// No word of `s` takes more bytes than `s`.
pub proof fn lemma_split_words_bytes(s: Seq<char>, k: Separator)
    ensures
        forall|i: int|
            0 <= i < split_words(s, k).len() ==> byte_len(#[trigger] split_words(s, k)[i])
                <= byte_len(s),
{
    lemma_split_scan_bytes(s, k);
    let cur = split_scan(s, k).1;
    lemma_byte_len_subrange(s, s.len() - cur.len(), s.len() as int);
    assert(s.subrange(s.len() - cur.len(), s.len() as int) == cur);
}

/// The position of the last `c` in `s`, if any.
pub open spec fn last_index(s: Seq<char>, c: char) -> Option<nat>
    decreases s.len(),
{
    if s.len() == 0 {
        None
    } else if s.last() == c {
        Some((s.len() - 1) as nat)
    } else {
        last_index(s.drop_last(), c)
    }
}

/// The position of the last `c` in `v`, if any.
pub fn find_last(v: &Vec<char>, c: char) -> (r: Option<usize>)
    ensures
        r matches Some(i) ==> last_index(v@, c) == Some(i as nat) && i < v.len() && v@[i as int] == c,
        r is None ==> last_index(v@, c) is None,
{
    let mut k: usize = v.len();
    assert(v@.take(k as int) == v@);
    while k > 0
        invariant
            k <= v.len(),
            last_index(v@, c) == last_index(v@.take(k as int), c),
        decreases k,
    {
        if v[k - 1] == c {
            return Some(k - 1);
        }
        assert(v@.take(k as int).drop_last() == v@.take(k - 1));
        k -= 1;
    }
    None
}

} // verus!
