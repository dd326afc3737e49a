//! The lexicographic order of strings by code points (the order of `String`'s
//! `Ord`, since UTF-8 preserves code-point order), and sorting by it.

use vstd::prelude::*;
use crate::text::{chars_of, has_prefix, string_of_range, views};

verus! {

broadcast use vstd::seq_lib::group_to_multiset_ensures;

/// `a` comes strictly before `b`: at the first position where they differ,
/// `a` has the smaller code point, or `a` is a proper prefix of `b`.
pub open spec fn lex_lt(a: Seq<char>, b: Seq<char>) -> bool
    decreases a.len(),
{
    if a.len() == 0 {
        b.len() > 0
    } else if b.len() == 0 {
        false
    } else if a[0] != b[0] {
        (a[0] as u32) < (b[0] as u32)
    } else {
        lex_lt(a.drop_first(), b.drop_first())
    }
}

/// No string comes before itself.
pub proof fn lemma_lex_irreflexive(a: Seq<char>)
    ensures
        !lex_lt(a, a),
    decreases a.len(),
{
    if a.len() > 0 {
        lemma_lex_irreflexive(a.drop_first());
    }
}

/// Of two strings, at most one comes before the other.
pub proof fn lemma_lex_asymmetric(a: Seq<char>, b: Seq<char>)
    ensures
        lex_lt(a, b) ==> !lex_lt(b, a),
    decreases a.len(),
{
    if a.len() > 0 && b.len() > 0 && a[0] == b[0] {
        lemma_lex_asymmetric(a.drop_first(), b.drop_first());
    }
}

/// The order is transitive.
pub proof fn lemma_lex_transitive(a: Seq<char>, b: Seq<char>, c: Seq<char>)
    ensures
        lex_lt(a, b) && lex_lt(b, c) ==> lex_lt(a, c),
    decreases a.len(),
{
    if a.len() > 0 && b.len() > 0 && c.len() > 0 && a[0] == b[0] && b[0] == c[0] {
        lemma_lex_transitive(a.drop_first(), b.drop_first(), c.drop_first());
    }
}

/// Of two different strings, one comes before the other.
pub proof fn lemma_lex_total(a: Seq<char>, b: Seq<char>)
    ensures
        a != b ==> lex_lt(a, b) || lex_lt(b, a),
    decreases a.len(),
{
    if a.len() > 0 && b.len() > 0 && a[0] == b[0] {
        lemma_lex_total(a.drop_first(), b.drop_first());
        if a.drop_first() == b.drop_first() {
            assert(a == seq![a[0]] + a.drop_first());
            assert(b == seq![b[0]] + b.drop_first());
        }
    } else if a.len() == 0 && b.len() == 0 {
        assert(a == b);
    } else if a.len() > 0 && b.len() > 0 {
        if (a[0] as u32) == (b[0] as u32) {
            vstd::utf8::char_u32_cast(a[0], a[0] as u32);
            vstd::utf8::char_u32_cast(b[0], b[0] as u32);
        }
    }
}

/// Whether `a` comes strictly before `b`.
pub fn less_than(a: &Vec<char>, b: &Vec<char>) -> (r: bool)
    ensures
        r == lex_lt(a@, b@),
{
    let mut k: usize = 0;
    assert(a@.skip(0) == a@);
    assert(b@.skip(0) == b@);
    while k < a.len() && k < b.len()
        invariant
            k <= a.len(),
            k <= b.len(),
            lex_lt(a@, b@) == lex_lt(a@.skip(k as int), b@.skip(k as int)),
        decreases a.len() - k,
    {
        assert(a@.skip(k as int)[0] == a@[k as int]);
        assert(b@.skip(k as int)[0] == b@[k as int]);
        if a[k] != b[k] {
            return (a[k] as u32) < (b[k] as u32);
        }
        assert(a@.skip(k as int).drop_first() == a@.skip(k + 1));
        assert(b@.skip(k as int).drop_first() == b@.skip(k + 1));
        k += 1;
    }
    k < b.len()
}

/// Whether the string `a` comes strictly before the string `b`.
pub fn string_less(a: &String, b: &String) -> (r: bool)
    ensures
        r == lex_lt(a@, b@),
{
    less_than(&chars_of(a.as_str()), &chars_of(b.as_str()))
}

/// Each element is at most the next ones.
pub open spec fn sorted(s: Seq<Seq<char>>) -> bool {
    forall|i: int, j: int| 0 <= i < j < s.len() ==> !lex_lt(#[trigger] s[j], #[trigger] s[i])
}

/// Each element is strictly before the next ones (so none occurs twice).
pub open spec fn strictly_sorted(s: Seq<Seq<char>>) -> bool {
    forall|i: int, j: int| 0 <= i < j < s.len() ==> lex_lt(#[trigger] s[i], #[trigger] s[j])
}

/// The strings of `v` in order, each as often as in `v` (what `sort` gives).
pub fn sort_strings(v: &Vec<String>) -> (r: Vec<String>)
    ensures
        views(r@).to_multiset() == views(v@).to_multiset(),
        sorted(views(r@)),
        views(r@) == sorted_version(views(v@)),
{
    let mut r: Vec<String> = Vec::new();
    let mut i: usize = 0;
    while i < v.len()
        invariant
            i <= v.len(),
            views(r@).to_multiset() == views(v@.take(i as int)).to_multiset(),
            sorted(views(r@)),
        decreases v.len() - i,
    {
        let x = &v[i];
        let mut p: usize = 0;
        while p < r.len() && !string_less(x, &r[p])
            invariant
                p <= r.len(),
                forall|q: int| 0 <= q < p ==> !lex_lt(x@, #[trigger] views(r@)[q]),
            decreases r.len() - p,
        {
            p += 1;
        }
        let ghost old_r = views(r@);
        r.insert(p, x.clone());
        proof {
            assert(views(r@) == old_r.insert(p as int, x@));
            assert(v@.take(i + 1) == v@.take(i as int).push(v@[i as int]));
            assert(views(v@.take(i + 1)) == views(v@.take(i as int)).push(x@));
            vstd::seq_lib::to_multiset_insert(old_r, p as int, x@);
            let nr = views(r@);
            assert forall|a: int, b: int| 0 <= a < b < nr.len() implies !lex_lt(
                #[trigger] nr[b],
                #[trigger] nr[a],
            ) by {
                if b == p {
                    assert(!lex_lt(x@, old_r[a]));
                    lemma_lex_total(x@, old_r[a]);
                    lemma_lex_asymmetric(old_r[a], x@);
                } else if a == p {
                    let bb = b - 1;
                    if p < old_r.len() {
                        assert(lex_lt(x@, old_r[p as int]));
                        if bb > p {
                            assert(!lex_lt(old_r[bb], old_r[p as int]));
                            lemma_lex_total(old_r[bb], old_r[p as int]);
                            lemma_lex_transitive(x@, old_r[p as int], old_r[bb]);
                        }
                        lemma_lex_asymmetric(x@, old_r[bb]);
                    }
                } else {
                    let aa = if a < p { a } else { a - 1 };
                    let bb = if b < p { b } else { b - 1 };
                    assert(nr[a] == old_r[aa]);
                    assert(nr[b] == old_r[bb]);
                }
            }
        }
        i += 1;
    }
    assert(v@.take(v@.len() as int) == v@);
    proof {
        let q = sorted_version(views(v@));
        assert(sorted(views(r@)) && views(r@).to_multiset() == views(v@).to_multiset());
        lemma_sorted_unique(q, views(r@));
    }
    r
}

/// The position at which `x` goes in the strictly sorted `r`: the first
/// element that is not before `x`.
fn insert_position(r: &Vec<String>, x: &String) -> (p: usize)
    requires
        strictly_sorted(views(r@)),
    ensures
        p <= r.len(),
        forall|q: int| 0 <= q < p ==> lex_lt(#[trigger] views(r@)[q], x@),
        p < r.len() ==> !lex_lt(r@[p as int]@, x@),
{
    let mut p: usize = 0;
    while p < r.len() && string_less(&r[p], x)
        invariant
            p <= r.len(),
            forall|q: int| 0 <= q < p ==> lex_lt(#[trigger] views(r@)[q], x@),
        decreases r.len() - p,
    {
        p += 1;
    }
    p
}

proof fn lemma_insert_keeps_strict(r: Seq<Seq<char>>, p: int, x: Seq<char>)
    requires
        strictly_sorted(r),
        0 <= p <= r.len(),
        forall|q: int| 0 <= q < p ==> lex_lt(#[trigger] r[q], x),
        p < r.len() ==> lex_lt(x, r[p]),
    ensures
        strictly_sorted(r.insert(p, x)),
{
    let nr = r.insert(p, x);
    assert forall|a: int, b: int| 0 <= a < b < nr.len() implies lex_lt(
        #[trigger] nr[a],
        #[trigger] nr[b],
    ) by {
        if b == p {
            assert(nr[a] == r[a]);
        } else if a == p {
            assert(nr[b] == r[b - 1]);
            if b - 1 > p {
                lemma_lex_transitive(x, r[p], r[b - 1]);
            }
        } else {
            let aa = if a < p { a } else { a - 1 };
            let bb = if b < p { b } else { b - 1 };
            assert(nr[a] == r[aa]);
            assert(nr[b] == r[bb]);
        }
    }
}

/// The distinct strings of `v`, in strictly increasing order (what `sort`
/// then `dedup` gives).
pub fn sorted_unique(v: &Vec<String>) -> (r: Vec<String>)
    ensures
        strictly_sorted(views(r@)),
        forall|x: Seq<char>| views(r@).contains(x) <==> views(v@).contains(x),
        views(r@) == sorted_set(views(v@).to_set()),
{
    let mut r: Vec<String> = Vec::new();
    let mut i: usize = 0;
    while i < v.len()
        invariant
            i <= v.len(),
            strictly_sorted(views(r@)),
            forall|x: Seq<char>| views(r@).contains(x) <==> views(v@.take(i as int)).contains(x),
        decreases v.len() - i,
    {
        let x = &v[i];
        let p = insert_position(&r, x);
        let ghost old_r = views(r@);
        let ghost vt0 = views(v@.take(i as int));
        let ghost vt1 = views(v@.take(i + 1));
        proof {
            assert(v@.take(i + 1) == v@.take(i as int).push(v@[i as int]));
            assert(vt1 == vt0.push(x@));
        }
        if p < r.len() && !string_less(x, &r[p]) {
            proof {
                lemma_lex_total(x@, old_r[p as int]);
                assert(old_r[p as int] == x@);
                assert forall|y: Seq<char>| views(r@).contains(y) <==> vt1.contains(y) by {
                    if y == x@ {
                        assert(views(r@)[p as int] == y);
                        assert(vt1[i as int] == y);
                    } else {
                        if vt1.contains(y) {
                            let k = choose|k: int| 0 <= k < i + 1 && vt1[k] == y;
                            assert(vt0[k] == y);
                        }
                        if views(r@).contains(y) {
                            assert(vt0.contains(y));
                            let k = choose|k: int| 0 <= k < i && vt0[k] == y;
                            assert(vt1[k] == y);
                        }
                    }
                }
            }
        } else {
            r.insert(p, x.clone());
            proof {
                assert(views(r@) == old_r.insert(p as int, x@));
                if p < old_r.len() {
                    lemma_lex_total(x@, old_r[p as int]);
                }
                lemma_insert_keeps_strict(old_r, p as int, x@);
                let nr = views(r@);
                assert forall|y: Seq<char>| nr.contains(y) <==> vt1.contains(y) by {
                    if nr.contains(y) {
                        let k = choose|k: int| 0 <= k < nr.len() && nr[k] == y;
                        if k < p {
                            assert(old_r[k] == y);
                        } else if k > p {
                            assert(old_r[k - 1] == y);
                        }
                        if y != x@ {
                            assert(old_r.contains(y));
                            let m = choose|m: int| 0 <= m < i && vt0[m] == y;
                            assert(vt1[m] == y);
                        } else {
                            assert(vt1[i as int] == y);
                        }
                    }
                    if vt1.contains(y) {
                        if y == x@ {
                            assert(nr[p as int] == y);
                        } else {
                            let m = choose|m: int| 0 <= m < i + 1 && vt1[m] == y;
                            assert(vt0[m] == y);
                            assert(old_r.contains(y));
                            let k = choose|k: int| 0 <= k < old_r.len() && old_r[k] == y;
                            if k < p {
                                assert(nr[k] == y);
                            } else {
                                assert(nr[k + 1] == y);
                            }
                        }
                    }
                }
            }
        }
        i += 1;
    }
    assert(v@.take(v@.len() as int) == v@);
    proof {
        let q = sorted_set(views(v@).to_set());
        assert(strictly_sorted(views(r@)) && forall|x: Seq<char>| views(r@).contains(x) <==> views(v@).to_set().contains(x));
        lemma_strictly_sorted_unique(q, views(r@));
    }
    r
}

/// A file found while completing a path: its name and whether it is a
/// directory.
pub struct DirEntry {
    pub name: String,
    pub is_dir: bool,
}

/// The name and directory flag of each entry.
pub open spec fn entry_views(v: Seq<DirEntry>) -> Seq<(Seq<char>, bool)> {
    v.map_values(|e: DirEntry| (e.name@, e.is_dir))
}

/// The names of the entries.
pub open spec fn entry_names(v: Seq<DirEntry>) -> Seq<Seq<char>> {
    v.map_values(|e: DirEntry| e.name@)
}

/// `v[i]` is the first entry of `v` with its name.
spec fn first_of_its_name(v: Seq<(Seq<char>, bool)>, i: int) -> bool {
    0 <= i < v.len() && forall|j: int| 0 <= j < i ==> (#[trigger] v[j]).0 != v[i].0
}

/// The directory flag of the first entry of `v` named `name`.
pub open spec fn first_flag(v: Seq<(Seq<char>, bool)>, name: Seq<char>) -> bool
    decreases v.len(),
{
    if v.len() == 0 {
        false
    } else if v[0].0 == name {
        v[0].1
    } else {
        first_flag(v.drop_first(), name)
    }
}

proof fn lemma_first_flag(v: Seq<(Seq<char>, bool)>, m: int)
    requires
        first_of_its_name(v, m),
    ensures
        first_flag(v, v[m].0) == v[m].1,
    decreases m,
{
    if m > 0 {
        assert(v[0].0 != v[m].0);
        assert(first_of_its_name(v.drop_first(), m - 1)) by {
            assert forall|j: int| 0 <= j < m - 1 implies (#[trigger] v.drop_first()[j]).0 != v.drop_first()[m - 1].0 by {
                assert(v.drop_first()[j] == v[j + 1]);
            }
        }
        lemma_first_flag(v.drop_first(), m - 1);
    }
}

/// The names of entries given as (name, directory flag).
pub open spec fn names_of(q: Seq<(Seq<char>, bool)>) -> Seq<Seq<char>> {
    q.map_values(|e: (Seq<char>, bool)| e.0)
}

/// One entry per name of `v`, in strictly increasing order of name, each
/// with the directory flag of the first entry of `v` with that name.
pub open spec fn sorted_entries(v: Seq<(Seq<char>, bool)>) -> Seq<(Seq<char>, bool)> {
    choose|q: Seq<(Seq<char>, bool)>|
        strictly_sorted(names_of(q)) && (forall|x: Seq<char>|
            names_of(q).contains(x) <==> names_of(v).contains(x)) && (forall|k: int|
            0 <= k < q.len() ==> (#[trigger] q[k]).1 == first_flag(v, q[k].0))
}

proof fn lemma_sorted_entries_unique(q: Seq<(Seq<char>, bool)>, v: Seq<(Seq<char>, bool)>)
    requires
        strictly_sorted(names_of(q)),
        forall|x: Seq<char>| names_of(q).contains(x) <==> names_of(v).contains(x),
        forall|k: int| 0 <= k < q.len() ==> (#[trigger] q[k]).1 == first_flag(v, q[k].0),
    ensures
        q == sorted_entries(v),
{
    let c = sorted_entries(v);
    assert(strictly_sorted(names_of(c)) && (forall|x: Seq<char>|
        names_of(c).contains(x) <==> names_of(v).contains(x)) && (forall|k: int|
        0 <= k < c.len() ==> (#[trigger] c[k]).1 == first_flag(v, c[k].0)));
    lemma_strictly_sorted_unique(names_of(q), names_of(c));
    assert forall|k: int| 0 <= k < q.len() implies q[k] == c[k] by {
        assert(names_of(q)[k] == names_of(c)[k]);
        assert(c[k].1 == first_flag(v, c[k].0));
    }
    assert(q =~= c);
}

/// The entries of `v` in strictly increasing order of name, one per name:
/// the first entry of `v` with that name (what a stable sort by name then a
/// dedup by name gives).
pub fn sorted_unique_entries(v: &Vec<DirEntry>) -> (r: Vec<DirEntry>)
    ensures
        strictly_sorted(entry_names(r@)),
        forall|x: Seq<char>| entry_names(r@).contains(x) <==> entry_names(v@).contains(x),
        forall|k: int|
            0 <= k < r.len() ==> (#[trigger] entry_views(r@)[k]).1 == first_flag(entry_views(v@), entry_views(r@)[k].0),
        entry_views(r@) == sorted_entries(entry_views(v@)),
{
    let mut r: Vec<DirEntry> = Vec::new();
    let mut names: Vec<String> = Vec::new();
    let ghost mut src: Seq<int> = Seq::empty();
    let mut i: usize = 0;
    while i < v.len()
        invariant
            i <= v.len(),
            names@.len() == r@.len(),
            src.len() == r@.len(),
            views(names@) == entry_names(r@),
            strictly_sorted(views(names@)),
            forall|x: Seq<char>| entry_names(r@).contains(x) <==> entry_names(v@.take(i as int)).contains(x),
            forall|k: int|
                0 <= k < r.len() ==> first_of_its_name(entry_views(v@.take(i as int)), #[trigger] src[k])
                    && entry_views(v@.take(i as int))[src[k]] == entry_views(r@)[k],
        decreases v.len() - i,
    {
        let x = &v[i].name;
        let p = insert_position(&names, x);
        let ghost old_n = views(names@);
        let ghost old_r = entry_views(r@);
        let ghost e0 = entry_views(v@.take(i as int));
        let ghost e1 = entry_views(v@.take(i + 1));
        let ghost n0 = entry_names(v@.take(i as int));
        let ghost n1 = entry_names(v@.take(i + 1));
        proof {
            assert(v@.take(i + 1) == v@.take(i as int).push(v@[i as int]));
            assert(e1 == e0.push((x@, v@[i as int].is_dir)));
            assert(n1 == n0.push(x@));
            assert forall|m: int| 0 <= m < i implies #[trigger] e1[m] == e0[m] && e0[m].0 == n0[m] by {}
        }
        if p < names.len() && !string_less(x, &names[p]) {
            proof {
                lemma_lex_total(x@, old_n[p as int]);
                assert(entry_names(r@)[p as int] == x@);
                assert forall|y: Seq<char>| entry_names(r@).contains(y) <==> n1.contains(y) by {
                    if y == x@ {
                        assert(n1[i as int] == y);
                    } else {
                        if n1.contains(y) {
                            let k = choose|k: int| 0 <= k < i + 1 && n1[k] == y;
                            assert(n0[k] == y);
                        }
                        if entry_names(r@).contains(y) {
                            assert(n0.contains(y));
                            let k = choose|k: int| 0 <= k < i && n0[k] == y;
                            assert(n1[k] == y);
                        }
                    }
                }
                assert forall|k: int| 0 <= k < r.len() implies first_of_its_name(e1, #[trigger] src[k])
                    && e1[src[k]] == entry_views(r@)[k] by {
                    let m = src[k];
                    assert(first_of_its_name(e0, m));
                    assert(e1[m] == e0[m]);
                }
            }
        } else {
            let ghost old_rv = r@;
            let entry = DirEntry { name: x.clone(), is_dir: v[i].is_dir };
            names.insert(p, x.clone());
            r.insert(p, entry);
            let ghost old_src = src;
            proof {
                src = src.insert(p as int, i as int);
                assert(views(names@) == old_n.insert(p as int, x@));
                assert(entry_names(r@) == entry_names(old_rv).insert(p as int, x@));
                assert(entry_views(r@) == old_r.insert(p as int, (x@, v@[i as int].is_dir)));
                if p < old_n.len() {
                    lemma_lex_total(x@, old_n[p as int]);
                }
                lemma_insert_keeps_strict(old_n, p as int, x@);
                assert(!n0.contains(x@)) by {
                    if n0.contains(x@) {
                        assert(entry_names(old_rv).contains(x@));
                        let k = choose|k: int| 0 <= k < old_n.len() && old_n[k] == x@;
                        if k < p {
                            assert(lex_lt(old_n[k], x@));
                            lemma_lex_irreflexive(x@);
                        } else if k > p {
                            assert(lex_lt(x@, old_n[p as int]));
                            assert(lex_lt(old_n[p as int], old_n[k]));
                            lemma_lex_transitive(x@, old_n[p as int], x@);
                            lemma_lex_irreflexive(x@);
                        }
                    }
                }
                let nr = entry_names(r@);
                assert forall|y: Seq<char>| nr.contains(y) <==> n1.contains(y) by {
                    if nr.contains(y) {
                        let k = choose|k: int| 0 <= k < nr.len() && nr[k] == y;
                        if y != x@ {
                            if k < p {
                                assert(entry_names(old_rv)[k] == y);
                            } else {
                                assert(entry_names(old_rv)[k - 1] == y);
                            }
                            assert(entry_names(old_rv).contains(y));
                            assert(n0.contains(y));
                            let m = choose|m: int| 0 <= m < i && n0[m] == y;
                            assert(n1[m] == y);
                        } else {
                            assert(n1[i as int] == y);
                        }
                    }
                    if n1.contains(y) {
                        if y == x@ {
                            assert(nr[p as int] == y);
                        } else {
                            let m = choose|m: int| 0 <= m < i + 1 && n1[m] == y;
                            assert(n0[m] == y);
                            assert(entry_names(old_rv).contains(y));
                            let k = choose|k: int| 0 <= k < old_n.len() && entry_names(old_rv)[k] == y;
                            if k < p {
                                assert(nr[k] == y);
                            } else {
                                assert(nr[k + 1] == y);
                            }
                        }
                    }
                }
                assert forall|k: int| 0 <= k < r.len() implies first_of_its_name(e1, #[trigger] src[k])
                    && e1[src[k]] == entry_views(r@)[k] by {
                    if k == p {
                        assert forall|j: int| 0 <= j < i implies (#[trigger] e1[j]).0 != e1[i as int].0 by {
                            assert(n0[j] == e1[j].0);
                        }
                        assert(src[k] == i);
                        assert(first_of_its_name(e1, i as int));
                    } else {
                        let kk = if k < p { k } else { k - 1 };
                        assert(entry_views(r@)[k] == old_r[kk]);
                        assert(src[k] == old_src[kk]);
                        let m = old_src[kk];
                        assert(first_of_its_name(e0, m));
                        assert(e1[m] == e0[m]);
                    }
                }
            }
        }
        i += 1;
    }
    assert(v@.take(v@.len() as int) == v@);
    assert(entry_views(v@.take(v@.len() as int)) == entry_views(v@));
    assert(entry_names(v@.take(v@.len() as int)) == entry_names(v@));
    assert forall|k: int| 0 <= k < r.len() implies (#[trigger] entry_views(r@)[k]).1 == first_flag(entry_views(v@), entry_views(r@)[k].0) by {
        assert(first_of_its_name(entry_views(v@), src[k]));
        assert(entry_views(v@)[src[k]] == entry_views(r@)[k]);
        lemma_first_flag(entry_views(v@), src[k]);
    }
    proof {
        assert(names_of(entry_views(r@)) == entry_names(r@));
        assert(names_of(entry_views(v@)) == entry_names(v@));
        lemma_sorted_entries_unique(entry_views(r@), entry_views(v@));
    }
    r
}

/// `p` is a prefix of every element of `names`.
pub open spec fn common_prefix(p: Seq<char>, names: Seq<Seq<char>>) -> bool {
    forall|i: int| 0 <= i < names.len() ==> has_prefix(#[trigger] names[i], p)
}

/// `p` is the longest common prefix of the nonempty `names`: a common prefix
/// that cannot be extended by one more character.
pub open spec fn longest_common_prefix(p: Seq<char>, names: Seq<Seq<char>>) -> bool {
    &&& names.len() > 0
    &&& common_prefix(p, names)
    &&& exists|i: int|
        0 <= i < names.len() && (#[trigger] names[i].len() == p.len() || names[i][p.len() as int]
            != names[0][p.len() as int])
}

/// The longest common prefix of the nonempty `names`.
pub fn longest_common_prefix_of(names: &Vec<String>) -> (r: String)
    requires
        names.len() > 0,
    ensures
        longest_common_prefix(r@, views(names@)),
        r@ == lcp(views(names@)),
{
    let ghost all = views(names@);
    let mut head = chars_of(names[0].as_str());
    let mut len = head.len();
    let mut i: usize = 1;
    proof {
        assert(head@.take(len as int) == head@);
        assert(all[0] == head@);
    }
    while i < names.len()
        invariant
            all == views(names@),
            1 <= i <= names.len(),
            len <= head.len(),
            head@ == all[0],
            common_prefix(head@.take(len as int), all.take(i as int)),
            exists|j: int|
                0 <= j < i && (#[trigger] all[j].len() == len || all[j][len as int] != all[0][len as int]),
        decreases names.len() - i,
    {
        let other = chars_of(names[i].as_str());
        let ghost old_len = len;
        let mut k: usize = 0;
        while k < len && k < other.len() && head[k] == other[k]
            invariant
                k <= len <= head.len(),
                len == old_len,
                k <= other.len(),
                forall|q: int| 0 <= q < k ==> head@[q] == other@[q],
            decreases len - k,
        {
            k += 1;
        }
        proof {
            let p = head@.take(k as int);
            assert(other@ == all[i as int]);
            assert forall|j: int| 0 <= j < i + 1 implies has_prefix(#[trigger] all.take(i + 1)[j], p) by {
                assert(all.take(i + 1)[j] == all[j]);
                if j < i {
                    assert(all.take(i as int)[j] == all[j]);
                    assert(has_prefix(all.take(i as int)[j], head@.take(len as int)));
                    assert(all[j].take(k as int) == all[j].take(len as int).take(k as int));
                    assert(head@.take(len as int).take(k as int) == p);
                } else {
                    assert(all[i as int] == names@[i as int]@);
                    assert(other@.take(k as int) =~= p);
                }
            }
            assert(all[i as int] == names@[i as int]@);
            assert(all[0] == head@);
            if k < old_len {
                assert(other@.len() == k || head@[k as int] != other@[k as int]);
                assert(all[i as int].len() == k || all[i as int][k as int] != all[0][k as int]);
            } else {
                let w = choose|j: int|
                    0 <= j < i && (#[trigger] all[j].len() == len || all[j][len as int] != all[0][len as int]);
                assert(k == len);
                assert(0 <= w < i + 1 && (all[w].len() == k || all[w][k as int] != all[0][k as int]));
            }
        }
        len = k;
        i += 1;
    }
    assert(all.take(names.len() as int) == all);
    let r = string_of_range(&head, 0, len);
    proof {
        assert(longest_common_prefix(r@, all));
        lemma_lcp_unique(r@, lcp(all), all);
    }
    r
}

/// Two strictly sorted sequences with the same elements are equal.
pub proof fn lemma_strictly_sorted_unique(a: Seq<Seq<char>>, b: Seq<Seq<char>>)
    requires
        strictly_sorted(a),
        strictly_sorted(b),
        forall|x: Seq<char>| a.contains(x) <==> b.contains(x),
    ensures
        a == b,
    decreases a.len(),
{
    if a.len() == 0 {
        if b.len() > 0 {
            assert(b.contains(b[0]));
        }
        assert(a =~= b);
    } else {
        assert(a.contains(a[0]));
        assert(b.contains(a[0]));
        assert(b.len() > 0);
        assert(b.contains(b[0]));
        let j = choose|j: int| 0 <= j < b.len() && b[j] == a[0];
        let i = choose|i: int| 0 <= i < a.len() && a[i] == b[0];
        if a[0] != b[0] {
            assert(i != 0 && j != 0);
            assert(lex_lt(a[0], a[i]));
            assert(lex_lt(b[0], b[j]));
            lemma_lex_asymmetric(a[0], b[0]);
        }
        let ta = a.drop_first();
        let tb = b.drop_first();
        assert forall|x: Seq<char>| ta.contains(x) <==> tb.contains(x) by {
            if ta.contains(x) {
                let k = choose|k: int| 0 <= k < ta.len() && ta[k] == x;
                assert(a[k + 1] == x);
                assert(lex_lt(a[0], x));
                lemma_lex_irreflexive(x);
                assert(b.contains(x));
                let m = choose|m: int| 0 <= m < b.len() && b[m] == x;
                assert(m != 0);
                assert(tb[m - 1] == x);
            }
            if tb.contains(x) {
                let k = choose|k: int| 0 <= k < tb.len() && tb[k] == x;
                assert(b[k + 1] == x);
                assert(lex_lt(b[0], x));
                lemma_lex_irreflexive(x);
                assert(a.contains(x));
                let m = choose|m: int| 0 <= m < a.len() && a[m] == x;
                assert(m != 0);
                assert(ta[m - 1] == x);
            }
        }
        lemma_strictly_sorted_unique(ta, tb);
        assert(a == seq![a[0]] + ta);
        assert(b == seq![b[0]] + tb);
    }
}

/// Two sorted sequences with the same elements, each as often, are equal.
pub proof fn lemma_sorted_unique(a: Seq<Seq<char>>, b: Seq<Seq<char>>)
    requires
        sorted(a),
        sorted(b),
        a.to_multiset() == b.to_multiset(),
    ensures
        a == b,
    decreases a.len(),
{
    assert(a.len() == a.to_multiset().len());
    assert(b.len() == b.to_multiset().len());
    if a.len() > 0 {
        assert(a.contains(a[0]));
        assert(a.to_multiset().count(a[0]) > 0);
        assert(b.to_multiset().count(a[0]) > 0);
        assert(b.contains(a[0]));
        assert(b.contains(b[0]));
        assert(b.to_multiset().count(b[0]) > 0);
        assert(a.to_multiset().count(b[0]) > 0);
        assert(a.contains(b[0]));
        let j = choose|j: int| 0 <= j < b.len() && b[j] == a[0];
        let i = choose|i: int| 0 <= i < a.len() && a[i] == b[0];
        if a[0] != b[0] {
            assert(i != 0 && j != 0);
            assert(!lex_lt(a[i], a[0]));
            assert(!lex_lt(b[j], b[0]));
            lemma_lex_total(a[0], b[0]);
        }
        assert(a.remove(0) == a.drop_first());
        assert(b.remove(0) == b.drop_first());
        assert(a.remove(0).to_multiset() == a.to_multiset().remove(a[0]));
        assert(b.remove(0).to_multiset() == b.to_multiset().remove(b[0]));
        lemma_sorted_unique(a.drop_first(), b.drop_first());
        assert(a == seq![a[0]] + a.drop_first());
        assert(b == seq![b[0]] + b.drop_first());
    } else {
        assert(a =~= b);
    }
}

/// The elements of `s` sorted, each as often as in `s`.
pub open spec fn sorted_version(s: Seq<Seq<char>>) -> Seq<Seq<char>> {
    choose|q: Seq<Seq<char>>| sorted(q) && q.to_multiset() == s.to_multiset()
}

/// The elements of the set `s`, in strictly increasing order.
pub open spec fn sorted_set(s: Set<Seq<char>>) -> Seq<Seq<char>> {
    choose|q: Seq<Seq<char>>| strictly_sorted(q) && forall|x: Seq<char>| q.contains(x) <==> s.contains(x)
}

proof fn insert_position_of(q: Seq<Seq<char>>, x: Seq<char>) -> (p: int)
    requires
        strictly_sorted(q),
        !q.contains(x),
    ensures
        0 <= p <= q.len(),
        forall|k: int| 0 <= k < p ==> lex_lt(#[trigger] q[k], x),
        p < q.len() ==> lex_lt(x, q[p]),
    decreases q.len(),
{
    if q.len() == 0 {
        0
    } else {
        let t = q.drop_last();
        assert forall|a: int, b: int| 0 <= a < b < t.len() implies lex_lt(#[trigger] t[a], #[trigger] t[b]) by {
            assert(t[a] == q[a] && t[b] == q[b]);
        }
        assert(!t.contains(x)) by {
            if t.contains(x) {
                let k = choose|k: int| 0 <= k < t.len() && t[k] == x;
                assert(q[k] == x);
            }
        }
        let p0 = insert_position_of(t, x);
        let last = q.len() - 1;
        assert(q[last] != x);
        lemma_lex_total(q[last], x);
        if lex_lt(q[last], x) {
            assert forall|k: int| 0 <= k < q.len() implies lex_lt(#[trigger] q[k], x) by {
                if k < last {
                    if k < p0 {
                        assert(lex_lt(t[k], x));
                    } else {
                        assert(lex_lt(q[k], q[last]));
                        lemma_lex_transitive(q[k], q[last], x);
                    }
                }
            }
            q.len() as int
        } else {
            if p0 < t.len() {
                assert(t[p0] == q[p0]);
            }
            assert forall|k: int| 0 <= k < p0 implies lex_lt(#[trigger] q[k], x) by {
                assert(t[k] == q[k]);
            }
            p0
        }
    }
}

proof fn sorted_set_witness(s: Seq<Seq<char>>) -> (q: Seq<Seq<char>>)
    ensures
        strictly_sorted(q),
        forall|x: Seq<char>| q.contains(x) <==> s.contains(x),
    decreases s.len(),
{
    if s.len() == 0 {
        Seq::empty()
    } else {
        let t = s.drop_last();
        let q = sorted_set_witness(t);
        let y = s.last();
        assert forall|x: Seq<char>| s.contains(x) <==> (t.contains(x) || x == y) by {
            if s.contains(x) {
                let k = choose|k: int| 0 <= k < s.len() && s[k] == x;
                if k < s.len() - 1 {
                    assert(t[k] == x);
                }
            }
            if t.contains(x) {
                let k = choose|k: int| 0 <= k < t.len() && t[k] == x;
                assert(s[k] == x);
            }
            if x == y {
                assert(s[s.len() - 1] == x);
            }
        }
        if q.contains(y) {
            q
        } else {
            let p = insert_position_of(q, y);
            lemma_insert_keeps_strict(q, p, y);
            let r = q.insert(p, y);
            assert forall|x: Seq<char>| r.contains(x) <==> s.contains(x) by {
                if r.contains(x) {
                    let k = choose|k: int| 0 <= k < r.len() && r[k] == x;
                    if k < p {
                        assert(q[k] == x);
                    } else if k > p {
                        assert(q[k - 1] == x);
                    }
                }
                if q.contains(x) {
                    let k = choose|k: int| 0 <= k < q.len() && q[k] == x;
                    if k < p {
                        assert(r[k] == x);
                    } else {
                        assert(r[k + 1] == x);
                    }
                }
                if x == y {
                    assert(r[p] == x);
                }
            }
            r
        }
    }
}

/// The distinct elements of any list, in strictly increasing order, are
/// exactly its elements: `sorted_set` of a list's elements is strictly
/// sorted and holds each element of the list and nothing else.
pub proof fn lemma_sorted_set_of_list(s: Seq<Seq<char>>)
    ensures
        strictly_sorted(sorted_set(s.to_set())),
        forall|x: Seq<char>| sorted_set(s.to_set()).contains(x) <==> s.contains(x),
{
    let w = sorted_set_witness(s);
    assert(strictly_sorted(w) && forall|x: Seq<char>| w.contains(x) <==> s.to_set().contains(x));
}

/// The longest common prefix of the nonempty `names`.
pub open spec fn lcp(names: Seq<Seq<char>>) -> Seq<char> {
    choose|p: Seq<char>| longest_common_prefix(p, names)
}

/// How far the common prefix of `names` extends, starting from length `l`.
spec fn extend_common(names: Seq<Seq<char>>, l: nat) -> nat
    decreases names[0].len() - l,
{
    if l < names[0].len() && forall|i: int|
        0 <= i < names.len() ==> #[trigger] names[i].len() > l && names[i][l as int] == names[0][l as int] {
        extend_common(names, l + 1)
    } else {
        l
    }
}

proof fn lemma_extend_common(names: Seq<Seq<char>>, l: nat)
    requires
        names.len() > 0,
        l <= names[0].len(),
        common_prefix(names[0].take(l as int), names),
    ensures
        longest_common_prefix(names[0].take(extend_common(names, l) as int), names),
    decreases names[0].len() - l,
{
    let p = names[0].take(l as int);
    if l < names[0].len() && forall|i: int|
        0 <= i < names.len() ==> #[trigger] names[i].len() > l && names[i][l as int] == names[0][l as int] {
        let q = names[0].take(l as int + 1);
        assert forall|i: int| 0 <= i < names.len() implies has_prefix(#[trigger] names[i], q) by {
            assert(has_prefix(names[i], p));
            assert(names[i].len() > l && names[i][l as int] == names[0][l as int]);
            assert(names[i].take(l as int + 1) == names[i].take(l as int).push(names[i][l as int]));
            assert(q == p.push(names[0][l as int]));
        }
        lemma_extend_common(names, l + 1);
    } else {
        if l == names[0].len() {
            assert(names[0].len() == p.len());
        } else {
            let i = choose|i: int|
                0 <= i < names.len() && !(#[trigger] names[i].len() > l && names[i][l as int] == names[0][l as int]);
            assert(names[i].len() == p.len() || names[i][p.len() as int] != names[0][p.len() as int]) by {
                assert(has_prefix(names[i], p));
            }
        }
    }
}

/// Every nonempty list of names has a longest common prefix, and `lcp`
/// is it.
pub proof fn lemma_lcp_is_longest(names: Seq<Seq<char>>)
    requires
        names.len() > 0,
    ensures
        longest_common_prefix(lcp(names), names),
{
    assert forall|i: int| 0 <= i < names.len() implies has_prefix(#[trigger] names[i], names[0].take(0)) by {
        assert(names[i].take(0) == names[0].take(0));
    }
    lemma_extend_common(names, 0);
    let w = names[0].take(extend_common(names, 0) as int);
    assert(longest_common_prefix(w, names));
}

/// The longest common prefix is unique.
pub proof fn lemma_lcp_unique(p: Seq<char>, q: Seq<char>, names: Seq<Seq<char>>)
    requires
        longest_common_prefix(p, names),
        longest_common_prefix(q, names),
    ensures
        p == q,
{
    assert(has_prefix(names[0], p));
    assert(has_prefix(names[0], q));
    if p.len() < q.len() {
        let i = choose|i: int|
            0 <= i < names.len() && (#[trigger] names[i].len() == p.len() || names[i][p.len() as int]
                != names[0][p.len() as int]);
        assert(has_prefix(names[i], q));
        assert(names[i].take(q.len() as int)[p.len() as int] == names[i][p.len() as int]);
        assert(names[0].take(q.len() as int)[p.len() as int] == names[0][p.len() as int]);
    } else if q.len() < p.len() {
        let i = choose|i: int|
            0 <= i < names.len() && (#[trigger] names[i].len() == q.len() || names[i][q.len() as int]
                != names[0][q.len() as int]);
        assert(has_prefix(names[i], p));
        assert(names[i].take(p.len() as int)[q.len() as int] == names[i][q.len() as int]);
        assert(names[0].take(p.len() as int)[q.len() as int] == names[0][q.len() as int]);
    } else {
        assert(p == names[0].take(p.len() as int));
        assert(q == names[0].take(q.len() as int));
    }
}

} // verus!
