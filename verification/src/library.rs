//! Rules of the library as a whole: the ordered set of library folders, which
//! stored documents have disappeared, which metadata backups are retained, schema
//! migration decisions, key and token checks, and source-path containment.
use vstd::prelude::*;
use crate::models::{opt_view, string_views, ConnectionStatus};
use crate::text::{chars_of, str_eq, string_from_chars, trim, trim_str};

verus! {

/// Lexicographic order of character sequences by code point, which is also the
/// byte order of their UTF-8 encodings.
pub open spec fn text_le(a: Seq<char>, b: Seq<char>) -> bool
    decreases a.len(),
{
    if a.len() == 0 {
        true
    } else if b.len() == 0 {
        false
    } else if a[0] != b[0] {
        (a[0] as int) < (b[0] as int)
    } else {
        text_le(a.drop_first(), b.drop_first())
    }
}

/// Law: the order is total.
pub proof fn lemma_text_le_total(a: Seq<char>, b: Seq<char>)
    ensures
        text_le(a, b) || text_le(b, a),
    decreases a.len(),
{
    if a.len() > 0 && b.len() > 0 && a[0] == b[0] {
        lemma_text_le_total(a.drop_first(), b.drop_first());
    }
}

/// Law: the order is transitive.
pub proof fn lemma_text_le_transitive(a: Seq<char>, b: Seq<char>, c: Seq<char>)
    requires
        text_le(a, b),
        text_le(b, c),
    ensures
        text_le(a, c),
    decreases a.len(),
{
    if a.len() > 0 && b.len() > 0 && c.len() > 0 && a[0] == b[0] && b[0] == c[0] {
        lemma_text_le_transitive(a.drop_first(), b.drop_first(), c.drop_first());
    }
}

/// Law: the order is antisymmetric.
pub proof fn lemma_text_le_antisymmetric(a: Seq<char>, b: Seq<char>)
    requires
        text_le(a, b),
        text_le(b, a),
    ensures
        a == b,
    decreases a.len(),
{
    if a.len() == 0 {
        assert(b.len() == 0);
        assert(a =~= b);
    } else {
        assert(b.len() > 0);
        assert(a[0] == b[0]);
        lemma_text_le_antisymmetric(a.drop_first(), b.drop_first());
        assert forall|i: int| 0 <= i < a.len() implies a[i] == b[i] by {
            if i > 0 {
                assert(a[i] == a.drop_first()[i - 1]);
                assert(b[i] == b.drop_first()[i - 1]);
            }
        }
        assert(a =~= b);
    }
}

/// Compares two strings in `text_le` order.
pub fn text_le_exec(a: &str, b: &str) -> (r: bool)
    ensures
        r == text_le(a@, b@),
{
    let x = chars_of(a);
    let y = chars_of(b);
    let mut i: usize = 0;
    assert(x@.skip(0) =~= x@);
    assert(y@.skip(0) =~= y@);
    while i < x.len() && i < y.len() && x[i] == y[i]
        invariant
            i <= x@.len(),
            i <= y@.len(),
            text_le(a@, b@) == text_le(x@.skip(i as int), y@.skip(i as int)),
            x@ == a@,
            y@ == b@,
        decreases x@.len() - i,
    {
        assert(x@.skip(i as int).drop_first() =~= x@.skip(i + 1));
        assert(y@.skip(i as int).drop_first() =~= y@.skip(i + 1));
        i += 1;
    }
    if i == x.len() {
        assert(x@.skip(i as int).len() == 0);
        assert(text_le(x@.skip(i as int), y@.skip(i as int)));
        true
    } else if i == y.len() {
        assert(y@.skip(i as int).len() == 0);
        assert(x@.skip(i as int).len() > 0);
        assert(!text_le(x@.skip(i as int), y@.skip(i as int)));
        false
    } else {
        assert(x@.skip(i as int)[0] == x@[i as int]);
        assert(y@.skip(i as int)[0] == y@[i as int]);
        assert(x@[i as int] != y@[i as int]);
        assert(text_le(x@.skip(i as int), y@.skip(i as int)) == ((x@[i as int] as int) < (y@[i as int] as int)));
        let xc = x[i];
        let yc = y[i];
        let r = xc < yc;
        assert(r == text_le(a@, b@));
        r
    }
}

/// Strings in non-decreasing `text_le` order.
pub open spec fn sorted_text(s: Seq<Seq<char>>) -> bool {
    forall|i: int, j: int| 0 <= i < j < s.len() ==> text_le(s[i], s[j])
}

/// Sorts strings in `text_le` order (the order of `Vec<String>::sort`).
pub fn sort_strings(v: Vec<String>) -> (r: Vec<String>)
    ensures
        sorted_text(string_views(r@)),
        string_views(r@).to_multiset() == string_views(v@).to_multiset(),
{
    let mut out: Vec<String> = Vec::new();
    let mut i: usize = 0;
    assert(string_views(out@) =~= string_views(v@.take(0)));
    while i < v.len()
        invariant
            i <= v@.len(),
            sorted_text(string_views(out@)),
            string_views(out@).to_multiset() == string_views(v@.take(i as int)).to_multiset(),
        decreases v@.len() - i,
    {
        let x = v[i].clone();
        let ghost before = string_views(out@);
        let mut p: usize = 0;
        while p < out.len() && text_le_exec(out[p].as_str(), x.as_str())
            invariant
                p <= out@.len(),
                before == string_views(out@),
                forall|k: int| 0 <= k < p ==> text_le(#[trigger] before[k], x@),
            decreases out@.len() - p,
        {
            p += 1;
        }
        out.insert(p, x);
        proof {
            let after = string_views(out@);
            assert(after =~= before.insert(p as int, x@));
            if p < before.len() {
                lemma_text_le_total(before[p as int], x@);
            }
            assert forall|a: int, b: int| 0 <= a < b < after.len() implies text_le(
                after[a],
                after[b],
            ) by {
                if b < p {
                } else if b == p {
                } else if a < p {
                    assert(text_le(before[a], before[b - 1]));
                } else if a == p {
                    if b - 1 > p {
                        lemma_text_le_transitive(x@, before[p as int], before[b - 1]);
                    }
                } else {
                    assert(text_le(before[a - 1], before[b - 1]));
                }
            }
            assert(after.to_multiset() == before.insert(p as int, x@).to_multiset());
            vstd::seq_lib::to_multiset_insert(before, p as int, x@);
            assert(string_views(v@.take(i + 1)) =~= string_views(v@.take(i as int)).push(v@[i as int]@));
            vstd::seq_lib::to_multiset_build(string_views(v@.take(i as int)), x@);
        }
        i += 1;
    }
    assert(v@.take(v@.len() as int) =~= v@);
    out
}

/// A path as the sequences of characters of its components.
pub open spec fn path_view(p: Seq<String>) -> Seq<Seq<char>> {
    string_views(p)
}

/// Each path of `s` by `path_view`.
pub open spec fn path_views(s: Seq<Vec<String>>) -> Seq<Seq<Seq<char>>> {
    s.map_values(|p: Vec<String>| path_view(p@))
}

/// Order of paths: component by component, each component in `text_le` order,
/// and a path before every longer path that it begins.
pub open spec fn path_le(a: Seq<Seq<char>>, b: Seq<Seq<char>>) -> bool
    decreases a.len(),
{
    if a.len() == 0 {
        true
    } else if b.len() == 0 {
        false
    } else if a[0] != b[0] {
        text_le(a[0], b[0])
    } else {
        path_le(a.drop_first(), b.drop_first())
    }
}

/// Law: the order of paths is total.
pub proof fn lemma_path_le_total(a: Seq<Seq<char>>, b: Seq<Seq<char>>)
    ensures
        path_le(a, b) || path_le(b, a),
    decreases a.len(),
{
    if a.len() > 0 && b.len() > 0 {
        if a[0] == b[0] {
            lemma_path_le_total(a.drop_first(), b.drop_first());
        } else {
            lemma_text_le_total(a[0], b[0]);
        }
    }
}

/// Law: the order of paths is transitive.
pub proof fn lemma_path_le_transitive(a: Seq<Seq<char>>, b: Seq<Seq<char>>, c: Seq<Seq<char>>)
    requires
        path_le(a, b),
        path_le(b, c),
    ensures
        path_le(a, c),
    decreases a.len(),
{
    if a.len() > 0 {
        assert(b.len() > 0 && c.len() > 0);
        if a[0] == b[0] && b[0] == c[0] {
            lemma_path_le_transitive(a.drop_first(), b.drop_first(), c.drop_first());
        } else if a[0] != b[0] && b[0] != c[0] {
            lemma_text_le_transitive(a[0], b[0], c[0]);
            if a[0] == c[0] {
                lemma_text_le_antisymmetric(a[0], b[0]);
            }
        }
    }
}

/// Law: the order of paths is antisymmetric.
pub proof fn lemma_path_le_antisymmetric(a: Seq<Seq<char>>, b: Seq<Seq<char>>)
    requires
        path_le(a, b),
        path_le(b, a),
    ensures
        a == b,
    decreases a.len(),
{
    if a.len() == 0 {
        assert(a =~= b);
    } else {
        if a[0] != b[0] {
            lemma_text_le_antisymmetric(a[0], b[0]);
        }
        lemma_path_le_antisymmetric(a.drop_first(), b.drop_first());
        assert forall|i: int| 0 <= i < a.len() implies a[i] == b[i] by {
            if i > 0 {
                assert(a[i] == a.drop_first()[i - 1]);
                assert(b[i] == b.drop_first()[i - 1]);
            }
        }
        assert(a =~= b);
    }
}

/// Compares two paths, given by their components, in `path_le` order.
pub fn path_le_exec(a: &Vec<String>, b: &Vec<String>) -> (r: bool)
    ensures
        r == path_le(path_view(a@), path_view(b@)),
{
    let ghost x = path_view(a@);
    let ghost y = path_view(b@);
    let mut i: usize = 0;
    assert(x.skip(0) =~= x);
    assert(y.skip(0) =~= y);
    while i < a.len() && i < b.len() && str_eq(a[i].as_str(), b[i].as_str())
        invariant
            i <= a@.len(),
            i <= b@.len(),
            x == path_view(a@),
            y == path_view(b@),
            path_le(x, y) == path_le(x.skip(i as int), y.skip(i as int)),
        decreases a@.len() - i,
    {
        assert(x[i as int] == a@[i as int]@);
        assert(y[i as int] == b@[i as int]@);
        assert(x.skip(i as int)[0] == y.skip(i as int)[0]);
        assert(x.skip(i as int).drop_first() =~= x.skip(i + 1));
        assert(y.skip(i as int).drop_first() =~= y.skip(i + 1));
        i += 1;
    }
    if i == a.len() {
        true
    } else if i == b.len() {
        false
    } else {
        assert(x.skip(i as int)[0] == a@[i as int]@);
        assert(y.skip(i as int)[0] == b@[i as int]@);
        text_le_exec(a[i].as_str(), b[i].as_str())
    }
}

/// Paths in strictly increasing `path_le` order: sorted, none twice.
pub open spec fn strictly_sorted_paths(s: Seq<Seq<Seq<char>>>) -> bool {
    forall|i: int, j: int| #![trigger s[i], s[j]] 0 <= i < j < s.len() ==> path_le(s[i], s[j]) && s[i] != s[j]
}

/// Inserting a path at its place in a strictly sorted list, where it is not
/// already present, keeps the list strictly sorted.
proof fn lemma_insert_keeps_strict_order(before: Seq<Seq<Seq<char>>>, p: int, xv: Seq<Seq<char>>)
    requires
        0 <= p <= before.len(),
        strictly_sorted_paths(before),
        forall|k: int| 0 <= k < p ==> path_le(#[trigger] before[k], xv),
        p > 0 ==> before[p - 1] != xv,
        p < before.len() ==> path_le(xv, before[p]) && xv != before[p],
    ensures
        strictly_sorted_paths(before.insert(p, xv)),
{
    let after = before.insert(p, xv);
    assert forall|a: int, b: int| 0 <= a < b < after.len() implies #[trigger] path_le(
        after[a],
        after[b],
    ) && after[a] != after[b] by {
        lemma_inserted_pair(before, p, xv, a, b);
    }
}

/// Two positions of a strictly sorted list of paths.
proof fn lemma_sorted_pair(s: Seq<Seq<Seq<char>>>, i: int, j: int)
    requires
        strictly_sorted_paths(s),
        0 <= i < j < s.len(),
    ensures
        path_le(s[i], s[j]),
        s[i] != s[j],
{
}

/// One pair of positions of the list after the insertion of
/// `lemma_insert_keeps_strict_order`.
proof fn lemma_inserted_pair(before: Seq<Seq<Seq<char>>>, p: int, xv: Seq<Seq<char>>, a: int, b: int)
    requires
        0 <= p <= before.len(),
        strictly_sorted_paths(before),
        forall|k: int| 0 <= k < p ==> path_le(#[trigger] before[k], xv),
        p > 0 ==> before[p - 1] != xv,
        p < before.len() ==> path_le(xv, before[p]) && xv != before[p],
        0 <= a < b < before.len() + 1,
    ensures
        path_le(before.insert(p, xv)[a], before.insert(p, xv)[b]),
        before.insert(p, xv)[a] != before.insert(p, xv)[b],
{
    let after = before.insert(p, xv);
    if b < p {
        assert(after[a] == before[a] && after[b] == before[b]);
        lemma_sorted_pair(before, a, b);
    } else if b == p {
        assert(after[a] == before[a] && after[b] == xv);
        assert(path_le(before[a], xv));
        if a + 1 < p && before[a] == xv {
            lemma_sorted_pair(before, a, p - 1);
            assert(path_le(before[p - 1], xv));
            lemma_path_le_antisymmetric(before[a], before[p - 1]);
            assert(before[a] != before[p - 1]);
        }
    } else if a < p {
        assert(after[a] == before[a] && after[b] == before[b - 1]);
        lemma_sorted_pair(before, a, b - 1);
    } else if a == p {
        assert(after[a] == xv && after[b] == before[b - 1]);
        if b - 1 > p {
            lemma_sorted_pair(before, p, b - 1);
            lemma_path_le_transitive(xv, before[p], before[b - 1]);
            if xv == before[b - 1] {
                lemma_path_le_antisymmetric(before[p], before[b - 1]);
            }
        }
    } else {
        assert(after[a] == before[a - 1] && after[b] == before[b - 1]);
        lemma_sorted_pair(before, a - 1, b - 1);
    }
}

/// Sorts paths, given by their components, and keeps one of each: the result
/// holds exactly the paths of `paths`, in strictly increasing `path_le` order.
pub fn sort_unique_paths(paths: Vec<Vec<String>>) -> (r: Vec<Vec<String>>)
    ensures
        strictly_sorted_paths(path_views(r@)),
        forall|x: Seq<Seq<char>>| path_views(r@).contains(x) <==> path_views(paths@).contains(x),
{
    let ghost vs = path_views(paths@);
    let mut out: Vec<Vec<String>> = Vec::new();
    let mut i: usize = 0;
    while i < paths.len()
        invariant
            i <= paths@.len(),
            vs == path_views(paths@),
            strictly_sorted_paths(path_views(out@)),
            forall|k: int| 0 <= k < out@.len() ==> vs.take(i as int).contains(#[trigger] path_views(out@)[k]),
            forall|j: int| 0 <= j < i ==> path_views(out@).contains(#[trigger] vs[j]),
        decreases paths@.len() - i,
    {
        let x = paths[i].clone();
        proof {
            assert forall|k: int| 0 <= k < x@.len() implies #[trigger] x@[k]@ == paths@[i as int]@[k]@ by {
                assert(cloned(paths@[i as int]@[k], x@[k]));
            }
        }
        let ghost xv = path_view(x@);
        assert(xv =~= vs[i as int]);
        let ghost before = path_views(out@);
        let mut p: usize = 0;
        while p < out.len() && path_le_exec(&out[p], &x)
            invariant
                p <= out@.len(),
                before == path_views(out@),
                xv == path_view(x@),
                xv == vs[i as int],
                i < paths@.len(),
                vs == path_views(paths@),
                strictly_sorted_paths(before),
                forall|k: int| 0 <= k < before.len() ==> vs.take(i as int).contains(#[trigger] before[k]),
                forall|j: int| 0 <= j < i ==> before.contains(#[trigger] vs[j]),
                forall|k: int| 0 <= k < p ==> path_le(#[trigger] before[k], xv),
            decreases out@.len() - p,
        {
            p += 1;
        }
        let dup = p > 0 && path_le_exec(&x, &out[p - 1]);
        if dup {
            proof {
                lemma_path_le_antisymmetric(before[p - 1], xv);
                assert(before[p - 1] == vs[i as int]);
                assert forall|j: int| 0 <= j < i + 1 implies path_views(out@).contains(#[trigger] vs[j]) by {
                    if j == i {
                        assert(before[p - 1] == vs[j]);
                    }
                }
                assert forall|k: int| 0 <= k < out@.len() implies vs.take(i + 1).contains(
                    #[trigger] path_views(out@)[k],
                ) by {
                    let w = choose|w: int| 0 <= w < i && vs.take(i as int)[w] == before[k];
                    assert(vs.take(i + 1)[w] == before[k]);
                }
            }
        } else {
            out.insert(p, x);
            proof {
                let after = path_views(out@);
                assert(after =~= before.insert(p as int, xv));
                lemma_path_le_total(xv, xv);
                if p < before.len() {
                    lemma_path_le_total(before[p as int], xv);
                }
                lemma_insert_keeps_strict_order(before, p as int, xv);
                assert forall|j: int| 0 <= j < i + 1 implies after.contains(#[trigger] vs[j]) by {
                    if j == i {
                        assert(after[p as int] == vs[j]);
                    } else {
                        let w = choose|w: int| 0 <= w < before.len() && before[w] == vs[j];
                        if w < p {
                            assert(after[w] == vs[j]);
                        } else {
                            assert(after[w + 1] == vs[j]);
                        }
                    }
                }
                assert forall|k: int| 0 <= k < after.len() implies vs.take(i + 1).contains(
                    #[trigger] after[k],
                ) by {
                    if k == p {
                        assert(vs.take(i + 1)[i as int] == after[k]);
                    } else {
                        let kk = if k < p { k } else { k - 1 };
                        assert(after[k] == before[kk]);
                        assert(vs.take(i as int).contains(before[kk]));
                        let w = choose|w: int| 0 <= w < i && vs.take(i as int)[w] == before[kk];
                        assert(vs.take(i + 1)[w] == after[k]);
                    }
                }
            }
        }
        i += 1;
    }
    proof {
        assert(vs.take(paths@.len() as int) =~= vs);
        let rv = path_views(out@);
        assert forall|x: Seq<Seq<char>>| rv.contains(x) <==> vs.contains(x) by {
            if rv.contains(x) {
                let k = choose|k: int| 0 <= k < rv.len() && rv[k] == x;
                assert(vs.take(paths@.len() as int).contains(rv[k]));
            }
            if vs.contains(x) {
                let j = choose|j: int| 0 <= j < vs.len() && vs[j] == x;
                assert(rv.contains(vs[j]));
            }
        }
    }
    out
}

/// `x` occurs among the strings of `s`.
pub open spec fn holds_text(s: Seq<String>, x: Seq<char>) -> bool {
    exists|i: int| 0 <= i < s.len() && #[trigger] s[i]@ == x
}

/// Whether `x` is one of `v`.
pub fn contains_text(v: &Vec<String>, x: &str) -> (r: bool)
    ensures
        r == holds_text(v@, x@),
{
    let mut i: usize = 0;
    while i < v.len()
        invariant
            i <= v@.len(),
            forall|k: int| 0 <= k < i ==> #[trigger] v@[k]@ != x@,
        decreases v@.len() - i,
    {
        if str_eq(v[i].as_str(), x) {
            return true;
        }
        i += 1;
    }
    false
}

/// `r` is the list of library folders after adding `path` to `paths`: the same
/// list when `path` is already there, otherwise all of them with `path`, sorted.
pub open spec fn library_with(paths: Seq<String>, path: Seq<char>, r: Seq<String>) -> bool {
    if holds_text(paths, path) {
        r == paths
    } else {
        sorted_text(string_views(r)) && string_views(r).to_multiset() == string_views(
            paths,
        ).to_multiset().insert(path)
    }
}

/// The library folders after adding `path` (see `library_with`).
pub fn with_library_path(paths: Vec<String>, path: String) -> (r: Vec<String>)
    ensures
        library_with(paths@, path@, r@),
{
    if contains_text(&paths, path.as_str()) {
        return paths;
    }
    let ghost before = paths@;
    let ghost x = path@;
    let mut all = paths;
    all.push(path);
    proof {
        assert(string_views(all@) =~= string_views(before).push(x));
        vstd::seq_lib::to_multiset_build(string_views(before), x);
    }
    sort_strings(all)
}

/// `s` without the occurrences of `x`.
pub open spec fn without_text(s: Seq<Seq<char>>, x: Seq<char>) -> Seq<Seq<char>>
    decreases s.len(),
{
    if s.len() == 0 {
        s
    } else if s.last() == x {
        without_text(s.drop_last(), x)
    } else {
        without_text(s.drop_last(), x).push(s.last())
    }
}

/// The library folders after removing `path`, in their order.
pub fn without_library_path(paths: &Vec<String>, path: &str) -> (r: Vec<String>)
    ensures
        string_views(r@) == without_text(string_views(paths@), path@),
{
    let mut r: Vec<String> = Vec::new();
    let mut i: usize = 0;
    while i < paths.len()
        invariant
            i <= paths@.len(),
            string_views(r@) == without_text(string_views(paths@.take(i as int)), path@),
        decreases paths@.len() - i,
    {
        let ghost before = r@;
        if !str_eq(paths[i].as_str(), path) {
            r.push(paths[i].clone());
        }
        proof {
            assert(string_views(paths@.take(i + 1)) =~= string_views(paths@.take(i as int)).push(
                paths@[i as int]@,
            ));
            assert(string_views(paths@.take(i + 1)).drop_last() =~= string_views(paths@.take(i as int)));
            if paths@[i as int]@ != path@ {
                assert(string_views(r@) =~= string_views(before).push(paths@[i as int]@));
            }
        }
        i += 1;
    }
    assert(paths@.take(paths@.len() as int) =~= paths@);
    r
}

/// How often `y` occurs once every `x` is taken out of `s`.
proof fn lemma_without_text_count(s: Seq<Seq<char>>, x: Seq<char>, y: Seq<char>)
    ensures
        without_text(s, x).to_multiset().count(y) == if y == x {
            0
        } else {
            s.to_multiset().count(y)
        },
    decreases s.len(),
{
    broadcast use vstd::multiset::group_multiset_axioms;

    if s.len() == 0 {
        s.to_multiset_ensures();
        assert(!s.contains(y));
        assert(without_text(s, x) == s);
    } else {
        let init = s.drop_last();
        lemma_without_text_count(init, x, y);
        assert(s =~= init.push(s.last()));
        vstd::seq_lib::to_multiset_build(init, s.last());
        if s.last() != x {
            vstd::seq_lib::to_multiset_build(without_text(init, x), s.last());
        }
    }
}

/// Law: adding a folder that was not in the library and then removing it leaves
/// the library with the folders it had.
pub proof fn lemma_remove_undoes_add(paths: Seq<String>, path: Seq<char>, added: Seq<String>)
    requires
        !holds_text(paths, path),
        library_with(paths, path, added),
    ensures
        without_text(string_views(added), path).to_multiset() == string_views(paths).to_multiset(),
{
    broadcast use vstd::multiset::group_multiset_axioms;

    let before = string_views(paths);
    let after = without_text(string_views(added), path);
    assert(!before.contains(path)) by {
        if before.contains(path) {
            let i = choose|i: int| 0 <= i < before.len() && before[i] == path;
            assert(paths[i]@ == path);
        }
    }
    before.to_multiset_ensures();
    assert forall|y: Seq<char>| after.to_multiset().count(y) == before.to_multiset().count(y) by {
        lemma_without_text_count(string_views(added), path, y);
    }
    assert(after.to_multiset() =~= before.to_multiset());
}

/// A document of the metadata store: its path as stored, and the components
/// of that path.
#[derive(Debug, Clone)]
pub struct StoredPath {
    pub path: String,
    pub components: Vec<String>,
}

/// The path lies under one of `roots`.
pub open spec fn under_any(components: Seq<String>, roots: Seq<Vec<String>>) -> bool {
    exists|k: int| 0 <= k < roots.len() && path_under(components, #[trigger] roots[k]@)
}

/// A stored document is dropped when the scan did not find its path and it does
/// not lie under a library folder that is unavailable (a disconnected drive is
/// no deletion).
pub open spec fn dropped(d: StoredPath, found: Seq<String>, unavailable: Seq<Vec<String>>) -> bool {
    !holds_text(found, d.path@) && !under_any(d.components@, unavailable)
}

/// The paths of the dropped documents, in stored order.
pub open spec fn dropped_paths(
    stored: Seq<StoredPath>,
    found: Seq<String>,
    unavailable: Seq<Vec<String>>,
) -> Seq<Seq<char>>
    decreases stored.len(),
{
    if stored.len() == 0 {
        Seq::empty()
    } else if dropped(stored.last(), found, unavailable) {
        dropped_paths(stored.drop_last(), found, unavailable).push(stored.last().path@)
    } else {
        dropped_paths(stored.drop_last(), found, unavailable)
    }
}

/// Which stored documents a finished scan removes (see `dropped`).
pub fn removed_documents(
    stored: &Vec<StoredPath>,
    found: &Vec<String>,
    unavailable_roots: &Vec<Vec<String>>,
) -> (r: Vec<String>)
    ensures
        string_views(r@) == dropped_paths(stored@, found@, unavailable_roots@),
{
    let mut r: Vec<String> = Vec::new();
    let mut i: usize = 0;
    while i < stored.len()
        invariant
            i <= stored@.len(),
            string_views(r@) == dropped_paths(stored@.take(i as int), found@, unavailable_roots@),
        decreases stored@.len() - i,
    {
        let ghost before = r@;
        let d = &stored[i];
        if !contains_text(found, d.path.as_str()) && !within_library(&d.components, unavailable_roots) {
            r.push(d.path.clone());
            assert(string_views(r@) =~= string_views(before).push(stored@[i as int].path@));
        }
        assert(stored@.take(i + 1).drop_last() =~= stored@.take(i as int));
        assert(stored@.take(i + 1).last() == stored@[i as int]);
        i += 1;
    }
    assert(stored@.take(stored@.len() as int) =~= stored@);
    r
}

/// Law: a finished scan removes a path exactly when some stored document has it,
/// the scan did not find it, and it does not lie under an unavailable library
/// folder. Found files and the records of disconnected folders are never removed.
pub proof fn lemma_removed_documents_exact(
    stored: Seq<StoredPath>,
    found: Seq<String>,
    unavailable: Seq<Vec<String>>,
    x: Seq<char>,
)
    ensures
        dropped_paths(stored, found, unavailable).contains(x) <==> exists|i: int|
            0 <= i < stored.len() && #[trigger] stored[i].path@ == x && dropped(
                stored[i],
                found,
                unavailable,
            ),
    decreases stored.len(),
{
    if stored.len() > 0 {
        let init = stored.drop_last();
        let last = stored.last();
        lemma_removed_documents_exact(init, found, unavailable, x);
        let rest = dropped_paths(init, found, unavailable);
        let witnessed = exists|i: int|
            0 <= i < stored.len() && #[trigger] stored[i].path@ == x && dropped(
                stored[i],
                found,
                unavailable,
            );
        if exists|i: int|
            0 <= i < init.len() && #[trigger] init[i].path@ == x && dropped(init[i], found, unavailable)
        {
            let i = choose|i: int|
                0 <= i < init.len() && #[trigger] init[i].path@ == x && dropped(
                    init[i],
                    found,
                    unavailable,
                );
            assert(stored[i] == init[i]);
        }
        if witnessed {
            let i = choose|i: int|
                0 <= i < stored.len() && #[trigger] stored[i].path@ == x && dropped(
                    stored[i],
                    found,
                    unavailable,
                );
            if i < stored.len() - 1 {
                assert(init[i] == stored[i]);
            }
        }
        if dropped(last, found, unavailable) {
            let all = rest.push(last.path@);
            assert(all[rest.len() as int] == last.path@);
            if all.contains(x) && x != last.path@ {
                let k = choose|k: int| 0 <= k < all.len() && all[k] == x;
                assert(rest[k] == x);
            }
            if rest.contains(x) {
                let k = choose|k: int| 0 <= k < rest.len() && rest[k] == x;
                assert(all[k] == x);
            }
            if x == last.path@ {
                assert(stored[stored.len() - 1].path@ == x);
            }
        }
    }
}

/// Backups kept after each new one.
pub const BACKUP_RETENTION: usize = 3;

/// The file name of a metadata backup.
pub open spec fn is_backup_name(name: Seq<char>) -> bool {
    crate::text::is_prefix("metadata-"@, name) && name.len() >= 3 && name.subrange(
        name.len() - 3,
        name.len() as int,
    ) == ".db"@
}

/// The backup names among `names`, in their order.
pub open spec fn backup_names(names: Seq<String>) -> Seq<Seq<char>>
    decreases names.len(),
{
    if names.len() == 0 {
        Seq::empty()
    } else if is_backup_name(names.last()@) {
        backup_names(names.drop_last()).push(names.last()@)
    } else {
        backup_names(names.drop_last())
    }
}

fn is_backup_name_exec(name: &str) -> (r: bool)
    ensures
        r == is_backup_name(name@),
{
    let chars = chars_of(name);
    let n = chars.len();
    if !crate::text::starts_with_str(name, "metadata-") || n < 3 {
        return false;
    }
    let tail = string_from_chars(&crate::text::copy_range(&chars, n - 3, n));
    str_eq(tail.as_str(), ".db")
}

/// The oldest backups beyond the three newest: of the backup names sorted
/// (timestamps make later names sort later), all but the last three.
pub fn stale_backups(names: &Vec<String>) -> (r: Vec<String>)
    ensures
        exists|sorted: Seq<Seq<char>>|
            {
                &&& sorted_text(sorted)
                &&& sorted.to_multiset() == backup_names(names@).to_multiset()
                &&& string_views(r@) == if sorted.len() > BACKUP_RETENTION {
                    sorted.take(sorted.len() - BACKUP_RETENTION)
                } else {
                    Seq::empty()
                }
            },
{
    let mut found: Vec<String> = Vec::new();
    let mut i: usize = 0;
    while i < names.len()
        invariant
            i <= names@.len(),
            string_views(found@) == backup_names(names@.take(i as int)),
        decreases names@.len() - i,
    {
        let ghost before = found@;
        if is_backup_name_exec(names[i].as_str()) {
            found.push(names[i].clone());
            assert(string_views(found@) =~= string_views(before).push(names@[i as int]@));
        }
        assert(names@.take(i + 1).drop_last() =~= names@.take(i as int));
        i += 1;
    }
    assert(names@.take(names@.len() as int) =~= names@);
    let sorted = sort_strings(found);
    let count = if sorted.len() > BACKUP_RETENTION { sorted.len() - BACKUP_RETENTION } else { 0 };
    let mut r: Vec<String> = Vec::new();
    let mut k: usize = 0;
    while k < count
        invariant
            k <= count <= sorted@.len(),
            string_views(r@) == string_views(sorted@).take(k as int),
        decreases count - k,
    {
        let ghost before = string_views(r@);
        let item = sorted[k].clone();
        assert(item@ == sorted@[k as int]@);
        r.push(item);
        assert(string_views(r@) =~= before.push(sorted@[k as int]@));
        k += 1;
        assert(string_views(r@) =~= string_views(sorted@).take(k as int));
    }
    proof {
        let sv = string_views(sorted@);
        if sv.len() <= BACKUP_RETENTION {
            assert(string_views(r@) =~= Seq::<Seq<char>>::empty());
        }
        assert(sorted_text(sv));
    }
    r
}

/// The metadata schema version this library writes.
pub const SCHEMA_VERSION: i64 = 2;

/// Why the metadata store was refused.
#[derive(Debug, Clone, Copy, PartialEq, Eq, Structural)]
pub enum StorageError {
    NewerSchema,
    IntegrityFailed,
    BrokenReferences,
    DocumentDisappeared,
}

impl StorageError {
    /// The message of each storage error.
    pub open spec fn spec_message(self) -> Seq<char> {
        match self {
            StorageError::NewerSchema => "this library was created by a newer version of Redrob VectorDB"@,
            StorageError::IntegrityFailed => "local metadata database failed integrity check"@,
            StorageError::BrokenReferences => "local metadata database has invalid document references"@,
            StorageError::DocumentDisappeared => "indexed document disappeared before vector commit"@,
        }
    }

    /// The message reported.
    pub fn message(&self) -> (r: String)
        ensures
            r@ == self.spec_message(),
    {
        match self {
            StorageError::NewerSchema => "this library was created by a newer version of Redrob VectorDB".to_owned(),
            StorageError::IntegrityFailed => "local metadata database failed integrity check".to_owned(),
            StorageError::BrokenReferences => "local metadata database has invalid document references".to_owned(),
            StorageError::DocumentDisappeared => "indexed document disappeared before vector commit".to_owned(),
        }
    }
}

/// What opening the metadata store does about its schema: refuse a newer one;
/// otherwise migrate, first taking a backup when an existing database is older.
pub fn migration_plan(had_database: bool, current_version: i64) -> (r: Result<bool, StorageError>)
    ensures
        current_version > SCHEMA_VERSION <==> r == Err::<bool, StorageError>(StorageError::NewerSchema),
        current_version <= SCHEMA_VERSION ==> r == Ok::<bool, StorageError>(had_database && current_version < SCHEMA_VERSION),
{
    if current_version > SCHEMA_VERSION {
        Err(StorageError::NewerSchema)
    } else {
        Ok(had_database && current_version < SCHEMA_VERSION)
    }
}

/// Whether a migration from `previous_version` rebuilds the full-text index.
pub fn needs_fts_rebuild(previous_version: i64) -> (r: bool)
    ensures
        r == (previous_version < SCHEMA_VERSION),
{
    previous_version < SCHEMA_VERSION
}

/// Whether a table's column names include `column`.
pub fn has_column(columns: &Vec<String>, column: &str) -> (r: bool)
    ensures
        r == holds_text(columns@, column@),
{
    contains_text(columns, column)
}

/// The verdict of the integrity checks: the quick check must report `ok` and no
/// document reference may be broken.
pub fn check_integrity(quick_check: &str, foreign_key_errors: u64) -> (r: Result<(), StorageError>)
    ensures
        quick_check@ != "ok"@ ==> r == Err::<(), StorageError>(StorageError::IntegrityFailed),
        quick_check@ == "ok"@ && foreign_key_errors != 0 ==> r == Err::<(), StorageError>(StorageError::BrokenReferences),
        quick_check@ == "ok"@ && foreign_key_errors == 0 ==> r is Ok,
{
    if !str_eq(quick_check, "ok") {
        Err(StorageError::IntegrityFailed)
    } else if foreign_key_errors != 0 {
        Err(StorageError::BrokenReferences)
    } else {
        Ok(())
    }
}

/// A vector commit must mark exactly one indexed document ready.
pub fn check_vector_commit(changed: usize) -> (r: Result<(), StorageError>)
    ensures
        changed == 1 <==> r is Ok,
        r is Err ==> r == Err::<(), StorageError>(StorageError::DocumentDisappeared),
{
    if changed == 1 {
        Ok(())
    } else {
        Err(StorageError::DocumentDisappeared)
    }
}

/// The name of a metadata backup: `metadata-`, the timestamp, the first eight
/// characters of a unique identifier, the reason, and `.db`.
pub fn backup_file_name(timestamp: &str, unique: &str, reason: &str) -> (r: String)
    requires
        unique@.len() >= 8,
    ensures
        r@ == "metadata-"@ + timestamp@ + "-"@ + unique@.take(8) + "-"@ + reason@ + ".db"@,
{
    let chars = chars_of(unique);
    let short = string_from_chars(&crate::text::copy_range(&chars, 0, 8));
    let mut r = "metadata-".to_owned();
    r.append(timestamp);
    r.append("-");
    r.append(short.as_str());
    r.append("-");
    r.append(reason);
    r.append(".db");
    r
}

/// The name under which a damaged metadata database is kept aside:
/// `metadata-corrupt-`, the timestamp, `.db`.
pub fn corrupt_database_name(timestamp: &str) -> (r: String)
    ensures
        r@ == "metadata-corrupt-"@ + timestamp@ + ".db"@,
{
    let mut r = "metadata-corrupt-".to_owned();
    r.append(timestamp);
    r.append(".db");
    r
}

/// The name under which a vector index that could not be loaded is kept aside:
/// `qdrant-edge-corrupt-` and the timestamp.
pub fn corrupt_index_name(timestamp: &str) -> (r: String)
    ensures
        r@ == "qdrant-edge-corrupt-"@ + timestamp@,
{
    let mut r = "qdrant-edge-corrupt-".to_owned();
    r.append(timestamp);
    r
}

/// The page of documents listed: at most `limit` (100 when not given, kept
/// within 1 to 500) from `offset` (0 when not given).
pub fn document_page(limit: Option<usize>, offset: Option<usize>) -> (r: (usize, usize))
    ensures
        r.0 == match limit {
            None => 100,
            Some(l) => if l < 1 {
                1
            } else if l > 500 {
                500
            } else {
                l
            },
        },
        r.1 == match offset {
            None => 0,
            Some(o) => o,
        },
{
    let l = match limit {
        None => 100,
        Some(l) => if l < 1 {
            1
        } else if l > 500 {
            500
        } else {
            l
        },
    };
    let o = match offset {
        None => 0,
        Some(o) => o,
    };
    (l, o)
}

/// Why an API key was refused.
#[derive(Debug, Clone, Copy, PartialEq, Eq, Structural)]
pub enum ApiKeyError {
    Empty,
    TooShort,
}

impl ApiKeyError {
    /// The message reported.
    pub fn message(&self) -> (r: String)
        ensures
            r@ == match *self {
                ApiKeyError::Empty => "API key cannot be empty"@,
                ApiKeyError::TooShort => "that API key is too short"@,
            },
    {
        match self {
            ApiKeyError::Empty => "API key cannot be empty".to_owned(),
            ApiKeyError::TooShort => "that API key is too short".to_owned(),
        }
    }
}

/// Checks a pasted API key: trimmed, it must be non-empty and at least 16 bytes.
pub fn validate_api_key(api_key: &str) -> (r: Result<String, ApiKeyError>)
    ensures
        trim(api_key@).len() == 0 ==> r == Err::<String, ApiKeyError>(ApiKeyError::Empty),
        trim(api_key@).len() > 0 && (vstd::utf8::encode_utf8(trim(api_key@)).len() as usize) < 16
            ==> r == Err::<String, ApiKeyError>(ApiKeyError::TooShort),
        trim(api_key@).len() > 0 && (vstd::utf8::encode_utf8(trim(api_key@)).len() as usize) >= 16
            ==> r is Ok && r->Ok_0@ == trim(api_key@),
{
    let trimmed = trim_str(api_key);
    if trimmed.as_str().is_empty() {
        return Err(ApiKeyError::Empty);
    }
    if trimmed.as_str().len() < 16 {
        return Err(ApiKeyError::TooShort);
    }
    Ok(trimmed)
}

/// The connection state shown: connected when a key is held, labelled as this device.
pub fn connection_status(has_key: bool, endpoint: String) -> (r: ConnectionStatus)
    ensures
        r.connected == has_key,
        opt_view(r.key_label) == if has_key { Some("This device"@) } else { None },
        r.endpoint@ == endpoint@,
        r.error is None,
{
    ConnectionStatus {
        connected: has_key,
        key_label: if has_key { Some("This device".to_owned()) } else { None },
        endpoint,
        error: None,
    }
}

/// The bearer token of the local retrieval API, made from a fresh unique
/// identifier: `rrv_local_` followed by it.
pub fn local_api_token(unique: &str) -> (r: String)
    ensures
        r@ == "rrv_local_"@ + unique@,
{
    let mut r = "rrv_local_".to_owned();
    r.append(unique);
    r
}

/// A request to the local API is authorized when its `Authorization` header is
/// `Bearer ` followed by exactly the token.
pub open spec fn spec_authorized(header: Option<Seq<char>>, token: Seq<char>) -> bool {
    match header {
        None => false,
        Some(h) => h == "Bearer "@ + token,
    }
}

/// Checks the `Authorization` header of a local API request.
pub fn authorized(header: Option<&str>, token: &str) -> (r: bool)
    ensures
        r == spec_authorized(match header { Some(h) => Some(h@), None => None }, token@),
{
    match header {
        None => false,
        Some(h) => {
            let mut expected = "Bearer ".to_owned();
            expected.append(token);
            str_eq(h, expected.as_str())
        },
    }
}

/// `root` is a component-wise prefix of `path`, as `Path::starts_with` checks.
pub open spec fn path_under(path: Seq<String>, root: Seq<String>) -> bool {
    root.len() <= path.len() && forall|i: int| 0 <= i < root.len() ==> #[trigger] root[i]@ == path[i]@
}

/// A source file may be opened only when it lies under one of the library folders.
pub fn within_library(path: &Vec<String>, roots: &Vec<Vec<String>>) -> (r: bool)
    ensures
        r == exists|k: int| 0 <= k < roots@.len() && path_under(path@, #[trigger] roots@[k]@),
{
    let mut k: usize = 0;
    while k < roots.len()
        invariant
            k <= roots@.len(),
            forall|j: int| 0 <= j < k ==> !path_under(path@, #[trigger] roots@[j]@),
        decreases roots@.len() - k,
    {
        let root = &roots[k];
        if root.len() <= path.len() {
            let mut i: usize = 0;
            let mut same = true;
            while i < root.len()
                invariant
                    i <= root@.len() <= path@.len(),
                    same == forall|m: int| 0 <= m < i ==> #[trigger] root@[m]@ == path@[m]@,
                decreases root@.len() - i,
            {
                if !str_eq(root[i].as_str(), path[i].as_str()) {
                    same = false;
                }
                i += 1;
            }
            if same {
                assert(path_under(path@, roots@[k as int]@));
                return true;
            }
        }
        k += 1;
    }
    false
}

/// The text of an error for the interface.
pub fn command_error<T: core::fmt::Display + ?Sized>(error: &T) -> (r: String)
    ensures
        vstd::string::to_string_from_display_ensures::<T>(error, r),
{
    error.to_string()
}

} // verus!
