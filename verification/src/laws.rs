//! What holds of the context across operations: it is determined by the
//! files it holds, adding is idempotent and commutes between paths,
//! removing undoes adding, and path order is a strict total order.
use vstd::prelude::*;
use crate::commands::parse_spec;
use crate::context::{
    adds, drops, hit_paths, holds_path, kept_entries, lemma_kept_sorted, list_text, pattern_hits,
    render_all, sorted_paths, template_of, Context, EntryView,
};
use crate::file_utils::{
    dedup_sorted, first_copy_in, first_of_its_path, lemma_dedup_sorted_covers,
    lemma_dedup_sorted_drawn, lemma_dedup_sorted_order, some_same_path, strictly_sorted,
};
use crate::text::{is_ws, trim, trim_end, trim_start, word_len, words};
use crate::path::{
    lemma_key_eq_same_path, lemma_lex_asymmetric, lemma_lex_irreflexive, lemma_lex_total,
    lemma_lex_transitive, path_key, path_lt, same_path,
};

verus! {

/// No path orders before itself, nor before a path that is the same.
proof fn lemma_not_before_same(p: Seq<char>, q: Seq<char>)
    requires
        same_path(p, q),
    ensures
        !path_lt(p, q),
        !path_lt(q, p),
{
    lemma_key_eq_same_path(p, q);
    lemma_lex_irreflexive(path_key(p));
}

/// Path order is a strict total order on paths, two paths that are the
/// same counting as one: no path orders before itself, the order is
/// asymmetric and transitive, and of two paths either one orders first
/// or they are the same path, and then neither orders first.
pub proof fn law_path_order(p: Seq<char>, q: Seq<char>, r: Seq<char>)
    ensures
        !path_lt(p, p),
        path_lt(p, q) ==> !path_lt(q, p),
        path_lt(p, q) && path_lt(q, r) ==> path_lt(p, r),
        path_lt(p, q) || same_path(p, q) || path_lt(q, p),
        same_path(p, q) ==> !path_lt(p, q) && !path_lt(q, p),
{
    lemma_lex_irreflexive(path_key(p));
    lemma_lex_asymmetric(path_key(p), path_key(q));
    if path_lt(p, q) && path_lt(q, r) {
        lemma_lex_transitive(path_key(p), path_key(q), path_key(r));
    }
    lemma_lex_total(path_key(p), path_key(q));
    lemma_key_eq_same_path(p, q);
}

/// Files in path order never hold two files of the same path.
pub proof fn law_one_file_per_path(s: Seq<EntryView>)
    requires
        sorted_paths(s),
    ensures
        forall|i: int, j: int|
            0 <= i < j < s.len() ==> !same_path(#[trigger] s[i].path, #[trigger] s[j].path),
{
    assert forall|i: int, j: int| 0 <= i < j < s.len() implies !same_path(
        #[trigger] s[i].path,
        #[trigger] s[j].path,
    ) by {
        assert(path_lt(s[i].path, s[j].path));
        if same_path(s[i].path, s[j].path) {
            lemma_not_before_same(s[i].path, s[j].path);
        }
    }
}

/// Files in path order are determined by which files they hold: two
/// such sequences that hold the same files are equal.
pub proof fn law_entries_determined(a: Seq<EntryView>, b: Seq<EntryView>)
    requires
        sorted_paths(a),
        sorted_paths(b),
        forall|x: EntryView| #![trigger a.contains(x)] #![trigger b.contains(x)] a.contains(x) <==> b.contains(x),
    ensures
        a == b,
{
    let pa = a.map_values(|e: EntryView| e.path);
    let pb = b.map_values(|e: EntryView| e.path);
    assert forall|u: int, v: int| 0 <= u < v < pa.len() implies path_lt(
        #[trigger] pa[u],
        #[trigger] pa[v],
    ) by {
        assert(path_lt(a[u].path, a[v].path));
    }
    assert forall|u: int, v: int| 0 <= u < v < pb.len() implies path_lt(
        #[trigger] pb[u],
        #[trigger] pb[v],
    ) by {
        assert(path_lt(b[u].path, b[v].path));
    }
    assert forall|x: Seq<char>| #![trigger pa.contains(x)] #![trigger pb.contains(x)] pa.contains(x)
        <==> pb.contains(x) by {
        if pa.contains(x) {
            let i = choose|i: int| 0 <= i < pa.len() && pa[i] == x;
            assert(a.contains(a[i]));
            let k = choose|k: int| 0 <= k < b.len() && b[k] == a[i];
            assert(pb[k] == x);
        }
        if pb.contains(x) {
            let i = choose|i: int| 0 <= i < pb.len() && pb[i] == x;
            assert(b.contains(b[i]));
            let k = choose|k: int| 0 <= k < a.len() && a[k] == b[i];
            assert(pa[k] == x);
        }
    }
    lemma_sorted_paths_determined(pa, pb);
    assert(pa.len() == a.len() && pb.len() == b.len());
    assert(a.len() == b.len());
    assert forall|i: int| 0 <= i < a.len() implies a[i] == b[i] by {
        assert(a.contains(a[i]));
        let k = choose|k: int| 0 <= k < b.len() && b[k] == a[i];
        assert(pa[i] == pb[i]);
        assert(pb[k] == pa[i]);
        if k < i {
            assert(path_lt(b[k].path, b[i].path));
            lemma_lex_irreflexive(path_key(b[i].path));
        } else if k > i {
            assert(path_lt(b[i].path, b[k].path));
            lemma_lex_irreflexive(path_key(b[i].path));
        }
    }
    assert(a =~= b);
}

/// Two contexts that hold the same files hold them in the same order,
/// whatever order they were added in: their outputs and file lists are
/// the same under the same template.
pub proof fn law_same_files_same_output(c1: Context, c2: Context)
    requires
        c1.wf(),
        c2.wf(),
        forall|x: EntryView|
            #![trigger c1.entries().contains(x)]
            #![trigger c2.entries().contains(x)]
            c1.entries().contains(x) <==> c2.entries().contains(x),
    ensures
        c1.entries() == c2.entries(),
        template_of(c1.settings()) == template_of(c2.settings()) ==> render_all(
            template_of(c1.settings()),
            c1.entries(),
        ) == render_all(template_of(c2.settings()), c2.entries()),
        list_text(c1.entries()) == list_text(c2.entries()),
{
    c1.lemma_in_path_order();
    c2.lemma_in_path_order();
    law_entries_determined(c1.entries(), c2.entries());
}

/// The output of files one after the other is their outputs joined.
pub proof fn law_render_concat(t: Seq<char>, s1: Seq<EntryView>, s2: Seq<EntryView>)
    ensures
        render_all(t, s1 + s2) == render_all(t, s1) + render_all(t, s2),
    decreases s2.len(),
{
    if s2.len() == 0 {
        assert(s1 + s2 =~= s1);
        assert(render_all(t, s2) =~= Seq::<char>::empty());
        assert(render_all(t, s1) + render_all(t, s2) =~= render_all(t, s1));
    } else {
        law_render_concat(t, s1, s2.drop_last());
        assert((s1 + s2).drop_last() =~= s1 + s2.drop_last());
        assert((s1 + s2).last() == s2.last());
        assert(render_all(t, s1) + render_all(t, s2) =~= render_all(t, s1) + render_all(
            t,
            s2.drop_last(),
        ) + crate::context::render(t, s2.last()));
    }
}

/// A context whose files are those of two others, every path of the
/// first ordering before every path of the second, shows their outputs
/// joined under the same template.
pub proof fn law_output_of_ordered_union(c: Context, c1: Context, c2: Context)
    requires
        c.wf(),
        c1.wf(),
        c2.wf(),
        template_of(c.settings()) == template_of(c1.settings()),
        template_of(c.settings()) == template_of(c2.settings()),
        forall|x: EntryView|
            #![trigger c.entries().contains(x)]
            c.entries().contains(x) <==> (c1.entries().contains(x) || c2.entries().contains(x)),
        forall|x: EntryView, y: EntryView|
            c1.entries().contains(x) && c2.entries().contains(y) ==> path_lt(
                #[trigger] x.path,
                #[trigger] y.path,
            ),
    ensures
        c.entries() == c1.entries() + c2.entries(),
        render_all(template_of(c.settings()), c.entries()) == render_all(
            template_of(c1.settings()),
            c1.entries(),
        ) + render_all(template_of(c2.settings()), c2.entries()),
{
    c.lemma_in_path_order();
    c1.lemma_in_path_order();
    c2.lemma_in_path_order();
    let s = c.entries();
    let s1 = c1.entries();
    let s2 = c2.entries();
    let u = s1 + s2;
    assert(sorted_paths(u)) by {
        assert forall|a: int, b: int| 0 <= a < b < u.len() implies path_lt(
            #[trigger] u[a].path,
            #[trigger] u[b].path,
        ) by {
            if b < s1.len() {
                assert(path_lt(s1[a].path, s1[b].path));
            } else if a >= s1.len() {
                assert(path_lt(s2[a - s1.len()].path, s2[b - s1.len()].path));
            } else {
                assert(s1.contains(u[a]));
                assert(u[b] == s2[b - s1.len()]);
                assert(s2.contains(u[b]));
            }
        }
    }
    assert forall|x: EntryView| #![trigger s.contains(x)] #![trigger u.contains(x)] s.contains(x)
        <==> u.contains(x) by {
        if s1.contains(x) {
            let i = choose|i: int| 0 <= i < s1.len() && s1[i] == x;
            assert(u[i] == x);
        }
        if s2.contains(x) {
            let i = choose|i: int| 0 <= i < s2.len() && s2[i] == x;
            assert(u[s1.len() + i] == x);
        }
        if u.contains(x) {
            let i = choose|i: int| 0 <= i < u.len() && u[i] == x;
            if i < s1.len() {
                assert(s1[i] == x);
            } else {
                assert(s2[i - s1.len()] == x);
            }
        }
    }
    law_entries_determined(s, u);
    law_render_concat(template_of(c.settings()), s1, s2);
}

/// After the file `e` is added, the context holds its path, and the one
/// file of that path is `e`: its text is the text added.
pub proof fn law_added_file_is_read_back(before: Seq<EntryView>, after: Seq<EntryView>, e: EntryView)
    requires
        adds(before, after, e),
    ensures
        after.contains(e),
        holds_path(after, e.path),
        forall|x: EntryView| after.contains(x) && same_path(x.path, e.path) ==> x == e,
{
    assert(after.contains(e));
    let i = choose|i: int| 0 <= i < after.len() && after[i] == e;
    assert(same_path(after[i].path, e.path));
}

/// Adding the same file twice leaves the context as adding it once.
pub proof fn law_add_idempotent(
    s0: Seq<EntryView>,
    s1: Seq<EntryView>,
    s2: Seq<EntryView>,
    e: EntryView,
)
    requires
        sorted_paths(s1),
        sorted_paths(s2),
        adds(s0, s1, e),
        adds(s1, s2, e),
    ensures
        s2 == s1,
{
    assert forall|x: EntryView| #![trigger s1.contains(x)] #![trigger s2.contains(x)] s1.contains(x)
        <==> s2.contains(x) by {
        if x == e {
            assert(s1.contains(x));
            assert(s2.contains(x));
        }
    }
    law_entries_determined(s1, s2);
}

/// A later file of the same path replaces an earlier one: adding `e1`
/// then `e2`, of the same path, gives what adding `e2` alone gives.
pub proof fn law_add_replaces(
    s0: Seq<EntryView>,
    s1: Seq<EntryView>,
    s2: Seq<EntryView>,
    s3: Seq<EntryView>,
    e1: EntryView,
    e2: EntryView,
)
    requires
        sorted_paths(s2),
        sorted_paths(s3),
        same_path(e1.path, e2.path),
        adds(s0, s1, e1),
        adds(s1, s2, e2),
        adds(s0, s3, e2),
    ensures
        s2 == s3,
{
    assert forall|x: EntryView| #![trigger s2.contains(x)] #![trigger s3.contains(x)] s2.contains(x)
        <==> s3.contains(x) by {
        if s1.contains(x) {
        }
    }
    law_entries_determined(s2, s3);
}

/// Adding files of different paths gives the same context in either
/// order.
pub proof fn law_adds_commute(
    s0: Seq<EntryView>,
    s1: Seq<EntryView>,
    s2: Seq<EntryView>,
    s3: Seq<EntryView>,
    s4: Seq<EntryView>,
    e1: EntryView,
    e2: EntryView,
)
    requires
        sorted_paths(s2),
        sorted_paths(s4),
        !same_path(e1.path, e2.path),
        adds(s0, s1, e1),
        adds(s1, s2, e2),
        adds(s0, s3, e2),
        adds(s3, s4, e1),
    ensures
        s2 == s4,
{
    assert forall|x: EntryView| #![trigger s2.contains(x)] #![trigger s4.contains(x)] s2.contains(x)
        <==> s4.contains(x) by {
        if s1.contains(x) {
        }
        if s3.contains(x) {
        }
    }
    law_entries_determined(s2, s4);
}

/// Removing the path of a file just added, when the context did not hold
/// that path before, gives the context back as it was.
pub proof fn law_remove_undoes_add(
    s0: Seq<EntryView>,
    s1: Seq<EntryView>,
    s2: Seq<EntryView>,
    e: EntryView,
)
    requires
        sorted_paths(s0),
        sorted_paths(s2),
        !holds_path(s0, e.path),
        adds(s0, s1, e),
        drops(s1, s2, e.path),
    ensures
        s2 == s0,
{
    assert forall|x: EntryView| #![trigger s0.contains(x)] #![trigger s2.contains(x)] s0.contains(x)
        <==> s2.contains(x) by {
        if s0.contains(x) {
            let i = choose|i: int| 0 <= i < s0.len() && s0[i] == x;
            assert(!same_path(s0[i].path, e.path));
            assert(s1.contains(x));
        }
        if s1.contains(x) {
        }
    }
    law_entries_determined(s0, s2);
}

/// After a path is removed, the context holds no file of that path.
pub proof fn law_removed_path_is_gone(before: Seq<EntryView>, after: Seq<EntryView>, p: Seq<char>)
    requires
        drops(before, after, p),
    ensures
        !holds_path(after, p),
{
    if holds_path(after, p) {
        let i = choose|i: int| 0 <= i < after.len() && same_path(after[i].path, p);
        assert(after.contains(after[i]));
    }
}

/// Paths in strictly increasing path order are determined by which paths
/// they hold.
proof fn lemma_sorted_paths_determined(a: Seq<Seq<char>>, b: Seq<Seq<char>>)
    requires
        strictly_sorted(a),
        strictly_sorted(b),
        forall|x: Seq<char>| #![trigger a.contains(x)] #![trigger b.contains(x)] a.contains(x) <==> b.contains(x),
    ensures
        a == b,
    decreases a.len(),
{
    if a.len() == 0 {
        if b.len() > 0 {
            assert(b.contains(b[0]));
        }
        assert(a =~= b);
    } else if b.len() == 0 {
        assert(a.contains(a[0]));
    } else {
        assert(a.contains(a[0]));
        assert(b.contains(b[0]));
        let j = choose|j: int| 0 <= j < b.len() && b[j] == a[0];
        let k = choose|k: int| 0 <= k < a.len() && a[k] == b[0];
        if j > 0 {
            assert(path_lt(b[0], b[j]));
            if k > 0 {
                assert(path_lt(a[0], a[k]));
                lemma_lex_asymmetric(path_key(a[0]), path_key(b[0]));
            } else {
                lemma_lex_irreflexive(path_key(b[0]));
            }
        }
        assert(a[0] == b[0]);
        let a1 = a.drop_first();
        let b1 = b.drop_first();
        assert forall|x: Seq<char>| #![trigger a1.contains(x)] #![trigger b1.contains(x)] a1.contains(x)
            <==> b1.contains(x) by {
            if a1.contains(x) {
                let i = choose|i: int| 0 <= i < a1.len() && a1[i] == x;
                assert(a[i + 1] == x);
                assert(a.contains(x));
                assert(path_lt(a[0], a[i + 1]));
                lemma_lex_irreflexive(path_key(x));
                let m = choose|m: int| 0 <= m < b.len() && b[m] == x;
                assert(m != 0);
                assert(b1[m - 1] == x);
            }
            if b1.contains(x) {
                let i = choose|i: int| 0 <= i < b1.len() && b1[i] == x;
                assert(b[i + 1] == x);
                assert(b.contains(x));
                assert(path_lt(b[0], b[i + 1]));
                lemma_lex_irreflexive(path_key(x));
                let m = choose|m: int| 0 <= m < a.len() && a[m] == x;
                assert(m != 0);
                assert(a1[m - 1] == x);
            }
        }
        assert(strictly_sorted(a1)) by {
            assert forall|u: int, v: int| 0 <= u < v < a1.len() implies path_lt(
                #[trigger] a1[u],
                #[trigger] a1[v],
            ) by {
                assert(path_lt(a[u + 1], a[v + 1]));
            }
        }
        assert(strictly_sorted(b1)) by {
            assert forall|u: int, v: int| 0 <= u < v < b1.len() implies path_lt(
                #[trigger] b1[u],
                #[trigger] b1[v],
            ) by {
                assert(path_lt(b[u + 1], b[v + 1]));
            }
        }
        lemma_sorted_paths_determined(a1, b1);
        assert(a =~= seq![a[0]] + a1);
        assert(b =~= seq![b[0]] + b1);
    }
}

/// Every path of `o1` is a path of `o2` when both are the sorted, unique
/// paths of `input`.
proof fn lemma_dedup_included(input: Seq<Seq<char>>, o1: Seq<Seq<char>>, o2: Seq<Seq<char>>, x: Seq<char>)
    requires
        dedup_sorted(input, o1),
        dedup_sorted(input, o2),
        o1.contains(x),
    ensures
        o2.contains(x),
{
    let i = choose|i: int| 0 <= i < o1.len() && o1[i] == x;
    lemma_dedup_sorted_drawn(input, o1, i);
    let j = choose|j: int| 0 <= j < input.len() && #[trigger] input[j] == x && first_of_its_path(input, j);
    lemma_dedup_sorted_covers(input, o2, j);
    let m = choose|m: int| 0 <= m < o2.len() && same_path(#[trigger] o2[m], input[j]);
    lemma_dedup_sorted_drawn(input, o2, m);
    let k = choose|k: int| 0 <= k < input.len() && #[trigger] input[k] == o2[m] && first_of_its_path(input, k);
    if k < j {
        assert(!same_path(input[k], input[j]));
    } else if j < k {
        assert(!same_path(input[j], input[k]));
    }
    assert(o2[m] == x);
}

/// The sorted, unique paths of a list are determined by the list: the
/// statement of `sorted_unique_paths` leaves one result.
pub proof fn law_dedup_determined(input: Seq<Seq<char>>, o1: Seq<Seq<char>>, o2: Seq<Seq<char>>)
    requires
        dedup_sorted(input, o1),
        dedup_sorted(input, o2),
    ensures
        o1 == o2,
{
    assert forall|x: Seq<char>| #![trigger o1.contains(x)] #![trigger o2.contains(x)] o1.contains(x)
        <==> o2.contains(x) by {
        if o1.contains(x) {
            lemma_dedup_included(input, o1, o2, x);
        }
        if o2.contains(x) {
            lemma_dedup_included(input, o2, o1, x);
        }
    }
    lemma_dedup_sorted_order(input, o1);
    lemma_dedup_sorted_order(input, o2);
    lemma_sorted_paths_determined(o1, o2);
}

/// Sorting and deduplicating paths that already are sorted and unique
/// changes nothing; in particular doing it twice is doing it once.
pub proof fn law_dedup_idempotent(input: Seq<Seq<char>>, o1: Seq<Seq<char>>, o2: Seq<Seq<char>>)
    requires
        dedup_sorted(input, o1),
        dedup_sorted(o1, o2),
    ensures
        o2 == o1,
{
    lemma_dedup_sorted_order(input, o1);
    assert forall|i: int| 0 <= i < o1.len() implies first_copy_in(o1, #[trigger] o1[i]) by {
        assert forall|k: int| 0 <= k < i implies !same_path(#[trigger] o1[k], o1[i]) by {
            assert(path_lt(o1[k], o1[i]));
            if same_path(o1[k], o1[i]) {
                lemma_not_before_same(o1[k], o1[i]);
            }
        }
        assert(first_of_its_path(o1, i));
    }
    assert forall|j: int| 0 <= j < o1.len() implies some_same_path(o1, #[trigger] o1[j]) by {
        assert(same_path(o1[j], o1[j]));
    }
    assert(dedup_sorted(o1, o1)) by {
        reveal(dedup_sorted);
    }
    law_dedup_determined(o1, o2, o1);
}

/// A path of the sorted, unique paths of the sorted, unique paths of `a`
/// and of `b`, one list after the other, is the first of its path in
/// `a` then `b`.
proof fn lemma_concat_drawn(
    a: Seq<Seq<char>>,
    b: Seq<Seq<char>>,
    oa: Seq<Seq<char>>,
    ob: Seq<Seq<char>>,
    o: Seq<Seq<char>>,
    i: int,
)
    requires
        dedup_sorted(a, oa),
        dedup_sorted(b, ob),
        dedup_sorted(oa + ob, o),
        0 <= i < o.len(),
    ensures
        first_copy_in(a + b, o[i]),
{
    let m = oa + ob;
    let ab = a + b;
    lemma_dedup_sorted_drawn(m, o, i);
    let j = choose|j: int| 0 <= j < m.len() && #[trigger] m[j] == o[i] && first_of_its_path(m, j);
    if j < oa.len() {
        assert(m[j] == oa[j]);
        lemma_dedup_sorted_drawn(a, oa, j);
        let k = choose|k: int| 0 <= k < a.len() && #[trigger] a[k] == oa[j] && first_of_its_path(a, k);
        assert(ab[k] == a[k]);
        assert forall|q: int| 0 <= q < k implies !same_path(#[trigger] ab[q], ab[k]) by {
            assert(ab[q] == a[q]);
        }
        assert(first_of_its_path(ab, k));
    } else {
        let jj = j - oa.len();
        assert(m[j] == ob[jj]);
        lemma_dedup_sorted_drawn(b, ob, jj);
        let k = choose|k: int| 0 <= k < b.len() && #[trigger] b[k] == ob[jj] && first_of_its_path(b, k);
        let kk = a.len() + k;
        assert(ab[kk] == b[k]);
        assert forall|q: int| 0 <= q < kk implies !same_path(#[trigger] ab[q], ab[kk]) by {
            if q < a.len() {
                assert(ab[q] == a[q]);
                if same_path(a[q], b[k]) {
                    lemma_dedup_sorted_covers(a, oa, q);
                    let mm = choose|mm: int| 0 <= mm < oa.len() && same_path(#[trigger] oa[mm], a[q]);
                    assert(m[mm] == oa[mm]);
                    assert(!same_path(m[mm], m[j]));
                }
            } else {
                assert(ab[q] == b[q - a.len()]);
            }
        }
        assert(first_of_its_path(ab, kk));
    }
}

/// A path of `a` then `b` is the same path as one of the sorted, unique
/// paths of their sorted, unique paths joined.
proof fn lemma_concat_covers(
    a: Seq<Seq<char>>,
    b: Seq<Seq<char>>,
    oa: Seq<Seq<char>>,
    ob: Seq<Seq<char>>,
    o: Seq<Seq<char>>,
    j: int,
)
    requires
        dedup_sorted(a, oa),
        dedup_sorted(b, ob),
        dedup_sorted(oa + ob, o),
        0 <= j < a.len() + b.len(),
    ensures
        some_same_path(o, (a + b)[j]),
{
    let m = oa + ob;
    let ab = a + b;
    let mi: int = if j < a.len() {
        lemma_dedup_sorted_covers(a, oa, j);
        let mm = choose|mm: int| 0 <= mm < oa.len() && same_path(#[trigger] oa[mm], a[j]);
        assert(m[mm] == oa[mm]);
        assert(ab[j] == a[j]);
        mm
    } else {
        lemma_dedup_sorted_covers(b, ob, j - a.len());
        let mm = choose|mm: int| 0 <= mm < ob.len() && same_path(#[trigger] ob[mm], b[j - a.len()]);
        assert(m[oa.len() + mm] == ob[mm]);
        assert(ab[j] == b[j - a.len()]);
        oa.len() + mm
    };
    assert(0 <= mi < m.len() && same_path(m[mi], ab[j]));
    lemma_dedup_sorted_covers(m, o, mi);
    let i = choose|i: int| 0 <= i < o.len() && same_path(#[trigger] o[i], m[mi]);
    assert(same_path(o[i], ab[j]));
}

/// Sorting and deduplicating a list joined from two gives what sorting
/// and deduplicating the two sorted, unique parts joined gives; with
/// `law_dedup_determined`, the order and repetition of the lists joined
/// does not matter.
pub proof fn law_dedup_concat(
    a: Seq<Seq<char>>,
    b: Seq<Seq<char>>,
    oa: Seq<Seq<char>>,
    ob: Seq<Seq<char>>,
    o: Seq<Seq<char>>,
)
    requires
        dedup_sorted(a, oa),
        dedup_sorted(b, ob),
        dedup_sorted(oa + ob, o),
    ensures
        dedup_sorted(a + b, o),
{
    let ab = a + b;
    lemma_dedup_sorted_order(oa + ob, o);
    assert forall|i: int| 0 <= i < o.len() implies first_copy_in(ab, #[trigger] o[i]) by {
        lemma_concat_drawn(a, b, oa, ob, o, i);
    }
    assert forall|j: int| 0 <= j < ab.len() implies some_same_path(o, #[trigger] ab[j]) by {
        lemma_concat_covers(a, b, oa, ob, o, j);
    }
    assert(dedup_sorted(ab, o)) by {
        reveal(dedup_sorted);
    }
}

/// Nothing sorted and deduplicated is nothing.
pub proof fn law_dedup_empty(o: Seq<Seq<char>>)
    requires
        dedup_sorted(Seq::<Seq<char>>::empty(), o),
    ensures
        o.len() == 0,
{
    if o.len() > 0 {
        lemma_dedup_sorted_drawn(Seq::<Seq<char>>::empty(), o, 0);
    }
}

/// The paths that a pattern picks are those of the files it picks.
proof fn lemma_hit_paths(s: Seq<EntryView>, pat: Seq<char>, p: Seq<char>)
    ensures
        hit_paths(s, pat).contains(p) <==> exists|i: int|
            0 <= i < s.len() && (#[trigger] s[i]).path == p && pattern_hits(p, pat),
    decreases s.len(),
{
    if s.len() > 0 {
        let s0 = s.drop_last();
        lemma_hit_paths(s0, pat, p);
        let r = hit_paths(s0, pat);
        if hit_paths(s, pat).contains(p) {
            if pattern_hits(s.last().path, pat) && !r.contains(p) {
                let k = choose|k: int| 0 <= k < r.push(s.last().path).len() && r.push(
                    s.last().path,
                )[k] == p;
                assert(k == r.len());
                assert(s[s.len() - 1].path == p);
            } else {
                let i = choose|i: int|
                    0 <= i < s0.len() && (#[trigger] s0[i]).path == p && pattern_hits(p, pat);
                assert(s[i] == s0[i]);
            }
        }
        if exists|i: int| 0 <= i < s.len() && (#[trigger] s[i]).path == p && pattern_hits(p, pat) {
            let i = choose|i: int| 0 <= i < s.len() && (#[trigger] s[i]).path == p && pattern_hits(p, pat);
            if i == s.len() - 1 {
                assert(hit_paths(s, pat) == r.push(p));
                assert(r.push(p)[r.len() as int] == p);
            } else {
                assert(s0[i] == s[i]);
                assert(r.contains(p));
                if pattern_hits(s.last().path, pat) {
                    let k = choose|k: int| 0 <= k < r.len() && r[k] == p;
                    assert(r.push(s.last().path)[k] == p);
                }
            }
        }
    }
}

/// A pattern splits the files: each file is kept exactly when the
/// pattern does not pick its path, and its path is among those removed
/// exactly when it does; nothing else is kept or removed.
pub proof fn law_pattern_splits(s: Seq<EntryView>, pat: Seq<char>)
    requires
        sorted_paths(s),
    ensures
        sorted_paths(kept_entries(s, pat)),
        forall|x: EntryView| #[trigger]
            kept_entries(s, pat).contains(x) <==> (s.contains(x) && !pattern_hits(x.path, pat)),
        forall|x: EntryView|
            s.contains(x) ==> (#[trigger] hit_paths(s, pat).contains(x.path) <==> pattern_hits(
                x.path,
                pat,
            )),
        forall|p: Seq<char>| #[trigger]
            hit_paths(s, pat).contains(p) ==> pattern_hits(p, pat) && holds_exact_path(s, p),
{
    lemma_kept_sorted(s, pat);
    assert forall|x: EntryView| s.contains(x) implies (#[trigger] hit_paths(s, pat).contains(x.path)
        <==> pattern_hits(x.path, pat)) by {
        lemma_hit_paths(s, pat, x.path);
        let i = choose|i: int| 0 <= i < s.len() && s[i] == x;
        assert(s[i].path == x.path);
    }
    assert forall|p: Seq<char>| #[trigger] hit_paths(s, pat).contains(p) implies pattern_hits(p, pat)
        && holds_exact_path(s, p) by {
        lemma_hit_paths(s, pat, p);
    }
}

/// Some file of `s` has exactly the path `p`.
pub open spec fn holds_exact_path(s: Seq<EntryView>, p: Seq<char>) -> bool {
    exists|i: int| 0 <= i < s.len() && (#[trigger] s[i]).path == p
}

/// `trim_start` leaves a sequence that does not start with white space.
proof fn lemma_trim_start_shape(s: Seq<char>)
    ensures
        trim_start(s).len() == 0 || !is_ws(trim_start(s)[0]),
    decreases s.len(),
{
    if s.len() > 0 && is_ws(s[0]) {
        lemma_trim_start_shape(s.drop_first());
    }
}

/// `trim_end` leaves a prefix of its input that does not end with white
/// space.
proof fn lemma_trim_end_shape(s: Seq<char>)
    ensures
        trim_end(s).len() <= s.len(),
        trim_end(s) == s.take(trim_end(s).len() as int),
        trim_end(s).len() == 0 || !is_ws(trim_end(s).last()),
    decreases s.len(),
{
    if s.len() > 0 && is_ws(s.last()) {
        lemma_trim_end_shape(s.drop_last());
        assert(s.drop_last().take(trim_end(s).len() as int) =~= s.take(trim_end(s).len() as int));
    } else {
        assert(s.take(s.len() as int) =~= s);
    }
}

/// Trimming twice is trimming once.
pub proof fn law_trim_idempotent(s: Seq<char>)
    ensures
        trim(trim(s)) == trim(s),
{
    let t = trim_start(s);
    let u = trim_end(t);
    lemma_trim_start_shape(s);
    lemma_trim_end_shape(t);
    if u.len() > 0 {
        assert(u[0] == t[0]);
    }
    assert(trim_start(u) == u);
    lemma_trim_end_shape(u);
    if u.len() > 0 {
        assert(trim_end(u) == u);
    }
}

/// The first `word_len(s)` characters of `s` are not white space, and the
/// one after them, if any, is.
proof fn lemma_word_len_facts(s: Seq<char>)
    ensures
        word_len(s) <= s.len(),
        forall|k: int| 0 <= k < word_len(s) ==> !is_ws(#[trigger] s[k]),
        word_len(s) < s.len() ==> is_ws(s[word_len(s) as int]),
    decreases s.len(),
{
    if s.len() > 0 && !is_ws(s[0]) {
        let t = s.drop_first();
        lemma_word_len_facts(t);
        assert forall|k: int| 0 <= k < word_len(s) implies !is_ws(#[trigger] s[k]) by {
            if k > 0 {
                assert(s[k] == t[k - 1]);
            }
        }
    }
}

/// A word of `n` characters followed by white space or the end.
proof fn lemma_word_len_is(s: Seq<char>, n: int)
    requires
        0 <= n <= s.len(),
        forall|k: int| 0 <= k < n ==> !is_ws(#[trigger] s[k]),
        n == s.len() || is_ws(s[n]),
    ensures
        word_len(s) == n,
    decreases n,
{
    if n > 0 {
        let t = s.drop_first();
        assert forall|k: int| 0 <= k < n - 1 implies !is_ws(#[trigger] t[k]) by {
            assert(t[k] == s[k + 1]);
        }
        lemma_word_len_is(t, n - 1);
    }
}

/// Trailing white space does not change the words.
proof fn lemma_words_drop_trailing(s: Seq<char>)
    requires
        s.len() > 0,
        is_ws(s.last()),
    ensures
        words(s.drop_last()) == words(s),
    decreases s.len(),
{
    let d = s.drop_last();
    if s.len() == 1 {
        assert(words(s.drop_first()) == Seq::<Seq<char>>::empty()) by {
            assert(s.drop_first().len() == 0);
        }
    } else if is_ws(s[0]) {
        let t = s.drop_first();
        lemma_words_drop_trailing(t);
        assert(d.drop_first() =~= t.drop_last());
        assert(d[0] == s[0]);
    } else {
        lemma_word_len_facts(s);
        let n = word_len(s) as int;
        if n == s.len() {
            assert(!is_ws(s[s.len() - 1]));
        }
        assert forall|k: int| 0 <= k < n implies !is_ws(#[trigger] d[k]) by {
            assert(d[k] == s[k]);
        }
        if n < d.len() {
            assert(d[n] == s[n]);
        }
        lemma_word_len_is(d, n);
        assert(d[0] == s[0]);
        let r = s.skip(n);
        assert(r.len() > 0);
        assert(r.last() == s.last());
        lemma_words_drop_trailing(r);
        assert(d.skip(n) =~= r.drop_last());
        assert(d.take(n) =~= s.take(n));
    }
}

/// Leading white space does not change the words.
proof fn lemma_words_trim_start(s: Seq<char>)
    ensures
        words(trim_start(s)) == words(s),
    decreases s.len(),
{
    if s.len() > 0 && is_ws(s[0]) {
        lemma_words_trim_start(s.drop_first());
    }
}

/// Trailing white space does not change the words.
proof fn lemma_words_trim_end(s: Seq<char>)
    ensures
        words(trim_end(s)) == words(s),
    decreases s.len(),
{
    if s.len() > 0 && is_ws(s.last()) {
        lemma_words_trim_end(s.drop_last());
        lemma_words_drop_trailing(s);
    }
}

/// Trimming does not change the words of a line.
pub proof fn law_trim_keeps_words(s: Seq<char>)
    ensures
        words(trim(s)) == words(s),
{
    lemma_words_trim_start(s);
    lemma_words_trim_end(trim_start(s));
}

/// A line that reads as a known command reads as the same command
/// whatever white space separates or surrounds its words: two lines with
/// the same words read alike, unless the first is unknown (an unknown
/// command keeps its trimmed text, spacing included).
pub proof fn law_parse_depends_on_words(l1: Seq<char>, l2: Seq<char>)
    requires
        words(l1) == words(l2),
        !(parse_spec(l1) is Unknown),
    ensures
        parse_spec(l2) == parse_spec(l1),
{
    law_trim_keeps_words(l1);
    law_trim_keeps_words(l2);
}

/// Dropping leading white space does not lengthen a sequence, and
/// shortens one that starts with it.
pub proof fn lemma_trim_start_len(s: Seq<char>)
    ensures
        trim_start(s).len() <= s.len(),
        s.len() > 0 && is_ws(s[0]) ==> trim_start(s).len() < s.len(),
    decreases s.len(),
{
    if s.len() > 0 && is_ws(s[0]) {
        lemma_trim_start_len(s.drop_first());
    }
}

/// `s` with every run of white space replaced by one space.
pub open spec fn one_space(s: Seq<char>) -> Seq<char>
    decreases s.len(),
{
    if s.len() == 0 {
        s
    } else if is_ws(s[0]) {
        proof {
            lemma_trim_start_len(s);
        }
        seq![' '] + one_space(trim_start(s))
    } else {
        seq![s[0]] + one_space(s.drop_first())
    }
}

/// A line starting with a word keeps that word, then the rest with its
/// white-space runs made single spaces.
proof fn lemma_one_space_word(s: Seq<char>)
    requires
        s.len() > 0,
        !is_ws(s[0]),
    ensures
        one_space(s) == s.take(word_len(s) as int) + one_space(s.skip(word_len(s) as int)),
    decreases s.len(),
{
    let t = s.drop_first();
    if t.len() == 0 || is_ws(t[0]) {
        assert(word_len(t) == 0);
        assert(s.take(1) =~= seq![s[0]]);
        assert(s.skip(1) =~= t);
    } else {
        lemma_one_space_word(t);
        let m = word_len(t) as int;
        lemma_word_len_facts(t);
        assert(s.take(m + 1) =~= seq![s[0]] + t.take(m));
        assert(s.skip(m + 1) =~= t.skip(m));
        assert(seq![s[0]] + (t.take(m) + one_space(t.skip(m))) =~= s.take(m + 1) + one_space(
            s.skip(m + 1),
        ));
    }
}

/// Making every white-space run one space keeps the words of a line.
pub proof fn law_one_space_keeps_words(s: Seq<char>)
    ensures
        words(one_space(s)) == words(s),
    decreases s.len(),
{
    if s.len() == 0 {
    } else if is_ws(s[0]) {
        let o = one_space(s);
        lemma_trim_start_len(s);
        law_one_space_keeps_words(trim_start(s));
        lemma_words_trim_start(s);
        assert(o.drop_first() =~= one_space(trim_start(s)));
        assert(is_ws(o[0]));
    } else {
        lemma_word_len_facts(s);
        let n = word_len(s) as int;
        let r = s.skip(n);
        lemma_one_space_word(s);
        let o = one_space(s);
        let orest = one_space(r);
        law_one_space_keeps_words(r);
        if r.len() > 0 {
            assert(r[0] == s[n]);
            assert(orest[0] == ' ');
        }
        assert forall|k: int| 0 <= k < n implies !is_ws(#[trigger] o[k]) by {
            assert(o[k] == s[k]);
        }
        if n < o.len() {
            assert(o[n] == orest[0]);
        }
        lemma_word_len_is(o, n);
        assert(o.take(n) =~= s.take(n));
        assert(o.skip(n) =~= orest);
    }
}

/// A line that reads as a known command reads as the same command with
/// every run of white space in it made one space.
pub proof fn law_parse_with_single_spaces(line: Seq<char>)
    requires
        !(parse_spec(line) is Unknown),
    ensures
        parse_spec(one_space(line)) == parse_spec(line),
{
    law_one_space_keeps_words(line);
    law_parse_depends_on_words(line, one_space(line));
}

/// White space around a line does not change the command it reads as.
pub proof fn law_parse_ignores_surrounding_space(line: Seq<char>)
    ensures
        parse_spec(trim(line)) == parse_spec(line),
{
    law_trim_idempotent(line);
}

} // verus!
