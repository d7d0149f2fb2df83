//! Choosing files from what was found on disk: glob patterns matched
//! against paths, and the final list of paths in path order with each
//! path once.
use vstd::prelude::*;
use crate::path::{
    key_of, lemma_key_eq_same_path, locate_key, HasPath, lemma_lex_irreflexive, lemma_lex_transitive,
    lex_lt, path_key, path_lt, same_path,
};
use crate::text::chars_of;

verus! {

#[verifier::external_type_specification]
#[verifier::external_body]
pub struct ExGlobPattern(glob::Pattern);

/// Whether `glob::Pattern::new` accepts the pattern `pattern`.
pub uninterp spec fn glob_compiles(pattern: Seq<char>) -> bool;

/// Whether the glob pattern `pattern` matches the path `path`
/// (`glob::Pattern::matches_path` with the default options).
pub uninterp spec fn glob_matches(pattern: Seq<char>, path: Seq<char>) -> bool;

/// A compiled glob pattern, with the text it was compiled from.
pub struct GlobPattern {
    source: String,
    compiled: glob::Pattern,
}

impl View for GlobPattern {
    type V = Seq<char>;

    closed spec fn view(&self) -> Seq<char> {
        self.source@
    }
}

/// Compiles `pattern` with `glob::Pattern::new`. The contract states that
/// the result is present exactly when the glob crate accepts the text and
/// then keeps that text; which texts it accepts is left to the name
/// `glob_compiles`.
#[verifier::external_body]
fn compile_glob(pattern: &str) -> (r: Option<GlobPattern>)
    ensures
        r is Some <==> glob_compiles(pattern@),
        r matches Some(g) ==> g@ == pattern@,
{
    match glob::Pattern::new(pattern) {
        Ok(compiled) => Some(GlobPattern { source: pattern.to_string(), compiled }),
        Err(_) => None,
    }
}

/// Matches a path against the pattern with `glob::Pattern::matches_path`
/// and the default options. The result is left to the name
/// `glob_matches` of the pattern's text and the path.
#[verifier::external_body]
fn glob_match(g: &GlobPattern, path: &str) -> (b: bool)
    ensures
        b == glob_matches(g@, path@),
{
    g.compiled.matches_path(std::path::Path::new(path))
}

impl GlobPattern {
    /// The pattern `pattern`, if the glob syntax accepts it.
    pub fn new(pattern: &str) -> (r: Option<GlobPattern>)
        ensures
            r is Some <==> glob_compiles(pattern@),
            r matches Some(g) ==> g@ == pattern@,
    {
        compile_glob(pattern)
    }

    /// The positions, in order, of the candidate paths the pattern
    /// matches.
    pub fn select_matching(&self, candidates: &Vec<String>) -> (picked: Vec<usize>)
        ensures
            picked@ == matching_positions(self@, candidates@.map_values(|s: String| s@)),
    {
        let ghost c = candidates@.map_values(|s: String| s@);
        let mut picked: Vec<usize> = Vec::new();
        let mut i: usize = 0;
        assert(c.take(0) =~= Seq::<Seq<char>>::empty());
        while i < candidates.len()
            invariant
                i <= candidates@.len() == c.len(),
                c == candidates@.map_values(|s: String| s@),
                picked@ == matching_positions(self@, c.take(i as int)),
            decreases candidates.len() - i,
        {
            assert(c.take(i + 1).drop_last() =~= c.take(i as int));
            assert(candidates@[i as int]@ == c[i as int]);
            if glob_match(self, candidates[i].as_str()) {
                picked.push(i);
            }
            i += 1;
        }
        assert(c.take(c.len() as int) =~= c);
        picked
    }
}

/// The positions, in order, of the paths of `c` that `pattern` matches.
pub open spec fn matching_positions(pattern: Seq<char>, c: Seq<Seq<char>>) -> Seq<usize>
    decreases c.len(),
{
    if c.len() == 0 {
        seq![]
    } else {
        let r = matching_positions(pattern, c.drop_last());
        if glob_matches(pattern, c.last()) {
            r.push((c.len() - 1) as usize)
        } else {
            r
        }
    }
}

/// The paths are in strictly increasing path order.
pub open spec fn strictly_sorted(v: Seq<Seq<char>>) -> bool {
    forall|i: int, j: int| 0 <= i < j < v.len() ==> path_lt(#[trigger] v[i], #[trigger] v[j])
}

/// `v[j]` is the first path of `v` that is the same path as itself.
pub open spec fn first_of_its_path(v: Seq<Seq<char>>, j: int) -> bool {
    forall|k: int| 0 <= k < j ==> !same_path(#[trigger] v[k], v[j])
}

/// Some path of `input` is `p` and the first of its path there.
pub open spec fn first_copy_in(input: Seq<Seq<char>>, p: Seq<char>) -> bool {
    exists|j: int| 0 <= j < input.len() && #[trigger] input[j] == p && first_of_its_path(input, j)
}

/// Some path of `v` is the same path as `q`.
pub open spec fn some_same_path(v: Seq<Seq<char>>, q: Seq<char>) -> bool {
    exists|i: int| 0 <= i < v.len() && same_path(#[trigger] v[i], q)
}

/// `out` is `input` in path order with each path once, kept in the
/// spelling of its first occurrence: `out` is strictly sorted, each of
/// its paths is the first of its path in `input`, and each path of
/// `input` is the same path as one of `out`.
#[verifier::opaque]
pub open spec fn dedup_sorted(input: Seq<Seq<char>>, out: Seq<Seq<char>>) -> bool {
    &&& strictly_sorted(out)
    &&& forall|i: int| 0 <= i < out.len() ==> first_copy_in(input, #[trigger] out[i])
    &&& forall|j: int| 0 <= j < input.len() ==> some_same_path(out, #[trigger] input[j])
}

/// The paths of `out`, sorted and unique for `input`, are in strictly
/// increasing path order.
pub proof fn lemma_dedup_sorted_order(input: Seq<Seq<char>>, out: Seq<Seq<char>>)
    requires
        dedup_sorted(input, out),
    ensures
        strictly_sorted(out),
{
    reveal(dedup_sorted);
}

/// The `i`-th path of `out`, sorted and unique for `input`, is the first
/// of its path in `input`.
pub proof fn lemma_dedup_sorted_drawn(input: Seq<Seq<char>>, out: Seq<Seq<char>>, i: int)
    requires
        dedup_sorted(input, out),
        0 <= i < out.len(),
    ensures
        first_copy_in(input, out[i]),
{
    reveal(dedup_sorted);
}

/// The `j`-th path of `input` is the same path as one of `out`, sorted
/// and unique for `input`.
pub proof fn lemma_dedup_sorted_covers(input: Seq<Seq<char>>, out: Seq<Seq<char>>, j: int)
    requires
        dedup_sorted(input, out),
        0 <= j < input.len(),
    ensures
        some_same_path(out, input[j]),
{
    reveal(dedup_sorted);
}

/// The characters of each string of `v`.
pub open spec fn paths_view(v: Seq<String>) -> Seq<Seq<char>> {
    v.map_values(|s: String| s@)
}


/// Every path of `ov` is the path of `input` at `src[i]`, one of its
/// first `n`, and the first of its path there.
pub open spec fn drawn(ov: Seq<Seq<char>>, input: Seq<Seq<char>>, src: Seq<int>, n: int) -> bool {
    &&& src.len() == ov.len()
    &&& forall|i: int|
        0 <= i < ov.len() ==> 0 <= #[trigger] src[i] < n && input[src[i]] == ov[i]
            && first_of_its_path(input, src[i])
}

/// Each of the first `n` paths of `input` is the same path as the path of
/// `ov` at `at[j]`.
pub open spec fn covered(ov: Seq<Seq<char>>, input: Seq<Seq<char>>, at: Seq<int>, n: int) -> bool {
    &&& at.len() == n
    &&& forall|j: int| 0 <= j < n ==> 0 <= #[trigger] at[j] < ov.len() && same_path(ov[at[j]], input[j])
}

/// The positions `at` after an insertion at `pos`.
pub open spec fn shift_from(at: Seq<int>, pos: int) -> Seq<int> {
    at.map_values(|x: int| if x >= pos { x + 1 } else { x })
}

/// The next input path is new: inserting it at its place keeps the
/// paths sorted, drawn from the input and covering it.
proof fn lemma_step_insert(
    ov: Seq<Seq<char>>,
    input: Seq<Seq<char>>,
    src: Seq<int>,
    at: Seq<int>,
    idx: int,
    pos: int,
)
    requires
        strictly_sorted(ov),
        drawn(ov, input, src, idx),
        covered(ov, input, at, idx),
        0 <= idx < input.len(),
        0 <= pos <= ov.len(),
        forall|k: int| 0 <= k < pos ==> lex_lt(path_key(#[trigger] ov[k]), path_key(input[idx])),
        pos < ov.len() ==> lex_lt(path_key(input[idx]), path_key(ov[pos])),
    ensures
        strictly_sorted(ov.insert(pos, input[idx])),
        drawn(ov.insert(pos, input[idx]), input, src.insert(pos, idx), idx + 1),
        covered(ov.insert(pos, input[idx]), input, shift_from(at, pos).push(pos), idx + 1),
{
    let p = input[idx];
    let t = ov.insert(pos, p);
    assert forall|j: int| 0 <= j < ov.len() implies !same_path(#[trigger] ov[j], p) && (j < pos
        ==> path_lt(ov[j], p)) && (j >= pos ==> path_lt(p, ov[j])) by {
        lemma_absent_path(ov, pos, p, j);
    }
    assert forall|k: int| 0 <= k < idx implies !same_path(#[trigger] input[k], p) by {
        assert(!same_path(ov[at[k]], p));
    }
    assert(first_of_its_path(input, idx));
    assert forall|a: int, b: int| 0 <= a < b < t.len() implies path_lt(
        #[trigger] t[a],
        #[trigger] t[b],
    ) by {
        if b < pos {
            assert(path_lt(ov[a], ov[b]));
        } else if b == pos {
        } else if a == pos {
            assert(t[b] == ov[b - 1]);
        } else if a < pos {
            assert(path_lt(ov[a], ov[b - 1]));
        } else {
            assert(path_lt(ov[a - 1], ov[b - 1]));
        }
    }
    let s2 = src.insert(pos, idx);
    assert forall|i: int| 0 <= i < t.len() implies 0 <= #[trigger] s2[i] < idx + 1 && input[s2[i]]
        == t[i] && first_of_its_path(input, s2[i]) by {
        if i < pos {
            assert(s2[i] == src[i] && t[i] == ov[i]);
        } else if i > pos {
            assert(s2[i] == src[i - 1] && t[i] == ov[i - 1]);
        }
    }
    let a2 = shift_from(at, pos).push(pos);
    assert forall|j: int| 0 <= j < idx + 1 implies 0 <= #[trigger] a2[j] < t.len() && same_path(
        t[a2[j]],
        input[j],
    ) by {
        if j < idx {
            assert(a2[j] == shift_from(at, pos)[j]);
            if at[j] >= pos {
                assert(t[at[j] + 1] == ov[at[j]]);
            } else {
                assert(t[at[j]] == ov[at[j]]);
            }
        }
    }
}

/// The paths, in path order, each path once: of several paths that are
/// the same path, the first is kept (`sort` then `dedup` of `PathBuf`s).
pub fn sorted_unique_paths(paths: &Vec<String>) -> (out: Vec<String>)
    ensures
        dedup_sorted(paths_view(paths@), paths_view(out@)),
{
    let ghost input = paths_view(paths@);
    let mut out: Vec<String> = Vec::new();
    let mut idx: usize = 0;
    let ghost mut src: Seq<int> = seq![];
    let ghost mut at: Seq<int> = seq![];
    while idx < paths.len()
        invariant
            idx <= paths@.len() == input.len(),
            input == paths_view(paths@),
            strictly_sorted(paths_view(out@)),
            drawn(paths_view(out@), input, src, idx as int),
            covered(paths_view(out@), input, at, idx as int),
        decreases paths.len() - idx,
    {
        let p = &paths[idx];
        assert(p@ == input[idx as int]);
        let key = key_of(&chars_of(p.as_str()));
        let (pos, found) = locate_key(&out, &key);
        let ghost ov = paths_view(out@);
        assert(forall|j: int| 0 <= j < ov.len() ==> ov[j] == (#[trigger] out@[j])@);
        assert(forall|j: int| 0 <= j < ov.len() ==> (#[trigger] out@[j]).path_chars() == ov[j]);
        if found {
            proof {
                lemma_key_eq_same_path(ov[pos as int], input[idx as int]);
                at = at.push(pos as int);
            }
        } else {
            proof {
                lemma_step_insert(ov, input, src, at, idx as int, pos as int);
                src = src.insert(pos as int, idx as int);
                at = shift_from(at, pos as int).push(pos as int);
            }
            out.insert(pos, p.clone());
            assert(paths_view(out@) =~= ov.insert(pos as int, p@));
        }
        idx += 1;
    }
    proof {
        let ov = paths_view(out@);
        assert forall|i: int| 0 <= i < ov.len() implies first_copy_in(input, #[trigger] ov[i]) by {
            assert(input[src[i]] == ov[i]);
        }
        assert forall|j: int| 0 <= j < input.len() implies some_same_path(ov, #[trigger] input[j]) by {
            assert(same_path(ov[at[j]], input[j]));
        }
        reveal(dedup_sorted);
    }
    out
}

/// When `p` is not found at its located position `i` in the sorted paths
/// `s`, no path of `s` is `p`; those before `i` order before it and the
/// others after it.
pub(crate) proof fn lemma_absent_path(s: Seq<Seq<char>>, i: int, p: Seq<char>, j: int)
    requires
        strictly_sorted(s),
        0 <= i <= s.len(),
        forall|k: int| 0 <= k < i ==> lex_lt(path_key(#[trigger] s[k]), path_key(p)),
        i < s.len() ==> lex_lt(path_key(p), path_key(s[i])),
        0 <= j < s.len(),
    ensures
        !same_path(s[j], p),
        j < i ==> path_lt(s[j], p),
        j >= i ==> path_lt(p, s[j]),
{
    lemma_key_eq_same_path(s[j], p);
    lemma_lex_irreflexive(path_key(p));
    if j > i {
        assert(path_lt(s[i], s[j]));
        lemma_lex_transitive(path_key(p), path_key(s[i]), path_key(s[j]));
    }
}

} // verus!
