//! Paths as character strings, seen through their components the way
//! `std::path::Path` sees them on Unix: repeated separators are ignored,
//! `.` is dropped except at the start of a relative path, a trailing
//! separator is ignored. Paths are equal when their components are, and
//! ordered by comparing components in turn; `ends_with` is a suffix of
//! components.
//!
//! The model is the Unix one only: `/` is the one separator and there are
//! no prefixes. On Windows, `std::path::Path` also splits at `\` and reads
//! drive and UNC prefixes, so there the order, equality and `ends_with` of
//! paths such as `C:\a.b` and `C:\a\b` differ from the ones stated here.
use vstd::prelude::*;
use crate::text::{append_all, chars_of};

verus! {

/// One component of a path.
pub enum Comp {
    Root,
    Cur,
    Parent,
    Normal(Seq<char>),
}

/// Length of the run of non-separator characters at the start of `s`.
pub open spec fn seg_len(s: Seq<char>) -> nat
    decreases s.len(),
{
    if s.len() == 0 || s[0] == '/' {
        0
    } else {
        1 + seg_len(s.drop_first())
    }
}

pub proof fn lemma_seg_len_bounds(s: Seq<char>)
    ensures
        seg_len(s) <= s.len(),
        s.len() > 0 && s[0] != '/' ==> seg_len(s) >= 1,
    decreases s.len(),
{
    if s.len() > 0 && s[0] != '/' {
        lemma_seg_len_bounds(s.drop_first());
    }
}

/// The component a non-empty segment between separators stands for;
/// `None` for `.`, which is dropped inside a path.
pub open spec fn seg_comp(seg: Seq<char>) -> Option<Comp> {
    if seg == seq!['.'] {
        None
    } else if seg == seq!['.', '.'] {
        Some(Comp::Parent)
    } else {
        Some(Comp::Normal(seg))
    }
}

/// Components of the separator-delimited segments of `s`.
pub open spec fn body_comps(s: Seq<char>) -> Seq<Comp>
    decreases s.len(),
{
    if s.len() == 0 {
        seq![]
    } else if s[0] == '/' {
        body_comps(s.drop_first())
    } else {
        let n = seg_len(s);
        proof {
            lemma_seg_len_bounds(s);
        }
        let rest = body_comps(s.skip(n as int));
        match seg_comp(s.take(n as int)) {
            Some(c) => seq![c] + rest,
            None => rest,
        }
    }
}

/// `s` is absolute.
pub open spec fn has_root(s: Seq<char>) -> bool {
    s.len() > 0 && s[0] == '/'
}

/// `s` is relative and starts with the component `.`.
pub open spec fn starts_with_cur(s: Seq<char>) -> bool {
    s.len() > 0 && s[0] == '.' && (s.len() == 1 || s[1] == '/')
}

/// The components of the path `s` (`Path::components` on Unix).
#[verifier::opaque]
pub open spec fn components(s: Seq<char>) -> Seq<Comp> {
    (if has_root(s) {
        seq![Comp::Root]
    } else {
        seq![]
    }) + (if starts_with_cur(s) {
        seq![Comp::Cur]
    } else {
        seq![]
    }) + body_comps(s)
}

/// One component as a run of numbers: kinds as 1 to 4 in the order
/// root, `.`, `..`, name; a name's characters as their scalar values plus
/// 5, followed by 0. Comparing codes of paths in dictionary order compares
/// their components in turn.
pub open spec fn comp_code(c: Comp) -> Seq<u32> {
    match c {
        Comp::Root => seq![1u32],
        Comp::Cur => seq![2u32],
        Comp::Parent => seq![3u32],
        Comp::Normal(t) => seq![4u32] + t.map_values(|ch: char| ((ch as u32) + 5) as u32) + seq![
            0u32,
        ],
    }
}

/// The codes of a sequence of components, one after the other.
pub open spec fn encode(cs: Seq<Comp>) -> Seq<u32>
    decreases cs.len(),
{
    if cs.len() == 0 {
        seq![]
    } else {
        comp_code(cs[0]) + encode(cs.drop_first())
    }
}

/// The comparison key of the path `s`.
#[verifier::opaque]
pub open spec fn path_key(s: Seq<char>) -> Seq<u32> {
    encode(components(s))
}

/// Dictionary order: `a` is a proper prefix of `b` or `a` is smaller at
/// the first place where they differ.
#[verifier::opaque]
pub open spec fn lex_lt(a: Seq<u32>, b: Seq<u32>) -> bool
    decreases a.len(),
{
    if a.len() == 0 {
        b.len() > 0
    } else if b.len() == 0 {
        false
    } else if a[0] < b[0] {
        true
    } else if a[0] > b[0] {
        false
    } else {
        lex_lt(a.drop_first(), b.drop_first())
    }
}

/// Path `p` orders before path `q` (`Path` ordering).
pub open spec fn path_lt(p: Seq<char>, q: Seq<char>) -> bool {
    lex_lt(path_key(p), path_key(q))
}

/// Paths `p` and `q` are equal as `Path`s: they have the same components.
pub open spec fn same_path(p: Seq<char>, q: Seq<char>) -> bool {
    components(p) == components(q)
}

/// `p` ends with the components of `child` (`Path::ends_with`).
pub open spec fn path_ends_with(p: Seq<char>, child: Seq<char>) -> bool {
    let a = components(p);
    let b = components(child);
    b.len() <= a.len() && a.skip(a.len() - b.len()) == b
}

pub proof fn lemma_lex_irreflexive(a: Seq<u32>)
    ensures
        !lex_lt(a, a),
    decreases a.len(),
{
    reveal(lex_lt);
    if a.len() > 0 {
        lemma_lex_irreflexive(a.drop_first());
    }
}

pub proof fn lemma_lex_asymmetric(a: Seq<u32>, b: Seq<u32>)
    ensures
        !(lex_lt(a, b) && lex_lt(b, a)),
    decreases a.len(),
{
    reveal(lex_lt);
    if a.len() > 0 && b.len() > 0 && a[0] == b[0] {
        lemma_lex_asymmetric(a.drop_first(), b.drop_first());
    }
}

pub proof fn lemma_lex_transitive(a: Seq<u32>, b: Seq<u32>, c: Seq<u32>)
    requires
        lex_lt(a, b),
        lex_lt(b, c),
    ensures
        lex_lt(a, c),
    decreases a.len(),
{
    reveal(lex_lt);
    if a.len() > 0 && b.len() > 0 && c.len() > 0 && a[0] == b[0] && b[0] == c[0] {
        lemma_lex_transitive(a.drop_first(), b.drop_first(), c.drop_first());
    }
}

pub proof fn lemma_lex_total(a: Seq<u32>, b: Seq<u32>)
    ensures
        lex_lt(a, b) || lex_lt(b, a) || a == b,
    decreases a.len(),
{
    reveal(lex_lt);
    if a.len() > 0 && b.len() > 0 && a[0] == b[0] {
        let (a1, b1) = (a.drop_first(), b.drop_first());
        lemma_lex_total(a1, b1);
        if a1 == b1 {
            assert forall|k: int| 0 <= k < a.len() implies a[k] == b[k] by {
                if k > 0 {
                    assert(a[k] == a1[k - 1]);
                    assert(b[k] == b1[k - 1]);
                }
            }
            assert(a =~= b);
        } else {
            assert(lex_lt(a, b) == lex_lt(a1, b1));
            assert(lex_lt(b, a) == lex_lt(b1, a1));
        }
    } else if a.len() == 0 && b.len() == 0 {
        assert(a =~= b);
    }
}

/// Dropping an equal first element keeps the order.
proof fn lemma_lex_skip(a: Seq<u32>, b: Seq<u32>, k: int)
    requires
        0 <= k <= a.len(),
        k <= b.len(),
        a.take(k) == b.take(k),
    ensures
        lex_lt(a, b) == lex_lt(a.skip(k), b.skip(k)),
    decreases k,
{
    reveal(lex_lt);
    if k > 0 {
        assert(a[0] == a.take(k)[0]);
        assert(b[0] == b.take(k)[0]);
        assert(a.drop_first().take(k - 1) =~= a.take(k).drop_first());
        assert(b.drop_first().take(k - 1) =~= b.take(k).drop_first());
        lemma_lex_skip(a.drop_first(), b.drop_first(), k - 1);
        assert(a.drop_first().skip(k - 1) =~= a.skip(k));
        assert(b.drop_first().skip(k - 1) =~= b.skip(k));
    } else {
        assert(a.skip(0) =~= a);
        assert(b.skip(0) =~= b);
    }
}

/// Codes of components do not run into each other: equal codes of two
/// component sequences mean equal first components and equal rests.
#[verifier::spinoff_prover]
proof fn lemma_code_prefix(c: Comp, d: Comp, r: Seq<u32>, s: Seq<u32>)
    requires
        comp_code(c) + r == comp_code(d) + s,
    ensures
        c == d,
        r == s,
{
    let x = comp_code(c) + r;
    let y = comp_code(d) + s;
    assert(x[0] == comp_code(c)[0]);
    assert(y[0] == comp_code(d)[0]);
    match (c, d) {
        (Comp::Normal(t), Comp::Normal(u)) => {
            let f = |ch: char| ((ch as u32) + 5) as u32;
            let mt = t.map_values(f);
            let mu = u.map_values(f);
            if t.len() < u.len() {
                assert(x[1 + t.len() as int] == 0u32);
                assert(y[1 + t.len() as int] == mu[t.len() as int]);
                vstd::utf8::char_is_scalar(u[t.len() as int]);
                assert(false);
            } else if u.len() < t.len() {
                assert(y[1 + u.len() as int] == 0u32);
                assert(x[1 + u.len() as int] == mt[u.len() as int]);
                vstd::utf8::char_is_scalar(t[u.len() as int]);
                assert(false);
            }
            assert forall|i: int| 0 <= i < t.len() implies t[i] == u[i] by {
                assert(x[1 + i] == y[1 + i]);
                assert(x[1 + i] == mt[i]);
                assert(y[1 + i] == mu[i]);
                vstd::utf8::char_is_scalar(t[i]);
                vstd::utf8::char_is_scalar(u[i]);
                vstd::utf8::char_u32_cast(t[i], t[i] as u32);
                vstd::utf8::char_u32_cast(u[i], u[i] as u32);
            }
            assert(t =~= u);
        },
        _ => {},
    }
    let n = comp_code(c).len();
    assert(r =~= x.skip(n as int));
    assert(s =~= y.skip(n as int));
}

/// Different component sequences have different codes.
#[verifier::spinoff_prover]
#[verifier::rlimit(40)]
pub proof fn lemma_encode_injective(a: Seq<Comp>, b: Seq<Comp>)
    requires
        encode(a) == encode(b),
    ensures
        a == b,
    decreases a.len(),
{
    if a.len() == 0 && b.len() > 0 {
        assert(encode(b).len() > 0) by {
            assert(comp_code(b[0]).len() > 0);
        }
    } else if a.len() > 0 && b.len() == 0 {
        assert(comp_code(a[0]).len() > 0);
    } else if a.len() > 0 {
        lemma_code_prefix(a[0], b[0], encode(a.drop_first()), encode(b.drop_first()));
        lemma_encode_injective(a.drop_first(), b.drop_first());
        assert(a =~= seq![a[0]] + a.drop_first());
        assert(b =~= seq![b[0]] + b.drop_first());
    } else {
        assert(a =~= b);
    }
}

/// Two paths have equal keys exactly when they are the same path.
pub proof fn lemma_key_eq_same_path(p: Seq<char>, q: Seq<char>)
    ensures
        (path_key(p) == path_key(q)) == same_path(p, q),
{
    reveal(path_key);
    if path_key(p) == path_key(q) {
        lemma_encode_injective(components(p), components(q));
    }
}

/// One component of a path, as held in memory.
pub enum Component {
    RootDir,
    CurDir,
    ParentDir,
    Normal(Vec<char>),
}

impl View for Component {
    type V = Comp;

    open spec fn view(&self) -> Comp {
        match self {
            Component::RootDir => Comp::Root,
            Component::CurDir => Comp::Cur,
            Component::ParentDir => Comp::Parent,
            Component::Normal(t) => Comp::Normal(t@),
        }
    }
}

/// The views of a vector of components.
pub open spec fn comps_view(v: Seq<Component>) -> Seq<Comp> {
    v.map_values(|c: Component| c@)
}

/// A run of non-separator characters ending at a separator or at the end
/// has exactly that length as its `seg_len`.
proof fn lemma_seg_len_run(s: Seq<char>, j: int)
    requires
        0 <= j <= s.len(),
        forall|k: int| 0 <= k < j ==> #[trigger] s[k] != '/',
        j == s.len() || s[j] == '/',
    ensures
        seg_len(s) == j,
    decreases j,
{
    if j > 0 {
        lemma_seg_len_run(s.drop_first(), j - 1);
    }
}

/// The component for the segment `seg`, `None` for `.`.
fn segment_component(seg: Vec<char>) -> (r: Option<Component>)
    requires
        seg.len() > 0,
    ensures
        match r {
            Some(c) => seg_comp(seg@) == Some(c@),
            None => seg_comp(seg@) is None,
        },
{
    if seg.len() == 1 && seg[0] == '.' {
        assert(seg@ =~= seq!['.']);
        None
    } else if seg.len() == 2 && seg[0] == '.' && seg[1] == '.' {
        assert(seg@ =~= seq!['.', '.']);
        Some(Component::ParentDir)
    } else {
        proof {
            if seg@ == seq!['.'] {
                assert(seg@[0] == '.');
            }
            if seg@ == seq!['.', '.'] {
                assert(seg@[0] == '.' && seg@[1] == '.');
            }
        }
        Some(Component::Normal(seg))
    }
}

/// The components of the path `s` (`Path::components`).
pub fn path_components(s: &Vec<char>) -> (cs: Vec<Component>)
    ensures
        comps_view(cs@) == components(s@),
{
    let n = s.len();
    let mut cs: Vec<Component> = Vec::new();
    let root = n > 0 && s[0] == '/';
    if root {
        cs.push(Component::RootDir);
    }
    let cur = n > 0 && s[0] == '.' && (n == 1 || s[1] == '/');
    if cur {
        cs.push(Component::CurDir);
    }
    proof {
        reveal(components);
    }
    let ghost head = comps_view(cs@);
    assert(head =~= (if has_root(s@) {
        seq![Comp::Root]
    } else {
        seq![]
    }) + (if starts_with_cur(s@) {
        seq![Comp::Cur]
    } else {
        seq![]
    }));
    let mut i: usize = 0;
    assert(s@.skip(0) =~= s@);
    while i < n
        invariant
            i <= n == s.len(),
            components(s@) == comps_view(cs@) + body_comps(s@.skip(i as int)),
        decreases n - i,
    {
        let ghost rest = s@.skip(i as int);
        let ghost before = comps_view(cs@);
        if s[i] == '/' {
            assert(rest.drop_first() =~= s@.skip(i + 1));
            i += 1;
        } else {
            let mut seg: Vec<char> = Vec::new();
            let mut j = i;
            while j < n && s[j] != '/'
                invariant
                    i <= j <= n == s.len(),
                    seg@ == s@.subrange(i as int, j as int),
                    forall|k: int| i <= k < j ==> #[trigger] s@[k] != '/',
                decreases n - j,
            {
                seg.push(s[j]);
                j += 1;
                assert(seg@ =~= s@.subrange(i as int, j as int));
            }
            proof {
                assert forall|k: int| 0 <= k < j - i implies #[trigger] rest[k] != '/' by {
                    assert(rest[k] == s@[i + k]);
                }
                lemma_seg_len_run(rest, j - i);
                assert(rest.take(j - i) =~= seg@);
                assert(rest.skip(j - i) =~= s@.skip(j as int));
            }
            match segment_component(seg) {
                Some(c) => {
                    cs.push(c);
                    assert(comps_view(cs@) =~= before + seq![c@]);
                },
                None => {},
            }
            i = j;
        }
    }
    assert(s@.skip(n as int) =~= Seq::<char>::empty());
    assert(comps_view(cs@) + Seq::<Comp>::empty() =~= comps_view(cs@));
    cs
}

/// Appends the code of `c` to `out`.
fn push_code(out: &mut Vec<u32>, c: &Component)
    ensures
        final(out)@ == old(out)@ + comp_code(c@),
{
    match c {
        Component::RootDir => out.push(1),
        Component::CurDir => out.push(2),
        Component::ParentDir => out.push(3),
        Component::Normal(t) => {
            out.push(4);
            let ghost start = out@;
            let mut k: usize = 0;
            while k < t.len()
                invariant
                    k <= t.len(),
                    out@ == start + t@.take(k as int).map_values(
                        |ch: char| ((ch as u32) + 5) as u32,
                    ),
                decreases t.len() - k,
            {
                let ch = t[k];
                proof {
                    vstd::utf8::char_is_scalar(ch);
                }
                out.push(ch as u32 + 5);
                k += 1;
                assert(out@ =~= start + t@.take(k as int).map_values(
                    |ch: char| ((ch as u32) + 5) as u32,
                ));
            }
            out.push(0);
            assert(t@.take(t@.len() as int) =~= t@);
        },
    }
    assert(out@ =~= old(out)@ + comp_code(c@));
}

/// The comparison key of the path `s`.
pub fn key_of(s: &Vec<char>) -> (k: Vec<u32>)
    ensures
        k@ == path_key(s@),
{
    let cs = path_components(s);
    let mut i = cs.len();
    let ghost cv = comps_view(cs@);
    // Build the code from the back so that the recursion of `encode` follows.
    let mut parts: Vec<Vec<u32>> = Vec::new();
    let mut idx: usize = 0;
    while idx < cs.len()
        invariant
            idx <= cs.len(),
            cv == comps_view(cs@),
            parts@.len() == idx,
            forall|j: int| 0 <= j < idx ==> #[trigger] parts@[j]@ == comp_code(cv[j]),
        decreases cs.len() - idx,
    {
        let mut code: Vec<u32> = Vec::new();
        push_code(&mut code, &cs[idx]);
        assert(code@ =~= comp_code(cv[idx as int]));
        parts.push(code);
        idx += 1;
    }
    let mut acc: Vec<u32> = Vec::new();
    assert(cv.skip(cv.len() as int) =~= Seq::<Comp>::empty());
    while i > 0
        invariant
            i <= cs.len() == parts@.len() == cv.len(),
            forall|j: int| 0 <= j < cv.len() ==> #[trigger] parts@[j]@ == comp_code(cv[j]),
            acc@ == encode(cv.skip(i as int)),
        decreases i,
    {
        i -= 1;
        let mut next: Vec<u32> = Vec::new();
        append_all(&mut next, &parts[i]);
        append_all(&mut next, &acc);
        assert(cv.skip(i as int).drop_first() =~= cv.skip(i + 1));
        assert(cv.skip(i as int)[0] == cv[i as int]);
        acc = next;
    }
    assert(cv.skip(0) =~= cv);
    proof {
        reveal(path_key);
    }
    acc
}

/// Whether two components are the same.
fn same_component(x: &Component, y: &Component) -> (b: bool)
    ensures
        b == (x@ == y@),
{
    match (x, y) {
        (Component::RootDir, Component::RootDir) => true,
        (Component::CurDir, Component::CurDir) => true,
        (Component::ParentDir, Component::ParentDir) => true,
        (Component::Normal(t), Component::Normal(u)) => {
            if t.len() != u.len() {
                return false;
            }
            let mut k: usize = 0;
            while k < t.len()
                invariant
                    k <= t.len() == u.len(),
                    x@ == Comp::Normal(t@),
                    y@ == Comp::Normal(u@),
                    forall|j: int| 0 <= j < k ==> t@[j] == u@[j],
                decreases t.len() - k,
            {
                if t[k] != u[k] {
                    assert(t@[k as int] != u@[k as int]);
                    return false;
                }
                k += 1;
            }
            assert(t@ =~= u@);
            true
        },
        _ => false,
    }
}

/// Whether the path `p` ends with the components of `child`
/// (`Path::ends_with`).
pub fn ends_with(p: &Vec<char>, child: &Vec<char>) -> (b: bool)
    ensures
        b == path_ends_with(p@, child@),
{
    let a = path_components(p);
    let c = path_components(child);
    let ghost av = comps_view(a@);
    let ghost cv = comps_view(c@);
    if c.len() > a.len() {
        return false;
    }
    let off = a.len() - c.len();
    let mut k: usize = 0;
    while k < c.len()
        invariant
            off + c.len() == a.len(),
            k <= c.len(),
            av == comps_view(a@),
            av == components(p@),
            cv == comps_view(c@),
            cv == components(child@),
            forall|j: int| 0 <= j < k ==> av[off + j] == cv[j],
        decreases c.len() - k,
    {
        assert(av[off + k] == a@[off + k]@);
        assert(cv[k as int] == c@[k as int]@);
        if !same_component(&a[off + k], &c[k]) {
            assert(av.skip(off as int)[k as int] != cv[k as int]);
            return false;
        }
        k += 1;
    }
    assert(av.skip(off as int) =~= cv);
    true
}

/// A value that carries a path as text.
pub trait HasPath {
    /// The characters of the path.
    spec fn path_chars(&self) -> Seq<char>;

    /// The path as text.
    fn path_text(&self) -> (s: &str)
        ensures
            s@ == self.path_chars(),
    ;
}

impl HasPath for String {
    open spec fn path_chars(&self) -> Seq<char> {
        self@
    }

    fn path_text(&self) -> (s: &str) {
        self.as_str()
    }
}

/// Where a path with key `key` stands among the paths of `v`: every path
/// before the returned position orders first; the flag tells whether the
/// path at that position has that key, and otherwise that position is the
/// end or its path orders after.
pub(crate) fn locate_key<T: HasPath>(v: &Vec<T>, key: &Vec<u32>) -> (r: (usize, bool))
    ensures
        r.0 <= v@.len(),
        forall|j: int| 0 <= j < r.0 ==> lex_lt(path_key(#[trigger] v@[j].path_chars()), key@),
        r.1 ==> r.0 < v@.len() && path_key(v@[r.0 as int].path_chars()) == key@,
        !r.1 ==> r.0 == v@.len() || lex_lt(key@, path_key(v@[r.0 as int].path_chars())),
{
    let mut i: usize = 0;
    while i < v.len()
        invariant
            i <= v@.len(),
            forall|j: int| 0 <= j < i ==> lex_lt(path_key(#[trigger] v@[j].path_chars()), key@),
        decreases v.len() - i,
    {
        let k = key_of(&chars_of(v[i].path_text()));
        let c = compare_keys(&k, key);
        if c == 0 {
            return (i, true);
        } else if c == 1 {
            return (i, false);
        }
        i += 1;
    }
    (i, false)
}

/// Compares two keys: -1 if `a` orders first, 0 if equal, 1 otherwise.
pub fn compare_keys(a: &Vec<u32>, b: &Vec<u32>) -> (r: i8)
    ensures
        r == -1 <==> lex_lt(a@, b@),
        r == 0 <==> a@ == b@,
        r == 1 <==> lex_lt(b@, a@),
        r == -1 || r == 0 || r == 1,
{
    proof {
        reveal(lex_lt);
        lemma_lex_asymmetric(a@, b@);
        lemma_lex_total(a@, b@);
        lemma_lex_irreflexive(a@);
    }
    let mut i: usize = 0;
    while i < a.len() && i < b.len()
        invariant
            i <= a.len(),
            i <= b.len(),
            a@.take(i as int) == b@.take(i as int),
        decreases a.len() - i,
    {
        if a[i] != b[i] {
            proof {
                reveal(lex_lt);
                lemma_lex_skip(a@, b@, i as int);
                lemma_lex_skip(b@, a@, i as int);
            }
            if a[i] < b[i] {
                return -1;
            } else {
                return 1;
            }
        }
        i += 1;
        assert(a@.take(i as int) =~= b@.take(i as int)) by {
            assert forall|j: int| 0 <= j < i implies a@.take(i as int)[j] == b@.take(
                i as int,
            )[j] by {
                if j < i - 1 {
                    assert(a@.take(i - 1)[j] == b@.take(i - 1)[j]);
                }
            }
        }
    }
    proof {
        reveal(lex_lt);
        lemma_lex_skip(a@, b@, i as int);
        lemma_lex_skip(b@, a@, i as int);
    }
    if a.len() == b.len() {
        assert(a@ =~= a@.take(i as int));
        assert(b@ =~= b@.take(i as int));
        0
    } else if a.len() < b.len() {
        -1
    } else {
        1
    }
}

} // verus!
