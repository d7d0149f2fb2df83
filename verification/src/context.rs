//! The context: the files collected so far, one per path, kept in path
//! order, and what is shown of them.
use vstd::prelude::*;
use vstd::utf8::encode_utf8;
use crate::clipboard::{copy_to_clipboard, is_step, ClipboardStep, Platform};
use crate::config::Config;
use crate::path::{
    key_of, lemma_key_eq_same_path, lemma_lex_irreflexive, lex_lt, path_key, path_lt, same_path,
};
use crate::config::DEFAULT_TEMPLATE;
use crate::file_utils::lemma_absent_path;
use crate::path::{ends_with, locate_key, path_ends_with, HasPath};
use crate::text::{
    append_all, chars_of, contains, contains_chars, decimal, digit, digit_char, lowers_to,
    matches_lowercase, pad_left, pad_right, push_decimal, push_padded_left, push_padded_right,
    push_replaced, replace_all, string_from, trim, trim_chars,
};
use vstd::utf8::{decode_utf8, encode_utf8_decode_utf8, is_char_boundary};

verus! {

/// Number of bytes of the UTF-8 encoding of `s`.
pub open spec fn byte_len(s: Seq<char>) -> nat {
    encode_utf8(s).len()
}

/// The number of bytes of `s` (`str::len`).
pub fn byte_length(s: &str) -> (n: usize)
    ensures
        n == byte_len(s@),
{
    s.as_bytes().len()
}

/// A file held in the context.
pub struct FileEntry {
    /// The file's path, as displayed.
    pub path: String,
    /// The file's text.
    pub content: String,
    /// The length of `content` in bytes.
    pub size: usize,
}

/// A file as mathematical values.
pub struct EntryView {
    pub path: Seq<char>,
    pub content: Seq<char>,
}

impl HasPath for FileEntry {
    open spec fn path_chars(&self) -> Seq<char> {
        self.path@
    }

    fn path_text(&self) -> (s: &str) {
        self.path.as_str()
    }
}

impl View for FileEntry {
    type V = EntryView;

    open spec fn view(&self) -> EntryView {
        EntryView { path: self.path@, content: self.content@ }
    }
}

/// Entries are in strictly increasing path order; in particular no two
/// of them are the same path.
pub open spec fn sorted_paths(s: Seq<EntryView>) -> bool {
    forall|i: int, j: int| 0 <= i < j < s.len() ==> path_lt(#[trigger] s[i].path, #[trigger] s[j].path)
}

/// Some entry of `s` is the path `p`.
pub open spec fn holds_path(s: Seq<EntryView>, p: Seq<char>) -> bool {
    exists|i: int| 0 <= i < s.len() && same_path(#[trigger] s[i].path, p)
}

/// `after` holds the file `e` and, besides it, the files of `before`
/// that are not its path.
pub open spec fn adds(before: Seq<EntryView>, after: Seq<EntryView>, e: EntryView) -> bool {
    forall|x: EntryView|
        #![trigger after.contains(x)]
        after.contains(x) <==> (x == e || (before.contains(x) && !same_path(x.path, e.path)))
}

/// `after` holds the files of `before` that are not the path `p`.
pub open spec fn drops(before: Seq<EntryView>, after: Seq<EntryView>, p: Seq<char>) -> bool {
    forall|x: EntryView|
        #![trigger after.contains(x)]
        after.contains(x) <==> (before.contains(x) && !same_path(x.path, p))
}

/// The files collected in a session, with the session's settings.
pub struct Context {
    files: Vec<FileEntry>,
    /// Clear without asking for confirmation.
    pub force: bool,
    config: Config,
}

impl Context {
    /// The files, in path order.
    pub closed spec fn entries(&self) -> Seq<EntryView> {
        self.files@.map_values(|e: FileEntry| e@)
    }

    /// Whether clearing skips the confirmation.
    pub closed spec fn forced(&self) -> bool {
        self.force
    }

    /// The settings.
    pub closed spec fn settings(&self) -> Config {
        self.config
    }

    /// The context is well formed: its files are in strictly increasing
    /// path order and each records the byte length of its text.
    pub closed spec fn wf(&self) -> bool {
        &&& sorted_paths(self.entries())
        &&& forall|i: int|
            0 <= i < self.files@.len() ==> (#[trigger] self.files@[i]).size == byte_len(
                self.files@[i].content@,
            )
    }

    /// A well-formed context holds its files in strictly increasing path
    /// order.
    pub proof fn lemma_in_path_order(&self)
        requires
            self.wf(),
        ensures
            sorted_paths(self.entries()),
    {
    }

    /// The recorded byte length of the `i`-th file.
    pub closed spec fn size_at(&self, i: int) -> nat {
        self.files@[i].size as nat
    }

    /// An empty context with the given settings.
    pub fn new(config: Config, force: bool) -> (ctx: Context)
        ensures
            ctx.wf(),
            sorted_paths(ctx.entries()),
            ctx.entries() == Seq::<EntryView>::empty(),
            ctx.forced() == force,
            ctx.settings() == config,
    {
        let ctx = Context { files: Vec::new(), force, config };
        assert(ctx.entries() =~= Seq::<EntryView>::empty());
        ctx
    }

    /// The settings of this context.
    pub fn config(&self) -> (c: &Config)
        ensures
            *c == self.settings(),
    {
        &self.config
    }

    /// The number of files.
    pub fn len(&self) -> (n: usize)
        ensures
            n == self.entries().len(),
    {
        self.files.len()
    }

    /// Whether the context holds no file.
    pub fn is_empty(&self) -> (b: bool)
        ensures
            b == (self.entries().len() == 0),
    {
        self.files.len() == 0
    }

    /// The files, in path order.
    pub fn files(&self) -> (v: &Vec<FileEntry>)
        requires
            self.wf(),
        ensures
            v@.map_values(|e: FileEntry| e@) == self.entries(),
            forall|i: int|
                0 <= i < v@.len() ==> (#[trigger] v@[i]).size == byte_len(v@[i].content@),
    {
        &self.files
    }

    /// Where a path with key `key` stands among the files: every file
    /// before the returned position orders first; the flag tells whether
    /// the file at that position is the same path.
    fn locate(&self, key: &Vec<u32>) -> (r: (usize, bool))
        requires
            self.wf(),
        ensures
            r.0 <= self.entries().len(),
            forall|j: int| 0 <= j < r.0 ==> lex_lt(path_key(#[trigger] self.entries()[j].path), key@),
            r.1 ==> r.0 < self.entries().len() && path_key(self.entries()[r.0 as int].path) == key@,
            !r.1 ==> r.0 == self.entries().len() || lex_lt(key@, path_key(self.entries()[r.0 as int].path)),
    {
        let r = locate_key(&self.files, key);
        assert(forall|j: int|
            0 <= j < self.files@.len() ==> (#[trigger] self.files@[j]).path_chars()
                == self.entries()[j].path);
        r
    }

    /// Whether the context holds the path `path`.
    pub fn contains_path(&self, path: &str) -> (b: bool)
        requires
            self.wf(),
        ensures
            b == holds_path(self.entries(), path@),
    {
        let key = key_of(&chars_of(path));
        let (i, found) = self.locate(&key);
        proof {
            let s = self.entries();
            if found {
                lemma_key_eq_same_path(s[i as int].path, path@);
            } else {
                assert forall|j: int| 0 <= j < s.len() implies !same_path(
                    #[trigger] s[j].path,
                    path@,
                ) by {
                    lemma_absent(s, i as int, path@, j);
                }
            }
        }
        found
    }

    /// Adds the file `path` with text `content`, replacing the file of the
    /// same path if there is one. Returns whether a file was replaced.
    pub fn add_file(&mut self, path: String, content: String) -> (replaced: bool)
        requires
            old(self).wf(),
        ensures
            final(self).wf(),
            sorted_paths(final(self).entries()),
            final(self).forced() == old(self).forced(),
            final(self).settings() == old(self).settings(),
            replaced == holds_path(old(self).entries(), path@),
            adds(old(self).entries(), final(self).entries(), EntryView { path: path@, content: content@ }),
    {
        let key = key_of(&chars_of(path.as_str()));
        let (i, found) = self.locate(&key);
        let ghost s = self.entries();
        let ghost e = EntryView { path: path@, content: content@ };
        let size = byte_length(content.as_str());
        let entry = FileEntry { path, content, size };
        assert(entry@ == e);
        if found {
            self.files.set(i, entry);
            proof {
                let t = self.entries();
                assert(t =~= s.update(i as int, e));
                lemma_key_eq_same_path(s[i as int].path, e.path);
                assert forall|j: int| 0 <= j < s.len() && j != i implies !same_path(
                    #[trigger] s[j].path,
                    e.path,
                ) && path_key(s[j].path) != path_key(e.path) by {
                    lemma_present(s, i as int, e.path, j);
                }
                assert(sorted_paths(t)) by {
                    assert forall|a: int, b: int| 0 <= a < b < t.len() implies path_lt(
                        #[trigger] t[a].path,
                        #[trigger] t[b].path,
                    ) by {
                        assert(path_lt(s[a].path, s[b].path));
                    }
                }
                assert forall|x: EntryView| #![trigger t.contains(x)] t.contains(x) <==> (x == e
                    || (s.contains(x) && !same_path(x.path, e.path))) by {
                    if t.contains(x) && x != e {
                        let j = choose|j: int| 0 <= j < t.len() && t[j] == x;
                        assert(j != i);
                        assert(s[j] == x);
                    }
                    if s.contains(x) && !same_path(x.path, e.path) {
                        let j = choose|j: int| 0 <= j < s.len() && s[j] == x;
                        assert(j != i);
                        assert(t[j] == x);
                    }
                    if x == e {
                        assert(t[i as int] == x);
                    }
                }
                assert(holds_path(s, path@));
            }
        } else {
            self.files.insert(i, entry);
            proof {
                let t = self.entries();
                assert(t =~= s.insert(i as int, e));
                assert forall|j: int| 0 <= j < s.len() implies !same_path(
                    #[trigger] s[j].path,
                    e.path,
                ) by {
                    lemma_absent(s, i as int, e.path, j);
                }
                assert(sorted_paths(t)) by {
                    assert forall|a: int, b: int| 0 <= a < b < t.len() implies path_lt(
                        #[trigger] t[a].path,
                        #[trigger] t[b].path,
                    ) by {
                        if b < i {
                            assert(path_lt(s[a].path, s[b].path));
                        } else if b == i {
                            lemma_absent(s, i as int, e.path, a);
                        } else if a == i {
                            lemma_absent(s, i as int, e.path, b - 1);
                        } else if a < i {
                            assert(path_lt(s[a].path, s[b - 1].path));
                        } else {
                            assert(path_lt(s[a - 1].path, s[b - 1].path));
                        }
                    }
                }
                assert forall|x: EntryView| #![trigger t.contains(x)] t.contains(x) <==> (x == e
                    || (s.contains(x) && !same_path(x.path, e.path))) by {
                    if t.contains(x) && x != e {
                        let j = choose|j: int| 0 <= j < t.len() && t[j] == x;
                        if j < i {
                            assert(s[j] == x);
                        } else {
                            assert(s[j - 1] == x);
                        }
                    }
                    if s.contains(x) {
                        let j = choose|j: int| 0 <= j < s.len() && s[j] == x;
                        if j < i {
                            assert(t[j] == x);
                        } else {
                            assert(t[j + 1] == x);
                        }
                    }
                    if x == e {
                        assert(t[i as int] == x);
                    }
                }
                assert(!holds_path(s, path@));
            }
        }
        found
    }

    /// The largest file size allowed, when `len` bytes is more than it.
    pub fn exceeds_limit(&self, len: u64) -> (over: Option<u64>)
        ensures
            over == (match self.settings().max_file_size {
                Some(max) => if len > max {
                    Some(max)
                } else {
                    None
                },
                None => None,
            }),
    {
        match self.config.max_file_size {
            Some(max) => if len > max {
                Some(max)
            } else {
                None
            },
            None => None,
        }
    }

    /// Removes files by `pat`. When `canonical`, the pattern resolved as
    /// a path on disk, is a file of the context, that file alone is
    /// removed; otherwise every file whose path ends with the components
    /// of `pat` or contains `pat` as text is removed. Returns the paths
    /// removed, in path order.
    pub fn remove_files(&mut self, pat: &str, canonical: Option<String>) -> (removed: Vec<String>)
        requires
            old(self).wf(),
        ensures
            final(self).wf(),
            sorted_paths(final(self).entries()),
            final(self).forced() == old(self).forced(),
            final(self).settings() == old(self).settings(),
            exact_removal(old(self).entries(), canonical) ==> {
                &&& strings_view(removed@) == seq![canonical->0@]
                &&& drops(old(self).entries(), final(self).entries(), canonical->0@)
            },
            !exact_removal(old(self).entries(), canonical) ==> {
                &&& strings_view(removed@) == hit_paths(old(self).entries(), pat@)
                &&& final(self).entries() == kept_entries(old(self).entries(), pat@)
            },
    {
        let ghost s = self.entries();
        let mut removed: Vec<String> = Vec::new();
        match canonical {
            Some(c) => {
                let key = key_of(&chars_of(c.as_str()));
                let (i, found) = self.locate(&key);
                if found {
                    self.files.remove(i);
                    proof {
                        let t = self.entries();
                        assert(t =~= s.remove(i as int));
                        lemma_key_eq_same_path(s[i as int].path, c@);
                        assert forall|j: int| 0 <= j < s.len() && j != i implies !same_path(
                            #[trigger] s[j].path,
                            c@,
                        ) by {
                            lemma_present(s, i as int, c@, j);
                        }
                        assert(sorted_paths(t)) by {
                            assert forall|a: int, b: int| 0 <= a < b < t.len() implies path_lt(
                                #[trigger] t[a].path,
                                #[trigger] t[b].path,
                            ) by {
                                if b < i {
                                    assert(path_lt(s[a].path, s[b].path));
                                } else if a < i {
                                    assert(path_lt(s[a].path, s[b + 1].path));
                                } else {
                                    assert(path_lt(s[a + 1].path, s[b + 1].path));
                                }
                            }
                        }
                        assert forall|x: EntryView| #![trigger t.contains(x)] t.contains(x) <==> (
                        s.contains(x) && !same_path(x.path, c@)) by {
                            if t.contains(x) {
                                let j = choose|j: int| 0 <= j < t.len() && t[j] == x;
                                if j < i {
                                    assert(s[j] == x);
                                } else {
                                    assert(s[j + 1] == x);
                                }
                            }
                            if s.contains(x) && !same_path(x.path, c@) {
                                let j = choose|j: int| 0 <= j < s.len() && s[j] == x;
                                assert(j != i);
                                if j < i {
                                    assert(t[j] == x);
                                } else {
                                    assert(t[j - 1] == x);
                                }
                            }
                        }
                        assert(self.wf()) by {
                            assert forall|j: int| 0 <= j < self.files@.len() implies (
                            #[trigger] self.files@[j]).size == byte_len(self.files@[j].content@) by {
                                if j < i {
                                    assert(self.files@[j] == old(self).files@[j]);
                                } else {
                                    assert(self.files@[j] == old(self).files@[j + 1]);
                                }
                            }
                        }
                    }
                    removed.push(c);
                    assert(strings_view(removed@) =~= seq![canonical->0@]);
                    return removed;
                }
                proof {
                    assert forall|j: int| 0 <= j < s.len() implies !same_path(
                        #[trigger] s[j].path,
                        c@,
                    ) by {
                        lemma_absent(s, i as int, c@, j);
                    }
                }
            },
            None => {},
        }
        let patc = chars_of(pat);
        let mut kept: Vec<FileEntry> = Vec::new();
        let n = self.files.len();
        let mut i: usize = 0;
        assert(s.take(0) =~= Seq::<EntryView>::empty());
        while i < n
            invariant
                i <= n == self.files@.len() == s.len(),
                s == self.entries(),
                patc@ == pat@,
                self.wf(),
                kept@.map_values(|e: FileEntry| e@) == kept_entries(s.take(i as int), pat@),
                strings_view(removed@) == hit_paths(s.take(i as int), pat@),
                forall|k: int|
                    0 <= k < kept@.len() ==> (#[trigger] kept@[k]).size == byte_len(
                        kept@[k].content@,
                    ),
            decreases n - i,
        {
            let e = &self.files[i];
            assert(e@ == s[i as int]);
            assert(s.take(i + 1).drop_last() =~= s.take(i as int));
            assert(s.take(i + 1).last() == s[i as int]);
            let pc = chars_of(e.path.as_str());
            if ends_with(&pc, &patc) || contains_chars(&pc, &patc) {
                let ghost before = removed@;
                removed.push(e.path.clone());
                assert(strings_view(removed@) =~= strings_view(before).push(e.path@));
            } else {
                let ghost before = kept@;
                let d = FileEntry { path: e.path.clone(), content: e.content.clone(), size: e.size };
                kept.push(d);
                assert(kept@.map_values(|e: FileEntry| e@) =~= before.map_values(
                    |e: FileEntry| e@,
                ).push(s[i as int]));
            }
            i += 1;
        }
        assert(s.take(n as int) =~= s);
        proof {
            lemma_kept_sorted(s, pat@);
        }
        self.files = kept;
        removed
    }

    /// Empties the context when forced or when `answer` confirms it.
    /// Returns whether it was emptied.
    pub fn clear(&mut self, answer: Option<&str>) -> (cleared: bool)
        requires
            old(self).wf(),
        ensures
            final(self).wf(),
            sorted_paths(final(self).entries()),
            final(self).forced() == old(self).forced(),
            final(self).settings() == old(self).settings(),
            cleared == (old(self).forced() || (answer matches Some(a) && confirms(a@))),
            cleared ==> final(self).entries() == Seq::<EntryView>::empty(),
            !cleared ==> final(self).entries() == old(self).entries(),
    {
        let ok = if self.force {
            true
        } else {
            match answer {
                Some(a) => {
                    let t = trim_chars(&chars_of(a));
                    matches_lowercase(&t, "y") || matches_lowercase(&t, "yes")
                },
                None => false,
            }
        };
        if ok {
            self.files.clear();
            assert(self.entries() =~= Seq::<EntryView>::empty());
        }
        ok
    }

    /// The text of all files, in path order, each rendered with the
    /// template.
    pub fn build_output(&self) -> (out: String)
        requires
            self.wf(),
        ensures
            sorted_paths(self.entries()),
            out@ == render_all(template_of(self.settings()), self.entries()),
    {
        let template = match &self.config.template {
            Some(t) => chars_of(t.as_str()),
            None => chars_of(DEFAULT_TEMPLATE),
        };
        let path_mark = chars_of("{{path}}");
        let content_mark = chars_of("{{content}}");
        proof {
            reveal_strlit("{{path}}");
            reveal_strlit("{{content}}");
        }
        let ghost t = template_of(self.settings());
        let ghost s = self.entries();
        let mut out: Vec<char> = Vec::new();
        let mut i: usize = 0;
        assert(s.take(0) =~= Seq::<EntryView>::empty());
        while i < self.files.len()
            invariant
                i <= self.files@.len() == s.len(),
                s == self.entries(),
                template@ == t,
                path_mark@ == "{{path}}"@,
                content_mark@ == "{{content}}"@,
                path_mark@.len() > 0,
                content_mark@.len() > 0,
                out@ == render_all(t, s.take(i as int)),
            decreases self.files.len() - i,
        {
            let e = &self.files[i];
            assert(e@ == s[i as int]);
            let p = chars_of(e.path.as_str());
            let c = chars_of(e.content.as_str());
            let mut first: Vec<char> = Vec::new();
            push_replaced(&mut first, &template, &path_mark, &p);
            assert(first@ =~= replace_all(t, "{{path}}"@, p@));
            push_replaced(&mut out, &first, &content_mark, &c);
            assert(s.take(i + 1).drop_last() =~= s.take(i as int));
            i += 1;
        }
        assert(s.take(s.len() as int) =~= s);
        string_from(out.as_slice())
    }

    /// The next step of copying the context's text to the clipboard, or
    /// nothing when that text is empty.
    pub fn copy_to_clipboard(&self, platform: Platform, probed: &Vec<bool>) -> (step: Option<
        ClipboardStep,
    >)
        requires
            self.wf(),
        ensures
            step is None <==> render_all(template_of(self.settings()), self.entries()).len() == 0,
            step matches Some(st) ==> is_step(
                st,
                render_all(template_of(self.settings()), self.entries()),
                self.settings(),
                platform,
                probed@,
            ),
    {
        let output = self.build_output();
        if output.as_str().is_empty() {
            None
        } else {
            Some(copy_to_clipboard(output.as_str(), &self.config, platform, probed))
        }
    }

    /// Whether every path can be shown in the file list: a path longer
    /// than 60 bytes is cut 57 bytes from its end, which must fall on a
    /// character boundary.
    pub fn can_list(&self) -> (b: bool)
        requires
            self.wf(),
        ensures
            b == forall|i: int| 0 <= i < self.entries().len() ==> listable(#[trigger] self.entries()[i].path),
    {
        let mut i: usize = 0;
        while i < self.files.len()
            invariant
                i <= self.files@.len() == self.entries().len(),
                self.entries() == self.files@.map_values(|e: FileEntry| e@),
                forall|j: int| 0 <= j < i ==> listable(#[trigger] self.entries()[j].path),
            decreases self.files.len() - i,
        {
            let ps = self.files[i].path.as_str();
            assert(ps@ == self.entries()[i as int].path);
            let n = byte_length(ps);
            if n > 60 && !ps.is_char_boundary(n - 57) {
                return false;
            }
            i += 1;
        }
        true
    }

    /// The file list: a header and one row per file with its number, its
    /// path (cut to its last 57 bytes after `...` when longer than 60
    /// bytes) and its size; or a note that the context is empty.
    pub fn list(&self) -> (text: String)
        requires
            self.wf(),
            forall|i: int| 0 <= i < self.entries().len() ==> listable(#[trigger] self.entries()[i].path),
        ensures
            sorted_paths(self.entries()),
            text@ == list_text(self.entries()),
    {
        let ghost s = self.entries();
        if self.files.len() == 0 {
            return "Context is empty.\n".to_string();
        }
        let mut out: Vec<char> = Vec::new();
        push_padded_right(&mut out, &chars_of("#"), 5);
        out.push(' ');
        push_padded_right(&mut out, &chars_of("File"), 60);
        out.push(' ');
        push_padded_left(&mut out, &chars_of("Size"), 10);
        out.push('\n');
        proof {
            reveal_strlit("#");
        }
        assert(out@ =~= list_header());
        let ghost head = out@;
        let mut i: usize = 0;
        assert(s.take(0) =~= Seq::<EntryView>::empty());
        while i < self.files.len()
            invariant
                i <= self.files@.len() == s.len(),
                s == self.entries(),
                self.wf(),
                forall|j: int| 0 <= j < s.len() ==> listable(#[trigger] s[j].path),
                out@ == head + list_rows(s.take(i as int)),
            decreases self.files.len() - i,
        {
            let e = &self.files[i];
            assert(e@ == s[i as int]);
            let ghost before = out@;
            let mut num: Vec<char> = Vec::new();
            push_decimal(&mut num, (i + 1) as u64);
            push_padded_right(&mut out, &num, 5);
            out.push(' ');
            assert(listable(s[i as int].path));
            let shown = shown_path_chars(e.path.as_str());
            push_padded_right(&mut out, &shown, 60);
            out.push(' ');
            let mut size: Vec<char> = Vec::new();
            push_size_text(&mut size, e.size);
            push_padded_left(&mut out, &size, 10);
            out.push('\n');
            assert(s.take(i + 1).drop_last() =~= s.take(i as int));
            assert(out@ =~= before + list_row((i + 1) as nat, s[i as int]));
            i += 1;
        }
        assert(s.take(s.len() as int) =~= s);
        string_from(out.as_slice())
    }

    /// The statistics line: number of files and their total size. The
    /// total wraps around at `usize::MAX + 1`, as a release build's sum.
    pub fn stats(&self) -> (text: String)
        requires
            self.wf(),
        ensures
            text@ == stats_text(self.entries()),
    {
        let ghost s = self.entries();
        let mut total: usize = 0;
        let mut i: usize = 0;
        assert(s.take(0) =~= Seq::<EntryView>::empty());
        while i < self.files.len()
            invariant
                i <= self.files@.len() == s.len(),
                s == self.entries(),
                self.wf(),
                total == wrapped_total(s.take(i as int)),
            decreases self.files.len() - i,
        {
            assert(self.files@[i as int]@ == s[i as int]);
            assert(s.take(i + 1).drop_last() =~= s.take(i as int));
            total = total.wrapping_add(self.files[i].size);
            i += 1;
        }
        assert(s.take(s.len() as int) =~= s);
        let mut out = chars_of("Files: ");
        push_decimal(&mut out, self.files.len() as u64);
        append_all(&mut out, &chars_of(", Total size: "));
        push_size_text(&mut out, total);
        out.push('\n');
        assert(out@ =~= stats_text(s));
        string_from(out.as_slice())
    }

}

/// The file at a located position `i` is the path `p`; no other file is.
proof fn lemma_present(s: Seq<EntryView>, i: int, p: Seq<char>, j: int)
    requires
        sorted_paths(s),
        0 <= i < s.len(),
        path_key(s[i].path) == path_key(p),
        0 <= j < s.len(),
        j != i,
    ensures
        !same_path(s[j].path, p),
        path_key(s[j].path) != path_key(p),
{
    lemma_key_eq_same_path(s[j].path, p);
    if j < i {
        assert(path_lt(s[j].path, s[i].path));
    } else {
        assert(path_lt(s[i].path, s[j].path));
    }
    lemma_lex_irreflexive(path_key(p));
}

/// When `p` is not found at its located position `i`, no file is the
/// path `p`; those before `i` order before it and the others after it.
proof fn lemma_absent(s: Seq<EntryView>, i: int, p: Seq<char>, j: int)
    requires
        sorted_paths(s),
        0 <= i <= s.len(),
        forall|k: int| 0 <= k < i ==> lex_lt(path_key(#[trigger] s[k].path), path_key(p)),
        i < s.len() ==> lex_lt(path_key(p), path_key(s[i].path)),
        0 <= j < s.len(),
    ensures
        !same_path(s[j].path, p),
        j < i ==> path_lt(s[j].path, p),
        j >= i ==> path_lt(p, s[j].path),
{
    let ps = s.map_values(|e: EntryView| e.path);
    assert forall|a: int, b: int| 0 <= a < b < ps.len() implies path_lt(
        #[trigger] ps[a],
        #[trigger] ps[b],
    ) by {
        assert(path_lt(s[a].path, s[b].path));
    }
    assert forall|k: int| 0 <= k < i implies lex_lt(path_key(#[trigger] ps[k]), path_key(p)) by {
        assert(lex_lt(path_key(s[k].path), path_key(p)));
    }
    lemma_absent_path(ps, i, p, j);
}


/// The path shown in the file list for `p`.
fn shown_path_chars(p: &str) -> (v: Vec<char>)
    requires
        listable(p@),
    ensures
        v@ == shown_path(p@),
{
    let n = byte_length(p);
    if n > 60 {
        let (_, tail) = p.split_at(n - 57);
        proof {
            encode_utf8_decode_utf8(tail@);
        }
        let mut v = chars_of("...");
        append_all(&mut v, &chars_of(tail));
        v
    } else {
        chars_of(p)
    }
}

/// Whether the file list can show `p`: when it is longer than 60 bytes,
/// the place 57 bytes before its end is a character boundary.
pub open spec fn listable(p: Seq<char>) -> bool {
    byte_len(p) > 60 ==> is_char_boundary(encode_utf8(p), byte_len(p) - 57)
}

/// `p` as the file list shows it.
pub open spec fn shown_path(p: Seq<char>) -> Seq<char> {
    if byte_len(p) > 60 {
        "..."@ + decode_utf8(encode_utf8(p).subrange(byte_len(p) - 57, byte_len(p) as int))
    } else {
        p
    }
}

/// The header line of the file list.
pub open spec fn list_header() -> Seq<char> {
    pad_right(seq!['#'], 5) + seq![' '] + pad_right("File"@, 60) + seq![' '] + pad_left(
        "Size"@,
        10,
    ) + seq!['\n']
}

/// The file list's row for the `n`-th file `e`.
pub open spec fn list_row(n: nat, e: EntryView) -> Seq<char> {
    pad_right(decimal(n), 5) + seq![' '] + pad_right(shown_path(e.path), 60) + seq![' ']
        + pad_left(size_text(byte_len(e.content)), 10) + seq!['\n']
}

/// The rows of the file list for `s`, numbered from 1.
pub open spec fn list_rows(s: Seq<EntryView>) -> Seq<char>
    decreases s.len(),
{
    if s.len() == 0 {
        seq![]
    } else {
        list_rows(s.drop_last()) + list_row(s.len(), s.last())
    }
}

/// The file list of the files `s`.
pub open spec fn list_text(s: Seq<EntryView>) -> Seq<char> {
    if s.len() == 0 {
        "Context is empty.\n"@
    } else {
        list_header() + list_rows(s)
    }
}

/// The total size of `s`, wrapping around at `usize::MAX + 1`.
pub open spec fn wrapped_total(s: Seq<EntryView>) -> usize
    decreases s.len(),
{
    if s.len() == 0 {
        0
    } else {
        vstd::wrapping::usize_specs::wrapping_add(
            wrapped_total(s.drop_last()),
            byte_len(s.last().content) as usize,
        )
    }
}

/// The statistics line of the files `s`.
pub open spec fn stats_text(s: Seq<EntryView>) -> Seq<char> {
    "Files: "@ + decimal(s.len()) + ", Total size: "@ + size_text(wrapped_total(s) as nat)
        + seq!['\n']
}

/// The template in force: the configured one, else the default.
pub open spec fn template_of(c: Config) -> Seq<char> {
    match c.template {
        Some(t) => t@,
        None => DEFAULT_TEMPLATE@,
    }
}

/// One file rendered with template `t`: `{{path}}` is replaced by the
/// path, then `{{content}}` by the text.
pub open spec fn render(t: Seq<char>, e: EntryView) -> Seq<char> {
    replace_all(replace_all(t, "{{path}}"@, e.path), "{{content}}"@, e.content)
}

/// The files `s` rendered one after the other.
pub open spec fn render_all(t: Seq<char>, s: Seq<EntryView>) -> Seq<char>
    decreases s.len(),
{
    if s.len() == 0 {
        seq![]
    } else {
        render_all(t, s.drop_last()) + render(t, s.last())
    }
}

/// `answer` confirms a clear: trimmed, it is `y` or `yes` in any case.
pub open spec fn confirms(answer: Seq<char>) -> bool {
    lowers_to(trim(answer), "y"@) || lowers_to(trim(answer), "yes"@)
}

/// The characters of each string of `v`.
pub open spec fn strings_view(v: Seq<String>) -> Seq<Seq<char>> {
    v.map_values(|s: String| s@)
}

/// Removal by `canonical` applies: it is given and names a file held.
pub open spec fn exact_removal(s: Seq<EntryView>, canonical: Option<String>) -> bool {
    canonical matches Some(c) && holds_path(s, c@)
}

/// `pat` picks the path `p`: `p` ends with the components of `pat` or
/// holds `pat` as text.
pub open spec fn pattern_hits(p: Seq<char>, pat: Seq<char>) -> bool {
    path_ends_with(p, pat) || contains(p, pat)
}

/// The files of `s` that `pat` does not pick, in order.
pub open spec fn kept_entries(s: Seq<EntryView>, pat: Seq<char>) -> Seq<EntryView>
    decreases s.len(),
{
    if s.len() == 0 {
        seq![]
    } else {
        let r = kept_entries(s.drop_last(), pat);
        if pattern_hits(s.last().path, pat) {
            r
        } else {
            r.push(s.last())
        }
    }
}

/// The paths of the files of `s` that `pat` picks, in order.
pub open spec fn hit_paths(s: Seq<EntryView>, pat: Seq<char>) -> Seq<Seq<char>>
    decreases s.len(),
{
    if s.len() == 0 {
        seq![]
    } else {
        let r = hit_paths(s.drop_last(), pat);
        if pattern_hits(s.last().path, pat) {
            r.push(s.last().path)
        } else {
            r
        }
    }
}

/// The files kept by a pattern are those of `s` it does not pick, still
/// in path order.
pub proof fn lemma_kept_sorted(s: Seq<EntryView>, pat: Seq<char>)
    requires
        sorted_paths(s),
    ensures
        sorted_paths(kept_entries(s, pat)),
        forall|x: EntryView| #[trigger]
            kept_entries(s, pat).contains(x) <==> (s.contains(x) && !pattern_hits(x.path, pat)),
    decreases s.len(),
{
    if s.len() > 0 {
        let s0 = s.drop_last();
        assert(sorted_paths(s0)) by {
            assert forall|a: int, b: int| 0 <= a < b < s0.len() implies path_lt(
                #[trigger] s0[a].path,
                #[trigger] s0[b].path,
            ) by {
                assert(path_lt(s[a].path, s[b].path));
            }
        }
        lemma_kept_sorted(s0, pat);
        let r = kept_entries(s0, pat);
        assert forall|x: EntryView| #[trigger] s.contains(x) <==> (s0.contains(x) || x == s.last()) by {
            if s.contains(x) {
                let j = choose|j: int| 0 <= j < s.len() && s[j] == x;
                if j < s.len() - 1 {
                    assert(s0[j] == x);
                }
            }
            if s0.contains(x) {
                let j = choose|j: int| 0 <= j < s0.len() && s0[j] == x;
                assert(s[j] == x);
            }
            if x == s.last() {
                assert(s[s.len() - 1] == x);
            }
        }
        if !pattern_hits(s.last().path, pat) {
            let t = r.push(s.last());
            assert(sorted_paths(t)) by {
                assert forall|a: int, b: int| 0 <= a < b < t.len() implies path_lt(
                    #[trigger] t[a].path,
                    #[trigger] t[b].path,
                ) by {
                    if b == t.len() - 1 {
                        assert(r.contains(t[a]));
                        let j = choose|j: int| 0 <= j < s0.len() && s0[j] == t[a];
                        assert(path_lt(s[j].path, s[s.len() - 1].path));
                    } else {
                        assert(path_lt(r[a].path, r[b].path));
                    }
                }
            }
            assert forall|x: EntryView| #[trigger] t.contains(x) <==> (r.contains(x) || x
                == s.last()) by {
                if t.contains(x) {
                    let j = choose|j: int| 0 <= j < t.len() && t[j] == x;
                    if j < r.len() {
                        assert(r[j] == x);
                    }
                }
                if r.contains(x) {
                    let j = choose|j: int| 0 <= j < r.len() && r[j] == x;
                    assert(t[j] == x);
                }
                if x == s.last() {
                    assert(t[t.len() - 1] == x);
                }
            }
        }
    } else {
        assert(kept_entries(s, pat) =~= Seq::<EntryView>::empty());
    }
}

/// 2^53: below it every integer is exactly an `f64`.
pub open spec fn f64_exact_limit() -> nat {
    9007199254740992
}

/// The power of two `p`, reached from `p` by doubling, at which `n / p`
/// first falls below 2^53: the spacing of the `f64` values around `n`.
pub open spec fn f64_spacing(n: nat, p: nat) -> nat
    decreases n + 1 - p,
{
    if p == 0 || n / p < f64_exact_limit() {
        p
    } else {
        proof {
            lemma_double_below(n, p);
        }
        f64_spacing(n, 2 * p)
    }
}

pub proof fn lemma_double_below(n: nat, p: nat)
    requires
        p > 0,
        n / p >= f64_exact_limit(),
    ensures
        2 * p <= n,
{
    assert(p * (n / p) <= n) by (nonlinear_arith)
        requires
            p > 0,
    ;
    assert(2 * p <= p * (n / p)) by (nonlinear_arith)
        requires
            p > 0,
            n / p >= 2,
    ;
}

/// `n as f64`: the `f64` nearest to `n`, ties to even significand.
pub open spec fn to_f64(n: nat) -> nat {
    let p = f64_spacing(n, 1);
    if p <= 1 {
        n
    } else {
        let q = n / p;
        let r = n % p;
        let h = p / 2;
        if r > h || (r == h && q % 2 == 1) {
            (q + 1) * p
        } else {
            q * p
        }
    }
}

/// `x / d` in tenths, rounded to nearest with ties to even: the digits
/// that `format!("{:.1}")` prints of the exact quotient.
pub open spec fn tenths(x: nat, d: nat) -> nat {
    let num = 10 * x;
    let q = num / d;
    let r = num % d;
    if 2 * r > d || (2 * r == d && q % 2 == 1) {
        q + 1
    } else {
        q
    }
}

/// A number of tenths written with one decimal place.
pub open spec fn fixed1(t: nat) -> Seq<char> {
    decimal(t / 10) + seq!['.', digit(t % 10)]
}

/// A byte count for people: bytes below 1 KiB, else KiB or MiB with one
/// decimal (the MiB figure of the count as an `f64`).
pub open spec fn size_text(bytes: nat) -> Seq<char> {
    if bytes >= 1048576 {
        fixed1(tenths(to_f64(bytes), 1048576)) + seq![' ', 'M', 'B']
    } else if bytes >= 1024 {
        fixed1(tenths(bytes, 1024)) + seq![' ', 'K', 'B']
    } else {
        decimal(bytes) + seq![' ', 'B']
    }
}

/// The spacing of `f64` values around `n`, computed.
fn spacing(n: u128) -> (p: u128)
    requires
        n < 0x1_0000_0000_0000_0000,
    ensures
        p == f64_spacing(n as nat, 1),
        1 <= p <= n || p == 1,
        (n as nat) / (p as nat) < f64_exact_limit(),
{
    let mut p: u128 = 1;
    while n / p >= 9007199254740992
        invariant
            p >= 1,
            p == 1 || p <= n,
            n < 0x1_0000_0000_0000_0000,
            f64_spacing(n as nat, p as nat) == f64_spacing(n as nat, 1),
        decreases n + 1 - p,
    {
        proof {
            lemma_double_below(n as nat, p as nat);
        }
        p = p * 2;
    }
    p
}

/// `n as f64`, as an exact integer.
fn f64_value(n: u128) -> (x: u128)
    requires
        n < 0x1_0000_0000_0000_0000,
    ensures
        x == to_f64(n as nat),
        x <= 2 * n,
{
    let p = spacing(n);
    if p <= 1 {
        return n;
    }
    let q = n / p;
    let r = n % p;
    let h = p / 2;
    assert(q * p <= n) by (nonlinear_arith)
        requires
            p > 0,
            q == n / p,
    ;
    if r > h || (r == h && q % 2 == 1) {
        assert((q + 1) * p <= 2 * n) by (nonlinear_arith)
            requires
                q * p <= n,
                p <= n,
        ;
        (q + 1) * p
    } else {
        q * p
    }
}

/// Appends `fixed1(t)`.
fn push_fixed1(out: &mut Vec<char>, t: u64)
    ensures
        final(out)@ == old(out)@ + fixed1(t as nat),
{
    push_decimal(out, t / 10);
    out.push('.');
    out.push(digit_char(t % 10));
    assert(out@ =~= old(out)@ + fixed1(t as nat));
}

/// `tenths(x, d)` computed.
fn tenths_of(x: u128, d: u128) -> (t: u64)
    requires
        x <= 0x2_0000_0000_0000_0000,
        1024 <= d <= 1048576,
    ensures
        t == tenths(x as nat, d as nat),
{
    let num = 10 * x;
    let q = num / d;
    let r = num % d;
    assert(q <= num / 1024) by (nonlinear_arith)
        requires
            d >= 1024,
            q == num / d,
    ;
    if 2 * r > d || (2 * r == d && q % 2 == 1) {
        (q + 1) as u64
    } else {
        q as u64
    }
}

/// Appends `size_text(bytes)` to `out`.
pub fn push_size_text(out: &mut Vec<char>, bytes: usize)
    ensures
        final(out)@ == old(out)@ + size_text(bytes as nat),
{
    if bytes >= 1048576 {
        let x = f64_value(bytes as u128);
        let t = tenths_of(x, 1048576);
        push_fixed1(out, t);
        out.push(' ');
        out.push('M');
        out.push('B');
        assert(out@ =~= old(out)@ + size_text(bytes as nat));
    } else if bytes >= 1024 {
        let t = tenths_of(bytes as u128, 1024);
        push_fixed1(out, t);
        out.push(' ');
        out.push('K');
        out.push('B');
        assert(out@ =~= old(out)@ + size_text(bytes as nat));
    } else {
        push_decimal(out, bytes as u64);
        out.push(' ');
        out.push('B');
        assert(out@ =~= old(out)@ + size_text(bytes as nat));
    }
}

/// A byte count for people, as in the file list and the statistics.
pub fn format_size(bytes: usize) -> (s: String)
    ensures
        s@ == size_text(bytes as nat),
{
    let mut out: Vec<char> = Vec::new();
    push_size_text(&mut out, bytes);
    assert(out@ =~= size_text(bytes as nat));
    string_from(out.as_slice())
}

} // verus!
