//! What each operation gives, stated in terms of its inputs rather than
//! of the functions that compute it: the default rendering of a file, the
//! files a pattern removes, the arguments of a command, the answers that
//! confirm a clear, and the command that receives the clipboard text.
use vstd::prelude::*;
use crate::clipboard::{first_installed, is_lookup, is_step, ClipboardStep, Lookup, Platform};
use crate::commands::{parse_spec, CommandView};
use crate::config::{Config, DEFAULT_TEMPLATE};
use crate::context::{
    size_text, tenths, to_f64, f64_spacing, fixed1,
    confirms, hit_paths, kept_entries, render, render_all, sorted_paths, template_of, Context,
    EntryView,
};
use crate::laws::{law_pattern_splits, law_trim_keeps_words};
use crate::path::path_ends_with;
use crate::text::{contains, decimal, digit, lower, lowers_to, occurs_at, replace_all, trim, words};

verus! {

/// No occurrence of `pat` starts in the first part `x` of `x + y`: then
/// replacing in `x + y` keeps `x` and replaces in `y`.
proof fn lemma_replace_skip(x: Seq<char>, y: Seq<char>, pat: Seq<char>, rep: Seq<char>)
    requires
        pat.len() > 0,
        forall|i: int| 0 <= i < x.len() ==> !occurs_at(x + y, pat, i),
    ensures
        replace_all(x + y, pat, rep) == x + replace_all(y, pat, rep),
    decreases x.len(),
{
    let s = x + y;
    if x.len() == 0 {
        assert(s =~= y);
        assert(x + replace_all(y, pat, rep) =~= replace_all(y, pat, rep));
    } else {
        assert(!occurs_at(s, pat, 0));
        if pat.len() <= s.len() && s.take(pat.len() as int) == pat {
            assert(s.subrange(0, pat.len() as int) =~= s.take(pat.len() as int));
        }
        let x1 = x.drop_first();
        assert(s.drop_first() =~= x1 + y);
        assert forall|i: int| 0 <= i < x1.len() implies !occurs_at(x1 + y, pat, i) by {
            assert(!occurs_at(s, pat, i + 1));
            if i + pat.len() <= (x1 + y).len() {
                assert((x1 + y).subrange(i, i + pat.len()) =~= s.subrange(i + 1, i + 1 + pat.len()));
            }
        }
        lemma_replace_skip(x1, y, pat, rep);
        assert(seq![s[0]] + (x1 + replace_all(y, pat, rep)) =~= x + replace_all(y, pat, rep));
    }
}

/// Replacing in a text that starts with `pat` puts `rep` first.
proof fn lemma_replace_here(y: Seq<char>, pat: Seq<char>, rep: Seq<char>)
    requires
        pat.len() > 0,
    ensures
        replace_all(pat + y, pat, rep) == rep + replace_all(y, pat, rep),
{
    let s = pat + y;
    assert(s.take(pat.len() as int) =~= pat);
    assert(s.skip(pat.len() as int) =~= y);
}

/// Replacing in a text where `pat` never occurs changes nothing.
proof fn lemma_replace_none(y: Seq<char>, pat: Seq<char>, rep: Seq<char>)
    requires
        pat.len() > 0,
        forall|i: int| 0 <= i < y.len() ==> !occurs_at(y, pat, i),
    ensures
        replace_all(y, pat, rep) == y,
{
    let e = Seq::<char>::empty();
    assert(y + e =~= y);
    lemma_replace_skip(y, e, pat, rep);
    assert(replace_all(e, pat, rep) =~= e);
}

/// A file rendered with the default template is its path between
/// `--- ` and ` ---`, a line break, its text exactly as it is, and two
/// line breaks; this holds whenever the path does not itself hold the
/// text `{{content}}`.
pub proof fn law_default_render(e: EntryView)
    requires
        !contains(e.path, "{{content}}"@),
    ensures
        render(DEFAULT_TEMPLATE@, e) == "--- "@ + e.path + " ---\n"@ + e.content + "\n\n"@,
{
    reveal_strlit("--- {{path}} ---\n{{content}}\n\n");
    reveal_strlit("--- ");
    reveal_strlit("{{path}}");
    reveal_strlit(" ---\n");
    reveal_strlit("{{content}}");
    reveal_strlit("\n\n");
    let a = "--- "@;
    let pp = "{{path}}"@;
    let b = " ---\n"@;
    let cc = "{{content}}"@;
    let d = "\n\n"@;
    let p = e.path;
    let c = e.content;
    let t = DEFAULT_TEMPLATE@;
    assert(t =~= a + (pp + (b + cc + d)));
    let r = b + cc + d;
    // The path mark occurs once, after `--- `.
    assert forall|i: int| 0 <= i < a.len() implies !occurs_at(a + (pp + r), pp, i) by {
        if occurs_at(a + (pp + r), pp, i) {
            assert((a + (pp + r)).subrange(i, i + pp.len())[0] == (a + (pp + r))[i]);
        }
    }
    lemma_replace_skip(a, pp + r, pp, p);
    lemma_replace_here(r, pp, p);
    assert forall|i: int| 0 <= i < r.len() implies !occurs_at(r, pp, i) by {
        if occurs_at(r, pp, i) {
            assert(r.subrange(i, i + pp.len())[0] == r[i]);
            assert(r.subrange(i, i + pp.len())[2] == r[i + 2]);
        }
    }
    lemma_replace_none(r, pp, p);
    let s1 = a + (p + r);
    assert(replace_all(t, pp, p) =~= s1);
    // Then the content mark occurs once, after the path's line.
    let x = a + p + b;
    assert(s1 =~= x + (cc + d));
    assert forall|i: int| 0 <= i < x.len() implies !occurs_at(x + (cc + d), cc, i) by {
        let s = x + (cc + d);
        if occurs_at(s, cc, i) {
            let w = s.subrange(i, i + cc.len());
            assert(w == cc);
            if i < a.len() {
                assert(w[0] == s[i]);
            } else if i < a.len() + p.len() {
                if i + cc.len() <= a.len() + p.len() {
                    let j = i - a.len();
                    assert(p.subrange(j, j + cc.len()) =~= w);
                    assert(occurs_at(p, cc, j));
                } else {
                    let k: int = (a.len() + p.len()) as int;
                    assert(s[k] == ' ');
                    assert(w[k - i] == s[k]);
                }
            } else {
                assert(w[0] == s[i]);
            }
        }
    }
    lemma_replace_skip(x, cc + d, cc, c);
    lemma_replace_here(d, cc, c);
    assert forall|i: int| 0 <= i < d.len() implies !occurs_at(d, cc, i) by {}
    lemma_replace_none(d, cc, c);
    assert(render(t, e) =~= a + p + b + c + d);
}

/// In a template without the path mark and with one content mark, at the
/// first place where it occurs, a file's text takes the place of the mark
/// exactly as it is.
pub proof fn law_content_verbatim(u: Seq<char>, v: Seq<char>, e: EntryView)
    requires
        forall|i: int| 0 <= i < (u + "{{content}}"@ + v).len() ==> !occurs_at(u + "{{content}}"@ + v, "{{path}}"@, i),
        forall|i: int| 0 <= i < u.len() ==> !occurs_at(u + ("{{content}}"@ + v), "{{content}}"@, i),
        !contains(v, "{{content}}"@),
    ensures
        render(u + "{{content}}"@ + v, e) == u + e.content + v,
{
    reveal_strlit("{{path}}");
    reveal_strlit("{{content}}");
    let cc = "{{content}}"@;
    let t = u + cc + v;
    lemma_replace_none(t, "{{path}}"@, e.path);
    assert(t =~= u + (cc + v));
    lemma_replace_skip(u, cc + v, cc, e.content);
    lemma_replace_here(v, cc, e.content);
    lemma_replace_none(v, cc, e.content);
    assert(render(t, e) =~= u + e.content + v);
}

/// The files `s` rendered one after the other with the default template,
/// each as `--- `, its path, ` ---`, a line break, its text and two line
/// breaks.
pub open spec fn default_blocks(s: Seq<EntryView>) -> Seq<char>
    decreases s.len(),
{
    if s.len() == 0 {
        seq![]
    } else {
        default_blocks(s.drop_last()) + ("--- "@ + s.last().path + " ---\n"@ + s.last().content
            + "\n\n"@)
    }
}

/// With the default template, the output of a context is each file in
/// path order, its text copied as it is; this holds whenever no path
/// holds the text `{{content}}`.
pub proof fn law_default_output(s: Seq<EntryView>)
    requires
        forall|i: int| 0 <= i < s.len() ==> !contains(#[trigger] s[i].path, "{{content}}"@),
    ensures
        render_all(DEFAULT_TEMPLATE@, s) == default_blocks(s),
    decreases s.len(),
{
    if s.len() > 0 {
        let s0 = s.drop_last();
        assert forall|i: int| 0 <= i < s0.len() implies !contains(#[trigger] s0[i].path, "{{content}}"@) by {
            assert(s0[i] == s[i]);
        }
        law_default_output(s0);
        assert(!contains(s[s.len() - 1].path, "{{content}}"@));
        law_default_render(s.last());
    }
}

/// A context rendered with the default template shows its files in path
/// order, each text copied as it is.
pub proof fn law_default_context_output(c: Context)
    requires
        c.wf(),
        template_of(c.settings()) == DEFAULT_TEMPLATE@,
        forall|i: int|
            0 <= i < c.entries().len() ==> !contains(#[trigger] c.entries()[i].path, "{{content}}"@),
    ensures
        sorted_paths(c.entries()),
        render_all(template_of(c.settings()), c.entries()) == default_blocks(c.entries()),
{
    c.lemma_in_path_order();
    law_default_output(c.entries());
}

/// Removing by a pattern takes away exactly the files whose path holds
/// the pattern as text or ends with its components, and reports exactly
/// their paths; every other file stays.
pub proof fn law_pattern_removal(s: Seq<EntryView>, pat: Seq<char>)
    requires
        sorted_paths(s),
    ensures
        forall|x: EntryView| #[trigger]
            kept_entries(s, pat).contains(x) <==> (s.contains(x) && !contains(x.path, pat)
                && !path_ends_with(x.path, pat)),
        forall|x: EntryView|
            s.contains(x) ==> (#[trigger] hit_paths(s, pat).contains(x.path) <==> (contains(
                x.path,
                pat,
            ) || path_ends_with(x.path, pat))),
        forall|x: EntryView|
            s.contains(x) && contains(x.path, pat) ==> #[trigger] hit_paths(s, pat).contains(x.path),
{
    law_pattern_splits(s, pat);
}

/// A line whose first word is `add` or `a`, in any case, adds every
/// other word of the line, in order; one whose first word is `remove` or
/// `rm` removes every other word.
pub proof fn law_command_arguments(line: Seq<char>)
    requires
        words(line).len() > 0,
    ensures
        lowers_to(words(line)[0], "add"@) || lowers_to(words(line)[0], "a"@) ==> parse_spec(line)
            == CommandView::Add(words(line).drop_first()),
        lowers_to(words(line)[0], "remove"@) || lowers_to(words(line)[0], "rm"@) ==> parse_spec(
            line,
        ) == CommandView::Remove(words(line).drop_first()),
{
    law_trim_keeps_words(line);
    reveal_strlit("add");
    reveal_strlit("a");
    reveal_strlit("remove");
    reveal_strlit("rm");
}

/// Each command is named by its first word, in any case: `clear`;
/// `list` or `ls`; `show`; `copy` or `cp`; `stats` or `stat`; `help` or
/// `h`; `exit`, `quit` or `q`. A line whose first word names no command,
/// or that has no word, is unknown and keeps its text without the white
/// space around it.
pub proof fn law_command_names(line: Seq<char>)
    ensures
        ({
            let w = words(line);
            let h = if w.len() > 0 {
                w[0]
            } else {
                seq![]
            };
            &&& lowers_to(h, "clear"@) ==> parse_spec(line) == CommandView::Clear
            &&& lowers_to(h, "list"@) || lowers_to(h, "ls"@) ==> parse_spec(line) == CommandView::List
            &&& lowers_to(h, "show"@) ==> parse_spec(line) == CommandView::Show
            &&& lowers_to(h, "copy"@) || lowers_to(h, "cp"@) ==> parse_spec(line) == CommandView::Copy
            &&& lowers_to(h, "stats"@) || lowers_to(h, "stat"@) ==> parse_spec(line)
                == CommandView::Stats
            &&& lowers_to(h, "help"@) || lowers_to(h, "h"@) ==> parse_spec(line) == CommandView::Help
            &&& lowers_to(h, "exit"@) || lowers_to(h, "quit"@) || lowers_to(h, "q"@) ==> parse_spec(
                line,
            ) == CommandView::Exit
            &&& !(lowers_to(h, "add"@) || lowers_to(h, "a"@) || lowers_to(h, "remove"@) || lowers_to(
                h,
                "rm"@,
            ) || lowers_to(h, "clear"@) || lowers_to(h, "list"@) || lowers_to(h, "ls"@) || lowers_to(
                h,
                "show"@,
            ) || lowers_to(h, "copy"@) || lowers_to(h, "cp"@) || lowers_to(h, "stats"@) || lowers_to(
                h,
                "stat"@,
            ) || lowers_to(h, "help"@) || lowers_to(h, "h"@) || lowers_to(h, "exit"@) || lowers_to(
                h,
                "quit"@,
            ) || lowers_to(h, "q"@)) ==> parse_spec(line) == CommandView::Unknown(trim(line))
        }),
{
    law_trim_keeps_words(line);
    reveal_strlit("add");
    reveal_strlit("a");
    reveal_strlit("remove");
    reveal_strlit("rm");
    reveal_strlit("clear");
    reveal_strlit("list");
    reveal_strlit("ls");
    reveal_strlit("show");
    reveal_strlit("copy");
    reveal_strlit("cp");
    reveal_strlit("stats");
    reveal_strlit("stat");
    reveal_strlit("help");
    reveal_strlit("h");
    reveal_strlit("exit");
    reveal_strlit("quit");
    reveal_strlit("q");
    let w = words(line);
    let h = if w.len() > 0 {
        w[0]
    } else {
        seq![]
    };
    if h.len() > 0 {
        let _ = lower(h[0]);
    }
    if h.len() > 1 {
        let _ = lower(h[1]);
    }
    if h.len() > 2 {
        let _ = lower(h[2]);
    }
    if h.len() > 3 {
        let _ = lower(h[3]);
    }
}

/// The answers that confirm a clear are `y` and `yes`, in any case of
/// their letters, with white space around them: trimmed, the answer is
/// one letter y, or the three letters y, e, s.
pub proof fn law_confirming_answers(a: Seq<char>)
    ensures
        confirms(a) <==> ({
            let t = trim(a);
            ||| t.len() == 1 && lower(t[0]) == 'y'
            ||| t.len() == 3 && lower(t[0]) == 'y' && lower(t[1]) == 'e' && lower(t[2]) == 's'
        }),
{
    reveal_strlit("y");
    reveal_strlit("yes");
    let t = trim(a);
    if t.len() == 1 && lower(t[0]) == 'y' {
        assert(lowers_to(t, "y"@));
    }
    if t.len() == 3 && lower(t[0]) == 'y' && lower(t[1]) == 'e' && lower(t[2]) == 's' {
        assert(lowers_to(t, "yes"@));
    }
    if lowers_to(t, "y"@) {
        assert(lower(t[0]) == "y"@[0]);
    }
    if lowers_to(t, "yes"@) {
        assert(lower(t[0]) == "yes"@[0]);
        assert(lower(t[1]) == "yes"@[1]);
        assert(lower(t[2]) == "yes"@[2]);
    }
}

/// An unforced clear with an answer other than `y` or `yes` never empties
/// the context: in particular `n` and `no` do not.
pub proof fn law_refusing_answers(a: Seq<char>)
    requires
        lowers_to(trim(a), "n"@) || lowers_to(trim(a), "no"@),
    ensures
        !confirms(a),
{
    reveal_strlit("n");
    reveal_strlit("no");
    law_confirming_answers(a);
    let t = trim(a);
    assert(lower(t[0]) == 'n');
}

/// The clipboard command receives the text exactly as the lookup chose
/// it: a configured command whole, with its options; otherwise `clip`
/// through `cmd /C` on Windows, `pbcopy` through `sh -c` on macOS, and on
/// other Unix systems the first of `xclip -selection clipboard` and
/// `wl-copy` that was found installed, whole, through `sh -c`.
pub proof fn law_clipboard_command(
    step: ClipboardStep,
    text: Seq<char>,
    config: Config,
    platform: Platform,
    probed: Seq<bool>,
)
    requires
        is_step(step, text, config, platform, probed),
    ensures
        match config.clipboard_cmd {
            Some(c) => step matches ClipboardStep::Run(job) && job.command@ == c@ && job.input@ == text,
            None => true,
        },
        match step {
            ClipboardStep::Run(job) => job.input@ == text,
            _ => true,
        },
        config.clipboard_cmd is None && platform == Platform::Windows ==> (step matches ClipboardStep::Run(job)
            && job.command@ == "clip"@ && job.shell@ == "cmd"@ && job.flag@ == "/C"@),
        config.clipboard_cmd is None && platform == Platform::MacOs ==> (step matches ClipboardStep::Run(job)
            && job.command@ == "pbcopy"@ && job.shell@ == "sh"@ && job.flag@ == "-c"@),
        config.clipboard_cmd is None && platform == Platform::Unix && probed.len() > 0 && probed[0]
            ==> (step matches ClipboardStep::Run(job) && job.command@ == "xclip -selection clipboard"@
            && job.shell@ == "sh"@ && job.flag@ == "-c"@),
        config.clipboard_cmd is None && platform == Platform::Unix && probed.len() > 1 && !probed[0]
            && probed[1] ==> (step matches ClipboardStep::Run(job) && job.command@ == "wl-copy"@
            && job.shell@ == "sh"@ && job.flag@ == "-c"@),
        platform != Platform::Windows ==> match step {
            ClipboardStep::Run(job) => job.shell@ == "sh"@ && job.flag@ == "-c"@,
            _ => true,
        },
{
    assert(first_installed(probed, 0) == first_installed(probed, 1) || probed.len() == 0 || probed[0]);
}

/// The looked-up clipboard command is the configured one whole, or the
/// platform's default whole.
pub proof fn law_clipboard_lookup(r: Lookup, config: Config, platform: Platform, probed: Seq<bool>)
    requires
        is_lookup(r, config, platform, probed),
    ensures
        match config.clipboard_cmd {
            Some(c) => r matches Lookup::Found(f) && f@ == c@,
            None => true,
        },
        config.clipboard_cmd is None && platform == Platform::Windows ==> (r matches Lookup::Found(f)
            && f@ == "clip"@),
        config.clipboard_cmd is None && platform == Platform::MacOs ==> (r matches Lookup::Found(f)
            && f@ == "pbcopy"@),
        config.clipboard_cmd is None && platform == Platform::Unix && probed.len() > 0 && probed[0]
            ==> (r matches Lookup::Found(f) && f@ == "xclip -selection clipboard"@),
        config.clipboard_cmd is None && platform == Platform::Unix && probed.len() > 1 && !probed[0]
            && probed[1] ==> (r matches Lookup::Found(f) && f@ == "wl-copy"@),
{
    assert(first_installed(probed, 0) == first_installed(probed, 1) || probed.len() == 0 || probed[0]);
}

/// Tenths of a whole multiple of `d` are ten times the multiple.
proof fn lemma_tenths_whole(k: nat, d: nat)
    requires
        d > 0,
    ensures
        tenths(k * d, d) == 10 * k,
{
    assert((10 * (k * d)) / d == 10 * k && (10 * (k * d)) % d == 0) by (nonlinear_arith)
        requires
            d > 0,
    ;
}

/// A whole number of tenths `10 * k` is written as `k` then `.0`.
proof fn lemma_fixed1_whole(k: nat)
    ensures
        fixed1(10 * k) == decimal(k) + ".0"@,
{
    reveal_strlit(".0");
    assert(digit(0) == '0');
    assert((10 * k) / 10 == k && (10 * k) % 10 == 0);
    assert(fixed1(10 * k) =~= decimal(k) + ".0"@);
}

/// Sizes are written in bytes below 1 KiB, in KiB below 1 MiB and in
/// MiB above: a count below 1024 as itself and ` B`; a whole number `k`
/// of KiB as `k.0 KB`; a whole number `k` of MiB, below 2^33 MiB, as
/// `k.0 MB`.
pub proof fn law_size_text_units(n: nat, k: nat)
    ensures
        n < 1024 ==> size_text(n) == decimal(n) + " B"@,
        1 <= k < 1024 ==> size_text(k * 1024) == decimal(k) + ".0 KB"@,
        1 <= k < 0x2_0000_0000 ==> size_text(k * 1048576) == decimal(k) + ".0 MB"@,
{
    reveal_strlit(" B");
    reveal_strlit(".0 KB");
    reveal_strlit(".0 MB");
    reveal_strlit(".0");
    if n < 1024 {
        assert(size_text(n) =~= decimal(n) + " B"@);
    }
    if 1 <= k < 1024 {
        lemma_tenths_whole(k, 1024);
        lemma_fixed1_whole(k);
        assert(1024 <= k * 1024 < 1048576) by (nonlinear_arith)
            requires
                1 <= k < 1024,
        ;
        assert(size_text(k * 1024) =~= decimal(k) + ".0 KB"@);
    }
    if 1 <= k < 0x2_0000_0000 {
        let n2 = k * 1048576;
        assert(1048576 <= n2 < 0x2_0000_0000 * 1048576) by (nonlinear_arith)
            requires
                1 <= k < 0x2_0000_0000,
                n2 == k * 1048576,
        ;
        assert(n2 / 1 == n2);
        assert(f64_spacing(n2, 1) == 1);
        assert(to_f64(n2) == n2);
        lemma_tenths_whole(k, 1048576);
        lemma_fixed1_whole(k);
        assert(size_text(n2) =~= decimal(k) + ".0 MB"@);
    }
}

} // verus!
