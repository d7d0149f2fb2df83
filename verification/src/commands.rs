//! The commands of the interactive session and how a line of input is
//! read as one.
use vstd::prelude::*;
use crate::text::{
    append_all, chars_of, lowers_to, matches_lowercase, split_words, string_from, trim, trim_chars,
    words,
};

verus! {

/// A command typed at the prompt.
pub enum Command {
    Add(Vec<String>),
    Remove(Vec<String>),
    Clear,
    List,
    Show,
    Copy,
    Stats,
    Help,
    Exit,
    Unknown(String),
}

/// A command as mathematical values.
pub enum CommandView {
    Add(Seq<Seq<char>>),
    Remove(Seq<Seq<char>>),
    Clear,
    List,
    Show,
    Copy,
    Stats,
    Help,
    Exit,
    Unknown(Seq<char>),
}

/// The characters of each string of `v`.
pub open spec fn strings_view(v: Seq<String>) -> Seq<Seq<char>> {
    v.map_values(|s: String| s@)
}

impl View for Command {
    type V = CommandView;

    open spec fn view(&self) -> CommandView {
        match self {
            Command::Add(a) => CommandView::Add(strings_view(a@)),
            Command::Remove(a) => CommandView::Remove(strings_view(a@)),
            Command::Clear => CommandView::Clear,
            Command::List => CommandView::List,
            Command::Show => CommandView::Show,
            Command::Copy => CommandView::Copy,
            Command::Stats => CommandView::Stats,
            Command::Help => CommandView::Help,
            Command::Exit => CommandView::Exit,
            Command::Unknown(s) => CommandView::Unknown(s@),
        }
    }
}

/// The command that `line` reads as: its first word, compared without
/// regard to case, names the command and the other words are its
/// arguments; a line whose first word names no command is unknown and
/// keeps its trimmed text.
pub open spec fn parse_spec(line: Seq<char>) -> CommandView {
    let t = trim(line);
    let ws = words(t);
    let head = if ws.len() > 0 {
        ws[0]
    } else {
        seq![]
    };
    let args = if ws.len() > 0 {
        ws.drop_first()
    } else {
        seq![]
    };
    if lowers_to(head, "add"@) || lowers_to(head, "a"@) {
        CommandView::Add(args)
    } else if lowers_to(head, "remove"@) || lowers_to(head, "rm"@) {
        CommandView::Remove(args)
    } else if lowers_to(head, "clear"@) {
        CommandView::Clear
    } else if lowers_to(head, "list"@) || lowers_to(head, "ls"@) {
        CommandView::List
    } else if lowers_to(head, "show"@) {
        CommandView::Show
    } else if lowers_to(head, "copy"@) || lowers_to(head, "cp"@) {
        CommandView::Copy
    } else if lowers_to(head, "stats"@) || lowers_to(head, "stat"@) {
        CommandView::Stats
    } else if lowers_to(head, "help"@) || lowers_to(head, "h"@) {
        CommandView::Help
    } else if lowers_to(head, "exit"@) || lowers_to(head, "quit"@) || lowers_to(head, "q"@) {
        CommandView::Exit
    } else {
        CommandView::Unknown(t)
    }
}

/// Reads one line of input as a command.
pub fn parse_line(line: &str) -> (cmd: Command)
    ensures
        cmd@ == parse_spec(line@),
{
    let chars = chars_of(line);
    let t = trim_chars(&chars);
    let ws = split_words(&t);
    let ghost wv = words(t@);
    let empty: Vec<char> = Vec::new();
    let head: &Vec<char> = if ws.len() > 0 {
        &ws[0]
    } else {
        &empty
    };
    assert(head@ == (if wv.len() > 0 {
        wv[0]
    } else {
        seq![]
    }));
    let mut args: Vec<String> = Vec::new();
    if ws.len() > 0 {
        let mut k: usize = 1;
        assert(strings_view(args@) =~= wv.subrange(1, 1));
        while k < ws.len()
            invariant
                1 <= k <= ws.len(),
                ws@.len() == wv.len(),
                forall|j: int| 0 <= j < ws@.len() ==> #[trigger] ws@[j]@ == wv[j],
                strings_view(args@) == wv.subrange(1, k as int),
            decreases ws.len() - k,
        {
            let a = string_from(ws[k].as_slice());
            assert(a@ == wv[k as int]);
            let ghost prev = args@;
            args.push(a);
            assert(strings_view(args@) =~= strings_view(prev).push(a@));
            k += 1;
            assert(strings_view(args@) =~= wv.subrange(1, k as int));
        }
        assert(strings_view(args@) =~= wv.drop_first());
    } else {
        assert(strings_view(args@) =~= Seq::<Seq<char>>::empty());
    }
    if matches_lowercase(head, "add") || matches_lowercase(head, "a") {
        Command::Add(args)
    } else if matches_lowercase(head, "remove") || matches_lowercase(head, "rm") {
        Command::Remove(args)
    } else if matches_lowercase(head, "clear") {
        Command::Clear
    } else if matches_lowercase(head, "list") || matches_lowercase(head, "ls") {
        Command::List
    } else if matches_lowercase(head, "show") {
        Command::Show
    } else if matches_lowercase(head, "copy") || matches_lowercase(head, "cp") {
        Command::Copy
    } else if matches_lowercase(head, "stats") || matches_lowercase(head, "stat") {
        Command::Stats
    } else if matches_lowercase(head, "help") || matches_lowercase(head, "h") {
        Command::Help
    } else if matches_lowercase(head, "exit") || matches_lowercase(head, "quit")
        || matches_lowercase(head, "q") {
        Command::Exit
    } else {
        Command::Unknown(string_from(t.as_slice()))
    }
}

/// The help text: each command with what it does.
pub const HELP_TEXT: &'static str = "Commands:
  add <path...>     - Add files / directories / globs (respects .c2pignore)
  remove <path...>  - Remove files from context
  clear             - Clear all files (asks confirmation unless --force)
  list (ls)         - Show files in context
  show              - Print context using template
  copy (cp)         - Copy context to clipboard
  stats             - Show summary (file count, total size)
  help (h)          - This help
  exit (quit/q)     - Exit";

/// The message printed in place of running a command, if any.
pub open spec fn refusal_spec(cmd: CommandView) -> Option<Seq<char>> {
    match cmd {
        CommandView::Add(a) => if a.len() == 0 {
            Some("Usage: add <path...>"@)
        } else {
            None
        },
        CommandView::Remove(a) => if a.len() == 0 {
            Some("Usage: remove <path...>"@)
        } else {
            None
        },
        CommandView::Unknown(t) => Some("Unknown command: '"@ + t + "'. Type 'help'."@),
        _ => None,
    }
}

/// The message printed in place of running `cmd`: for `add` or `remove`
/// without a path, how to use it; for an unknown command, that it is
/// unknown. Every other command runs.
pub fn refusal(cmd: &Command) -> (m: Option<String>)
    ensures
        match m {
            Some(s) => refusal_spec(cmd@) == Some(s@),
            None => refusal_spec(cmd@) is None,
        },
{
    match cmd {
        Command::Add(a) => if a.len() == 0 {
            Some("Usage: add <path...>".to_string())
        } else {
            None
        },
        Command::Remove(a) => if a.len() == 0 {
            Some("Usage: remove <path...>".to_string())
        } else {
            None
        },
        Command::Unknown(t) => {
            let mut v = chars_of("Unknown command: '");
            append_all(&mut v, &chars_of(t.as_str()));
            append_all(&mut v, &chars_of("'. Type 'help'."));
            Some(string_from(v.as_slice()))
        },
        _ => None,
    }
}

/// Whether the session goes on after `cmd`: only `exit` ends it.
pub fn keeps_running(cmd: &Command) -> (b: bool)
    ensures
        b == !(cmd@ is Exit),
{
    match cmd {
        Command::Exit => false,
        _ => true,
    }
}

} // verus!
