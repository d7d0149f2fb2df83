//! Choosing how the clipboard text is delivered: which command receives
//! it, through which shell, and, on Unix systems other than macOS, which
//! installed tool is found first. Running the commands is left to the
//! caller, which reports each probe's outcome back.
use vstd::prelude::*;
use crate::config::Config;
use crate::text::{append_all, chars_of, split_words, string_from, words};

verus! {

/// The operating system family the program runs on.
#[derive(PartialEq, Eq, Structural, Clone, Copy)]
pub enum Platform {
    Windows,
    MacOs,
    /// A Unix system other than macOS.
    Unix,
    Other,
}

/// A command line to run with the clipboard text on its input.
pub struct ClipboardJob {
    /// The shell program.
    pub shell: String,
    /// The shell's flag that takes a command line.
    pub flag: String,
    /// The command line.
    pub command: String,
    /// The text to write to the command's input.
    pub input: String,
}

/// What to do next to copy text to the clipboard.
pub enum ClipboardStep {
    /// Run `sh -c` with this command line and report whether it succeeded.
    Probe(String),
    /// Run this job.
    Run(ClipboardJob),
    /// Give up with this message.
    Fail(String),
}

/// The tools tried, in order, on Unix systems other than macOS.
pub open spec fn unix_candidates() -> Seq<Seq<char>> {
    seq!["xclip -selection clipboard"@, "wl-copy"@]
}

/// The first word of `s`, or nothing.
pub open spec fn first_word(s: Seq<char>) -> Seq<char> {
    if words(s).len() > 0 {
        words(s)[0]
    } else {
        seq![]
    }
}

/// The command line that tells whether a tool is installed.
pub open spec fn probe_line(candidate: Seq<char>) -> Seq<char> {
    "command -v "@ + first_word(candidate)
}

/// The message when no tool is found.
pub open spec fn no_tool_message() -> Seq<char> {
    "No clipboard tool found (xclip/wl-copy). Set clipboard_cmd in config."@
}

/// The message when the platform has no default command.
pub open spec fn unsupported_message() -> Seq<char> {
    "Unsupported OS: no default clipboard command. Set clipboard_cmd in config."@
}

/// The outcome of choosing a command.
pub enum Choice {
    /// Use this command line.
    Use(Seq<char>),
    /// Find out whether the candidate with this index is installed.
    Ask(nat),
    /// Give up with this message.
    Refuse(Seq<char>),
}

/// The first candidate from `i` on that the probes found installed; the
/// first unprobed one to probe next; or none.
pub open spec fn first_installed(probed: Seq<bool>, i: nat) -> Choice
    decreases 2 - i,
{
    if i >= 2 {
        Choice::Refuse(no_tool_message())
    } else if i >= probed.len() {
        Choice::Ask(i)
    } else if probed[i as int] {
        Choice::Use(unix_candidates()[i as int])
    } else {
        first_installed(probed, i + 1)
    }
}

/// The clipboard command: the configured one, else the platform's
/// default, where on Unix the first installed candidate is taken;
/// `probed[i]` tells whether candidate `i` was found.
pub open spec fn choose_command(configured: Option<Seq<char>>, platform: Platform, probed: Seq<
    bool,
>) -> Choice {
    match configured {
        Some(c) => Choice::Use(c),
        None => match platform {
            Platform::Windows => Choice::Use("clip"@),
            Platform::MacOs => Choice::Use("pbcopy"@),
            Platform::Unix => first_installed(probed, 0),
            Platform::Other => Choice::Refuse(unsupported_message()),
        },
    }
}

/// The shell used on `platform`.
pub open spec fn shell_of(platform: Platform) -> Seq<char> {
    if platform == Platform::Windows {
        "cmd"@
    } else {
        "sh"@
    }
}

/// The flag that makes the shell of `platform` run a command line.
pub open spec fn flag_of(platform: Platform) -> Seq<char> {
    if platform == Platform::Windows {
        "/C"@
    } else {
        "-c"@
    }
}

/// The configured command of `config`, as characters.
pub open spec fn configured_command(config: Config) -> Option<Seq<char>> {
    match config.clipboard_cmd {
        Some(c) => Some(c@),
        None => None,
    }
}

/// Where looking up the clipboard command stands.
pub enum Lookup {
    /// Use this command line.
    Found(String),
    /// Run this command line with `sh -c` and report whether it succeeded.
    Probe(String),
    /// There is no command; the message says why.
    Missing(String),
}

/// `r` is the lookup of the clipboard command for `config` on `platform`
/// after the probes `probed`.
pub open spec fn is_lookup(r: Lookup, config: Config, platform: Platform, probed: Seq<bool>) -> bool {
    match choose_command(configured_command(config), platform, probed) {
        Choice::Use(c) => r matches Lookup::Found(s) && s@ == c,
        Choice::Ask(i) => r matches Lookup::Probe(line) && line@ == probe_line(
            unix_candidates()[i as int],
        ),
        Choice::Refuse(m) => r matches Lookup::Missing(msg) && msg@ == m,
    }
}

/// `step` is the next step of copying `text` with `config` on `platform`
/// after the probes `probed`.
pub open spec fn is_step(step: ClipboardStep, text: Seq<char>, config: Config, platform: Platform, probed: Seq<
    bool,
>) -> bool {
    match choose_command(configured_command(config), platform, probed) {
        Choice::Use(c) => step matches ClipboardStep::Run(job) && job.shell@ == shell_of(platform)
            && job.flag@ == flag_of(platform) && job.command@ == c && job.input@ == text,
        Choice::Ask(i) => step matches ClipboardStep::Probe(line) && line@ == probe_line(
            unix_candidates()[i as int],
        ),
        Choice::Refuse(m) => step matches ClipboardStep::Fail(msg) && msg@ == m,
    }
}

/// The `i`-th tool tried on Unix systems other than macOS.
fn unix_candidate(i: usize) -> (c: &'static str)
    requires
        i < 2,
    ensures
        c@ == unix_candidates()[i as int],
{
    if i == 0 {
        "xclip -selection clipboard"
    } else {
        "wl-copy"
    }
}

/// Looks up the clipboard command: the configured one, else the
/// platform's default. On Unix systems other than macOS without a
/// configured command, `probed` holds the outcome of each probe asked for
/// so far, in order, and the first candidate found installed is taken.
pub fn get_clipboard_command(config: &Config, platform: Platform, probed: &Vec<bool>) -> (r: Lookup)
    ensures
        is_lookup(r, *config, platform, probed@),
{
    match &config.clipboard_cmd {
        Some(c) => Lookup::Found(c.clone()),
        None => {
            if platform == Platform::Windows {
                Lookup::Found("clip".to_string())
            } else if platform == Platform::MacOs {
                Lookup::Found("pbcopy".to_string())
            } else if platform == Platform::Unix {
                let mut i: usize = 0;
                while i < 2 && i < probed.len() && !probed[i]
                    invariant
                        i <= 2,
                        first_installed(probed@, 0) == first_installed(probed@, i as nat),
                    decreases 2 - i,
                {
                    i += 1;
                }
                if i >= 2 {
                    Lookup::Missing(
                        "No clipboard tool found (xclip/wl-copy). Set clipboard_cmd in config.".to_string(),
                    )
                } else if i >= probed.len() {
                    let ws = split_words(&chars_of(unix_candidate(i)));
                    let mut line = chars_of("command -v ");
                    if ws.len() > 0 {
                        append_all(&mut line, &ws[0]);
                    }
                    Lookup::Probe(string_from(line.as_slice()))
                } else {
                    Lookup::Found(unix_candidate(i).to_string())
                }
            } else {
                Lookup::Missing(
                    "Unsupported OS: no default clipboard command. Set clipboard_cmd in config.".to_string(),
                )
            }
        },
    }
}

/// Decides the next step of copying `text` to the clipboard: run the
/// command found with the text on its input, probe for a tool first, or
/// give up.
pub fn copy_to_clipboard(text: &str, config: &Config, platform: Platform, probed: &Vec<bool>) -> (step:
    ClipboardStep)
    ensures
        is_step(step, text@, *config, platform, probed@),
{
    match get_clipboard_command(config, platform, probed) {
        Lookup::Found(command) => {
            let (shell, flag) = if platform == Platform::Windows {
                ("cmd".to_string(), "/C".to_string())
            } else {
                ("sh".to_string(), "-c".to_string())
            };
            ClipboardStep::Run(ClipboardJob { shell, flag, command, input: text.to_string() })
        },
        Lookup::Probe(line) => ClipboardStep::Probe(line),
        Lookup::Missing(message) => ClipboardStep::Fail(message),
    }
}

impl ClipboardJob {
    /// The message when the shell cannot be started, with the cause.
    pub fn spawn_failure(&self, cause: &str) -> (m: String)
        ensures
            m@ == "spawn "@ + self.shell@ + " "@ + self.flag@ + " "@ + self.command@ + ": "@
                + cause@,
    {
        let mut v = chars_of("spawn ");
        append_all(&mut v, &chars_of(self.shell.as_str()));
        append_all(&mut v, &chars_of(" "));
        append_all(&mut v, &chars_of(self.flag.as_str()));
        append_all(&mut v, &chars_of(" "));
        append_all(&mut v, &chars_of(self.command.as_str()));
        append_all(&mut v, &chars_of(": "));
        append_all(&mut v, &chars_of(cause));
        string_from(v.as_slice())
    }

    /// The message when the text cannot be written to the command.
    pub fn write_failure(&self, cause: &str) -> (m: String)
        ensures
            m@ == "write: "@ + cause@,
    {
        let mut v = chars_of("write: ");
        append_all(&mut v, &chars_of(cause));
        string_from(v.as_slice())
    }

    /// The message when waiting for the command fails.
    pub fn wait_failure(&self, cause: &str) -> (m: String)
        ensures
            m@ == "wait: "@ + cause@,
    {
        let mut v = chars_of("wait: ");
        append_all(&mut v, &chars_of(cause));
        string_from(v.as_slice())
    }

    /// The message when the command ends unsuccessfully with `status`.
    pub fn exit_failure(&self, status: &str) -> (m: String)
        ensures
            m@ == self.command@ + " exited with "@ + status@,
    {
        let mut v = chars_of(self.command.as_str());
        append_all(&mut v, &chars_of(" exited with "));
        append_all(&mut v, &chars_of(status));
        string_from(v.as_slice())
    }
}

} // verus!
