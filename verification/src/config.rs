//! Settings: the template each file is rendered with, the largest file
//! that is read, and the command that the clipboard text is piped to.
use vstd::prelude::*;

verus! {

/// The template used when the configuration names none.
pub const DEFAULT_TEMPLATE: &'static str = "--- {{path}} ---\n{{content}}\n\n";

/// The largest file size, in bytes, read by default (1 MiB).
pub const DEFAULT_MAX_FILE_SIZE: u64 = 1048576;

/// Settings of a session. Every field may be absent.
pub struct Config {
    /// Template for each file; `{{path}}` and `{{content}}` are replaced.
    pub template: Option<String>,
    /// Files larger than this many bytes are skipped.
    pub max_file_size: Option<u64>,
    /// Shell command that receives the clipboard text on its input.
    pub clipboard_cmd: Option<String>,
}

impl Default for Config {
    /// The default template, a 1 MiB limit, and the platform's clipboard
    /// command.
    fn default() -> (c: Config)
        ensures
            c.template matches Some(t) && t@ == DEFAULT_TEMPLATE@,
            c.max_file_size == Some(DEFAULT_MAX_FILE_SIZE),
            c.clipboard_cmd is None,
    {
        Config {
            template: Some(DEFAULT_TEMPLATE.to_string()),
            max_file_size: Some(DEFAULT_MAX_FILE_SIZE),
            clipboard_cmd: None,
        }
    }
}

impl Config {
    /// The settings read from a configuration file: a limit the file does
    /// not give is the default of 1 MiB; the other settings are taken as
    /// given, an absent template meaning the default one.
    pub fn from_settings(
        template: Option<String>,
        max_file_size: Option<u64>,
        clipboard_cmd: Option<String>,
    ) -> (c: Config)
        ensures
            c.template == template,
            c.max_file_size == Some(
                match max_file_size {
                    Some(m) => m,
                    None => DEFAULT_MAX_FILE_SIZE,
                },
            ),
            c.clipboard_cmd == clipboard_cmd,
    {
        let max = match max_file_size {
            Some(m) => m,
            None => DEFAULT_MAX_FILE_SIZE,
        };
        Config { template, max_file_size: Some(max), clipboard_cmd }
    }
}

} // verus!
