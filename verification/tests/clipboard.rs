use code2prompt::clipboard::{copy_to_clipboard, get_clipboard_command, ClipboardStep, Lookup, Platform};
use code2prompt::config::{Config, DEFAULT_MAX_FILE_SIZE, DEFAULT_TEMPLATE};

fn no_command() -> Config {
    Config::default()
}

fn found(l: Lookup) -> String {
    match l {
        Lookup::Found(c) => c,
        _ => panic!("expected a command"),
    }
}

#[test]
fn default_config() {
    let c = Config::default();
    assert_eq!(c.template.as_deref(), Some(DEFAULT_TEMPLATE));
    assert_eq!(DEFAULT_TEMPLATE, "--- {{path}} ---\n{{content}}\n\n");
    assert_eq!(c.max_file_size, Some(DEFAULT_MAX_FILE_SIZE));
    assert_eq!(DEFAULT_MAX_FILE_SIZE, 1_048_576);
    assert!(c.clipboard_cmd.is_none());
}

#[test]
fn configured_command_wins() {
    let mut c = no_command();
    c.clipboard_cmd = Some("xsel --clipboard --input".to_string());
    for p in [Platform::Windows, Platform::MacOs, Platform::Unix, Platform::Other] {
        assert_eq!(found(get_clipboard_command(&c, p, &vec![])), "xsel --clipboard --input");
    }
}

#[test]
fn platform_defaults() {
    let c = no_command();
    assert_eq!(found(get_clipboard_command(&c, Platform::Windows, &vec![])), "clip");
    assert_eq!(found(get_clipboard_command(&c, Platform::MacOs, &vec![])), "pbcopy");
    match get_clipboard_command(&c, Platform::Other, &vec![]) {
        Lookup::Missing(m) => assert_eq!(
            m,
            "Unsupported OS: no default clipboard command. Set clipboard_cmd in config."
        ),
        _ => panic!("expected no command"),
    }
}

#[test]
fn unix_probes_candidates_in_order() {
    let c = no_command();
    match get_clipboard_command(&c, Platform::Unix, &vec![]) {
        Lookup::Probe(line) => assert_eq!(line, "command -v xclip"),
        _ => panic!("expected a probe"),
    }
    assert_eq!(found(get_clipboard_command(&c, Platform::Unix, &vec![true])), "xclip -selection clipboard");
    match get_clipboard_command(&c, Platform::Unix, &vec![false]) {
        Lookup::Probe(line) => assert_eq!(line, "command -v wl-copy"),
        _ => panic!("expected a probe"),
    }
    assert_eq!(found(get_clipboard_command(&c, Platform::Unix, &vec![false, true])), "wl-copy");
    match get_clipboard_command(&c, Platform::Unix, &vec![false, false]) {
        Lookup::Missing(m) => assert_eq!(
            m,
            "No clipboard tool found (xclip/wl-copy). Set clipboard_cmd in config."
        ),
        _ => panic!("expected no command"),
    }
}

#[test]
fn copy_steps() {
    let c = no_command();
    match copy_to_clipboard("text", &c, Platform::Windows, &vec![]) {
        ClipboardStep::Run(job) => {
            assert_eq!((job.shell.as_str(), job.flag.as_str()), ("cmd", "/C"));
            assert_eq!(job.command, "clip");
            assert_eq!(job.input, "text");
            assert_eq!(job.spawn_failure("boom"), "spawn cmd /C clip: boom");
            assert_eq!(job.write_failure("broken pipe"), "write: broken pipe");
            assert_eq!(job.wait_failure("gone"), "wait: gone");
            assert_eq!(job.exit_failure("exit status: 1"), "clip exited with exit status: 1");
        }
        _ => panic!("expected a job"),
    }
    match copy_to_clipboard("t", &c, Platform::Unix, &vec![]) {
        ClipboardStep::Probe(line) => assert_eq!(line, "command -v xclip"),
        _ => panic!("expected a probe"),
    }
    match copy_to_clipboard("t", &c, Platform::Unix, &vec![false, false]) {
        ClipboardStep::Fail(m) => assert!(m.starts_with("No clipboard tool found")),
        _ => panic!("expected failure"),
    }
    match copy_to_clipboard("t", &c, Platform::Unix, &vec![false, true]) {
        ClipboardStep::Run(job) => {
            assert_eq!((job.shell.as_str(), job.flag.as_str()), ("sh", "-c"));
            assert_eq!(job.command, "wl-copy");
        }
        _ => panic!("expected a job"),
    }
}

#[test]
fn settings_from_a_file_default_the_limit() {
    let c = Config::from_settings(None, None, None);
    assert_eq!(c.max_file_size, Some(1_048_576));
    assert!(c.template.is_none());
    assert!(c.clipboard_cmd.is_none());
    let c = Config::from_settings(Some("{{path}}".to_string()), Some(10), Some("wl-copy".to_string()));
    assert_eq!(c.max_file_size, Some(10));
    assert_eq!(c.template.as_deref(), Some("{{path}}"));
    assert_eq!(c.clipboard_cmd.as_deref(), Some("wl-copy"));
}
