use code2prompt::clipboard::{ClipboardStep, Platform};
use code2prompt::config::Config;
use code2prompt::context::{format_size, Context};

fn config(template: Option<&str>) -> Config {
    Config {
        template: template.map(|t| t.to_string()),
        max_file_size: Some(1_048_576),
        clipboard_cmd: None,
    }
}

fn ctx() -> Context {
    Context::new(Config::default(), false)
}

fn paths(c: &Context) -> Vec<String> {
    c.files().iter().map(|e| e.path.clone()).collect()
}

#[test]
fn new_context_is_empty() {
    let c = Context::new(config(None), true);
    assert!(c.is_empty());
    assert_eq!(c.len(), 0);
    assert!(c.force);
    assert_eq!(c.build_output(), "");
    assert_eq!(c.list(), "Context is empty.\n");
    assert_eq!(c.stats(), "Files: 0, Total size: 0 B\n");
}

#[test]
fn add_new_and_replace() {
    let mut c = ctx();
    assert!(!c.add_file("/p/b.rs".to_string(), "bb".to_string()));
    assert!(!c.add_file("/p/a.rs".to_string(), "a".to_string()));
    assert!(c.add_file("/p/b.rs".to_string(), "BBB".to_string()));
    assert_eq!(paths(&c), vec!["/p/a.rs".to_string(), "/p/b.rs".to_string()]);
    assert_eq!(c.files()[1].content, "BBB");
    assert_eq!(c.files()[1].size, 3);
    assert!(c.contains_path("/p/b.rs"));
    assert!(!c.contains_path("/p/c.rs"));
}

#[test]
fn add_same_path_spelled_differently_replaces() {
    let mut c = ctx();
    assert!(!c.add_file("/p/a.rs".to_string(), "x".to_string()));
    assert!(c.add_file("/p//./a.rs/".to_string(), "y".to_string()));
    assert_eq!(c.len(), 1);
    assert_eq!(c.files()[0].path, "/p//./a.rs/");
    assert!(c.contains_path("/p/a.rs"));
}

#[test]
fn size_is_bytes_of_text() {
    let mut c = ctx();
    c.add_file("/u".to_string(), "héllo ✓".to_string());
    assert_eq!(c.files()[0].size, "héllo ✓".len());
    assert_eq!(c.files()[0].size, 10);
}

#[test]
fn output_in_path_order_with_default_template() {
    let mut c = ctx();
    c.add_file("/z/last.rs".to_string(), "fn z() {}".to_string());
    c.add_file("/a/first.rs".to_string(), "fn a() {}".to_string());
    assert_eq!(
        c.build_output(),
        "--- /a/first.rs ---\nfn a() {}\n\n--- /z/last.rs ---\nfn z() {}\n\n"
    );
}

#[test]
fn output_with_custom_template_replaces_every_mark() {
    let mut c = Context::new(config(Some("<{{path}}|{{content}}|{{path}}>")), false);
    c.add_file("/f".to_string(), "body {{path}}".to_string());
    // The path is put in first, so a mark inside the text is left as is.
    assert_eq!(c.build_output(), "</f|body {{path}}|/f>");
}

#[test]
fn output_without_template_uses_default() {
    let mut c = Context::new(Config { template: None, max_file_size: None, clipboard_cmd: None }, false);
    c.add_file("/f".to_string(), "x".to_string());
    assert_eq!(c.build_output(), "--- /f ---\nx\n\n");
}

#[test]
fn path_order_is_by_components() {
    let mut c = ctx();
    c.add_file("/a-b".to_string(), "1".to_string());
    c.add_file("/a/b".to_string(), "2".to_string());
    c.add_file("/a".to_string(), "3".to_string());
    // Components compare as a whole: "a" < "a-b", and "a" comes before
    // "a/b" as a shorter list.
    assert_eq!(paths(&c), vec!["/a".to_string(), "/a/b".to_string(), "/a-b".to_string()]);
}

#[test]
fn remove_exact_path() {
    let mut c = ctx();
    c.add_file("/p/a.rs".to_string(), "a".to_string());
    c.add_file("/p/aa.rs".to_string(), "aa".to_string());
    let removed = c.remove_files("a.rs", Some("/p/a.rs".to_string()));
    assert_eq!(removed, vec!["/p/a.rs".to_string()]);
    assert_eq!(paths(&c), vec!["/p/aa.rs".to_string()]);
}

#[test]
fn remove_by_suffix_and_substring() {
    let mut c = ctx();
    c.add_file("/p/src/main.rs".to_string(), "m".to_string());
    c.add_file("/p/src/lib.rs".to_string(), "l".to_string());
    c.add_file("/p/tests/main_test.rs".to_string(), "t".to_string());
    c.add_file("/q/domain.rs".to_string(), "d".to_string());
    // Not canonical on disk: components at the end, or text inside.
    let removed = c.remove_files("src/main.rs", None);
    assert_eq!(removed, vec!["/p/src/main.rs".to_string()]);
    let removed = c.remove_files("main", None);
    assert_eq!(removed, vec!["/p/tests/main_test.rs".to_string(), "/q/domain.rs".to_string()]);
    assert_eq!(paths(&c), vec!["/p/src/lib.rs".to_string()]);
}

#[test]
fn remove_by_components_not_only_text() {
    let mut c = ctx();
    c.add_file("/p/src/lib.rs".to_string(), "l".to_string());
    // "src//lib.rs" is not text of the path, but its components end it.
    let removed = c.remove_files("src//lib.rs", None);
    assert_eq!(removed, vec!["/p/src/lib.rs".to_string()]);
    assert!(c.is_empty());
}

#[test]
fn remove_canonical_not_held_falls_back_to_pattern() {
    let mut c = ctx();
    c.add_file("/p/x.rs".to_string(), "x".to_string());
    let removed = c.remove_files("x.rs", Some("/elsewhere/x.rs".to_string()));
    assert_eq!(removed, vec!["/p/x.rs".to_string()]);
}

#[test]
fn remove_nothing_matching() {
    let mut c = ctx();
    c.add_file("/p/x.rs".to_string(), "x".to_string());
    let removed = c.remove_files("nothing", None);
    assert!(removed.is_empty());
    assert_eq!(c.len(), 1);
}

#[test]
fn clear_asks_unless_forced() {
    for (answer, expect) in [
        (Some("y"), true),
        (Some("yes"), true),
        (Some("  YeS \n"), true),
        (Some("Y\r\n"), true),
        (Some("n"), false),
        (Some(""), false),
        (Some("yess"), false),
        (None, false),
    ] {
        let mut c = ctx();
        c.add_file("/f".to_string(), "x".to_string());
        assert_eq!(c.clear(answer), expect, "{:?}", answer);
        assert_eq!(c.is_empty(), expect);
    }
    let mut c = Context::new(Config::default(), true);
    c.add_file("/f".to_string(), "x".to_string());
    assert!(c.clear(None));
    assert!(c.is_empty());
}

#[test]
fn list_shows_rows_and_sizes() {
    let mut c = ctx();
    c.add_file("/p/a.rs".to_string(), "x".repeat(1024));
    c.add_file("/p/b.rs".to_string(), "yz".to_string());
    assert!(c.can_list());
    let expected = format!(
        "{0: <5} {1: <60} {2: >10}\n{3: <5} {4: <60} {5: >10}\n{6: <5} {7: <60} {8: >10}\n",
        "#", "File", "Size", 1, "/p/a.rs", "1.0 KB", 2, "/p/b.rs", "2 B"
    );
    assert_eq!(c.list(), expected);
}

#[test]
fn list_cuts_long_paths() {
    let mut c = ctx();
    let long = format!("/{}", "d/".repeat(40) + "file.rs");
    c.add_file(long.clone(), String::new());
    assert!(c.can_list());
    let shown = format!("...{}", &long[long.len() - 57..]);
    let expected = format!(
        "{0: <5} {1: <60} {2: >10}\n{3: <5} {4: <60} {5: >10}\n",
        "#", "File", "Size", 1, shown, "0 B"
    );
    assert_eq!(c.list(), expected);
}

#[test]
fn list_refused_when_cut_splits_a_character() {
    let mut c = ctx();
    // 62 bytes: the cut, 57 bytes from the end, is byte 5, inside the
    // four-byte character at bytes 4 to 7.
    let p = format!("/abc\u{1F600}{}", "a".repeat(54));
    assert_eq!(p.len(), 62);
    assert!(!p.is_char_boundary(5));
    c.add_file(p, String::new());
    assert!(!c.can_list());
}

#[test]
fn stats_counts_and_sums() {
    let mut c = ctx();
    c.add_file("/a".to_string(), "x".repeat(1000));
    c.add_file("/b".to_string(), "x".repeat(100));
    assert_eq!(c.stats(), "Files: 2, Total size: 1.1 KB\n");
}

#[test]
fn copy_needs_text() {
    let c = ctx();
    assert!(c.copy_to_clipboard(Platform::MacOs, &vec![]).is_none());
    let mut c = Context::new(config(Some("")), false);
    c.add_file("/a".to_string(), "x".to_string());
    // An empty template renders nothing, so there is nothing to copy.
    assert!(c.copy_to_clipboard(Platform::MacOs, &vec![]).is_none());
}

#[test]
fn copy_runs_clipboard_command_with_output() {
    let mut c = ctx();
    c.add_file("/a".to_string(), "x".to_string());
    match c.copy_to_clipboard(Platform::MacOs, &vec![]) {
        Some(ClipboardStep::Run(job)) => {
            assert_eq!(job.shell, "sh");
            assert_eq!(job.flag, "-c");
            assert_eq!(job.command, "pbcopy");
            assert_eq!(job.input, "--- /a ---\nx\n\n");
        }
        _ => panic!("expected a job"),
    }
}

#[test]
fn size_limit() {
    let c = ctx();
    assert_eq!(c.exceeds_limit(1_048_576), None);
    assert_eq!(c.exceeds_limit(1_048_577), Some(1_048_576));
    let c = Context::new(Config { template: None, max_file_size: None, clipboard_cmd: None }, false);
    assert_eq!(c.exceeds_limit(u64::MAX), None);
    assert_eq!(c.config().max_file_size, None);
}

#[test]
fn law_adding_twice_is_adding_once() {
    let mut once = ctx();
    once.add_file("/b".to_string(), "B".to_string());
    once.add_file("/a".to_string(), "A".to_string());
    let mut twice = ctx();
    twice.add_file("/b".to_string(), "B".to_string());
    twice.add_file("/a".to_string(), "A".to_string());
    twice.add_file("/a".to_string(), "A".to_string());
    assert_eq!(once.build_output(), twice.build_output());
    assert_eq!(paths(&once), paths(&twice));
}

#[test]
fn law_later_add_replaces() {
    let mut c = ctx();
    c.add_file("/a".to_string(), "old".to_string());
    c.add_file("/a".to_string(), "new".to_string());
    let mut d = ctx();
    d.add_file("/a".to_string(), "new".to_string());
    assert_eq!(c.build_output(), d.build_output());
}

#[test]
fn law_adds_commute() {
    let mut c = ctx();
    c.add_file("/x/1".to_string(), "one".to_string());
    c.add_file("/x/2".to_string(), "two".to_string());
    let mut d = ctx();
    d.add_file("/x/2".to_string(), "two".to_string());
    d.add_file("/x/1".to_string(), "one".to_string());
    assert_eq!(c.build_output(), d.build_output());
    assert_eq!(c.list(), d.list());
}

#[test]
fn law_remove_undoes_add() {
    let mut c = ctx();
    c.add_file("/keep".to_string(), "k".to_string());
    let before = c.build_output();
    c.add_file("/tmp/new".to_string(), "n".to_string());
    assert!(c.contains_path("/tmp/new"));
    let removed = c.remove_files("/tmp/new", Some("/tmp/new".to_string()));
    assert_eq!(removed, vec!["/tmp/new".to_string()]);
    assert!(!c.contains_path("/tmp/new"));
    assert_eq!(c.build_output(), before);
}

#[test]
fn law_added_file_is_read_back() {
    let mut c = ctx();
    c.add_file("/r".to_string(), "first".to_string());
    c.add_file("/r/".to_string(), "second".to_string());
    let held: Vec<_> = c.files().iter().filter(|e| e.path.trim_end_matches('/') == "/r").collect();
    assert_eq!(held.len(), 1);
    assert_eq!(held[0].content, "second");
}

#[test]
fn law_pattern_splits_files() {
    let mut c = ctx();
    for p in ["/s/a.rs", "/s/b.txt", "/t/c.rs", "/t/d.md"] {
        c.add_file(p.to_string(), p.to_string());
    }
    let all = paths(&c);
    let removed = c.remove_files(".rs", None);
    let kept = paths(&c);
    assert_eq!(removed, vec!["/s/a.rs".to_string(), "/t/c.rs".to_string()]);
    assert_eq!(kept, vec!["/s/b.txt".to_string(), "/t/d.md".to_string()]);
    for p in all {
        assert!(removed.contains(&p) != kept.contains(&p));
    }
}

#[test]
fn format_size_examples() {
    assert_eq!(format_size(0), "0 B");
    assert_eq!(format_size(1023), "1023 B");
    assert_eq!(format_size(1024), "1.0 KB");
    assert_eq!(format_size(1536), "1.5 KB");
    assert_eq!(format_size(1_048_575), "1024.0 KB");
    assert_eq!(format_size(1_048_576), "1.0 MB");
    assert_eq!(format_size(5 * 1_048_576 + 1_048_576 / 2), "5.5 MB");
}

#[test]
fn law_one_file_per_path() {
    let mut c = ctx();
    for (i, p) in ["/a", "/a/", "//a", "/./a", "/a/.", "/b", "/b//"].iter().enumerate() {
        c.add_file(p.to_string(), i.to_string());
    }
    assert_eq!(c.len(), 2);
    assert_eq!(paths(&c), vec!["/a/.".to_string(), "/b//".to_string()]);
    assert_eq!(c.files()[0].content, "4");
    assert_eq!(c.files()[1].content, "6");
}

#[test]
fn law_output_of_ordered_union() {
    let mut all = ctx();
    let mut low = ctx();
    let mut high = ctx();
    for (p, t) in [("/m/x", "3"), ("/a/y", "1"), ("/z", "4"), ("/b", "2")] {
        all.add_file(p.to_string(), t.to_string());
        if p < "/m" {
            low.add_file(p.to_string(), t.to_string());
        } else {
            high.add_file(p.to_string(), t.to_string());
        }
    }
    assert_eq!(all.build_output(), low.build_output() + &high.build_output());
}

#[test]
fn law_same_files_same_list() {
    let mut c = ctx();
    let mut d = ctx();
    for p in ["/q", "/p/r", "/p"] {
        c.add_file(p.to_string(), p.repeat(3));
    }
    for p in ["/p", "/q", "/p/r"] {
        d.add_file(p.to_string(), p.repeat(3));
    }
    assert_eq!(c.list(), d.list());
    assert_eq!(c.build_output(), d.build_output());
}
