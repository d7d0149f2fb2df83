use code2prompt::context::{byte_length, format_size};
use code2prompt::text::{chars_of, is_whitespace, matches_lowercase, split_words, trim_chars};

#[test]
fn whitespace_matches_std() {
    for u in 0u32..0x3100 {
        if let Some(c) = char::from_u32(u) {
            assert_eq!(is_whitespace(c), c.is_whitespace(), "{:#x}", u);
        }
    }
    for c in ['\u{feff}', '\u{180e}', '\u{10ffff}', 'a'] {
        assert_eq!(is_whitespace(c), c.is_whitespace());
    }
}

#[test]
fn trim_and_split_match_std() {
    for s in ["", "  ", " a ", "\ta\u{2003}b\n", "x", "a  b   c", "\u{85}q\u{a0}"] {
        let t: String = trim_chars(&chars_of(s)).into_iter().collect();
        assert_eq!(t, s.trim());
        let ws: Vec<String> = split_words(&chars_of(s)).into_iter().map(|w| w.into_iter().collect()).collect();
        let expected: Vec<String> = s.split_whitespace().map(|w| w.to_string()).collect();
        assert_eq!(ws, expected);
    }
}

#[test]
fn lowercase_matching() {
    assert!(matches_lowercase(&chars_of("YES"), "yes"));
    assert!(matches_lowercase(&chars_of("yEs"), "yes"));
    assert!(!matches_lowercase(&chars_of("ye"), "yes"));
    assert!(!matches_lowercase(&chars_of("yés"), "yes"));
    assert!(matches_lowercase(&chars_of(""), ""));
}

#[test]
fn byte_length_counts_utf8() {
    assert_eq!(byte_length(""), 0);
    assert_eq!(byte_length("abc"), 3);
    assert_eq!(byte_length("é€😀"), 2 + 3 + 4);
}

fn reference(bytes: usize) -> String {
    if bytes >= 1_048_576 {
        format!("{:.1} MB", bytes as f64 / 1_048_576.0)
    } else if bytes >= 1024 {
        format!("{:.1} KB", bytes as f64 / 1024.0)
    } else {
        format!("{bytes} B")
    }
}

#[test]
fn format_size_matches_float_formatting_small() {
    for n in 0..300_000usize {
        assert_eq!(format_size(n), reference(n), "{}", n);
    }
}

#[test]
fn format_size_matches_float_formatting_near_thresholds() {
    for base in [1024usize, 1_048_576, 10 * 1_048_576, 1 << 30, 1 << 40] {
        for d in 0..5000usize {
            for n in [base.saturating_sub(d), base + d] {
                assert_eq!(format_size(n), reference(n), "{}", n);
            }
        }
    }
}

#[test]
fn format_size_matches_float_formatting_ties_and_large() {
    // Exact ties of the tenths: x.x5 MB and KB.
    for k in 0..2000usize {
        let n = 1_048_576 + k * 104_857 + 52_428;
        assert_eq!(format_size(n), reference(n), "{}", n);
        let n = 1024 + k * 512 + 51;
        assert_eq!(format_size(n), reference(n), "{}", n);
    }
    let mut n: usize = usize::MAX;
    for _ in 0..2000 {
        assert_eq!(format_size(n), reference(n), "{}", n);
        n = n / 3 * 2 + 7;
    }
    for n in [usize::MAX, usize::MAX - 1, (1usize << 53) + 1, (1usize << 54) + 3, (1usize << 63) + 1023] {
        assert_eq!(format_size(n), reference(n), "{}", n);
    }
}

#[test]
fn law_trim_twice_is_trim_once() {
    for s in ["", " x ", "\u{2028}a b\u{a0}", "ab", "\t\n"] {
        let once = trim_chars(&chars_of(s));
        let twice = trim_chars(&once);
        assert_eq!(once, twice);
    }
}
