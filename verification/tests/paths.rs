use code2prompt::file_utils::{sorted_unique_paths, GlobPattern};
use code2prompt::path::{compare_keys, ends_with, key_of, path_components, Component};
use std::cmp::Ordering;
use std::path::Component as C;
use std::path::{Path, PathBuf};

fn chars(s: &str) -> Vec<char> {
    s.chars().collect()
}

fn ours(a: &str, b: &str) -> Ordering {
    match compare_keys(&key_of(&chars(a)), &key_of(&chars(b))) {
        -1 => Ordering::Less,
        0 => Ordering::Equal,
        _ => Ordering::Greater,
    }
}

const SAMPLES: [&str; 30] = [
    "", "/", "//", ".", "./", "..", "../a", "a", "a/", "a//b", "a/./b", "./a", "/a", "/a/b",
    "/a/b/", "/a-b", "/a/b/c", "/a.b", "a/..", "a/../b", "/./a", "/.", "b", "ab", "a b",
    "/é", "/z", "/Z", "./.", "x/./",
];

#[test]
fn order_matches_std_paths() {
    for a in SAMPLES {
        for b in SAMPLES {
            assert_eq!(ours(a, b), Path::new(a).cmp(Path::new(b)), "{:?} vs {:?}", a, b);
        }
    }
}

#[test]
fn components_match_std_paths() {
    for a in SAMPLES {
        let mine = path_components(&chars(a));
        let theirs: Vec<C> = Path::new(a).components().collect();
        assert_eq!(mine.len(), theirs.len(), "{:?}", a);
        for (m, t) in mine.iter().zip(theirs.iter()) {
            match (m, t) {
                (Component::RootDir, C::RootDir) => {}
                (Component::CurDir, C::CurDir) => {}
                (Component::ParentDir, C::ParentDir) => {}
                (Component::Normal(n), C::Normal(o)) => {
                    assert_eq!(n.iter().collect::<String>(), o.to_str().unwrap())
                }
                _ => panic!("component differs in {:?}", a),
            }
        }
    }
}

#[test]
fn ends_with_matches_std_paths() {
    for a in SAMPLES {
        for b in SAMPLES {
            assert_eq!(
                ends_with(&chars(a), &chars(b)),
                Path::new(a).ends_with(Path::new(b)),
                "{:?} ends with {:?}",
                a,
                b
            );
        }
    }
}

#[test]
fn law_path_order_is_total_and_transitive() {
    for a in SAMPLES {
        assert_eq!(ours(a, a), Ordering::Equal);
        for b in SAMPLES {
            assert_eq!(ours(a, b), ours(b, a).reverse());
            for c in SAMPLES {
                if ours(a, b) == Ordering::Less && ours(b, c) == Ordering::Less {
                    assert_eq!(ours(a, c), Ordering::Less);
                }
            }
        }
    }
}

#[test]
fn sorted_unique_matches_sort_and_dedup() {
    let input: Vec<String> = vec![
        "/b/x", "/a/y", "/b/x", "/a//y", "/a/y/", "/c", "/a", "/b/x/.", "/a/y",
    ]
    .into_iter()
    .map(|s| s.to_string())
    .collect();
    let mut expected: Vec<PathBuf> = input.iter().map(PathBuf::from).collect();
    expected.sort();
    expected.dedup();
    let got = sorted_unique_paths(&input);
    let got_paths: Vec<PathBuf> = got.iter().map(PathBuf::from).collect();
    assert_eq!(got_paths, expected);
    // The first spelling of each path is kept, as a stable sort and dedup do.
    assert_eq!(got, vec!["/a".to_string(), "/a/y".to_string(), "/b/x".to_string(), "/c".to_string()]);
    let strings: Vec<String> = expected.iter().map(|p| p.to_str().unwrap().to_string()).collect();
    assert_eq!(got, strings);
}

#[test]
fn sorted_unique_of_nothing() {
    assert!(sorted_unique_paths(&vec![]).is_empty());
}

#[test]
fn sorted_unique_keeps_an_ordered_list() {
    let input: Vec<String> = SAMPLES.iter().map(|s| s.to_string()).collect();
    let once = sorted_unique_paths(&input);
    assert_eq!(sorted_unique_paths(&once), once);
}

#[test]
fn glob_rejects_bad_patterns() {
    assert!(GlobPattern::new("[").is_none());
    assert!(GlobPattern::new("a***").is_none());
    assert!(GlobPattern::new("*.rs").is_some());
}

#[test]
fn glob_selects_matching_positions() {
    let candidates: Vec<String> = vec!["src/main.rs", "README.md", "src/a/b.rs", "lib.rs", "x.rsx"]
        .into_iter()
        .map(|s| s.to_string())
        .collect();
    let g = GlobPattern::new("*.rs").unwrap();
    assert_eq!(g.select_matching(&candidates), vec![0, 2, 3]);
    let g = GlobPattern::new("src/*.rs").unwrap();
    assert_eq!(g.select_matching(&candidates), vec![0, 2]);
    let g = GlobPattern::new("**/b.rs").unwrap();
    assert_eq!(g.select_matching(&candidates), vec![2]);
    let g = GlobPattern::new("nothing").unwrap();
    assert!(g.select_matching(&candidates).is_empty());
}

#[test]
fn glob_agrees_with_glob_crate() {
    let candidates: Vec<String> = vec!["a.rs", "b/c.rs", "d.txt", "e/f/g.md"]
        .into_iter()
        .map(|s| s.to_string())
        .collect();
    for pat in ["*", "*.rs", "?.rs", "[ab]*", "e/**", "**/*.md"] {
        let g = GlobPattern::new(pat).unwrap();
        let p = glob::Pattern::new(pat).unwrap();
        let expected: Vec<usize> = candidates
            .iter()
            .enumerate()
            .filter(|(_, c)| p.matches_path(Path::new(c.as_str())))
            .map(|(i, _)| i)
            .collect();
        assert_eq!(g.select_matching(&candidates), expected, "{}", pat);
    }
}

#[test]
fn law_dedup_of_joined_lists() {
    let a: Vec<String> = vec!["/c", "/a", "/c/"].into_iter().map(String::from).collect();
    let b: Vec<String> = vec!["/b", "//a", "/d"].into_iter().map(String::from).collect();
    let mut ab = a.clone();
    ab.extend(b.iter().cloned());
    let mut parts = sorted_unique_paths(&a);
    parts.extend(sorted_unique_paths(&b));
    assert_eq!(sorted_unique_paths(&ab), sorted_unique_paths(&parts));
    let mut ba = b.clone();
    ba.extend(a.iter().cloned());
    let sorted_ab: Vec<PathBuf> = sorted_unique_paths(&ab).iter().map(PathBuf::from).collect();
    let sorted_ba: Vec<PathBuf> = sorted_unique_paths(&ba).iter().map(PathBuf::from).collect();
    assert_eq!(sorted_ab, sorted_ba);
}
