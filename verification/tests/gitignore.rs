//! Ignore files and their patterns.

use warp_file_watcher::path::FilePath;
use warp_file_watcher::repo_metadata::gitignore::{git_ignores, read_patterns, IgnoreFile};
use warp_file_watcher::repo_metadata::glob::match_glob;

fn path(text: &str) -> FilePath {
    FilePath::from_unix(text.as_bytes())
}

fn glob(pattern: &str, text: &str) -> bool {
    match_glob(&pattern.as_bytes().to_vec(), &text.as_bytes().to_vec())
}

fn rule(dir: &str, file: &str) -> IgnoreFile {
    IgnoreFile { dir: path(dir), patterns: read_patterns(&file.as_bytes().to_vec()) }
}

/// Whether one ignore file in `/r` has a file ignored.
fn file_ignored(file: &str, relative: &str) -> bool {
    git_ignores(&vec![rule("/r", file)], &path(&format!("/r/{}", relative)), false)
}

/// Whether one ignore file in `/r` has a directory ignored.
fn dir_ignored(file: &str, relative: &str) -> bool {
    git_ignores(&vec![rule("/r", file)], &path(&format!("/r/{}", relative)), true)
}

#[test]
fn a_plain_pattern_matches_itself() {
    assert!(glob("abc", "abc"));
    assert!(!glob("abc", "abcd"));
    assert!(!glob("abc", "ab"));
    assert!(glob("", ""));
    assert!(!glob("", "a"));
    assert!(!glob("Abc", "abc"));
}

#[test]
fn a_star_stays_within_a_component() {
    assert!(glob("*.log", "a.log"));
    assert!(glob("*.log", ".log"));
    assert!(!glob("*.log", "a.logs"));
    assert!(glob("a*b*c", "aXbYc"));
    assert!(glob("a*b*c", "abc"));
    assert!(glob("a*", "a"));
    assert!(!glob("a*c", "a/c"));
    assert!(!glob("*", "a/b"));
    assert!(glob("*/b", "a/b"));
    assert!(!glob("a*a*a*a*a*a*a*a*a*a*b", "aaaaaaaaaaaaaaaaaaaaaaaaaaaaaaaaaaaaaaaaaaaa"));
}

#[test]
fn a_question_mark_is_one_byte() {
    assert!(glob("a?c", "abc"));
    assert!(!glob("a?c", "ac"));
    assert!(!glob("a?c", "abbc"));
    assert!(!glob("a?c", "a/c"));
}

#[test]
fn a_class_is_one_of_its_bytes() {
    assert!(glob("[abc]", "b"));
    assert!(!glob("[abc]", "d"));
    assert!(glob("[a-c]x", "cx"));
    assert!(!glob("[a-c]x", "dx"));
    assert!(glob("[!a-c]", "d"));
    assert!(!glob("[!a-c]", "b"));
    assert!(glob("[^a-c]", "d"));
    assert!(!glob("[^a-c]", "a"));
    assert!(glob("[a-cx-z]", "y"));
    assert!(glob("[]]", "]"));
    assert!(glob("[]-]", "-"));
    assert!(glob("[!]]", "a"));
    assert!(!glob("[!]]", "]"));
    assert!(glob("[a-]", "-"));
    assert!(glob("[-a]", "-"));
    assert!(glob("[--0]", "/") == false);
    assert!(glob("[--0]", "."));
    assert!(glob("[\\]]", "]"));
    assert!(glob("[\\a-\\c]", "b"));
    assert!(glob("[z-a]", "z"));
    assert!(!glob("[z-a]", "m"));
    assert!(!glob("[/]", "/"));
    assert!(!glob("[!a]", "/"));
    assert!(glob("a[/x]b", "axb"));
    assert!(glob("[[]", "["));
}

#[test]
fn a_class_may_have_a_name() {
    assert!(glob("[[:digit:]]", "7"));
    assert!(!glob("[[:digit:]]", "a"));
    assert!(glob("[[:alpha:]_]", "_"));
    assert!(glob("[[:alpha:]_]", "Q"));
    assert!(glob("[![:space:]]", "x"));
    assert!(!glob("[![:space:]]", " "));
    assert!(glob("[[:xdigit:]][[:upper:]][[:lower:]][[:punct:]]", "fAb!"));
    assert!(glob("[[:alnum:]][[:blank:]][[:graph:]][[:print:]]", "9\t~ "));
    assert!(glob("[[:cntrl:]]", "\u{7f}"));
    assert!(!glob("[[:nothing:]]", "a"));
    assert!(!glob("[[:nothing:]a]", "a"));
    // Without its end it is an ordinary class
    assert!(glob("[[:x]", ":"));
    assert!(glob("[[:x]", "["));
}

#[test]
fn a_malformed_pattern_matches_nothing() {
    assert!(!glob("[abc", "a"));
    assert!(!glob("[abc", "[abc"));
    assert!(!glob("[", "["));
    assert!(!glob("[]", "]"));
    assert!(!glob("a\\", "a"));
    assert!(!glob("a\\", "a\\"));
    assert!(!glob("[a-\\", "a"));
}

#[test]
fn a_backslash_takes_meaning_away() {
    assert!(glob("\\*", "*"));
    assert!(!glob("\\*", "a"));
    assert!(glob("\\a", "a"));
    assert!(glob("\\\\", "\\"));
    assert!(glob("a\\/b", "a/b"));
}

#[test]
fn two_stars_span_components() {
    assert!(glob("**/b", "b"));
    assert!(glob("**/b", "a/b"));
    assert!(glob("**/b", "x/y/b"));
    assert!(!glob("**/b", "ab"));
    assert!(!glob("**/b", "x/ab"));
    assert!(glob("a/**", "a/b"));
    assert!(glob("a/**", "a/b/c"));
    assert!(!glob("a/**", "a"));
    assert!(glob("a/**/b", "a/b"));
    assert!(glob("a/**/b", "a/x/b"));
    assert!(glob("a/**/b", "a/x/y/b"));
    assert!(!glob("a/**/b", "a/xb"));
    assert!(!glob("a/**/b", "ab"));
    // Elsewhere they are stars like any other
    assert!(glob("a**b", "axb"));
    assert!(!glob("a**b", "a/b"));
    assert!(!glob("a**/b", "a/x/b"));
    assert!(glob("a**/b", "ax/b"));
}

#[test]
fn a_file_has_one_pattern_per_line() {
    let file = "# comment\n\n*.log\r\n   \n!keep.log\n/top\nout/\na/b/\n\\#x\n\\!y\nend";
    let patterns = read_patterns(&file.as_bytes().to_vec());
    let shown: Vec<(bool, bool, bool, String)> = patterns
        .iter()
        .map(|pattern| {
            (
                pattern.negated,
                pattern.dir_only,
                pattern.anchored,
                String::from_utf8(pattern.glob.clone()).unwrap(),
            )
        })
        .collect();
    let row = |negated: bool, dir_only: bool, anchored: bool, text: &str| {
        (negated, dir_only, anchored, String::from(text))
    };
    assert_eq!(
        shown,
        vec![
            row(false, false, false, "*.log"),
            row(true, false, false, "keep.log"),
            row(false, false, true, "top"),
            row(false, true, false, "out"),
            row(false, true, true, "a/b"),
            row(false, false, false, "\\#x"),
            row(false, false, false, "\\!y"),
            row(false, false, false, "end"),
        ]
    );
    assert!(read_patterns(&vec![]).is_empty());
    assert_eq!(read_patterns(&vec![0xEF, 0xBB, 0xBF, b'a'])[0].glob, b"a".to_vec());
}

#[test]
fn spaces_at_the_end_of_a_line_are_dropped() {
    assert!(file_ignored("a  ", "a"));
    assert!(file_ignored("a\\ ", "a "));
    assert!(!file_ignored("a\\ ", "a"));
    assert!(file_ignored("a\\   ", "a "));
    assert!(file_ignored("a\\\\ ", "a\\"));
    assert!(file_ignored(" a", " a"));
}

#[test]
fn a_pattern_without_a_slash_matches_at_any_depth() {
    assert!(file_ignored("*.log", "a.log"));
    assert!(file_ignored("*.log", "x/y/a.log"));
    assert!(!file_ignored("*.log", "a.rs"));
    assert!(file_ignored("**", "x/y"));
}

#[test]
fn a_pattern_with_a_slash_is_anchored() {
    assert!(file_ignored("/a", "a"));
    assert!(!file_ignored("/a", "x/a"));
    assert!(file_ignored("x/a", "x/a"));
    assert!(!file_ignored("x/a", "y/x/a"));
    assert!(file_ignored("**/x/a", "y/x/a"));
    assert!(file_ignored("x/**/a", "x/1/2/a"));
    assert!(!file_ignored("x/*", "x/y/z"));
    assert!(!file_ignored("/", "a"));
    assert!(!file_ignored("//a", "a"));
}

#[test]
fn a_slash_at_the_end_is_for_directories() {
    assert!(dir_ignored("out/", "out"));
    assert!(!file_ignored("out/", "out"));
    assert!(dir_ignored("out/", "x/out"));
    assert!(dir_ignored("/out/", "out"));
    assert!(!dir_ignored("/out/", "x/out"));
    assert!(dir_ignored("x/out/", "x/out"));
}

#[test]
fn the_last_matching_pattern_decides() {
    assert!(!file_ignored("*.log\n!keep.log", "keep.log"));
    assert!(file_ignored("*.log\n!keep.log", "a.log"));
    assert!(file_ignored("!keep.log\n*.log", "keep.log"));
    assert!(file_ignored("*.log\n!keep.log\nkeep.*", "keep.log"));
    assert!(!file_ignored("!a", "a"));
}

#[test]
fn the_nearer_file_wins() {
    let rules = vec![rule("/r", "*.log\n!b.log"), rule("/r/x", "!a.log\nb.log")];
    assert!(!git_ignores(&rules, &path("/r/x/a.log"), false));
    assert!(git_ignores(&rules, &path("/r/x/b.log"), false));
    assert!(git_ignores(&rules, &path("/r/x/c.log"), false));
    assert!(git_ignores(&rules, &path("/r/a.log"), false));
    assert!(!git_ignores(&rules, &path("/r/b.log"), false));
    assert!(!git_ignores(&rules, &path("/elsewhere/c.log"), false));
    assert!(!git_ignores(&vec![], &path("/r/a.log"), false));
    // Nothing is said of the directory itself
    assert!(!git_ignores(&vec![rule("/r", "*")], &path("/r"), true));
}
