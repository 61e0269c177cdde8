use fling::glob::{glob_match, Glob, GlobError};

#[test]
fn literal() {
    assert!(glob_match("list", "list"));
    assert!(!glob_match("list", "create"));
    assert!(!glob_match("list", "lists"));
}

#[test]
fn star_suffix() {
    assert!(glob_match("list*", "list"));
    assert!(glob_match("list*", "list all"));
    assert!(glob_match("list*", "list --verbose things"));
    assert!(!glob_match("list*", "create things"));
}

#[test]
fn star_matches_empty() {
    assert!(glob_match("*", ""));
    assert!(glob_match("list*", "list"));
}

#[test]
fn star_in_middle_crosses_spaces_and_slashes() {
    assert!(glob_match("status *", "status /tmp/file"));
    assert!(glob_match("get */config", "get a/b/config"));
    assert!(!glob_match("status *", "log /tmp/file"));
}

#[test]
fn question_mark() {
    assert!(glob_match("v?", "v1"));
    assert!(!glob_match("v?", "v"));
    assert!(!glob_match("v?", "v12"));
}

#[test]
fn empty_pattern_matches_only_empty() {
    assert!(glob_match("", ""));
    assert!(!glob_match("", "anything"));
}

#[test]
fn star_matches_text_that_holds_stars() {
    assert!(glob_match("*", "**"));
    assert!(glob_match("*", "*x"));
    assert!(glob_match("a*", "a*b"));
}

#[test]
fn backtracking_finds_later_placement() {
    assert!(glob_match("*ab", "aab"));
    assert!(glob_match("a*b*c", "axxbyyc"));
    assert!(!glob_match("a*b*c", "axxbyy"));
    assert!(glob_match("*a?c*", "zzabcabc"));
}

#[test]
fn matching_is_case_sensitive() {
    assert!(!glob_match("status", "STATUS"));
}

#[test]
fn trailing_stars_match_nothing_more() {
    assert!(glob_match("list***", "list"));
    assert!(!glob_match("list*?", "list"));
}

#[test]
fn non_ascii_characters_count_once() {
    assert!(glob_match("?", "é"));
    assert!(glob_match("caf?", "café"));
}

#[test]
fn character_class_matches_one_of_its_members() {
    assert!(glob_match("[a-z]", "a"));
    assert!(glob_match("[a-z]", "q"));
    assert!(!glob_match("[a-z]", "A"));
    assert!(!glob_match("[a-z]", "ab"));
    assert!(!glob_match("[a-z]", ""));
    assert!(glob_match("file[0-9].txt", "file7.txt"));
    assert!(glob_match("[abc]x", "bx"));
    assert!(!glob_match("[abc]x", "dx"));
}

#[test]
fn negated_class_matches_everything_else() {
    assert!(glob_match("[!ab]", "c"));
    assert!(!glob_match("[!ab]", "a"));
    assert!(glob_match("[^ab]", "z"));
    assert!(!glob_match("[^ab]", "b"));
}

#[test]
fn class_edge_members_are_literal() {
    // A `]` first in the class and a `-` at either end stand for themselves.
    assert!(glob_match("[]a]", "]"));
    assert!(glob_match("[]a]", "a"));
    assert!(glob_match("[a-]", "-"));
    assert!(glob_match("[a-]", "a"));
    assert!(glob_match("[-a]", "-"));
    assert!(!glob_match("[a-]", "b"));
}

#[test]
fn alternation_matches_any_branch() {
    assert!(glob_match("{a,b}", "a"));
    assert!(glob_match("{a,b}", "b"));
    assert!(!glob_match("{a,b}", "c"));
    assert!(glob_match("{list,show} *", "show all"));
    assert!(!glob_match("{list,show} *", "delete all"));
    assert!(glob_match("{a,}", "a"));
    assert!(glob_match("{a,}", ""));
    assert!(glob_match("x{*.rs,[0-9]}", "x9"));
    assert!(glob_match("x{*.rs,[0-9]}", "xmain.rs"));
}

#[test]
fn comma_outside_braces_is_literal() {
    assert!(glob_match("a,b", "a,b"));
    assert!(!glob_match("a,b", "a"));
}

#[test]
fn backslash_escapes_the_next_character() {
    assert!(glob_match("\\[a-z\\]", "[a-z]"));
    assert!(!glob_match("\\[a-z\\]", "a"));
    assert!(glob_match("\\*", "*"));
    assert!(!glob_match("\\*", "x"));
    assert!(glob_match("\\?", "?"));
    assert!(glob_match("\\{a\\}", "{a}"));
}

#[test]
fn malformed_patterns_are_reported() {
    assert_eq!(Glob::new("[abc").unwrap_err(), GlobError::UnclosedClass);
    assert_eq!(Glob::new("[z-a]").unwrap_err(), GlobError::InvalidRange('z', 'a'));
    assert_eq!(Glob::new("a}").unwrap_err(), GlobError::UnopenedAlternates);
    assert_eq!(Glob::new("{a,b").unwrap_err(), GlobError::UnclosedAlternates);
    assert_eq!(Glob::new("{a,{b}}").unwrap_err(), GlobError::NestedAlternates);
    assert_eq!(Glob::new("abc\\").unwrap_err(), GlobError::DanglingEscape);
    assert!(Glob::new("{a,b}[!x-z]?*\\*").is_ok());
}

#[test]
fn malformed_pattern_matches_nothing() {
    assert!(!glob_match("[abc", "[abc"));
    assert!(!glob_match("[abc", "a"));
    assert!(!glob_match("{a", "{a"));
    assert!(!glob_match("a\\", "a\\"));
}

#[test]
fn compiled_glob_matches_like_glob_match() {
    let g = Glob::new("list*").unwrap();
    assert!(g.is_match("list --all"));
    assert!(!g.is_match("create"));
    let h = Glob::new("[a-c]{x,y}").unwrap();
    assert!(h.is_match("by"));
    assert!(!h.is_match("dy"));
}

#[test]
fn double_star_is_the_same_as_one_star() {
    for text in ["/data/", "/data/a", "/data/a/b/c", "/data/../../etc/passwd", "/other"] {
        assert_eq!(glob_match("/data/**", text), glob_match("/data/*", text));
    }
    assert!(glob_match("/data/**", "/data/a/b"));
    assert!(!glob_match("/data/**", "/srv/a"));
    assert_eq!(glob_match("a**b", "axyzb"), glob_match("a*b", "axyzb"));
    assert_eq!(glob_match("a**b", "ax"), glob_match("a*b", "ax"));
}
