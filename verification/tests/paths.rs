use herdr_sidebar::paths::{join, lexical_normal, same_path_exec, task_slug};
use herdr_sidebar::strs::{decimal_string, is_whitespace, lines_of, str_lt, trimmed};

#[test]
fn join_follows_path_join() {
    assert_eq!(join("/root", "a/b"), "/root/a/b");
    assert_eq!(join("/root/", "a"), "/root/a");
    assert_eq!(join("/root", "/abs"), "/abs");
    assert_eq!(join("", "rel"), "rel");
}

#[test]
fn same_path_compares_components() {
    assert!(same_path_exec("/a/b", "/a//b/"));
    assert!(same_path_exec("/a/./b", "/a/b"));
    assert!(!same_path_exec("/a/b", "a/b"));
    assert!(!same_path_exec("/a/../b", "/b"));
    assert!(!same_path_exec("./a", "a"));
}

#[test]
fn lexical_normal_resolves_dots() {
    assert_eq!(lexical_normal("/a/./b/../c/"), "/a/c");
    assert_eq!(lexical_normal("/../a"), "/a");
    assert_eq!(lexical_normal("a/../../b"), "b");
    assert_eq!(lexical_normal("/"), "/");
    assert_eq!(lexical_normal("./x//y"), "x/y");
}

#[test]
fn task_slug_is_the_directory_under_worktrees() {
    assert_eq!(task_slug("/ctl/worktrees/fix-1/repo", "/ctl").as_deref(), Some("fix-1"));
    assert_eq!(task_slug("/ctl/worktrees//fix-1", "/ctl/").as_deref(), Some("fix-1"));
    assert_eq!(task_slug("/ctl/worktrees", "/ctl"), None);
    assert_eq!(task_slug("/ctl/other/fix-1", "/ctl"), None);
    assert_eq!(task_slug("/elsewhere/worktrees/x", "/ctl"), None);
}

#[test]
fn string_helpers_match_std() {
    assert_eq!(trimmed("\u{3000} a b \t\n"), "a b");
    assert_eq!(trimmed(" \n"), "");
    assert_eq!(lines_of("a\r\nb\n\nc\r"), vec!["a", "b", "", "c\r"]);
    assert_eq!(lines_of("a\n"), vec!["a"]);
    assert!(lines_of("").is_empty());
    assert_eq!(decimal_string(0), "0");
    assert_eq!(decimal_string(1203), "1203");
}

#[test]
fn is_whitespace_agrees_with_std_on_every_char() {
    for u in 0..=0x10FFFFu32 {
        if let Some(c) = char::from_u32(u) {
            assert_eq!(is_whitespace(c), c.is_whitespace(), "{u:#x}");
        }
    }
}

#[test]
fn str_lt_orders_as_str_does() {
    let words = ["", "a", "ab", "b", "Z", "\u{e9}", "\u{1F600}", "a\u{e9}", "ab"];
    for x in words {
        for y in words {
            assert_eq!(str_lt(x, y), x < y, "{x:?} < {y:?}");
        }
    }
}
