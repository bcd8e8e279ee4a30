use yx::git::{trim_text, GitAdapter, Reconcile, SyncPlan};
use yx::path::{contains_text, is_direct_child_of, is_under, same_text, validate_yak_name};
use yx::state::YakState;
use yx::terminal::{OutputFormat, TerminalFormatter, YakFilter};
use yx::yak::Yak;
use yx::error::YakError;

#[test]
fn state_text_round_trip() {
    assert_eq!(YakState::Todo.as_str(), "todo");
    assert_eq!(YakState::Done.as_str(), "done");
    assert_eq!(YakState::from_text("done"), YakState::Done);
    assert_eq!(YakState::from_text("  done\n"), YakState::Done);
    assert_eq!(YakState::from_text("todo"), YakState::Todo);
    assert_eq!(YakState::from_text("garbage"), YakState::Todo);
    assert_eq!(YakState::from_text(""), YakState::Todo);
    assert_eq!(YakState::from_text("do ne"), YakState::Todo);
}

#[test]
fn yak_accessors() {
    let y = Yak::new(String::from("a/b/c"));
    assert_eq!(y.basename(), "c");
    assert_eq!(y.depth(), 2);
    assert_eq!(y.parent(), Some(String::from("a/b")));
    assert!(y.is_child_of("a/b"));
    assert!(!y.is_child_of("a"));
    let top = Yak::new(String::from("top"));
    assert_eq!(top.basename(), "top");
    assert_eq!(top.depth(), 0);
    assert_eq!(top.parent(), None);
    assert!(top.is_child_of(""));
    assert!(top.is_child_of("."));
    assert!(!y.is_child_of("."));
}

#[test]
fn yak_builders() {
    let y = Yak::new(String::from("n"))
        .with_state(YakState::Done)
        .with_context(String::from("ctx"))
        .with_mtime(42);
    assert_eq!(y.state, YakState::Done);
    assert_eq!(y.context, "ctx");
    assert_eq!(y.mtime, 42);
    let d = y.duplicate();
    assert_eq!(d.name, "n");
    assert_eq!(d.mtime, 42);
}

#[test]
fn path_helpers() {
    assert!(validate_yak_name("a/b c/d").is_ok());
    assert!(matches!(validate_yak_name("a/"), Err(YakError::InvalidName(_))));
    assert!(same_text("abc", "abc"));
    assert!(!same_text("abc", "abd"));
    assert!(contains_text("alpha/beta", "a/b"));
    assert!(contains_text("abc", ""));
    assert!(!contains_text("abc", "abcd"));
    assert!(is_under("a/b", "a"));
    assert!(is_under("a", "a"));
    assert!(!is_under("ab", "a"));
    assert!(is_direct_child_of("a/b", "a"));
    assert!(!is_direct_child_of("a/b/c", "a"));
}

#[test]
fn trimming_and_refs() {
    assert_eq!(trim_text("  abc123\n"), "abc123");
    assert_eq!(trim_text("\n"), "");
    assert_eq!(GitAdapter::parse_ref_output(true, "deadbeef\n"), Some(String::from("deadbeef")));
    assert_eq!(GitAdapter::parse_ref_output(false, "fatal"), None);
}

#[test]
fn commit_args() {
    let with_parent = GitAdapter::commit_tree_args("f00d", Some(String::from("c0ffee")), "add x");
    assert_eq!(with_parent, vec!["commit-tree", "f00d", "-pc0ffee", "-m", "add x"]);
    let first = GitAdapter::commit_tree_args("f00d", None, "sync");
    assert_eq!(first, vec!["commit-tree", "f00d", "-m", "sync"]);
    let g = GitAdapter::new(String::from("/w"), String::from("/w/.yaks"));
    assert_eq!(g.git_args(&vec![String::from("write-tree")]), vec!["-C", "/w", "write-tree"]);
    assert_eq!(g.work_tree(), "/w");
    assert_eq!(g.yaks_path(), "/w/.yaks");
}

#[test]
fn sync_preconditions() {
    assert!(matches!(GitAdapter::check_sync(false, true), Err(YakError::NotARepository)));
    assert!(matches!(GitAdapter::check_sync(true, false), Err(YakError::NoRemote)));
    assert!(GitAdapter::check_sync(true, true).is_ok());
    assert!(GitAdapter::log_command_needed(true, true));
    assert!(!GitAdapter::log_command_needed(true, false));
    assert!(!GitAdapter::log_command_needed(false, true));
}

#[test]
fn sync_adopts_remote_into_empty_tree() {
    let plan = GitAdapter::plan_sync(false, Some(String::from("abc123")), false);
    assert_eq!(plan, SyncPlan { reconcile: Reconcile::Adopt(String::from("abc123")), push: true });
}

#[test]
fn sync_plans_other_cases() {
    assert_eq!(
        GitAdapter::plan_sync(true, Some(String::from("r")), true),
        SyncPlan { reconcile: Reconcile::Commit, push: true }
    );
    assert_eq!(GitAdapter::plan_sync(true, None, true), SyncPlan { reconcile: Reconcile::Keep, push: true });
    assert_eq!(GitAdapter::plan_sync(false, None, false), SyncPlan { reconcile: Reconcile::Keep, push: false });
}

#[test]
fn markdown_lines() {
    let done = Yak::new(String::from("a/b")).with_state(YakState::Done);
    assert_eq!(TerminalFormatter::format_markdown_yak(&done), "\x1b[90m  - [x] b\x1b[0m");
    let todo = Yak::new(String::from("a"));
    assert_eq!(TerminalFormatter::format_markdown_yak(&todo), "- [ ] a");
    assert_eq!(TerminalFormatter::format_plain_yak(&done), "a/b");
    assert!(TerminalFormatter::should_display(&done, &YakFilter::Done));
    assert!(!TerminalFormatter::should_display(&done, &YakFilter::NotDone));
    assert!(TerminalFormatter::should_display(&todo, &YakFilter::All));
}

#[test]
fn listing_text() {
    let f = TerminalFormatter::new();
    assert_eq!(f.format_yak_list(&vec![], OutputFormat::Markdown, YakFilter::All), "You have no yaks. Are you done?");
    assert_eq!(f.format_yak_list(&vec![], OutputFormat::Plain, YakFilter::All), "");
    let yaks = vec![
        Yak::new(String::from("a")).with_mtime(3),
        Yak::new(String::from("a/y")).with_mtime(2),
        Yak::new(String::from("a/x")).with_mtime(5).with_state(YakState::Done),
        Yak::new(String::from("b")).with_mtime(1),
    ];
    assert_eq!(f.format_yak_list(&yaks, OutputFormat::Plain, YakFilter::All), "a\na/x\na/y\nb");
    assert_eq!(f.format_yak_list(&yaks, OutputFormat::Plain, YakFilter::NotDone), "a\na/y\nb");
    assert_eq!(
        f.format_yak_list(&yaks, OutputFormat::Markdown, YakFilter::Done),
        "\x1b[90m  - [x] x\x1b[0m"
    );
}

#[test]
fn siblings_sort_done_first_then_older() {
    let yaks = vec![
        Yak::new(String::from("p/new")).with_mtime(9),
        Yak::new(String::from("p/old")).with_mtime(1),
        Yak::new(String::from("p/fin")).with_mtime(5).with_state(YakState::Done),
    ];
    let sorted = TerminalFormatter::sort_yaks(&yaks);
    let names: Vec<&str> = sorted.iter().map(|y| y.name.as_str()).collect();
    assert_eq!(names, vec!["p/fin", "p/old", "p/new"]);
}

#[test]
fn context_display() {
    let f = TerminalFormatter::new();
    let plain = Yak::new(String::from("a"));
    assert_eq!(f.format_yak_with_context(&plain), "a");
    let noted = Yak::new(String::from("a")).with_context(String::from("why"));
    assert_eq!(f.format_yak_with_context(&noted), "a\n\nwhy");
    assert_eq!(f.format_empty_list(OutputFormat::Plain), "");
}

#[test]
fn error_messages() {
    assert_eq!(YakError::NotFound(String::from("x")).message(), "Error: yak 'x' not found");
    assert_eq!(YakError::Ambiguous(String::from("x")).message(), "Error: yak name 'x' is ambiguous");
    assert_eq!(YakError::NoRemote.message(), "Error: no origin remote configured");
    assert_eq!(YakError::NotARepository.message(), "Error: not in a git repository");
}
