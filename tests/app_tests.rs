use yx::app::{get_yaks_path, parse_filter, parse_format, YakApp};
use yx::error::YakError;
use yx::git::GitAdapter;
use yx::state::YakState;
use yx::store::FilesystemStorage;
use yx::terminal::{OutputFormat, TerminalFormatter, YakFilter};
use yx::yak::Yak;

fn app() -> YakApp {
    YakApp::new(
        FilesystemStorage::new(String::from("/w/.yaks")),
        GitAdapter::new(String::from("/w"), String::from("/w/.yaks")),
        TerminalFormatter::new(),
    )
}

#[test]
fn command_line_helpers() {
    assert_eq!(get_yaks_path("/w"), "/w/.yaks");
    assert_eq!(parse_format(Some("plain")), OutputFormat::Plain);
    assert_eq!(parse_format(Some("raw")), OutputFormat::Plain);
    assert_eq!(parse_format(Some("md")), OutputFormat::Markdown);
    assert_eq!(parse_format(None), OutputFormat::Markdown);
    assert_eq!(parse_filter(Some("not-done")), YakFilter::NotDone);
    assert_eq!(parse_filter(Some("done")), YakFilter::Done);
    assert_eq!(parse_filter(Some("other")), YakFilter::All);
    assert_eq!(parse_filter(None), YakFilter::All);
}

#[test]
fn preconditions() {
    let a = app();
    assert!(matches!(a.check_preconditions(false, true), Err(YakError::NotARepository)));
    assert!(matches!(a.check_preconditions(true, false), Err(YakError::NotIgnored)));
    assert!(a.check_preconditions(true, true).is_ok());
    assert!(matches!(a.sync(true, false), Err(YakError::NoRemote)));
}

#[test]
fn new_migrates_legacy_markers() {
    let mut s = FilesystemStorage::new(String::from("/w/.yaks"));
    s.load(Yak::new(String::from("old")), true);
    let a = YakApp::new(s, GitAdapter::new(String::from("/w"), String::from("/w/.yaks")), TerminalFormatter::new());
    assert_eq!(a.storage().get("old").unwrap().state, YakState::Done);
}

#[test]
fn commands_return_log_messages() {
    let mut a = app();
    assert_eq!(a.add("fix bug/write test").unwrap(), "add fix bug/write test");
    assert_eq!(a.done("write", false, false).unwrap(), "done fix bug/write test");
    assert_eq!(a.done("write", true, false).unwrap(), "done --undo fix bug/write test");
    assert_eq!(a.done("fix bug", false, true).unwrap(), "done --recursive fix bug");
    assert_eq!(a.edit_context("fix bug", "details").unwrap(), "context fix bug");
    assert_eq!(a.show_context("fix").unwrap_err().message(), "Error: yak name 'fix' is ambiguous");
    assert_eq!(a.show_context("fix bug").unwrap(), "fix bug\n\ndetails");
    assert_eq!(a.rename("fix bug", "bugfix").unwrap(), "move fix bug bugfix");
    assert_eq!(a.remove("bugfix").unwrap(), "rm bugfix");
    assert!(matches!(a.remove("bugfix"), Err(YakError::NotFound(_))));
}

#[test]
fn prune_removes_done_tasks() {
    let mut a = app();
    a.add("a/b").unwrap();
    a.add("c").unwrap();
    a.done("a", false, true).unwrap();
    let msgs = a.prune();
    assert!(msgs.contains(&String::from("rm a")));
    assert!(a.storage().get("a").is_none());
    assert!(a.storage().get("a/b").is_none());
    assert!(a.storage().get("c").is_some());
}

#[test]
fn completion_filters() {
    let mut a = app();
    a.add("x").unwrap();
    a.add("y").unwrap();
    a.done("x", false, false).unwrap();
    let mut all = a.completions(None, None);
    all.sort();
    assert_eq!(all, vec!["x", "y"]);
    assert_eq!(a.completions(Some("done"), None), vec!["y"]);
    assert_eq!(a.completions(Some("done"), Some("--undo")), vec!["x"]);
}

#[test]
fn list_through_app() {
    let mut a = app();
    assert_eq!(a.list(OutputFormat::Markdown, YakFilter::All), "You have no yaks. Are you done?");
    a.add("a").unwrap();
    a.add("a/b").unwrap();
    assert_eq!(a.list(OutputFormat::Markdown, YakFilter::All), "- [ ] a\n  - [ ] b");
}
