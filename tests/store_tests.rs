use yx::error::YakError;
use yx::state::YakState;
use yx::store::FilesystemStorage;
use yx::yak::Yak;

fn store() -> FilesystemStorage {
    FilesystemStorage::new(String::from("/tmp/.yaks"))
}

#[test]
fn add_creates_task_and_ancestors() {
    let mut s = store();
    s.add("a/b/c").unwrap();
    let c = s.get("a/b/c").unwrap();
    assert_eq!(c.state, YakState::Todo);
    assert_eq!(c.context, "");
    assert!(s.get("a").is_some());
    assert!(s.get("a/b").is_some());
    assert_eq!(s.len(), 3);
}

#[test]
fn add_existing_keeps_one_entry_and_resets_it() {
    let mut s = store();
    s.add("a").unwrap();
    s.update_state("a", YakState::Done).unwrap();
    s.set_context("a", "note").unwrap();
    s.add("a").unwrap();
    assert_eq!(s.len(), 1);
    let a = s.get("a").unwrap();
    assert_eq!(a.state, YakState::Todo);
    assert_eq!(a.context, "");
}

#[test]
fn add_rejects_invalid_names() {
    let mut s = store();
    for bad in ["", "a//b", ".hidden", "a/.b", "a/", "/a"] {
        match s.add(bad) {
            Err(YakError::InvalidName(n)) => assert_eq!(n, bad),
            other => panic!("unexpected {:?}", other),
        }
    }
    assert_eq!(s.len(), 0);
}

#[test]
fn done_blocked_by_open_child() {
    let mut s = store();
    s.add("a/b").unwrap();
    match s.update_state("a", YakState::Done) {
        Err(YakError::HasIncompleteChildren(n)) => assert_eq!(n, "a"),
        other => panic!("unexpected {:?}", other),
    }
    assert_eq!(s.get("a").unwrap().state, YakState::Todo);
    s.update_state("a/b", YakState::Done).unwrap();
    s.update_state("a", YakState::Done).unwrap();
    assert_eq!(s.get("a").unwrap().state, YakState::Done);
}

#[test]
fn grandchild_does_not_block_directly() {
    let mut s = store();
    s.add("a/b/c").unwrap();
    s.update_state("a/b", YakState::Done).unwrap_err();
    s.update_state_recursive("a/b", YakState::Done).unwrap();
    s.update_state("a/b/c", YakState::Todo).unwrap();
    // only the direct child "a/b" is checked for "a"
    s.update_state("a", YakState::Done).unwrap();
    assert!(!s.has_incomplete_children("a"));
    assert!(s.has_incomplete_children("a/b"));
}

#[test]
fn undo_is_never_blocked() {
    let mut s = store();
    s.add("a/b").unwrap();
    s.update_state("a", YakState::Todo).unwrap();
}

#[test]
fn recursive_update_sets_whole_subtree() {
    let mut s = store();
    s.add("a/b/c").unwrap();
    s.add("a/d").unwrap();
    s.add("x").unwrap();
    s.update_state_recursive("a", YakState::Done).unwrap();
    for n in ["a", "a/b", "a/b/c", "a/d"] {
        assert_eq!(s.get(n).unwrap().state, YakState::Done);
    }
    assert_eq!(s.get("x").unwrap().state, YakState::Todo);
    s.update_state_recursive("a/b", YakState::Todo).unwrap();
    assert_eq!(s.get("a/b/c").unwrap().state, YakState::Todo);
    assert_eq!(s.get("a").unwrap().state, YakState::Done);
}

#[test]
fn find_yak_exact_fuzzy_missing_ambiguous() {
    let mut s = store();
    s.add("alpha/beta").unwrap();
    s.add("gamma").unwrap();
    assert_eq!(s.find_yak("alpha").unwrap(), Some(String::from("alpha")));
    assert_eq!(s.find_yak("bet").unwrap(), Some(String::from("alpha/beta")));
    assert_eq!(s.find_yak("zzz").unwrap(), None);
    match s.find_yak("a") {
        Err(YakError::Ambiguous(t)) => assert_eq!(t, "a"),
        other => panic!("unexpected {:?}", other),
    }
    assert_eq!(s.try_exact_match("gamma"), Some(String::from("gamma")));
    assert_eq!(s.try_exact_match("gam"), None);
    assert_eq!(s.try_fuzzy_match("amm").unwrap(), Some(String::from("gamma")));
}

#[test]
fn exact_match_wins_over_longer_paths() {
    let mut s = store();
    s.add("a/ab").unwrap();
    assert_eq!(s.find_yak("a").unwrap(), Some(String::from("a")));
}

#[test]
fn operations_on_missing_names_fail() {
    let mut s = store();
    s.add("a").unwrap();
    assert!(matches!(s.update_state("q", YakState::Done), Err(YakError::NotFound(n)) if n == "q"));
    assert!(matches!(s.remove("q"), Err(YakError::NotFound(_))));
    assert!(matches!(s.get_context("q"), Err(YakError::NotFound(_))));
    assert!(s.get("q").is_none());
}

#[test]
fn remove_deletes_subtree() {
    let mut s = store();
    s.add("a/b/c").unwrap();
    s.add("ab").unwrap();
    s.remove("a").unwrap();
    assert!(s.get("a").is_none());
    assert!(s.get("a/b").is_none());
    assert!(s.get("a/b/c").is_none());
    assert!(s.get("ab").is_some());
    assert_eq!(s.len(), 1);
}

#[test]
fn rename_moves_subtree() {
    let mut s = store();
    s.add("a/b").unwrap();
    s.set_context("a", "hello").unwrap();
    s.update_state("a/b", YakState::Done).unwrap();
    s.rename("a", "x/y").unwrap();
    assert!(s.get("a").is_none());
    assert!(s.get("a/b").is_none());
    assert_eq!(s.get("x/y").unwrap().context, "hello");
    assert_eq!(s.get("x/y/b").unwrap().state, YakState::Done);
    assert!(s.get("x").is_some());
    assert_eq!(s.len(), 3);
}

#[test]
fn rename_onto_taken_or_inside_fails() {
    let mut s = store();
    s.add("a/b").unwrap();
    s.add("c").unwrap();
    assert!(matches!(s.rename("a", "c"), Err(YakError::DestinationExists(n)) if n == "c"));
    assert!(matches!(s.rename("a", "a/z"), Err(YakError::DestinationExists(_))));
    assert!(matches!(s.rename("a", "bad//name"), Err(YakError::InvalidName(_))));
    assert_eq!(s.len(), 3);
}

#[test]
fn context_round_trip() {
    let mut s = store();
    s.add("task").unwrap();
    s.set_context("tas", "some notes").unwrap();
    assert_eq!(s.get_context("task").unwrap(), "some notes");
}

#[test]
fn legacy_marker_migrates_once() {
    let mut s = store();
    assert!(s.load(Yak::new(String::from("old")), true));
    assert!(s.has_legacy_marker("old"));
    s.migrate_done_to_state();
    assert_eq!(s.get("old").unwrap().state, YakState::Done);
    assert!(!s.has_legacy_marker("old"));
    s.migrate_done_to_state();
    assert_eq!(s.get("old").unwrap().state, YakState::Done);
    assert!(!s.has_legacy_marker("old"));
}

#[test]
fn load_skips_invalid_and_duplicate() {
    let mut s = store();
    assert!(s.load(Yak::new(String::from("a")).with_mtime(5), false));
    assert!(!s.load(Yak::new(String::from("a")), false));
    assert!(!s.load(Yak::new(String::from(".git")), false));
    assert_eq!(s.len(), 1);
    assert_eq!(s.get("a").unwrap().mtime, 5);
}

#[test]
fn list_returns_every_task() {
    let mut s = store();
    s.add("a").unwrap();
    s.add("a/b").unwrap();
    s.add("a/c").unwrap();
    let mut names: Vec<String> = s.list().into_iter().map(|y| y.name).collect();
    names.sort();
    assert_eq!(names, vec!["a", "a/b", "a/c"]);
    assert!(store().list().is_empty());
}

#[test]
fn end_to_end_done_flow() {
    let mut s = store();
    s.add("a").unwrap();
    s.add("a/b").unwrap();
    s.add("a/c").unwrap();
    let all = s.list();
    assert_eq!(all.len(), 3);
    assert!(all.iter().all(|y| y.state == YakState::Todo));
    assert!(matches!(s.update_state("a", YakState::Done), Err(YakError::HasIncompleteChildren(_))));
    s.update_state("a/b", YakState::Done).unwrap();
    s.update_state("a/c", YakState::Done).unwrap();
    s.update_state("a", YakState::Done).unwrap();
    assert_eq!(s.get("a").unwrap().state, YakState::Done);
}

#[test]
fn file_paths() {
    let s = store();
    assert_eq!(s.base_path(), "/tmp/.yaks");
    assert_eq!(s.yak_path("a/b"), "/tmp/.yaks/a/b");
    assert_eq!(s.state_file("a"), "/tmp/.yaks/a/state");
    assert_eq!(s.context_file("a"), "/tmp/.yaks/a/context.md");
}
