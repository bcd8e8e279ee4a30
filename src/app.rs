use vstd::prelude::*;

use crate::error::{err_view, ErrorView, YakError};
use crate::git::GitAdapter;
use crate::path::{same_text, under};
use crate::state::YakState;
use crate::store::{
    has_incomplete, migrated, moved, resolve, unresolved_error, with_ancestors, with_subtree_state,
    without_subtree, blocked_destination, FilesystemStorage, Resolution, TaskData, TaskMap,
};
use crate::path::valid_name;
use crate::terminal::{empty_list_text, join_lines, listing_ordered, shown_lines, views, OutputFormat, TerminalFormatter, YakFilter};
use crate::yak::YakView;

verus! {

broadcast use vstd::seq_lib::to_multiset_contains;

/// The log message of a `done` command on the resolved path `k`.
pub open spec fn done_message(k: Seq<char>, undo: bool, recursive: bool) -> Seq<char> {
    if recursive {
        "done --recursive "@ + k
    } else if undo {
        "done --undo "@ + k
    } else {
        "done "@ + k
    }
}

/// The tree with every done task removed, together with everything below it.
pub open spec fn pruned(m: TaskMap) -> TaskMap {
    Map::new(
        |c: Seq<char>|
            m.contains_key(c) && !(exists|d: Seq<char>|
                m.contains_key(d) && m[d].state == YakState::Done && #[trigger] under(c, d)),
        |c: Seq<char>| m[c],
    )
}

/// `k` is a done task of `m`.
pub open spec fn done_key(m: TaskMap, k: Seq<char>) -> bool {
    m.contains_key(k) && m[k].state == YakState::Done
}

/// A listed task agrees with the tree.
pub open spec fn listed_as(m: TaskMap, y: YakView) -> bool {
    m.contains_key(y.name) && y.state == m[y.name].state
}

/// `msg` is the removal message of a done task of `m`.
pub open spec fn removal_of_done(m: TaskMap, msg: Seq<char>) -> bool {
    exists|d: Seq<char>| done_key(m, d) && msg == "rm "@ + d
}

/// `k` is a task of `m` that a completion request wants.
pub open spec fn wanted_key(m: TaskMap, k: Seq<char>, done_cmd: bool, undo_flag: bool) -> bool {
    m.contains_key(k) && completion_wanted(m[k].state, done_cmd, undo_flag)
}

/// One of the strings reads `k`.
pub open spec fn names_have(names: Seq<String>, k: Seq<char>) -> bool {
    exists|a: int| 0 <= a < names.len() && names[a]@ == k
}

/// Whether a completion request wants a task in state `s`: for `done --undo` only done
/// tasks, for `done` only open ones, else all.
pub open spec fn completion_wanted(s: YakState, done_cmd: bool, undo_flag: bool) -> bool {
    if done_cmd && undo_flag {
        s == YakState::Done
    } else if done_cmd {
        s != YakState::Done
    } else {
        true
    }
}

/// The task directory of a work tree: `<work tree>/.yaks`.
pub fn get_yaks_path(work_tree: &str) -> (r: String)
    ensures
        r@ == work_tree@ + "/.yaks"@,
{
    let mut p = String::from_str(work_tree);
    p.append("/.yaks");
    p
}

/// The listing format named on the command line: `plain` or `raw`, else markdown.
pub fn parse_format(format_str: Option<&str>) -> (r: OutputFormat)
    ensures
        r == (if format_str is Some && (format_str->Some_0@ == "plain"@ || format_str->Some_0@ == "raw"@) {
            OutputFormat::Plain
        } else {
            OutputFormat::Markdown
        }),
{
    match format_str {
        Some(f) => {
            if same_text(f, "plain") || same_text(f, "raw") {
                OutputFormat::Plain
            } else {
                OutputFormat::Markdown
            }
        },
        None => OutputFormat::Markdown,
    }
}

/// The listing filter named on the command line: `not-done`, `done`, else all.
pub fn parse_filter(filter_str: Option<&str>) -> (r: YakFilter)
    ensures
        r == (if format_is(filter_str, "not-done"@) {
            YakFilter::NotDone
        } else if format_is(filter_str, "done"@) {
            YakFilter::Done
        } else {
            YakFilter::All
        }),
{
    match filter_str {
        Some(f) => {
            if same_text(f, "not-done") {
                YakFilter::NotDone
            } else if same_text(f, "done") {
                YakFilter::Done
            } else {
                YakFilter::All
            }
        },
        None => YakFilter::All,
    }
}

/// The option holds exactly `word`.
pub open spec fn format_is(o: Option<&str>, word: Seq<char>) -> bool {
    o is Some && o->Some_0@ == word
}

fn with_prefix(head: &str, k: &str) -> (r: String)
    ensures
        r@ == head@ + k@,
{
    let mut s = String::from_str(head);
    s.append(k);
    s
}

/// Runs the commands on the task store; each mutating command returns the message
/// under which the new snapshot is logged.
pub struct YakApp {
    storage: FilesystemStorage,
    git: GitAdapter,
    formatter: TerminalFormatter,
}

impl YakApp {
    /// The task tree.
    pub closed spec fn tasks(&self) -> TaskMap {
        self.storage@
    }

    pub closed spec fn wf(&self) -> bool {
        self.storage.wf()
    }

    /// Takes the collaborators; legacy `done` markers are migrated on the way in.
    pub fn new(storage: FilesystemStorage, git: GitAdapter, formatter: TerminalFormatter) -> (r: YakApp)
        requires
            storage.wf(),
        ensures
            r.wf(),
            r.tasks() == migrated(storage@),
    {
        let mut storage = storage;
        storage.migrate_done_to_state();
        YakApp { storage, git, formatter }
    }

    pub fn storage(&self) -> (r: &FilesystemStorage)
        requires
            self.wf(),
        ensures
            r.wf(),
            r@ == self.tasks(),
    {
        &self.storage
    }

    pub fn git(&self) -> &GitAdapter {
        &self.git
    }

    /// Commands run only inside a repository whose task directory is git-ignored.
    pub fn check_preconditions(&self, is_repository: bool, yaks_ignored: bool) -> (r: Result<(), YakError>)
        ensures
            r is Ok <==> is_repository && yaks_ignored,
            !is_repository ==> r is Err && r->Err_0@ == ErrorView::NotARepository,
            is_repository && !yaks_ignored ==> r is Err && r->Err_0@ == ErrorView::NotIgnored,
    {
        if !is_repository {
            return Err(YakError::NotARepository);
        }
        if !yaks_ignored {
            return Err(YakError::NotIgnored);
        }
        Ok(())
    }

    /// Adds a task; the message is `add <name>`.
    pub fn add(&mut self, name: &str) -> (r: Result<String, YakError>)
        requires
            old(self).wf(),
        ensures
            final(self).wf(),
            r is Ok <==> valid_name(name@),
            r is Ok ==> final(self).tasks() == crate::store::added(old(self).tasks(), name@) && r->Ok_0@ == "add "@ + name@,
            r is Err ==> r->Err_0@ == ErrorView::InvalidName(name@) && final(self).tasks() == old(self).tasks(),
    {
        match self.storage.add(name) {
            Ok(()) => Ok(with_prefix("add ", name)),
            Err(e) => Err(e),
        }
    }

    /// The task listing.
    pub fn list(&self, format: OutputFormat, filter: YakFilter) -> (r: String)
        requires
            self.wf(),
        ensures
            self.tasks().len() == 0 ==> r@ == empty_list_text(format),
            self.tasks().len() > 0 ==> exists|sorted: Seq<YakView>|
                sorted.len() == self.tasks().len() && listing_ordered(sorted) && (forall|i: int|
                    0 <= i < sorted.len() ==> listed_as(self.tasks(), #[trigger] sorted[i])) && r@ == join_lines(
                    shown_lines(sorted, format, filter),
                ),
    {
        let yaks = self.storage.list();
        let r = self.formatter.format_yak_list(&yaks, format, filter);
        proof {
            let m = self.tasks();
            if m.len() > 0 {
                let sorted = choose|sorted: Seq<YakView>|
                    sorted.to_multiset() == views(yaks@).to_multiset() && listing_ordered(sorted) && r@
                        == join_lines(shown_lines(sorted, format, filter));
                sorted.to_multiset_ensures();
                views(yaks@).to_multiset_ensures();
                assert forall|i: int| 0 <= i < sorted.len() implies listed_as(m, #[trigger] sorted[i]) by {
                    vstd::seq_lib::to_multiset_contains(sorted, sorted[i]);
                    vstd::seq_lib::to_multiset_contains(views(yaks@), sorted[i]);
                    assert(sorted.contains(sorted[i]));
                    assert(views(yaks@).contains(sorted[i]));
                    let j = choose|j: int| 0 <= j < views(yaks@).len() && views(yaks@)[j] == sorted[i];
                    assert(yaks@[j]@ == sorted[i]);
                    assert(self.storage@.contains_key(yaks@[j]@.name));
                }
                sorted.to_multiset_ensures();
                vstd::seq_lib::to_multiset_len(sorted);
                vstd::seq_lib::to_multiset_len(views(yaks@));
                assert(sorted.len() == m.len());
            }
        }
        r
    }

    /// Marks the resolved task done (or open again with `undo`), with its whole subtree
    /// when `recursive`; the message names the resolved path.
    pub fn done(&mut self, name: &str, undo: bool, recursive: bool) -> (r: Result<String, YakError>)
        requires
            old(self).wf(),
        ensures
            final(self).wf(),
            match resolve(old(self).tasks(), name@) {
                Resolution::Found(k) => {
                    let s = if undo { YakState::Todo } else { YakState::Done };
                    if recursive {
                        r is Ok && r->Ok_0@ == done_message(k, undo, recursive) && final(self).tasks()
                            == with_subtree_state(old(self).tasks(), k, s)
                    } else if s == YakState::Done && has_incomplete(old(self).tasks(), k) {
                        r is Err && r->Err_0@ == ErrorView::HasIncompleteChildren(k) && final(self).tasks() == old(self).tasks()
                    } else {
                        r is Ok && r->Ok_0@ == done_message(k, undo, recursive) && final(self).tasks()
                            == old(self).tasks().insert(k, TaskData { state: s, ..old(self).tasks()[k] })
                    }
                },
                _ => err_view(r) == unresolved_error(resolve(old(self).tasks(), name@), name@) && final(self).tasks() == old(self).tasks(),
            },
    {
        let state = if undo {
            YakState::Todo
        } else {
            YakState::Done
        };
        let k = match self.storage.find_yak(name) {
            Ok(Some(k)) => k,
            Ok(None) => {
                return Err(YakError::NotFound(String::from_str(name)));
            },
            Err(e) => {
                return Err(e);
            },
        };
        if recursive {
            self.storage.update_state_recursive(k.as_str(), state)?;
            Ok(with_prefix("done --recursive ", k.as_str()))
        } else {
            self.storage.update_state(k.as_str(), state)?;
            if undo {
                Ok(with_prefix("done --undo ", k.as_str()))
            } else {
                Ok(with_prefix("done ", k.as_str()))
            }
        }
    }

    /// Removes the resolved task and its subtree; the message is `rm <path>`.
    pub fn remove(&mut self, name: &str) -> (r: Result<String, YakError>)
        requires
            old(self).wf(),
        ensures
            final(self).wf(),
            match resolve(old(self).tasks(), name@) {
                Resolution::Found(k) => r is Ok && r->Ok_0@ == "rm "@ + k && final(self).tasks() == without_subtree(old(self).tasks(), k),
                _ => err_view(r) == unresolved_error(resolve(old(self).tasks(), name@), name@) && final(self).tasks() == old(self).tasks(),
            },
    {
        let k = match self.storage.find_yak(name) {
            Ok(Some(k)) => k,
            Ok(None) => {
                return Err(YakError::NotFound(String::from_str(name)));
            },
            Err(e) => {
                return Err(e);
            },
        };
        self.storage.remove(k.as_str())?;
        Ok(with_prefix("rm ", k.as_str()))
    }

    /// Removes every done task with its subtree; returns one `rm <path>` message for
    /// each done task.
    pub fn prune(&mut self) -> (r: Vec<String>)
        requires
            old(self).wf(),
        ensures
            final(self).wf(),
            final(self).tasks() == pruned(old(self).tasks()),
            forall|i: int| 0 <= i < r@.len() ==> removal_of_done(old(self).tasks(), #[trigger] r@[i]@),
            forall|d: Seq<char>| done_key(old(self).tasks(), d) ==> #[trigger] names_have(r@, "rm "@ + d),
    {
        let ghost m0 = self.tasks();
        let yaks = self.storage.list();
        proof {
            assert forall|a: int| 0 <= a < yaks@.len() implies listed_as(m0, #[trigger] yaks@[a]@) by {
                assert(self.storage@.contains_key(yaks@[a]@.name));
            }
        }
        let mut done_names: Vec<String> = Vec::new();
        let mut i: usize = 0;
        while i < yaks.len()
            invariant
                i <= yaks@.len(),
                m0 == old(self).tasks(),
                forall|j: int| 0 <= j < done_names@.len() ==> done_key(m0, #[trigger] done_names@[j]@),
                forall|j: int| 0 <= j < i && yaks@[j]@.state == YakState::Done ==> names_have(done_names@, #[trigger] yaks@[j]@.name),
                forall|a: int| 0 <= a < yaks@.len() ==> listed_as(m0, #[trigger] yaks@[a]@),
            decreases yaks@.len() - i,
        {
            if yaks[i].state == YakState::Done {
                let ghost before = done_names@;
                proof {
                    assert(listed_as(m0, yaks@[i as int]@));
                }
                let nm = yaks[i].name.clone();
                done_names.push(nm);
                proof {
                    assert(done_names@[before.len() as int]@ == yaks@[i as int]@.name);
                    assert forall|j: int| 0 <= j < done_names@.len() implies done_key(m0, #[trigger] done_names@[j]@) by {
                        if j < before.len() {
                            assert(done_names@[j] == before[j]);
                            assert(done_key(m0, before[j]@));
                        }
                    }
                    assert forall|j: int| 0 <= j < i + 1 && yaks@[j]@.state == YakState::Done implies names_have(done_names@, #[trigger] yaks@[j]@.name) by {
                        if j < i {
                            assert(names_have(before, yaks@[j]@.name));
                            let a = choose|a: int| 0 <= a < before.len() && before[a]@ == yaks@[j]@.name;
                            assert(done_names@[a] == before[a]);
                        } else {
                            assert(done_names@[before.len() as int]@ == yaks@[j]@.name);
                        }
                    }
                }
            }
            i += 1;
        }
        let mut messages: Vec<String> = Vec::new();
        let mut j: usize = 0;
        while j < done_names.len()
            invariant
                self.wf(),
                j <= done_names@.len(),
                m0 == old(self).tasks(),
                forall|a: int| 0 <= a < done_names@.len() ==> done_key(m0, #[trigger] done_names@[a]@),
                self.tasks() == Map::new(
                    |c: Seq<char>| m0.contains_key(c) && !(exists|a: int| 0 <= a < j && #[trigger] under(c, done_names@[a]@)),
                    |c: Seq<char>| m0[c],
                ),
                messages@.len() == j,
                forall|a: int| 0 <= a < j ==> #[trigger] messages@[a]@ == "rm "@ + done_names@[a]@,
            decreases done_names@.len() - j,
        {
            let ghost before = self.tasks();
            self.storage.remove_subtree(done_names[j].as_str());
            messages.push(with_prefix("rm ", done_names[j].as_str()));
            proof {
                assert(self.tasks() =~= Map::new(
                    |c: Seq<char>| m0.contains_key(c) && !(exists|a: int| 0 <= a < j + 1 && #[trigger] under(c, done_names@[a]@)),
                    |c: Seq<char>| m0[c],
                )) by {
                    assert forall|c: Seq<char>| (exists|a: int| 0 <= a < j + 1 && #[trigger] under(c, done_names@[a]@)) <==> (
                        (exists|a: int| 0 <= a < j && #[trigger] under(c, done_names@[a]@)) || under(c, done_names@[j as int]@)) by {
                        if under(c, done_names@[j as int]@) {
                            assert(0 <= j < j + 1 && under(c, done_names@[j as int]@));
                        }
                    }
                }
            }
            j += 1;
        }
        proof {
            let m = pruned(m0);
            assert(self.tasks() =~= m) by {
                assert forall|c: Seq<char>| m0.contains_key(c) implies (exists|a: int| 0 <= a < done_names@.len() && #[trigger] under(c, done_names@[a]@))
                    == (exists|d: Seq<char>| m0.contains_key(d) && m0[d].state == YakState::Done && #[trigger] under(c, d)) by {
                    if exists|d: Seq<char>| m0.contains_key(d) && m0[d].state == YakState::Done && #[trigger] under(c, d) {
                        let d = choose|d: Seq<char>| m0.contains_key(d) && m0[d].state == YakState::Done && #[trigger] under(c, d);
                        let b = choose|b: int| 0 <= b < yaks@.len() && yaks@[b]@.name == d;
                        assert(listed_as(m0, yaks@[b]@));
                        assert(yaks@[b]@.state == YakState::Done);
                        assert(names_have(done_names@, yaks@[b]@.name));
                        let a = choose|a: int| 0 <= a < done_names@.len() && done_names@[a]@ == yaks@[b]@.name;
                        assert(under(c, done_names@[a]@));
                    }
                    if exists|a: int| 0 <= a < done_names@.len() && #[trigger] under(c, done_names@[a]@) {
                        let a = choose|a: int| 0 <= a < done_names@.len() && #[trigger] under(c, done_names@[a]@);
                        assert(done_key(m0, done_names@[a]@));
                    }
                }
            }
            assert forall|d: Seq<char>| done_key(m0, d) implies #[trigger] names_have(messages@, "rm "@ + d) by {
                let b = choose|b: int| 0 <= b < yaks@.len() && yaks@[b]@.name == d;
                assert(listed_as(m0, yaks@[b]@));
                assert(names_have(done_names@, yaks@[b]@.name));
                let a = choose|a: int| 0 <= a < done_names@.len() && done_names@[a]@ == yaks@[b]@.name;
                assert(messages@[a]@ == "rm "@ + done_names@[a]@);
            }
            assert forall|i: int| 0 <= i < messages@.len() implies removal_of_done(m0, #[trigger] messages@[i]@) by {
                assert(done_key(m0, done_names@[i]@));
                assert(messages@[i]@ == "rm "@ + done_names@[i]@);
            }
        }
        messages
    }

    /// Moves the resolved task to `new_name`; the message is `move <old path> <new name>`.
    pub fn rename(&mut self, old_name: &str, new_name: &str) -> (r: Result<String, YakError>)
        requires
            old(self).wf(),
        ensures
            final(self).wf(),
            match resolve(old(self).tasks(), old_name@) {
                Resolution::Found(k) => if !valid_name(new_name@) {
                    r is Err && r->Err_0@ == ErrorView::InvalidName(new_name@) && final(self).tasks() == old(self).tasks()
                } else if blocked_destination(old(self).tasks(), k, new_name@) {
                    r is Err && r->Err_0@ == ErrorView::DestinationExists(new_name@) && final(self).tasks() == old(self).tasks()
                } else {
                    r is Ok && r->Ok_0@ == "move "@ + k + " "@ + new_name@ && final(self).tasks() == moved(
                        with_ancestors(old(self).tasks(), new_name@),
                        k,
                        new_name@,
                    )
                },
                _ => err_view(r) == unresolved_error(resolve(old(self).tasks(), old_name@), old_name@) && final(self).tasks() == old(self).tasks(),
            },
    {
        let k = match self.storage.find_yak(old_name) {
            Ok(Some(k)) => k,
            Ok(None) => {
                return Err(YakError::NotFound(String::from_str(old_name)));
            },
            Err(e) => {
                return Err(e);
            },
        };
        self.storage.rename(k.as_str(), new_name)?;
        let mut msg = with_prefix("move ", k.as_str());
        msg.append(" ");
        msg.append(new_name);
        Ok(msg)
    }

    /// The resolved task's path, followed by its note when it has one.
    pub fn show_context(&self, name: &str) -> (r: Result<String, YakError>)
        requires
            self.wf(),
        ensures
            match resolve(self.tasks(), name@) {
                Resolution::Found(k) => r is Ok && r->Ok_0@ == if self.tasks()[k].context.len() == 0 {
                    k
                } else {
                    k + "\n\n"@ + self.tasks()[k].context
                },
                _ => err_view(r) == unresolved_error(resolve(self.tasks(), name@), name@),
            },
    {
        let k = match self.storage.find_yak(name) {
            Ok(Some(k)) => k,
            Ok(None) => {
                return Err(YakError::NotFound(String::from_str(name)));
            },
            Err(e) => {
                return Err(e);
            },
        };
        proof {
            reveal_strlit("\n\n");
        }
        match self.storage.get(k.as_str()) {
            Some(yak) => Ok(self.formatter.format_yak_with_context(&yak)),
            None => Err(YakError::NotFound(String::from_str(name))),
        }
    }

    /// Replaces the resolved task's note; the message is `context <path>`.
    pub fn edit_context(&mut self, name: &str, context: &str) -> (r: Result<String, YakError>)
        requires
            old(self).wf(),
        ensures
            final(self).wf(),
            match resolve(old(self).tasks(), name@) {
                Resolution::Found(k) => r is Ok && r->Ok_0@ == "context "@ + k && final(self).tasks()
                    == old(self).tasks().insert(k, TaskData { context: context@, ..old(self).tasks()[k] }),
                _ => err_view(r) == unresolved_error(resolve(old(self).tasks(), name@), name@) && final(self).tasks() == old(self).tasks(),
            },
    {
        let k = match self.storage.find_yak(name) {
            Ok(Some(k)) => k,
            Ok(None) => {
                return Err(YakError::NotFound(String::from_str(name)));
            },
            Err(e) => {
                return Err(e);
            },
        };
        self.storage.set_context(k.as_str(), context)?;
        Ok(with_prefix("context ", k.as_str()))
    }

    /// The first step of a sync: a repository and an `origin` remote are required.
    pub fn sync(&self, is_repository: bool, has_origin_remote: bool) -> (r: Result<(), YakError>)
        ensures
            r is Ok <==> is_repository && has_origin_remote,
            !is_repository ==> r is Err && r->Err_0@ == ErrorView::NotARepository,
            is_repository && !has_origin_remote ==> r is Err && r->Err_0@ == ErrorView::NoRemote,
    {
        GitAdapter::check_sync(is_repository, has_origin_remote)
    }

    /// Task paths for shell completion: for `done --undo` the done tasks, for `done` the
    /// open ones, else all.
    pub fn completions(&self, cmd: Option<&str>, flag: Option<&str>) -> (r: Vec<String>)
        requires
            self.wf(),
        ensures
            forall|i: int| 0 <= i < r@.len() ==> wanted_key(self.tasks(), #[trigger] r@[i]@, format_is(cmd, "done"@), format_is(flag, "--undo"@)),
            forall|k: Seq<char>| wanted_key(self.tasks(), k, format_is(cmd, "done"@), format_is(flag, "--undo"@))
                ==> #[trigger] names_have(r@, k),
    {
        let done_cmd = match cmd {
            Some(c) => same_text(c, "done"),
            None => false,
        };
        let undo_flag = match flag {
            Some(f) => same_text(f, "--undo"),
            None => false,
        };
        let ghost m = self.tasks();
        let yaks = self.storage.list();
        proof {
            assert forall|a: int| 0 <= a < yaks@.len() implies listed_as(m, #[trigger] yaks@[a]@) by {
                assert(self.storage@.contains_key(yaks@[a]@.name));
            }
        }
        let mut results: Vec<String> = Vec::new();
        let mut i: usize = 0;
        while i < yaks.len()
            invariant
                i <= yaks@.len(),
                m == self.tasks(),
                done_cmd == format_is(cmd, "done"@),
                undo_flag == format_is(flag, "--undo"@),
                forall|a: int| 0 <= a < yaks@.len() ==> listed_as(m, #[trigger] yaks@[a]@),
                forall|a: int| 0 <= a < results@.len() ==> wanted_key(m, #[trigger] results@[a]@, done_cmd, undo_flag),
                forall|j: int| 0 <= j < i && completion_wanted(yaks@[j]@.state, done_cmd, undo_flag) ==> names_have(results@, #[trigger] yaks@[j]@.name),
            decreases yaks@.len() - i,
        {
            let wanted = if done_cmd && undo_flag {
                yaks[i].state == YakState::Done
            } else if done_cmd {
                yaks[i].state != YakState::Done
            } else {
                true
            };
            if wanted {
                let ghost before = results@;
                proof {
                    assert(listed_as(m, yaks@[i as int]@));
                }
                let nm = yaks[i].name.clone();
                results.push(nm);
                proof {
                    assert(results@[before.len() as int]@ == yaks@[i as int]@.name);
                    assert forall|a: int| 0 <= a < results@.len() implies wanted_key(m, #[trigger] results@[a]@, done_cmd, undo_flag) by {
                        if a < before.len() {
                            assert(results@[a] == before[a]);
                            assert(wanted_key(m, before[a]@, done_cmd, undo_flag));
                        }
                    }
                    assert forall|j: int| 0 <= j < i + 1 && completion_wanted(yaks@[j]@.state, done_cmd, undo_flag) implies names_have(results@, #[trigger] yaks@[j]@.name) by {
                        if j < i {
                            assert(names_have(before, yaks@[j]@.name));
                            let a = choose|a: int| 0 <= a < before.len() && before[a]@ == yaks@[j]@.name;
                            assert(results@[a] == before[a]);
                        } else {
                            assert(results@[before.len() as int]@ == yaks@[j]@.name);
                        }
                    }
                }
            }
            i += 1;
        }
        proof {
            assert forall|k: Seq<char>| wanted_key(m, k, done_cmd, undo_flag) implies #[trigger] names_have(results@, k) by {
                let j = choose|j: int| 0 <= j < yaks@.len() && yaks@[j]@.name == k;
                assert(listed_as(m, yaks@[j]@));
                assert(names_have(results@, yaks@[j]@.name));
            }
        }
        results
    }
}

} // verus!
