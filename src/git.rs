use vstd::prelude::*;

use crate::error::{ErrorView, YakError};
use crate::state::is_space;

verus! {

/// Drops leading whitespace.
pub open spec fn trim_start(s: Seq<char>) -> Seq<char>
    decreases s.len(),
{
    if s.len() > 0 && is_space(s[0]) {
        trim_start(s.drop_first())
    } else {
        s
    }
}

/// Drops trailing whitespace.
pub open spec fn trim_end(s: Seq<char>) -> Seq<char>
    decreases s.len(),
{
    if s.len() > 0 && is_space(s.last()) {
        trim_end(s.drop_last())
    } else {
        s
    }
}

/// Drops whitespace at both ends.
pub open spec fn trimmed(s: Seq<char>) -> Seq<char> {
    trim_end(trim_start(s))
}

proof fn lemma_trim_start(s: Seq<char>, a: int)
    requires
        0 <= a <= s.len(),
        forall|j: int| 0 <= j < a ==> is_space(s[j]),
        a == s.len() || !is_space(s[a]),
    ensures
        trim_start(s) == s.subrange(a, s.len() as int),
    decreases a,
{
    if a == 0 {
        assert(s.subrange(0, s.len() as int) =~= s);
    } else {
        assert(s.drop_first().subrange(a - 1, s.len() - 1) =~= s.subrange(a, s.len() as int));
        lemma_trim_start(s.drop_first(), a - 1);
    }
}

proof fn lemma_trim_end(s: Seq<char>, b: int)
    requires
        0 <= b <= s.len(),
        forall|j: int| b <= j < s.len() ==> is_space(s[j]),
        b == 0 || !is_space(s[b - 1]),
    ensures
        trim_end(s) == s.subrange(0, b),
    decreases s.len() - b,
{
    if b == s.len() {
        assert(s.subrange(0, b) =~= s);
    } else {
        assert(s.drop_last().subrange(0, b) =~= s.subrange(0, b));
        lemma_trim_end(s.drop_last(), b);
    }
}

/// The text without surrounding whitespace.
pub fn trim_text(s: &str) -> (r: String)
    ensures
        r@ == trimmed(s@),
{
    let n = s.unicode_len();
    let mut a: usize = 0;
    while a < n && crate::state::YakState::is_space_char(s.get_char(a))
        invariant
            n == s@.len(),
            a <= n,
            forall|j: int| 0 <= j < a ==> is_space(s@[j]),
        decreases n - a,
    {
        a += 1;
    }
    let mut b: usize = n;
    while b > a && crate::state::YakState::is_space_char(s.get_char(b - 1))
        invariant
            n == s@.len(),
            a <= b <= n,
            forall|j: int| b <= j < n ==> is_space(s@[j]),
        decreases b,
    {
        b -= 1;
    }
    proof {
        lemma_trim_start(s@, a as int);
        let t = s@.subrange(a as int, n as int);
        lemma_trim_end(t, b - a);
        assert(t.subrange(0, b - a) =~= s@.subrange(a as int, b as int));
    }
    String::from_str(s.substring_char(a, b))
}

/// The private reference that holds the task snapshots.
pub open spec fn notes_ref() -> Seq<char> {
    seq!['r', 'e', 'f', 's', '/', 'n', 'o', 't', 'e', 's', '/', 'y', 'a', 'k', 's']
}

/// What the reconciliation step of a sync does.
#[derive(Debug, Clone, PartialEq, Eq)]
pub enum Reconcile {
    /// Snapshot the local tree onto the private reference.
    Commit,
    /// Point the private reference at this remote value.
    Adopt(String),
    /// Leave the private reference as it is.
    Keep,
}

/// The steps of a sync after the fetch: how to reconcile, and whether to push.
/// Re-materialising the tree and dropping the remote-tracking copy always follow.
#[derive(Debug, Clone, PartialEq, Eq)]
pub struct SyncPlan {
    pub reconcile: Reconcile,
    pub push: bool,
}

/// Runs git commands on a work tree whose task directory is `yaks_path`.
pub struct GitAdapter {
    work_tree: String,
    yaks_path: String,
}

impl GitAdapter {
    /// The work tree the git calls run in.
    pub closed spec fn tree_dir(&self) -> Seq<char> {
        self.work_tree@
    }

    /// The task directory that snapshots are taken of.
    pub closed spec fn task_dir(&self) -> Seq<char> {
        self.yaks_path@
    }

    pub fn new(work_tree: String, yaks_path: String) -> (r: GitAdapter)
        ensures
            r.tree_dir() == work_tree@,
            r.task_dir() == yaks_path@,
    {
        GitAdapter { work_tree, yaks_path }
    }

    pub fn work_tree(&self) -> (r: &str)
        ensures
            r@ == self.tree_dir(),
    {
        self.work_tree.as_str()
    }

    pub fn yaks_path(&self) -> (r: &str)
        ensures
            r@ == self.task_dir(),
    {
        self.yaks_path.as_str()
    }

    /// The full argument list of a git call: `-C <work tree>` and then `args`.
    pub fn git_args(&self, args: &Vec<String>) -> (r: Vec<String>)
        ensures
            r@.len() == args@.len() + 2,
            r@[0]@ == seq!['-', 'C'],
            r@[1]@ == self.tree_dir(),
            forall|i: int| 0 <= i < args@.len() ==> #[trigger] r@[i + 2]@ == args@[i]@,
    {
        let mut r: Vec<String> = Vec::new();
        r.push(String::from_str("-C"));
        r.push(self.work_tree.clone());
        proof {
            reveal_strlit("-C");
        }
        let mut i: usize = 0;
        while i < args.len()
            invariant
                i <= args@.len(),
                r@.len() == i + 2,
                r@[0]@ == seq!['-', 'C'],
                r@[1]@ == self.tree_dir(),
                forall|j: int| 0 <= j < i ==> #[trigger] r@[j + 2]@ == args@[j]@,
            decreases args@.len() - i,
        {
            r.push(args[i].clone());
            i += 1;
        }
        r
    }

    /// The value of a reference, read from a `rev-parse` run: its trimmed output when
    /// the run succeeded.
    pub fn parse_ref_output(success: bool, stdout: &str) -> (r: Option<String>)
        ensures
            r is Some <==> success,
            r is Some ==> r->Some_0@ == trimmed(stdout@),
    {
        if success {
            Some(trim_text(stdout))
        } else {
            None
        }
    }

    /// A command is logged only inside a repository and when the task directory has
    /// content.
    pub fn log_command_needed(is_repository: bool, has_content: bool) -> (r: bool)
        ensures
            r == (is_repository && has_content),
    {
        is_repository && has_content
    }

    /// Arguments of the `commit-tree` call that records a snapshot: the tree, the
    /// previous reference value as sole parent when there is one, and the message.
    pub fn commit_tree_args(tree: &str, parent: Option<String>, message: &str) -> (r: Vec<String>)
        ensures
            r@.len() == if parent is Some { 5int } else { 4int },
            r@[0]@ == seq!['c', 'o', 'm', 'm', 'i', 't', '-', 't', 'r', 'e', 'e'],
            r@[1]@ == tree@,
            parent is Some ==> r@[2]@ == seq!['-', 'p'] + parent->Some_0@,
            r@[r@.len() - 2]@ == seq!['-', 'm'],
            r@[r@.len() - 1]@ == message@,
    {
        let mut r: Vec<String> = Vec::new();
        r.push(String::from_str("commit-tree"));
        r.push(String::from_str(tree));
        proof {
            reveal_strlit("commit-tree");
            reveal_strlit("-p");
            reveal_strlit("-m");
        }
        match parent {
            Some(p) => {
                let mut a = String::from_str("-p");
                a.append(p.as_str());
                r.push(a);
            },
            None => {},
        }
        r.push(String::from_str("-m"));
        r.push(String::from_str(message));
        r
    }

    /// First step of a sync: a repository and an `origin` remote are required.
    pub fn check_sync(is_repository: bool, has_origin_remote: bool) -> (r: Result<(), YakError>)
        ensures
            r is Ok <==> is_repository && has_origin_remote,
            !is_repository ==> r is Err && r->Err_0@ == ErrorView::NotARepository,
            is_repository && !has_origin_remote ==> r is Err && r->Err_0@ == ErrorView::NoRemote,
    {
        if !is_repository {
            return Err(YakError::NotARepository);
        }
        if !has_origin_remote {
            return Err(YakError::NoRemote);
        }
        Ok(())
    }

    /// The reconciliation after the fetch. With local content and a remote value the
    /// local tree is committed; with no local content the remote value is adopted; else
    /// nothing changes. The reference is pushed whenever it then has a value.
    pub fn plan_sync(has_content: bool, remote_ref: Option<String>, local_ref_exists: bool) -> (r: SyncPlan)
        ensures
            remote_ref is Some && has_content ==> r.reconcile == Reconcile::Commit,
            remote_ref is Some && !has_content ==> r.reconcile == Reconcile::Adopt(remote_ref->Some_0),
            remote_ref is None ==> r.reconcile == Reconcile::Keep,
            r.push == (remote_ref is Some || local_ref_exists),
    {
        match remote_ref {
            Some(remote) => {
                if has_content {
                    SyncPlan { reconcile: Reconcile::Commit, push: true }
                } else {
                    SyncPlan { reconcile: Reconcile::Adopt(remote), push: true }
                }
            },
            None => SyncPlan { reconcile: Reconcile::Keep, push: local_ref_exists },
        }
    }
}

} // verus!
