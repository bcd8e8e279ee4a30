use vstd::prelude::*;

use crate::error::{err_view, ErrorView, YakError};
use crate::path::{
    seg_start,
    contains_text, is_ancestor, is_direct_child, is_direct_child_of, is_substring, is_under, under,
    valid_name, validate_yak_name,
};
use crate::state::YakState;
use crate::yak::{Yak, YakView};

verus! {

/// What the store keeps for one task path.
pub struct TaskData {
    pub state: YakState,
    pub context: Seq<char>,
    pub mtime: u64,
    /// An old-style `done` marker file is still present.
    pub legacy_done: bool,
}

/// A task as `Add` creates it: Todo, empty note, no marker.
pub open spec fn fresh_task() -> TaskData {
    TaskData { state: YakState::Todo, context: Seq::empty(), mtime: 0, legacy_done: false }
}

/// The task tree as a map from path to task data.
pub type TaskMap = Map<Seq<char>, TaskData>;

/// Outcome of name resolution.
pub enum Resolution {
    Found(Seq<char>),
    Missing,
    Ambiguous,
}

/// `k` is a stored path that contains the search term `t`.
pub open spec fn fuzzy_hit(m: TaskMap, t: Seq<char>, k: Seq<char>) -> bool {
    m.contains_key(k) && is_substring(t, k)
}

/// Name resolution: an exact path first, then the single path containing the term.
pub open spec fn resolve(m: TaskMap, t: Seq<char>) -> Resolution {
    if m.contains_key(t) {
        Resolution::Found(t)
    } else if !(exists|k: Seq<char>| fuzzy_hit(m, t, k)) {
        Resolution::Missing
    } else if exists|k1: Seq<char>, k2: Seq<char>|
        fuzzy_hit(m, t, k1) && fuzzy_hit(m, t, k2) && k1 != k2 {
        Resolution::Ambiguous
    } else {
        Resolution::Found(choose|k: Seq<char>| fuzzy_hit(m, t, k))
    }
}

/// What `find_yak` returns for a resolution.
pub open spec fn found_as(r: Result<Option<String>, YakError>, res: Resolution, t: Seq<char>) -> bool {
    match res {
        Resolution::Found(k) => r is Ok && r->Ok_0 is Some && r->Ok_0->Some_0@ == k,
        Resolution::Missing => r is Ok && r->Ok_0 is None,
        Resolution::Ambiguous => r is Err && r->Err_0@ == ErrorView::Ambiguous(t),
    }
}

/// The error a task operation reports when the name does not resolve.
pub open spec fn unresolved_error(res: Resolution, t: Seq<char>) -> Option<ErrorView> {
    match res {
        Resolution::Found(_) => None,
        Resolution::Missing => Some(ErrorView::NotFound(t)),
        Resolution::Ambiguous => Some(ErrorView::Ambiguous(t)),
    }
}

/// Some direct child of `k` is not done.
pub open spec fn has_incomplete(m: TaskMap, k: Seq<char>) -> bool {
    exists|c: Seq<char>| m.contains_key(c) && is_direct_child(c, k) && m[c].state != YakState::Done
}

/// Every stored path satisfies the segment rules.
pub open spec fn paths_valid(m: TaskMap) -> bool {
    forall|k: Seq<char>| m.contains_key(k) ==> valid_name(k)
}

/// `m` with every missing proper ancestor of `p` added as a fresh task.
pub open spec fn with_ancestors(m: TaskMap, p: Seq<char>) -> TaskMap {
    Map::new(
        |k: Seq<char>| m.contains_key(k) || is_ancestor(k, p),
        |k: Seq<char>| if m.contains_key(k) { m[k] } else { fresh_task() },
    )
}

/// The tree after `Add(p)`: missing ancestors created, `p` itself set fresh.
pub open spec fn added(m: TaskMap, p: Seq<char>) -> TaskMap {
    with_ancestors(m, p).insert(p, fresh_task())
}

/// `k` and every task below it carry state `s`.
pub open spec fn with_subtree_state(m: TaskMap, k: Seq<char>, s: YakState) -> TaskMap {
    Map::new(
        |c: Seq<char>| m.contains_key(c),
        |c: Seq<char>| if under(c, k) { TaskData { state: s, ..m[c] } } else { m[c] },
    )
}

/// The tree with `k` and everything below it gone.
pub open spec fn without_subtree(m: TaskMap, k: Seq<char>) -> TaskMap {
    Map::new(|c: Seq<char>| m.contains_key(c) && !under(c, k), |c: Seq<char>| m[c])
}

/// The tree with the subtree at `k` moved to `n`.
pub open spec fn moved(m: TaskMap, k: Seq<char>, n: Seq<char>) -> TaskMap {
    Map::new(
        |c: Seq<char>|
            (m.contains_key(c) && !under(c, k)) || (under(c, n) && m.contains_key(
                k + c.subrange(n.len() as int, c.len() as int),
            )),
        |c: Seq<char>|
            if under(c, n) {
                m[k + c.subrange(n.len() as int, c.len() as int)]
            } else {
                m[c]
            },
    )
}

/// A move of `k` onto `n` would collide: `n` is `k` or lies below it, or `n` or a path
/// below it is taken.
pub open spec fn blocked_destination(m: TaskMap, k: Seq<char>, n: Seq<char>) -> bool {
    under(n, k) || exists|c: Seq<char>| m.contains_key(c) && under(c, n)
}

/// Every legacy marker turned into state Done.
pub open spec fn migrated(m: TaskMap) -> TaskMap {
    Map::new(
        |c: Seq<char>| m.contains_key(c),
        |c: Seq<char>|
            if m[c].legacy_done {
                TaskData { state: YakState::Done, legacy_done: false, ..m[c] }
            } else {
                m[c]
            },
    )
}

struct Entry {
    yak: Yak,
    legacy_done: bool,
}

spec fn entry_data(e: Entry) -> TaskData {
    TaskData {
        state: e.yak.state,
        context: e.yak.context@,
        mtime: e.yak.mtime,
        legacy_done: e.legacy_done,
    }
}

spec fn name_at(s: Seq<Entry>, i: int) -> Seq<char> {
    s[i].yak.name@
}

spec fn names_unique(s: Seq<Entry>) -> bool {
    forall|i: int, j: int| 0 <= i < s.len() && 0 <= j < s.len() && i != j ==> name_at(s, i) != name_at(s, j)
}

spec fn model(s: Seq<Entry>) -> TaskMap {
    Map::new(
        |k: Seq<char>| exists|i: int| 0 <= i < s.len() && name_at(s, i) == k,
        |k: Seq<char>| entry_data(s[choose|i: int| 0 <= i < s.len() && name_at(s, i) == k]),
    )
}

proof fn lemma_model_index(s: Seq<Entry>, i: int)
    requires
        names_unique(s),
        0 <= i < s.len(),
    ensures
        model(s).contains_key(name_at(s, i)),
        model(s)[name_at(s, i)] == entry_data(s[i]),
{
    let k = name_at(s, i);
    assert(0 <= i < s.len() && name_at(s, i) == k);
    let j = choose|j: int| 0 <= j < s.len() && name_at(s, j) == k;
    assert(j == i);
}

proof fn lemma_model_ext(s: Seq<Entry>, m: TaskMap)
    requires
        names_unique(s),
        forall|i: int| 0 <= i < s.len() ==> #[trigger] m.contains_key(name_at(s, i)) && m[name_at(s, i)] == entry_data(s[i]),
        forall|k: Seq<char>| #[trigger] m.contains_key(k) ==> exists|i: int| 0 <= i < s.len() && name_at(s, i) == k,
    ensures
        model(s) == m,
{
    assert forall|k: Seq<char>| model(s).contains_key(k) implies m.contains_key(k) && model(s)[k] == m[k] by {
        let i = choose|i: int| 0 <= i < s.len() && name_at(s, i) == k;
        lemma_model_index(s, i);
    }
    assert forall|k: Seq<char>| m.contains_key(k) implies model(s).contains_key(k) by {
        let i = choose|i: int| 0 <= i < s.len() && name_at(s, i) == k;
        lemma_model_index(s, i);
    }
    assert(model(s) =~= m);
}

proof fn lemma_model_update(s: Seq<Entry>, s2: Seq<Entry>, i: int)
    requires
        names_unique(s),
        0 <= i < s.len(),
        s2.len() == s.len(),
        forall|j: int| 0 <= j < s.len() && j != i ==> s2[j] == s[j],
        name_at(s2, i) == name_at(s, i),
    ensures
        names_unique(s2),
        forall|j: int| 0 <= j < s.len() ==> name_at(s2, j) == name_at(s, j),
        model(s2) == model(s).insert(name_at(s, i), entry_data(s2[i])),
{
    let m = model(s).insert(name_at(s, i), entry_data(s2[i]));
    assert forall|j: int| 0 <= j < s.len() implies name_at(s2, j) == name_at(s, j) by {
        if j != i {
            assert(s2[j] == s[j]);
        }
    }
    assert forall|j: int| 0 <= j < s2.len() implies #[trigger] m.contains_key(name_at(s2, j)) && m[name_at(s2, j)] == entry_data(s2[j]) by {
        lemma_model_index(s, j);
        if j != i {
            assert(s2[j] == s[j]);
        }
    }
    assert forall|k: Seq<char>| #[trigger] m.contains_key(k) implies exists|j: int| 0 <= j < s2.len() && name_at(s2, j) == k by {
        if k != name_at(s, i) {
            let j = choose|j: int| 0 <= j < s.len() && name_at(s, j) == k;
            assert(name_at(s2, j) == k);
        } else {
            assert(name_at(s2, i) == k);
        }
    }
    lemma_model_ext(s2, m);
}

proof fn lemma_prefix_valid(p: Seq<char>, i: int)
    requires
        valid_name(p),
        0 <= i < p.len(),
        p[i] == '/',
    ensures
        i > 0,
        valid_name(p.subrange(0, i)),
        is_ancestor(p.subrange(0, i), p),
{
    assert(seg_start(p, 0));
    if p[i - 1] == '/' {
        assert(seg_start(p, i));
    }
    let a = p.subrange(0, i);
    assert forall|j: int| 0 <= j < a.len() && #[trigger] seg_start(a, j) implies a[j] != '/' && a[j] != '.' by {
        assert(seg_start(p, j));
    }
}

/// The path that `c`, lying under `k`, takes when `k` moves to `n`.
pub open spec fn relocated(c: Seq<char>, k: Seq<char>, n: Seq<char>) -> Seq<char> {
    n + c.subrange(k.len() as int, c.len() as int)
}

/// Moving a descendant of `k` to its place under `n` can be undone: `k` plus the part
/// of the new path after `n` is the old path, and the new path lies under `n`.
pub proof fn lemma_relocate(c: Seq<char>, k: Seq<char>, n: Seq<char>)
    requires
        under(c, k),
    ensures
        under(relocated(c, k, n), n),
        k + relocated(c, k, n).subrange(n.len() as int, relocated(c, k, n).len() as int) == c,
{
    let suf = c.subrange(k.len() as int, c.len() as int);
    let c2 = n + suf;
    assert(c2.subrange(n.len() as int, c2.len() as int) =~= suf);
    if c == k {
        assert(suf =~= Seq::<char>::empty());
        assert(c2 =~= n);
        assert(k + suf =~= c);
    } else {
        assert(c.subrange(0, k.len() as int) == k);
        assert(k + suf =~= c);
        assert(c2.subrange(0, n.len() as int) =~= n);
        assert(c2[n.len() as int] == c[k.len() as int]);
    }
}

proof fn lemma_relocate_back(x: Seq<char>, k: Seq<char>, n: Seq<char>)
    requires
        under(x, n),
    ensures
        under(k + x.subrange(n.len() as int, x.len() as int), k),
        relocated(k + x.subrange(n.len() as int, x.len() as int), k, n) == x,
{
    let suf = x.subrange(n.len() as int, x.len() as int);
    let c = k + suf;
    assert(c.subrange(k.len() as int, c.len() as int) =~= suf);
    if x == n {
        assert(suf =~= Seq::<char>::empty());
        assert(c =~= k);
        assert(n + suf =~= x);
    } else {
        assert(x.subrange(0, n.len() as int) == n);
        assert(n + suf =~= x);
        assert(c.subrange(0, k.len() as int) =~= k);
        assert(c[k.len() as int] == x[n.len() as int]);
    }
}

proof fn lemma_relocate_valid(c: Seq<char>, k: Seq<char>, n: Seq<char>)
    requires
        valid_name(n),
        valid_name(c),
        under(c, k),
    ensures
        valid_name(relocated(c, k, n)),
{
    let suf = c.subrange(k.len() as int, c.len() as int);
    let p = n + suf;
    if c == k {
        assert(p =~= n);
    } else {
        assert(c[k.len() as int] == '/');
        assert(p[p.len() - 1] == c[c.len() - 1]);
        assert forall|i: int| 0 <= i < p.len() && #[trigger] seg_start(p, i) implies p[i] != '/' && p[i] != '.' by {
            if i < n.len() {
                assert(seg_start(n, i));
            } else if i == n.len() {
                assert(p[i - 1] == n[n.len() - 1]);
            } else {
                let j = i - n.len() + k.len();
                assert(p[i] == c[j]);
                assert(p[i - 1] == c[j - 1]);
                assert(seg_start(c, j));
            }
        }
    }
}

/// The task store: the task tree rooted at `base_path`, held as one entry per task path.
pub struct FilesystemStorage {
    base_path: String,
    entries: Vec<Entry>,
}

impl View for FilesystemStorage {
    type V = TaskMap;

    closed spec fn view(&self) -> TaskMap {
        model(self.entries@)
    }
}

impl FilesystemStorage {
    /// Paths are unique and each obeys the segment rules.
    pub closed spec fn wf(&self) -> bool {
        &&& names_unique(self.entries@)
        &&& forall|i: int| 0 <= i < self.entries@.len() ==> valid_name(#[trigger] name_at(self.entries@, i))
    }

    /// The root directory of the tree.
    pub closed spec fn base(&self) -> Seq<char> {
        self.base_path@
    }

    /// Every stored path is valid.
    pub proof fn lemma_paths_valid(&self)
        requires
            self.wf(),
        ensures
            paths_valid(self@),
    {
        assert forall|k: Seq<char>| self@.contains_key(k) implies valid_name(k) by {
            let i = choose|i: int| 0 <= i < self.entries@.len() && name_at(self.entries@, i) == k;
        }
    }

    /// An empty store rooted at `base_path`.
    pub fn new(base_path: String) -> (r: FilesystemStorage)
        ensures
            r.wf(),
            r@ == Map::<Seq<char>, TaskData>::empty(),
            r.base() == base_path@,
    {
        let r = FilesystemStorage { base_path, entries: Vec::new() };
        assert(r@ =~= Map::<Seq<char>, TaskData>::empty());
        r
    }

    /// The number of stored tasks.
    pub fn len(&self) -> (r: usize)
        requires
            self.wf(),
        ensures
            r == self@.len(),
    {
        proof {
            self.lemma_len();
        }
        self.entries.len()
    }

    proof fn lemma_len(&self)
        requires
            self.wf(),
        ensures
            self@.len() == self.entries@.len(),
    {
        let s = self.entries@;
        let names = Seq::new(s.len(), |i: int| name_at(s, i));
        assert forall|i: int, j: int| 0 <= i < j < names.len() implies names[i] != names[j] by {}
        names.unique_seq_to_set();
        assert(self@.dom() =~= names.to_set()) by {
            assert forall|k: Seq<char>| names.to_set().contains(k) implies self@.contains_key(k) by {
                let i = choose|i: int| 0 <= i < names.len() && names[i] == k;
                assert(name_at(s, i) == k);
            }
            assert forall|k: Seq<char>| self@.contains_key(k) implies names.to_set().contains(k) by {
                let i = choose|i: int| 0 <= i < s.len() && name_at(s, i) == k;
                assert(names[i] == k);
            }
        }
    }

    /// Takes in one task read from storage; a path that is invalid or already held is
    /// left out.
    pub fn load(&mut self, yak: Yak, legacy_done: bool) -> (r: bool)
        requires
            old(self).wf(),
        ensures
            final(self).wf(),
            final(self).base() == old(self).base(),
            r == (valid_name(yak.name@) && !old(self)@.contains_key(yak.name@)),
            r ==> final(self)@ == old(self)@.insert(
                yak.name@,
                TaskData { state: yak.state, context: yak.context@, mtime: yak.mtime, legacy_done },
            ),
            !r ==> final(self)@ == old(self)@,
    {
        if validate_yak_name(yak.name.as_str()).is_err() {
            return false;
        }
        if self.index_of(yak.name.as_str()).is_some() {
            return false;
        }
        proof {
            assert(!old(self)@.contains_key(yak.name@));
        }
        self.push_entry(Entry { yak, legacy_done });
        true
    }

    fn push_entry(&mut self, e: Entry)
        requires
            old(self).wf(),
            valid_name(e.yak.name@),
            !old(self)@.contains_key(e.yak.name@),
        ensures
            final(self).wf(),
            final(self).base() == old(self).base(),
            final(self)@ == old(self)@.insert(e.yak.name@, entry_data(e)),
    {
        let ghost s0 = self.entries@;
        let ghost m = old(self)@.insert(e.yak.name@, entry_data(e));
        self.entries.push(e);
        proof {
            let s = self.entries@;
            assert forall|i: int| 0 <= i < s0.len() implies name_at(s, i) == name_at(s0, i) by {
                assert(s[i] == s0[i]);
            }
            assert forall|i: int| 0 <= i < s0.len() implies name_at(s0, i) != e.yak.name@ by {
                lemma_model_index(s0, i);
            }
            assert(names_unique(s));
            assert forall|i: int| 0 <= i < s.len() implies #[trigger] m.contains_key(name_at(s, i)) && m[name_at(s, i)] == entry_data(s[i]) by {
                if i < s0.len() {
                    lemma_model_index(s0, i);
                }
            }
            assert forall|k: Seq<char>| #[trigger] m.contains_key(k) implies exists|i: int| 0 <= i < s.len() && name_at(s, i) == k by {
                if k != e.yak.name@ {
                    let i = choose|i: int| 0 <= i < s0.len() && name_at(s0, i) == k;
                    assert(name_at(s, i) == k);
                } else {
                    assert(name_at(s, s0.len() as int) == k);
                }
            }
            lemma_model_ext(s, m);
        }
    }

    fn index_of(&self, name: &str) -> (r: Option<usize>)
        requires
            self.wf(),
        ensures
            r is None <==> !self@.contains_key(name@),
            r is Some ==> r->Some_0 < self.entries@.len() && name_at(self.entries@, r->Some_0 as int) == name@,
            r is Some ==> self@[name@] == entry_data(self.entries@[r->Some_0 as int]),
    {
        let mut i: usize = 0;
        while i < self.entries.len()
            invariant
                self.wf(),
                i <= self.entries@.len(),
                forall|j: int| 0 <= j < i ==> name_at(self.entries@, j) != name@,
            decreases self.entries@.len() - i,
        {
            if crate::path::same_text(self.entries[i].yak.name.as_str(), name) {
                proof {
                    lemma_model_index(self.entries@, i as int);
                }
                return Some(i);
            }
            i += 1;
        }
        None
    }

    /// Whether `name` is a stored path.
    pub fn contains(&self, name: &str) -> (r: bool)
        requires
            self.wf(),
        ensures
            r == self@.contains_key(name@),
    {
        self.index_of(name).is_some()
    }

    /// Exact addressing: the term itself when it is a stored path.
    pub fn try_exact_match(&self, search_term: &str) -> (r: Option<String>)
        requires
            self.wf(),
        ensures
            r is Some <==> self@.contains_key(search_term@),
            r is Some ==> r->Some_0@ == search_term@,
    {
        if self.index_of(search_term).is_some() {
            Some(String::from_str(search_term))
        } else {
            None
        }
    }

    /// Partial addressing: the single stored path that contains the term.
    pub fn try_fuzzy_match(&self, search_term: &str) -> (r: Result<Option<String>, YakError>)
        requires
            self.wf(),
        ensures
            (r is Ok && r->Ok_0 is None) <==> !(exists|k: Seq<char>| fuzzy_hit(self@, search_term@, k)),
            r is Ok && r->Ok_0 is Some ==> fuzzy_hit(self@, search_term@, r->Ok_0->Some_0@) && (
            forall|k: Seq<char>| fuzzy_hit(self@, search_term@, k) ==> k == r->Ok_0->Some_0@),
            r is Err <==> exists|k1: Seq<char>, k2: Seq<char>|
                fuzzy_hit(self@, search_term@, k1) && fuzzy_hit(self@, search_term@, k2) && k1 != k2,
            r is Err ==> r->Err_0@ == ErrorView::Ambiguous(search_term@),
    {
        let ghost s = self.entries@;
        let ghost t = search_term@;
        let mut first: Option<usize> = None;
        let mut i: usize = 0;
        while i < self.entries.len()
            invariant
                self.wf(),
                s == self.entries@,
                t == search_term@,
                i <= s.len(),
                first is None ==> forall|j: int| 0 <= j < i ==> !is_substring(t, #[trigger] name_at(s, j)),
                first is Some ==> first->Some_0 < i && is_substring(t, name_at(s, first->Some_0 as int))
                    && forall|j: int| 0 <= j < i && j != first->Some_0 ==> !is_substring(t, #[trigger] name_at(s, j)),
            decreases s.len() - i,
        {
            if contains_text(self.entries[i].yak.name.as_str(), search_term) {
                match first {
                    None => {
                        first = Some(i);
                    },
                    Some(f) => {
                        proof {
                            lemma_model_index(s, f as int);
                            lemma_model_index(s, i as int);
                            assert(fuzzy_hit(self@, t, name_at(s, f as int)));
                            assert(fuzzy_hit(self@, t, name_at(s, i as int)));
                        }
                        return Err(YakError::Ambiguous(String::from_str(search_term)));
                    },
                }
            }
            i += 1;
        }
        match first {
            None => {
                proof {
                    assert forall|k: Seq<char>| !fuzzy_hit(self@, t, k) by {
                        if self@.contains_key(k) {
                            let j = choose|j: int| 0 <= j < s.len() && name_at(s, j) == k;
                            assert(!is_substring(t, name_at(s, j)));
                        }
                    }
                    assert(!(exists|k: Seq<char>| fuzzy_hit(self@, search_term@, k)));
                }
                Ok(None)
            },
            Some(f) => {
                proof {
                    lemma_model_index(s, f as int);
                    assert(fuzzy_hit(self@, search_term@, name_at(s, f as int)));
                    assert forall|k: Seq<char>| fuzzy_hit(self@, t, k) implies k == name_at(s, f as int) by {
                        let j = choose|j: int| 0 <= j < s.len() && name_at(s, j) == k;
                    }
                }
                Ok(Some(self.entries[f].yak.name.clone()))
            },
        }
    }

    /// Resolves a possibly partial name to exactly one stored path.
    pub fn find_yak(&self, search_term: &str) -> (r: Result<Option<String>, YakError>)
        requires
            self.wf(),
        ensures
            found_as(r, resolve(self@, search_term@), search_term@),
    {
        if let Some(exact) = self.try_exact_match(search_term) {
            return Ok(Some(exact));
        }
        let r = self.try_fuzzy_match(search_term);
        proof {
            let m = self@;
            let t = search_term@;
            if r is Ok && r->Ok_0 is Some {
                let k = r->Ok_0->Some_0@;
                let c = choose|k: Seq<char>| fuzzy_hit(m, t, k);
                assert(fuzzy_hit(m, t, k));
                assert(c == k);
            }
        }
        r
    }

    /// Resolves a name to a stored path, reporting absence as `NotFound`.
    fn resolve_name(&self, name: &str) -> (r: Result<String, YakError>)
        requires
            self.wf(),
        ensures
            match resolve(self@, name@) {
                Resolution::Found(k) => r is Ok && r->Ok_0@ == k,
                _ => r is Err && Some(r->Err_0@) == unresolved_error(resolve(self@, name@), name@),
            },
    {
        match self.find_yak(name) {
            Ok(Some(k)) => Ok(k),
            Ok(None) => Err(YakError::NotFound(String::from_str(name))),
            Err(e) => Err(e),
        }
    }

    /// Creates every missing proper ancestor of `name` as a fresh task.
    fn ensure_parent_yaks(&mut self, name: &str)
        requires
            old(self).wf(),
            valid_name(name@),
        ensures
            final(self).wf(),
            final(self).base() == old(self).base(),
            final(self)@ == with_ancestors(old(self)@, name@),
    {
        let ghost m0 = self@;
        let ghost p = name@;
        let n = name.unicode_len();
        let mut i: usize = 0;
        while i < n
            invariant
                self.wf(),
                self.base() == old(self).base(),
                n == p.len(),
                p == name@,
                valid_name(p),
                i <= n,
                self@ == Map::new(
                    |k: Seq<char>| m0.contains_key(k) || (is_ancestor(k, p) && k.len() < i),
                    |k: Seq<char>| if m0.contains_key(k) { m0[k] } else { fresh_task() },
                ),
            decreases n - i,
        {
            let ghost before = self@;
            if name.get_char(i) == '/' {
                proof {
                    lemma_prefix_valid(p, i as int);
                }
                let prefix = name.substring_char(0, i);
                if !self.contains(prefix) {
                    let e = Entry { yak: Yak::new(String::from_str(prefix)), legacy_done: false };
                    self.push_entry(e);
                }
                proof {
                    let a = p.subrange(0, i as int);
                    assert forall|k: Seq<char>| is_ancestor(k, p) && k.len() == i implies k == a by {
                        assert(k =~= a);
                    }
                }
            } else {
                proof {
                    assert forall|k: Seq<char>| is_ancestor(k, p) implies k.len() != i by {}
                }
            }
            i += 1;
            proof {
                assert(self@ =~= Map::new(
                    |k: Seq<char>| m0.contains_key(k) || (is_ancestor(k, p) && k.len() < i),
                    |k: Seq<char>| if m0.contains_key(k) { m0[k] } else { fresh_task() },
                ));
            }
        }
        proof {
            assert(self@ =~= with_ancestors(m0, p));
        }
    }

    /// Adds a task and any missing ancestors; an existing task at `name` starts over as
    /// a fresh Todo with an empty note.
    pub fn add(&mut self, name: &str) -> (r: Result<(), YakError>)
        requires
            old(self).wf(),
        ensures
            final(self).wf(),
            final(self).base() == old(self).base(),
            r is Ok <==> valid_name(name@),
            r is Ok ==> final(self)@ == added(old(self)@, name@),
            r is Err ==> r->Err_0@ == ErrorView::InvalidName(name@) && final(self)@ == old(self)@,
    {
        validate_yak_name(name)?;
        self.ensure_parent_yaks(name);
        match self.index_of(name) {
            Some(i) => {
                let ghost s = self.entries@;
                self.entries[i].yak.state = YakState::Todo;
                self.entries[i].yak.context = String::new();
                self.entries[i].yak.mtime = 0;
                self.entries[i].legacy_done = false;
                proof {
                    lemma_model_update(s, self.entries@, i as int);
                    assert(entry_data(self.entries@[i as int]) == fresh_task());
                }
            },
            None => {
                self.push_entry(Entry { yak: Yak::new(String::from_str(name)), legacy_done: false });
            },
        }
        Ok(())
    }

    /// Whether some direct child of the task at exactly `name` is not done.
    pub fn has_incomplete_children(&self, name: &str) -> (r: bool)
        requires
            self.wf(),
        ensures
            r == has_incomplete(self@, name@),
    {
        let ghost s = self.entries@;
        let mut i: usize = 0;
        while i < self.entries.len()
            invariant
                self.wf(),
                s == self.entries@,
                i <= s.len(),
                forall|j: int| 0 <= j < i && is_direct_child(#[trigger] name_at(s, j), name@) ==> s[j].yak.state == YakState::Done,
            decreases s.len() - i,
        {
            if is_direct_child_of(self.entries[i].yak.name.as_str(), name)
                && self.entries[i].yak.state != YakState::Done {
                proof {
                    lemma_model_index(s, i as int);
                    assert(self@.contains_key(name_at(s, i as int)));
                }
                return true;
            }
            i += 1;
        }
        proof {
            assert forall|c: Seq<char>| self@.contains_key(c) && is_direct_child(c, name@) implies self@[c].state == YakState::Done by {
                let j = choose|j: int| 0 <= j < s.len() && name_at(s, j) == c;
                lemma_model_index(s, j);
            }
        }
        false
    }

    /// Sets the state of the resolved task; Done needs every direct child done.
    pub fn update_state(&mut self, name: &str, state: YakState) -> (r: Result<(), YakError>)
        requires
            old(self).wf(),
        ensures
            final(self).wf(),
            final(self).base() == old(self).base(),
            match resolve(old(self)@, name@) {
                Resolution::Found(k) => if state == YakState::Done && has_incomplete(old(self)@, k) {
                    r is Err && r->Err_0@ == ErrorView::HasIncompleteChildren(k) && final(self)@ == old(self)@
                } else {
                    r is Ok && final(self)@ == old(self)@.insert(k, TaskData { state, ..old(self)@[k] })
                },
                _ => err_view(r) == unresolved_error(resolve(old(self)@, name@), name@) && final(self)@ == old(self)@,
            },
    {
        let k = self.resolve_name(name)?;
        if state == YakState::Done && self.has_incomplete_children(k.as_str()) {
            return Err(YakError::HasIncompleteChildren(k));
        }
        self.set_state(k.as_str(), state);
        Ok(())
    }

    fn set_state(&mut self, k: &str, state: YakState)
        requires
            old(self).wf(),
            old(self)@.contains_key(k@),
        ensures
            final(self).wf(),
            final(self).base() == old(self).base(),
            final(self)@ == old(self)@.insert(k@, TaskData { state, ..old(self)@[k@] }),
    {
        let i = self.index_of(k).unwrap();
        let ghost s = self.entries@;
        self.entries[i].yak.state = state;
        proof {
            lemma_model_update(s, self.entries@, i as int);
            assert(entry_data(self.entries@[i as int]) == TaskData { state, ..old(self)@[k@] });
        }
    }

    /// Sets `state` on the resolved task and on every task below it, unconditionally.
    pub fn update_state_recursive(&mut self, name: &str, state: YakState) -> (r: Result<(), YakError>)
        requires
            old(self).wf(),
        ensures
            final(self).wf(),
            final(self).base() == old(self).base(),
            match resolve(old(self)@, name@) {
                Resolution::Found(k) => r is Ok && final(self)@ == with_subtree_state(old(self)@, k, state),
                _ => err_view(r) == unresolved_error(resolve(old(self)@, name@), name@) && final(self)@ == old(self)@,
            },
    {
        let k = self.resolve_name(name)?;
        self.update_state_recursively(k.as_str(), state);
        Ok(())
    }

    /// Sets `state` on the task at exactly `k` and everything below it.
    fn update_state_recursively(&mut self, k: &str, state: YakState)
        requires
            old(self).wf(),
        ensures
            final(self).wf(),
            final(self).base() == old(self).base(),
            final(self)@ == with_subtree_state(old(self)@, k@, state),
    {
        let ghost s0 = self.entries@;
        let mut i: usize = 0;
        while i < self.entries.len()
            invariant
                self.base() == old(self).base(),
                names_unique(s0),
                s0 == old(self).entries@,
                old(self).wf(),
                self.entries@.len() == s0.len(),
                i <= s0.len(),
                forall|j: int| 0 <= j < s0.len() ==> #[trigger] name_at(self.entries@, j) == name_at(s0, j),
                forall|j: int| 0 <= j < s0.len() ==> #[trigger] entry_data(self.entries@[j]) == if j < i && under(name_at(s0, j), k@) {
                    TaskData { state, ..entry_data(s0[j]) }
                } else {
                    entry_data(s0[j])
                },
            decreases s0.len() - i,
        {
            let ghost before = self.entries@;
            let u = is_under(self.entries[i].yak.name.as_str(), k);
            if u {
                self.entries[i].yak.state = state;
            }
            proof {
                assert(entry_data(before[i as int]) == entry_data(s0[i as int]));
                assert(name_at(before, i as int) == name_at(s0, i as int));
                assert forall|j: int| 0 <= j < s0.len() implies #[trigger] name_at(self.entries@, j) == name_at(s0, j) by {
                    assert(name_at(before, j) == name_at(s0, j));
                    if j != i {
                        assert(self.entries@[j] == before[j]);
                    }
                }
                assert forall|j: int| 0 <= j < s0.len() implies #[trigger] entry_data(self.entries@[j]) == if j < i + 1 && under(name_at(s0, j), k@) {
                    TaskData { state, ..entry_data(s0[j]) }
                } else {
                    entry_data(s0[j])
                } by {
                    assert(entry_data(before[j]) == if j < i && under(name_at(s0, j), k@) {
                        TaskData { state, ..entry_data(s0[j]) }
                    } else {
                        entry_data(s0[j])
                    });
                    if j != i {
                        assert(self.entries@[j] == before[j]);
                    }
                }
            }
            i += 1;
        }
        proof {
            let s = self.entries@;
            let m = with_subtree_state(model(s0), k@, state);
            assert(names_unique(s)) by {
                assert forall|a: int, b: int| 0 <= a < s.len() && 0 <= b < s.len() && a != b implies name_at(s, a) != name_at(s, b) by {
                    assert(name_at(s, a) == name_at(s0, a));
                    assert(name_at(s, b) == name_at(s0, b));
                }
            }
            assert forall|j: int| 0 <= j < s.len() implies #[trigger] m.contains_key(name_at(s, j)) && m[name_at(s, j)] == entry_data(s[j]) by {
                lemma_model_index(s0, j);
                assert(name_at(s, j) == name_at(s0, j));
                assert(entry_data(s[j]) == entry_data(self.entries@[j]));
            }
            assert forall|c: Seq<char>| #[trigger] m.contains_key(c) implies exists|j: int| 0 <= j < s.len() && name_at(s, j) == c by {
                let j = choose|j: int| 0 <= j < s0.len() && name_at(s0, j) == c;
                assert(name_at(s, j) == name_at(s0, j));
            }
            lemma_model_ext(s, m);
            assert forall|j: int| 0 <= j < s.len() implies valid_name(#[trigger] name_at(s, j)) by {
                assert(name_at(s, j) == name_at(s0, j));
                assert(valid_name(name_at(s0, j)));
            }
        }
    }

    /// Deletes the resolved task and everything below it.
    pub fn remove(&mut self, name: &str) -> (r: Result<(), YakError>)
        requires
            old(self).wf(),
        ensures
            final(self).wf(),
            final(self).base() == old(self).base(),
            match resolve(old(self)@, name@) {
                Resolution::Found(k) => r is Ok && final(self)@ == without_subtree(old(self)@, k),
                _ => err_view(r) == unresolved_error(resolve(old(self)@, name@), name@) && final(self)@ == old(self)@,
            },
    {
        let k = self.resolve_name(name)?;
        self.remove_subtree(k.as_str());
        Ok(())
    }

    /// Drops the task at exactly `k` and everything below it.
    pub(crate) fn remove_subtree(&mut self, k: &str)
        requires
            old(self).wf(),
        ensures
            final(self).wf(),
            final(self).base() == old(self).base(),
            final(self)@ == without_subtree(old(self)@, k@),
    {
        let ghost s0 = self.entries@;
        let mut kept: Vec<Entry> = Vec::new();
        let ghost mut src: Seq<int> = Seq::empty();
        let mut i: usize = 0;
        while i < self.entries.len()
            invariant
                self.wf(),
                self.entries@ == s0,
                self.base() == old(self).base(),
                i <= s0.len(),
                src.len() == kept@.len(),
                forall|a: int| 0 <= a < src.len() ==> 0 <= #[trigger] src[a] < i,
                forall|a: int, b: int| 0 <= a < b < src.len() ==> src[a] < src[b],
                forall|a: int| 0 <= a < src.len() ==> #[trigger] name_at(kept@, a) == name_at(s0, src[a])
                    && entry_data(kept@[a]) == entry_data(s0[src[a]]) && !under(name_at(s0, src[a]), k@),
                forall|j: int| 0 <= j < i && !under(#[trigger] name_at(s0, j), k@) ==> exists|a: int| 0 <= a < src.len() && src[a] == j,
            decreases s0.len() - i,
        {
            let u = is_under(self.entries[i].yak.name.as_str(), k);
            if !u {
                let e = Entry { yak: self.entries[i].yak.duplicate(), legacy_done: self.entries[i].legacy_done };
                let ghost old_kept = kept@;
                proof {
                    assert(entry_data(e) == entry_data(s0[i as int]));
                }
                kept.push(e);
                proof {
                    let old_src = src;
                    src = src.push(i as int);
                    assert forall|a: int| 0 <= a < src.len() implies #[trigger] name_at(kept@, a) == name_at(s0, src[a])
                        && entry_data(kept@[a]) == entry_data(s0[src[a]]) && !under(name_at(s0, src[a]), k@) by {
                        if a < old_src.len() {
                            assert(kept@[a] == old_kept[a]);
                            assert(src[a] == old_src[a]);
                            assert(name_at(old_kept, a) == name_at(s0, old_src[a]));
                        } else {
                            assert(kept@[a] == e);
                            assert(src[a] == i);
                            assert(e.yak@ == s0[i as int].yak@);
                        }
                    }
                    assert forall|j: int| 0 <= j < i + 1 && !under(#[trigger] name_at(s0, j), k@) implies exists|a: int| 0 <= a < src.len() && src[a] == j by {
                        if j < i {
                            let a = choose|a: int| 0 <= a < old_src.len() && old_src[a] == j;
                            assert(src[a] == j);
                        } else {
                            assert(src[old_src.len() as int] == j);
                        }
                    }
                }
            }
            i += 1;
        }
        proof {
            let s = kept@;
            let m = without_subtree(model(s0), k@);
            assert forall|a: int, b: int| 0 <= a < s.len() && 0 <= b < s.len() && a != b implies name_at(s, a) != name_at(s, b) by {
                assert(name_at(s, a) == name_at(s0, src[a]));
                assert(name_at(s, b) == name_at(s0, src[b]));
                assert(src[a] != src[b]);
            }
            assert forall|j: int| 0 <= j < s.len() implies #[trigger] m.contains_key(name_at(s, j)) && m[name_at(s, j)] == entry_data(s[j]) by {
                lemma_model_index(s0, src[j]);
            }
            assert forall|c: Seq<char>| #[trigger] m.contains_key(c) implies exists|a: int| 0 <= a < s.len() && name_at(s, a) == c by {
                let j = choose|j: int| 0 <= j < s0.len() && name_at(s0, j) == c;
                let a = choose|a: int| 0 <= a < src.len() && src[a] == j;
                assert(name_at(s, a) == c);
            }
            lemma_model_ext(s, m);
            assert forall|a: int| 0 <= a < s.len() implies valid_name(#[trigger] name_at(s, a)) by {
                assert(name_at(s, a) == name_at(s0, src[a]));
            }
        }
        self.entries = kept;
    }

    /// Moves the resolved task, with its whole subtree, to `new_name`; missing ancestors
    /// of `new_name` are created first.
    pub fn rename(&mut self, old_name: &str, new_name: &str) -> (r: Result<(), YakError>)
        requires
            old(self).wf(),
        ensures
            final(self).wf(),
            final(self).base() == old(self).base(),
            match resolve(old(self)@, old_name@) {
                Resolution::Found(k) => if !valid_name(new_name@) {
                    r is Err && r->Err_0@ == ErrorView::InvalidName(new_name@) && final(self)@ == old(self)@
                } else if blocked_destination(old(self)@, k, new_name@) {
                    r is Err && r->Err_0@ == ErrorView::DestinationExists(new_name@) && final(self)@ == old(self)@
                } else {
                    r is Ok && final(self)@ == moved(with_ancestors(old(self)@, new_name@), k, new_name@)
                },
                _ => err_view(r) == unresolved_error(resolve(old(self)@, old_name@), old_name@) && final(self)@ == old(self)@,
            },
    {
        let k = self.resolve_name(old_name)?;
        validate_yak_name(new_name)?;
        if is_under(new_name, k.as_str()) || self.any_under(new_name) {
            return Err(YakError::DestinationExists(String::from_str(new_name)));
        }
        let ghost m0 = self@;
        self.ensure_parent_yaks(new_name);
        proof {
            assert forall|c: Seq<char>| self@.contains_key(c) implies !under(c, new_name@) by {
                if !m0.contains_key(c) {
                    assert(is_ancestor(c, new_name@));
                }
            }
        }
        self.move_subtree(k.as_str(), new_name);
        Ok(())
    }

    /// Whether a stored path is `n` or lies below it.
    fn any_under(&self, n: &str) -> (r: bool)
        requires
            self.wf(),
        ensures
            r == exists|c: Seq<char>| self@.contains_key(c) && under(c, n@),
    {
        let ghost s = self.entries@;
        let mut i: usize = 0;
        while i < self.entries.len()
            invariant
                self.wf(),
                s == self.entries@,
                i <= s.len(),
                forall|j: int| 0 <= j < i ==> !under(#[trigger] name_at(s, j), n@),
            decreases s.len() - i,
        {
            if is_under(self.entries[i].yak.name.as_str(), n) {
                proof {
                    lemma_model_index(s, i as int);
                }
                return true;
            }
            i += 1;
        }
        proof {
            assert forall|c: Seq<char>| self@.contains_key(c) implies !under(c, n@) by {
                let j = choose|j: int| 0 <= j < s.len() && name_at(s, j) == c;
            }
        }
        false
    }

    /// Renames every path under `k` to the same place under `n`.
    fn move_subtree(&mut self, k: &str, n: &str)
        requires
            old(self).wf(),
            valid_name(n@),
            forall|c: Seq<char>| old(self)@.contains_key(c) ==> !under(c, n@),
        ensures
            final(self).wf(),
            final(self).base() == old(self).base(),
            final(self)@ == moved(old(self)@, k@, n@),
    {
        let ghost s0 = self.entries@;
        let ghost m0 = self@;
        let klen = k.unicode_len();
        let mut i: usize = 0;
        while i < self.entries.len()
            invariant
                self.base() == old(self).base(),
                old(self).wf(),
                s0 == old(self).entries@,
                m0 == old(self)@,
                klen == k@.len(),
                self.entries@.len() == s0.len(),
                i <= s0.len(),
                forall|j: int| 0 <= j < s0.len() ==> #[trigger] name_at(self.entries@, j) == if j < i && under(name_at(s0, j), k@) {
                    relocated(name_at(s0, j), k@, n@)
                } else {
                    name_at(s0, j)
                },
                forall|j: int| 0 <= j < s0.len() ==> #[trigger] entry_data(self.entries@[j]) == entry_data(s0[j]),
            decreases s0.len() - i,
        {
            let ghost before = self.entries@;
            let u = is_under(self.entries[i].yak.name.as_str(), k);
            if u {
                let len = self.entries[i].yak.name.as_str().unicode_len();
                let mut moved_name = String::from_str(n);
                moved_name.append(self.entries[i].yak.name.as_str().substring_char(klen, len));
                self.entries[i].yak.name = moved_name;
            }
            proof {
                assert(name_at(before, i as int) == name_at(s0, i as int));
                assert(entry_data(before[i as int]) == entry_data(s0[i as int]));
                assert forall|j: int| 0 <= j < s0.len() implies #[trigger] name_at(self.entries@, j) == if j < i + 1 && under(name_at(s0, j), k@) {
                    relocated(name_at(s0, j), k@, n@)
                } else {
                    name_at(s0, j)
                } by {
                    assert(name_at(before, j) == if j < i && under(name_at(s0, j), k@) {
                        relocated(name_at(s0, j), k@, n@)
                    } else {
                        name_at(s0, j)
                    });
                    if j != i {
                        assert(self.entries@[j] == before[j]);
                    }
                }
                assert forall|j: int| 0 <= j < s0.len() implies #[trigger] entry_data(self.entries@[j]) == entry_data(s0[j]) by {
                    assert(entry_data(before[j]) == entry_data(s0[j]));
                    if j != i {
                        assert(self.entries@[j] == before[j]);
                    }
                }
            }
            i += 1;
        }
        proof {
            let s = self.entries@;
            let m = moved(m0, k@, n@);
            assert forall|j: int| 0 <= j < s.len() implies valid_name(#[trigger] name_at(s, j)) && (under(name_at(s0, j), k@) ==> name_at(s, j) == relocated(name_at(s0, j), k@, n@) && under(name_at(s, j), n@)) && (!under(name_at(s0, j), k@) ==> name_at(s, j) == name_at(s0, j) && !under(name_at(s, j), n@)) by {
                lemma_model_index(s0, j);
                assert(valid_name(name_at(s0, j)));
                if under(name_at(s0, j), k@) {
                    lemma_relocate(name_at(s0, j), k@, n@);
                    lemma_relocate_valid(name_at(s0, j), k@, n@);
                }
            }
            assert forall|a: int, b: int| 0 <= a < s.len() && 0 <= b < s.len() && a != b implies name_at(s, a) != name_at(s, b) by {
                assert(valid_name(name_at(s, a)));
                assert(valid_name(name_at(s, b)));
                if under(name_at(s0, a), k@) && under(name_at(s0, b), k@) {
                    lemma_relocate(name_at(s0, a), k@, n@);
                    lemma_relocate(name_at(s0, b), k@, n@);
                }
            }
            assert forall|j: int| 0 <= j < s.len() implies #[trigger] m.contains_key(name_at(s, j)) && m[name_at(s, j)] == entry_data(s[j]) by {
                lemma_model_index(s0, j);
                assert(valid_name(name_at(s, j)));
                if under(name_at(s0, j), k@) {
                    lemma_relocate(name_at(s0, j), k@, n@);
                }
            }
            assert forall|x: Seq<char>| #[trigger] m.contains_key(x) implies exists|a: int| 0 <= a < s.len() && name_at(s, a) == x by {
                if m0.contains_key(x) && !under(x, k@) {
                    let j = choose|j: int| 0 <= j < s0.len() && name_at(s0, j) == x;
                    assert(valid_name(name_at(s, j)));
                    assert(name_at(s, j) == x);
                } else {
                    let c = k@ + x.subrange(n@.len() as int, x.len() as int);
                    lemma_relocate_back(x, k@, n@);
                    let j = choose|j: int| 0 <= j < s0.len() && name_at(s0, j) == c;
                    assert(valid_name(name_at(s, j)));
                    assert(name_at(s, j) == x);
                }
            }
            lemma_model_ext(s, m);
        }
    }

    /// Replaces the note of the resolved task.
    pub fn set_context(&mut self, name: &str, context: &str) -> (r: Result<(), YakError>)
        requires
            old(self).wf(),
        ensures
            final(self).wf(),
            final(self).base() == old(self).base(),
            match resolve(old(self)@, name@) {
                Resolution::Found(k) => r is Ok && final(self)@ == old(self)@.insert(k, TaskData { context: context@, ..old(self)@[k] }),
                _ => err_view(r) == unresolved_error(resolve(old(self)@, name@), name@) && final(self)@ == old(self)@,
            },
    {
        let k = self.resolve_name(name)?;
        let i = self.index_of(k.as_str()).unwrap();
        let ghost s = self.entries@;
        self.entries[i].yak.context = String::from_str(context);
        proof {
            lemma_model_update(s, self.entries@, i as int);
            assert(entry_data(self.entries@[i as int]) == TaskData { context: context@, ..old(self)@[k@] });
        }
        Ok(())
    }

    /// The note of the resolved task.
    pub fn get_context(&self, name: &str) -> (r: Result<String, YakError>)
        requires
            self.wf(),
        ensures
            match resolve(self@, name@) {
                Resolution::Found(k) => r is Ok && r->Ok_0@ == self@[k].context,
                _ => err_view(r) == unresolved_error(resolve(self@, name@), name@),
            },
    {
        let k = self.resolve_name(name)?;
        let i = self.index_of(k.as_str()).unwrap();
        Ok(self.entries[i].yak.context.clone())
    }

    /// Whether the task at exactly `name` still carries an old-style `done` marker.
    pub fn has_legacy_marker(&self, name: &str) -> (r: bool)
        requires
            self.wf(),
        ensures
            r == (self@.contains_key(name@) && self@[name@].legacy_done),
    {
        match self.index_of(name) {
            Some(i) => self.entries[i].legacy_done,
            None => false,
        }
    }

    /// Turns every old-style `done` marker into state Done and drops the marker.
    pub fn migrate_done_to_state(&mut self)
        requires
            old(self).wf(),
        ensures
            final(self).wf(),
            final(self).base() == old(self).base(),
            final(self)@ == migrated(old(self)@),
    {
        let ghost s0 = self.entries@;
        let mut i: usize = 0;
        while i < self.entries.len()
            invariant
                self.base() == old(self).base(),
                names_unique(s0),
                s0 == old(self).entries@,
                old(self).wf(),
                self.entries@.len() == s0.len(),
                i <= s0.len(),
                forall|j: int| 0 <= j < s0.len() ==> #[trigger] name_at(self.entries@, j) == name_at(s0, j),
                forall|j: int| 0 <= j < s0.len() ==> #[trigger] entry_data(self.entries@[j]) == if j < i && s0[j].legacy_done {
                    TaskData { state: YakState::Done, legacy_done: false, ..entry_data(s0[j]) }
                } else {
                    entry_data(s0[j])
                },
            decreases s0.len() - i,
        {
            let ghost before = self.entries@;
            if self.entries[i].legacy_done {
                self.entries[i].yak.state = YakState::Done;
                self.entries[i].legacy_done = false;
            }
            proof {
                assert(entry_data(before[i as int]) == entry_data(s0[i as int]));
                assert forall|j: int| 0 <= j < s0.len() implies #[trigger] name_at(self.entries@, j) == name_at(s0, j) by {
                    assert(name_at(before, j) == name_at(s0, j));
                    if j != i {
                        assert(self.entries@[j] == before[j]);
                    }
                }
                assert forall|j: int| 0 <= j < s0.len() implies #[trigger] entry_data(self.entries@[j]) == if j < i + 1 && s0[j].legacy_done {
                    TaskData { state: YakState::Done, legacy_done: false, ..entry_data(s0[j]) }
                } else {
                    entry_data(s0[j])
                } by {
                    assert(entry_data(before[j]) == if j < i && s0[j].legacy_done {
                        TaskData { state: YakState::Done, legacy_done: false, ..entry_data(s0[j]) }
                    } else {
                        entry_data(s0[j])
                    });
                    if j != i {
                        assert(self.entries@[j] == before[j]);
                    }
                }
            }
            i += 1;
        }
        proof {
            let s = self.entries@;
            let m = migrated(model(s0));
            assert(names_unique(s)) by {
                assert forall|a: int, b: int| 0 <= a < s.len() && 0 <= b < s.len() && a != b implies name_at(s, a) != name_at(s, b) by {
                    assert(name_at(s, a) == name_at(s0, a));
                    assert(name_at(s, b) == name_at(s0, b));
                }
            }
            assert forall|j: int| 0 <= j < s.len() implies #[trigger] m.contains_key(name_at(s, j)) && m[name_at(s, j)] == entry_data(s[j]) by {
                lemma_model_index(s0, j);
                assert(name_at(s, j) == name_at(s0, j));
                assert(entry_data(s[j]) == entry_data(self.entries@[j]));
            }
            assert forall|c: Seq<char>| #[trigger] m.contains_key(c) implies exists|j: int| 0 <= j < s.len() && name_at(s, j) == c by {
                let j = choose|j: int| 0 <= j < s0.len() && name_at(s0, j) == c;
                assert(name_at(s, j) == name_at(s0, j));
            }
            lemma_model_ext(s, m);
            assert forall|j: int| 0 <= j < s.len() implies valid_name(#[trigger] name_at(s, j)) by {
                assert(name_at(s, j) == name_at(s0, j));
                assert(valid_name(name_at(s0, j)));
            }
        }
    }

    /// The root directory of the tree.
    pub fn base_path(&self) -> (r: &str)
        ensures
            r@ == self.base(),
    {
        self.base_path.as_str()
    }

    /// The directory of the task `name`: `<base>/<name>`.
    pub fn yak_path(&self, name: &str) -> (r: String)
        ensures
            r@ == self.base() + seq!['/'] + name@,
    {
        let mut p = self.base_path.clone();
        p.append("/");
        p.append(name);
        proof {
            reveal_strlit("/");
        }
        p
    }

    /// The `state` file of the task `name`.
    pub fn state_file(&self, name: &str) -> (r: String)
        ensures
            r@ == self.base() + seq!['/'] + name@ + seq!['/', 's', 't', 'a', 't', 'e'],
    {
        let mut p = self.yak_path(name);
        p.append("/state");
        proof {
            reveal_strlit("/state");
        }
        p
    }

    /// The `context.md` file of the task `name`.
    pub fn context_file(&self, name: &str) -> (r: String)
        ensures
            r@ == self.base() + seq!['/'] + name@ + seq!['/', 'c', 'o', 'n', 't', 'e', 'x', 't', '.', 'm', 'd'],
    {
        let mut p = self.yak_path(name);
        p.append("/context.md");
        proof {
            reveal_strlit("/context.md");
        }
        p
    }

    /// The task stored at exactly `name`.
    pub fn get(&self, name: &str) -> (r: Option<Yak>)
        requires
            self.wf(),
        ensures
            r is Some <==> self@.contains_key(name@),
            r is Some ==> r->Some_0@ == (YakView {
                name: name@,
                state: self@[name@].state,
                context: self@[name@].context,
                mtime: self@[name@].mtime,
            }),
    {
        match self.index_of(name) {
            Some(i) => Some(self.entries[i].yak.duplicate()),
            None => None,
        }
    }

    /// Every stored task, once each, in no particular order.
    pub fn list(&self) -> (r: Vec<Yak>)
        requires
            self.wf(),
        ensures
            r@.len() == self@.len(),
            forall|i: int| 0 <= i < r@.len() ==> #[trigger] self@.contains_key(r@[i]@.name) && r@[i]@ == (
            YakView {
                name: r@[i]@.name,
                state: self@[r@[i]@.name].state,
                context: self@[r@[i]@.name].context,
                mtime: self@[r@[i]@.name].mtime,
            }),
            forall|k: Seq<char>| #[trigger] self@.contains_key(k) ==> exists|i: int| 0 <= i < r@.len() && r@[i]@.name == k,
            forall|i: int, j: int| 0 <= i < r@.len() && 0 <= j < r@.len() && i != j ==> r@[i]@.name != r@[j]@.name,
    {
        let ghost s = self.entries@;
        let mut r: Vec<Yak> = Vec::new();
        let mut i: usize = 0;
        while i < self.entries.len()
            invariant
                self.wf(),
                s == self.entries@,
                i <= s.len(),
                r@.len() == i,
                forall|j: int| 0 <= j < i ==> (#[trigger] r@[j])@ == s[j].yak@,
            decreases s.len() - i,
        {
            r.push(self.entries[i].yak.duplicate());
            i += 1;
        }
        proof {
            self.lemma_len();
            assert forall|j: int| 0 <= j < r@.len() implies #[trigger] self@.contains_key(r@[j]@.name) && r@[j]@ == (
            YakView {
                name: r@[j]@.name,
                state: self@[r@[j]@.name].state,
                context: self@[r@[j]@.name].context,
                mtime: self@[r@[j]@.name].mtime,
            }) by {
                lemma_model_index(s, j);
            }
            assert forall|k: Seq<char>| #[trigger] self@.contains_key(k) implies exists|j: int| 0 <= j < r@.len() && r@[j]@.name == k by {
                let j = choose|j: int| 0 <= j < s.len() && name_at(s, j) == k;
                assert(r@[j]@.name == k);
            }
            assert forall|a: int, b: int| 0 <= a < r@.len() && 0 <= b < r@.len() && a != b implies r@[a]@.name != r@[b]@.name by {
                assert(r@[a]@.name == name_at(s, a));
                assert(r@[b]@.name == name_at(s, b));
            }
        }
        r
    }
}

} // verus!
