use vstd::prelude::*;

use crate::path::is_direct_child;
use crate::state::YakState;

verus! {

/// One task: its path, completion state, note and last-write time
/// (nanoseconds since the Unix epoch).
#[derive(Debug, Clone)]
pub struct Yak {
    pub name: String,
    pub state: YakState,
    pub context: String,
    pub mtime: u64,
}

/// The mathematical value of a `Yak`.
pub struct YakView {
    pub name: Seq<char>,
    pub state: YakState,
    pub context: Seq<char>,
    pub mtime: u64,
}

impl View for Yak {
    type V = YakView;

    open spec fn view(&self) -> YakView {
        YakView { name: self.name@, state: self.state, context: self.context@, mtime: self.mtime }
    }
}

/// Number of `/` in `s`.
pub open spec fn slash_count(s: Seq<char>) -> nat
    decreases s.len(),
{
    if s.len() == 0 {
        0
    } else {
        slash_count(s.drop_last()) + if s.last() == '/' {
            1nat
        } else {
            0nat
        }
    }
}

/// Index of the last `/` in `s`, or -1 when there is none.
pub open spec fn last_slash(s: Seq<char>) -> int
    decreases s.len(),
{
    if s.len() == 0 {
        -1
    } else if s.last() == '/' {
        s.len() - 1
    } else {
        last_slash(s.drop_last())
    }
}

/// The last segment of a path.
pub open spec fn basename_of(s: Seq<char>) -> Seq<char> {
    s.subrange(last_slash(s) + 1, s.len() as int)
}

/// The path with its last segment removed, if it has more than one.
pub open spec fn parent_of(s: Seq<char>) -> Option<Seq<char>> {
    if last_slash(s) < 0 {
        None
    } else {
        Some(s.subrange(0, last_slash(s)))
    }
}

/// Meaning of `is_child_of`: top level for an empty or `.` parent, else one level below it.
pub open spec fn child_of(name: Seq<char>, parent: Seq<char>) -> bool {
    if parent.len() == 0 || parent == seq!['.'] {
        forall|i: int| 0 <= i < name.len() ==> name[i] != '/'
    } else {
        is_direct_child(name, parent)
    }
}

proof fn lemma_last_slash(s: Seq<char>, i: int)
    requires
        0 <= i <= s.len(),
        i == 0 || s[i - 1] == '/',
        forall|j: int| i <= j < s.len() ==> s[j] != '/',
    ensures
        last_slash(s) == i - 1,
    decreases s.len(),
{
    if s.len() > 0 && i < s.len() {
        lemma_last_slash(s.drop_last(), i);
    }
}

impl Yak {
    /// A new task named `name`: Todo, with an empty note.
    pub fn new(name: String) -> (r: Yak)
        ensures
            r@ == (YakView { name: name@, state: YakState::Todo, context: Seq::empty(), mtime: 0 }),
    {
        Yak { name, state: YakState::Todo, context: String::new(), mtime: 0 }
    }

    pub fn with_state(self, state: YakState) -> (r: Yak)
        ensures
            r@ == (YakView { state, ..self@ }),
    {
        let mut y = self;
        y.state = state;
        y
    }

    pub fn with_context(self, context: String) -> (r: Yak)
        ensures
            r@ == (YakView { context: context@, ..self@ }),
    {
        let mut y = self;
        y.context = context;
        y
    }

    pub fn with_mtime(self, mtime: u64) -> (r: Yak)
        ensures
            r@ == (YakView { mtime, ..self@ }),
    {
        let mut y = self;
        y.mtime = mtime;
        y
    }

    /// A copy whose fields equal this one's.
    pub fn duplicate(&self) -> (r: Yak)
        ensures
            r@ == self@,
    {
        Yak {
            name: self.name.clone(),
            state: self.state,
            context: self.context.clone(),
            mtime: self.mtime,
        }
    }

    fn last_slash_index(&self) -> (r: usize)
        ensures
            r as int == last_slash(self.name@) + 1,
            r <= self.name@.len(),
    {
        let n = self.name.as_str().unicode_len();
        let mut i: usize = n;
        while i > 0 && self.name.as_str().get_char(i - 1) != '/'
            invariant
                n == self.name@.len(),
                i <= n,
                forall|j: int| i <= j < n ==> self.name@[j] != '/',
            decreases i,
        {
            i -= 1;
        }
        proof {
            lemma_last_slash(self.name@, i as int);
        }
        i
    }

    /// The last segment of the path.
    pub fn basename(&self) -> (r: String)
        ensures
            r@ == basename_of(self.name@),
    {
        let i = self.last_slash_index();
        let n = self.name.as_str().unicode_len();
        String::from_str(self.name.as_str().substring_char(i, n))
    }

    /// Nesting depth: the number of `/` in the path.
    pub fn depth(&self) -> (r: usize)
        ensures
            r == slash_count(self.name@),
    {
        let s = self.name.as_str();
        let n = s.unicode_len();
        let mut i: usize = 0;
        let mut c: usize = 0;
        while i < n
            invariant
                n == s@.len(),
                i <= n,
                c == slash_count(s@.subrange(0, i as int)),
                c <= i,
            decreases n - i,
        {
            assert(s@.subrange(0, i + 1).drop_last() =~= s@.subrange(0, i as int));
            if s.get_char(i) == '/' {
                c += 1;
            }
            i += 1;
        }
        assert(s@.subrange(0, n as int) =~= s@);
        c
    }

    /// The path of the enclosing task, if any.
    pub fn parent(&self) -> (r: Option<String>)
        ensures
            r is None <==> parent_of(self.name@) is None,
            r is Some ==> r->Some_0@ == parent_of(self.name@)->Some_0,
    {
        let i = self.last_slash_index();
        if i == 0 {
            None
        } else {
            Some(String::from_str(self.name.as_str().substring_char(0, i - 1)))
        }
    }

    /// One level below `parent`, or at the top level for an empty parent or a dot.
    pub fn is_child_of(&self, parent: &str) -> (r: bool)
        ensures
            r == child_of(self.name@, parent@),
    {
        let m = parent.unicode_len();
        if m == 0 || (m == 1 && parent.get_char(0) == '.') {
            proof {
                if m == 1 && parent@[0] == '.' {
                    assert(parent@ =~= seq!['.']);
                }
            }
            let s = self.name.as_str();
            let n = s.unicode_len();
            let mut i: usize = 0;
            while i < n
                invariant
                    n == s@.len(),
                    i <= n,
                    forall|j: int| 0 <= j < i ==> s@[j] != '/',
                    parent@.len() == 0 || parent@ == seq!['.'],
                    s@ == self.name@,
                decreases n - i,
            {
                if s.get_char(i) == '/' {
                    assert(self.name@[i as int] == '/');
                    return false;
                }
                i += 1;
            }
            true
        } else {
            proof {
                if parent@ == seq!['.'] {
                    assert(parent@.len() == 1);
                }
            }
            crate::path::is_direct_child_of(self.name.as_str(), parent)
        }
    }
}

} // verus!
