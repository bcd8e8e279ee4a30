use vstd::prelude::*;

verus! {

/// Completion state of a task.
#[derive(Debug, Clone, Copy, PartialEq, Eq, Structural)]
pub enum YakState {
    Todo,
    Done,
}

/// The text stored in a task's `state` file for each state.
pub open spec fn state_text(s: YakState) -> Seq<char> {
    match s {
        YakState::Todo => seq!['t', 'o', 'd', 'o'],
        YakState::Done => seq!['d', 'o', 'n', 'e'],
    }
}

/// Whitespace that surrounds a stored state word.
pub open spec fn is_space(c: char) -> bool {
    c == ' ' || c == '\t' || c == '\n' || c == '\r' || c == '\x0b' || c == '\x0c'
}

/// `s` is the word `done`, with only whitespace around it.
pub open spec fn reads_done(s: Seq<char>) -> bool {
    exists|i: int|
        0 <= i && i + 4 <= s.len() && #[trigger] s.subrange(i, i + 4) == state_text(YakState::Done)
            && (forall|j: int| 0 <= j < i ==> is_space(s[j])) && (forall|j: int|
            i + 4 <= j < s.len() ==> is_space(s[j]))
}

/// Decoding of a `state` file: `done` is Done, anything else (garbage, empty) is Todo.
pub open spec fn decode_state(s: Seq<char>) -> YakState {
    if reads_done(s) {
        YakState::Done
    } else {
        YakState::Todo
    }
}

impl YakState {
    /// Whether `c` is whitespace that may surround a stored word.
    pub fn is_space_char(c: char) -> (r: bool)
        ensures
            r == is_space(c),
    {
        c == ' ' || c == '\t' || c == '\n' || c == '\r' || c == '\x0b' || c == '\x0c'
    }

    /// Reads the content of a `state` file.
    pub fn from_text(text: &str) -> (r: YakState)
        ensures
            r == decode_state(text@),
    {
        let n = text.unicode_len();
        let mut a: usize = 0;
        while a < n && YakState::is_space_char(text.get_char(a))
            invariant
                n == text@.len(),
                a <= n,
                forall|j: int| 0 <= j < a ==> is_space(text@[j]),
            decreases n - a,
        {
            a += 1;
        }
        let mut b: usize = n;
        while b > a && YakState::is_space_char(text.get_char(b - 1))
            invariant
                n == text@.len(),
                a <= b <= n,
                forall|j: int| b <= j < n ==> is_space(text@[j]),
            decreases b,
        {
            b -= 1;
        }
        assert(a < n ==> !is_space(text@[a as int]));
        assert(b > a ==> !is_space(text@[b - 1]));
        let found = b - a == 4 && text.get_char(a) == 'd' && text.get_char(a + 1) == 'o'
            && text.get_char(a + 2) == 'n' && text.get_char(a + 3) == 'e';
        if found {
            assert(text@.subrange(a as int, a + 4) =~= state_text(YakState::Done));
            YakState::Done
        } else {
            proof {
            if reads_done(text@) {
                let i = choose|i: int|
                    0 <= i && i + 4 <= text@.len() && #[trigger] text@.subrange(i, i + 4)
                        == state_text(YakState::Done) && (forall|j: int|
                        0 <= j < i ==> is_space(text@[j])) && (forall|j: int|
                        i + 4 <= j < text@.len() ==> is_space(text@[j]));
                assert(text@.subrange(i, i + 4)[0] == 'd');
                assert(text@.subrange(i, i + 4)[1] == 'o');
                assert(text@.subrange(i, i + 4)[2] == 'n');
                assert(text@.subrange(i, i + 4)[3] == 'e');
                assert(a == i);
                assert(b == i + 4);
            }
            }
            YakState::Todo
        }
    }

    /// The on-disk text of this state.
    pub fn as_str(&self) -> (r: &'static str)
        ensures
            r@ == state_text(*self),
    {
        proof {
            reveal_strlit("todo");
            reveal_strlit("done");
        }
        match self {
            YakState::Todo => "todo",
            YakState::Done => "done",
        }
    }
}

} // verus!
