use vstd::prelude::*;

use crate::state::YakState;
use crate::yak::{basename_of, parent_of, slash_count, Yak, YakView};

verus! {

broadcast use {vstd::seq_lib::to_multiset_insert, vstd::seq_lib::to_multiset_build};

/// How a task list is written.
#[derive(Debug, Clone, Copy, PartialEq, Eq, Structural)]
pub enum OutputFormat {
    /// Indented checkboxes, one per task.
    Markdown,
    /// Full task paths, one per line.
    Plain,
}

/// Which tasks a listing shows.
#[derive(Debug, Clone, Copy, PartialEq, Eq, Structural)]
pub enum YakFilter {
    All,
    NotDone,
    Done,
}

/// Whether a task passes a filter.
pub open spec fn shown(y: YakView, f: YakFilter) -> bool {
    match f {
        YakFilter::All => true,
        YakFilter::NotDone => y.state != YakState::Done,
        YakFilter::Done => y.state == YakState::Done,
    }
}

/// Two spaces per level.
pub open spec fn indent(d: nat) -> Seq<char>
    decreases d,
{
    if d == 0 {
        Seq::empty()
    } else {
        indent((d - 1) as nat) + seq![' ', ' ']
    }
}

/// The checkbox line of a task; a done task is greyed out.
pub open spec fn markdown_line(y: YakView) -> Seq<char> {
    match y.state {
        YakState::Done => seq!['\x1b', '[', '9', '0', 'm'] + indent(slash_count(y.name)) + seq![
            '-',
            ' ',
            '[',
            'x',
            ']',
            ' ',
        ] + basename_of(y.name) + seq!['\x1b', '[', '0', 'm'],
        YakState::Todo => indent(slash_count(y.name)) + seq!['-', ' ', '[', ' ', ']', ' '] + basename_of(y.name),
    }
}

/// The line of a task in a format.
pub open spec fn line_of(y: YakView, format: OutputFormat) -> Seq<char> {
    match format {
        OutputFormat::Markdown => markdown_line(y),
        OutputFormat::Plain => y.name,
    }
}

/// The lines of the shown tasks, in order.
pub open spec fn shown_lines(ys: Seq<YakView>, format: OutputFormat, f: YakFilter) -> Seq<Seq<char>>
    decreases ys.len(),
{
    if ys.len() == 0 {
        Seq::empty()
    } else if shown(ys.last(), f) {
        shown_lines(ys.drop_last(), format, f).push(line_of(ys.last(), format))
    } else {
        shown_lines(ys.drop_last(), format, f)
    }
}

/// Lines joined by newlines.
pub open spec fn join_lines(ls: Seq<Seq<char>>) -> Seq<char>
    decreases ls.len(),
{
    if ls.len() == 0 {
        Seq::empty()
    } else if ls.len() == 1 {
        ls[0]
    } else {
        join_lines(ls.drop_last()) + seq!['\n'] + ls.last()
    }
}

/// Text of an empty listing.
pub open spec fn empty_list_text(format: OutputFormat) -> Seq<char> {
    match format {
        OutputFormat::Markdown => "You have no yaks. Are you done?"@,
        OutputFormat::Plain => Seq::empty(),
    }
}

/// Code-point order of two strings.
pub open spec fn text_lt(a: Seq<char>, b: Seq<char>) -> bool
    decreases a.len(),
{
    if a.len() == 0 {
        b.len() > 0
    } else if b.len() == 0 {
        false
    } else if a[0] != b[0] {
        (a[0] as u32) < (b[0] as u32)
    } else {
        text_lt(a.drop_first(), b.drop_first())
    }
}

/// The parent a listing groups a task under (`.` for the top level).
pub open spec fn group_of(y: YakView) -> Seq<char> {
    match parent_of(y.name) {
        Some(p) => p,
        None => seq!['.'],
    }
}

/// Listing order: across groups by path; within a group done first, then older first.
pub open spec fn listed_before(a: YakView, b: YakView) -> bool {
    if group_of(a) != group_of(b) {
        text_lt(a.name, b.name)
    } else {
        (a.state == YakState::Done && b.state == YakState::Todo) || (a.state == b.state && a.mtime < b.mtime)
    }
}

/// No neighbour pair is out of listing order.
pub open spec fn listing_ordered(ys: Seq<YakView>) -> bool {
    forall|i: int| 0 <= i < ys.len() - 1 ==> !listed_before(#[trigger] ys[i + 1], ys[i])
}

/// The views of a sequence of tasks.
pub open spec fn views(ys: Seq<Yak>) -> Seq<YakView> {
    ys.map_values(|y: Yak| y@)
}

proof fn lemma_text_lt_asym(a: Seq<char>, b: Seq<char>)
    ensures
        text_lt(a, b) ==> !text_lt(b, a),
    decreases a.len(),
{
    if a.len() > 0 && b.len() > 0 && a[0] == b[0] {
        lemma_text_lt_asym(a.drop_first(), b.drop_first());
    }
}

fn text_less(a: &str, b: &str) -> (r: bool)
    ensures
        r == text_lt(a@, b@),
{
    let n = a.unicode_len();
    let m = b.unicode_len();
    let mut i: usize = 0;
    assert(a@.subrange(0, n as int) =~= a@);
    assert(b@.subrange(0, m as int) =~= b@);
    while i < n && i < m && a.get_char(i) == b.get_char(i)
        invariant
            n == a@.len(),
            m == b@.len(),
            i <= n,
            i <= m,
            text_lt(a@, b@) == text_lt(a@.subrange(i as int, n as int), b@.subrange(i as int, m as int)),
        decreases n - i,
    {
        assert(a@.subrange(i as int, n as int).drop_first() =~= a@.subrange(i + 1, n as int));
        assert(b@.subrange(i as int, m as int).drop_first() =~= b@.subrange(i + 1, m as int));
        i += 1;
    }
    if i == n {
        i < m
    } else if i == m {
        false
    } else {
        (a.get_char(i) as u32) < (b.get_char(i) as u32)
    }
}

/// Writes task lists for a terminal.
pub struct TerminalFormatter;

impl TerminalFormatter {
    pub fn new() -> TerminalFormatter {
        TerminalFormatter
    }

    fn group(yak: &Yak) -> (r: String)
        ensures
            r@ == group_of(yak@),
    {
        match yak.parent() {
            Some(p) => p,
            None => {
                proof {
                    reveal_strlit(".");
                }
                String::from_str(".")
            },
        }
    }

    fn before(a: &Yak, b: &Yak) -> (r: bool)
        ensures
            r == listed_before(a@, b@),
    {
        let ga = Self::group(a);
        let gb = Self::group(b);
        if !crate::path::same_text(ga.as_str(), gb.as_str()) {
            return text_less(a.name.as_str(), b.name.as_str());
        }
        match (a.state, b.state) {
            (YakState::Done, YakState::Todo) => true,
            (YakState::Todo, YakState::Done) => false,
            _ => a.mtime < b.mtime,
        }
    }

    /// Puts tasks in listing order: a permutation with no neighbour pair out of order.
    pub fn sort_yaks(yaks: &Vec<Yak>) -> (r: Vec<Yak>)
        ensures
            views(r@).to_multiset() == views(yaks@).to_multiset(),
            listing_ordered(views(r@)),
    {
        let mut r: Vec<Yak> = Vec::new();
        let mut i: usize = 0;
        assert(views(r@) =~= Seq::<YakView>::empty());
        assert(views(yaks@.subrange(0, 0)) =~= Seq::<YakView>::empty());
        while i < yaks.len()
            invariant
                i <= yaks@.len(),
                views(r@).to_multiset() == views(yaks@.subrange(0, i as int)).to_multiset(),
                listing_ordered(views(r@)),
            decreases yaks@.len() - i,
        {
            let x = yaks[i].duplicate();
            let mut j: usize = r.len();
            while j > 0 && Self::before(&x, &r[j - 1])
                invariant
                    j <= r@.len(),
                    j < r@.len() ==> listed_before(x@, r@[j as int]@),
                    i < yaks@.len(),
                    x@ == yaks@[i as int]@,
                    views(r@).to_multiset() == views(yaks@.subrange(0, i as int)).to_multiset(),
                    listing_ordered(views(r@)),
                decreases j,
            {
                j -= 1;
            }
            let ghost old_r = r@;
            assert(j > 0 ==> !listed_before(x@, old_r[j - 1]@));
            proof {
                if j < r@.len() {
                    lemma_listed_before_asym(x@, r@[j as int]@);
                }
            }
            r.insert(j, x);
            proof {
                assert(views(r@) =~= views(old_r).insert(j as int, x@));
                assert(yaks@.subrange(0, i + 1) =~= yaks@.subrange(0, i as int).push(yaks@[i as int]));
                assert(views(yaks@.subrange(0, i + 1)) =~= views(yaks@.subrange(0, i as int)).push(x@));
                let v = views(r@);
                let ov = views(old_r);
                assert forall|k: int| 0 <= k < v.len() - 1 implies !listed_before(#[trigger] v[k + 1], v[k]) by {
                    if k + 1 < j {
                        assert(v[k] == ov[k] && v[k + 1] == ov[k + 1]);
                        assert(!listed_before(ov[k + 1], ov[k]));
                    } else if k + 1 == j {
                        assert(v[k] == ov[k]);
                        assert(v[k + 1] == x@);
                        assert(ov[k] == old_r[k]@);
                    } else if k == j {
                        assert(v[k + 1] == ov[k]);
                        assert(v[k] == x@);
                        assert(ov[k] == old_r[k]@);
                    } else {
                        assert(v[k] == ov[k - 1] && v[k + 1] == ov[k]);
                        assert(!listed_before(ov[(k - 1) + 1], ov[k - 1]));
                    }
                }
            }
            i += 1;
        }
        proof {
            assert(yaks@.subrange(0, yaks@.len() as int) =~= yaks@);
        }
        r
    }

    /// The checkbox line of a task.
    pub fn format_markdown_yak(yak: &Yak) -> (r: String)
        ensures
            r@ == markdown_line(yak@),
    {
        let depth = yak.depth();
        let mut pad = String::new();
        let mut d: usize = 0;
        while d < depth
            invariant
                d <= depth,
                pad@ == indent(d as nat),
            decreases depth - d,
        {
            pad.append("  ");
            proof {
                reveal_strlit("  ");
            }
            d += 1;
        }
        let name = yak.basename();
        proof {
            reveal_strlit("\x1b[90m");
            reveal_strlit("- [x] ");
            reveal_strlit("\x1b[0m");
            reveal_strlit("- [ ] ");
        }
        match yak.state {
            YakState::Done => {
                let mut s = String::from_str("\x1b[90m");
                s.append(pad.as_str());
                s.append("- [x] ");
                s.append(name.as_str());
                s.append("\x1b[0m");
                s
            },
            YakState::Todo => {
                let mut s = pad;
                s.append("- [ ] ");
                s.append(name.as_str());
                s
            },
        }
    }

    /// The full path of a task.
    pub fn format_plain_yak(yak: &Yak) -> (r: String)
        ensures
            r@ == yak@.name,
    {
        yak.name.clone()
    }

    /// Whether a task passes the filter.
    pub fn should_display(yak: &Yak, filter: &YakFilter) -> (r: bool)
        ensures
            r == shown(yak@, *filter),
    {
        match filter {
            YakFilter::All => true,
            YakFilter::NotDone => yak.state != YakState::Done,
            YakFilter::Done => yak.state == YakState::Done,
        }
    }

    /// The listing of tasks: sorted, filtered, one line each.
    pub fn format_yak_list(&self, yaks: &Vec<Yak>, format: OutputFormat, filter: YakFilter) -> (r: String)
        ensures
            yaks@.len() == 0 ==> r@ == empty_list_text(format),
            yaks@.len() > 0 ==> exists|sorted: Seq<YakView>|
                sorted.to_multiset() == views(yaks@).to_multiset() && listing_ordered(sorted) && r@
                    == join_lines(shown_lines(sorted, format, filter)),
    {
        if yaks.len() == 0 {
            return self.format_empty_list(format);
        }
        let sorted = Self::sort_yaks(yaks);
        let ghost sv = views(sorted@);
        let mut out = String::new();
        let mut count: usize = 0;
        let mut i: usize = 0;
        while i < sorted.len()
            invariant
                i <= sorted@.len(),
                sv == views(sorted@),
                out@ == join_lines(shown_lines(sv.subrange(0, i as int), format, filter)),
                count == shown_lines(sv.subrange(0, i as int), format, filter).len(),
                count <= i,
            decreases sorted@.len() - i,
        {
            let ghost prev = shown_lines(sv.subrange(0, i as int), format, filter);
            assert(sv.subrange(0, i + 1).drop_last() =~= sv.subrange(0, i as int));
            if Self::should_display(&sorted[i], &filter) {
                let line = match format {
                    OutputFormat::Markdown => Self::format_markdown_yak(&sorted[i]),
                    OutputFormat::Plain => Self::format_plain_yak(&sorted[i]),
                };
                if count > 0 {
                    out.append("\n");
                    proof {
                        reveal_strlit("\n");
                    }
                }
                out.append(line.as_str());
                count += 1;
                proof {
                    let ls = prev.push(line@);
                    assert(ls.drop_last() =~= prev);
                    if prev.len() == 0 {
                        assert(out@ =~= join_lines(ls));
                    }
                }
            }
            i += 1;
        }
        proof {
            assert(sv.subrange(0, sorted@.len() as int) =~= sv);
        }
        out
    }

    /// A task's path, followed by its note when it has one.
    pub fn format_yak_with_context(&self, yak: &Yak) -> (r: String)
        ensures
            yak@.context.len() == 0 ==> r@ == yak@.name,
            yak@.context.len() > 0 ==> r@ == yak@.name + seq!['\n', '\n'] + yak@.context,
    {
        let mut s = yak.name.clone();
        if yak.context.as_str().unicode_len() > 0 {
            s.append("\n\n");
            s.append(yak.context.as_str());
            proof {
                reveal_strlit("\n\n");
            }
        }
        s
    }

    /// The text of an empty listing.
    pub fn format_empty_list(&self, format: OutputFormat) -> (r: String)
        ensures
            r@ == empty_list_text(format),
    {
        match format {
            OutputFormat::Markdown => String::from_str("You have no yaks. Are you done?"),
            OutputFormat::Plain => String::new(),
        }
    }
}

proof fn lemma_listed_before_asym(a: YakView, b: YakView)
    ensures
        listed_before(a, b) ==> !listed_before(b, a),
{
    lemma_text_lt_asym(a.name, b.name);
}

} // verus!
