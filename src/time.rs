use vstd::prelude::*;
use vstd::multiset::Multiset;

use crate::catalog::Code;

verus! {

broadcast use vstd::seq_lib::group_to_multiset_ensures;

/// A time of day.
#[derive(Clone, Copy, Debug, PartialEq, Eq, Structural)]
pub struct Time {
    pub hour: u8,
    pub minutes: u8,
}

impl Time {
    /// Minutes elapsed since midnight.
    pub open spec fn mins(self) -> int {
        self.hour as int * 60 + self.minutes as int
    }

    pub fn minutes_since_midnight(&self) -> (r: u32)
        ensures
            r as int == self.mins(),
    {
        self.hour as u32 * 60 + self.minutes as u32
    }
}

/// A half-open interval `[start, end)` within one day.
#[derive(Clone, Copy, Debug, PartialEq, Eq, Structural)]
pub struct Span {
    pub start: Time,
    pub end: Time,
}

/// Two half-open spans intersect; touching endpoints do not.
pub open spec fn spans_overlap(a: Span, b: Span) -> bool {
    a.start.mins() < b.end.mins() && b.start.mins() < a.end.mins()
}

impl Span {
    pub fn overlaps(&self, other: &Span) -> (r: bool)
        ensures
            r == spans_overlap(*self, *other),
    {
        self.start.minutes_since_midnight() < other.end.minutes_since_midnight()
            && other.start.minutes_since_midnight() < self.end.minutes_since_midnight()
    }
}

/// One scheduled block of a commission.
#[derive(Debug)]
pub struct Task {
    /// Code of the subject whose commission holds this block.
    pub subject: Code,
    pub span: Span,
    pub buildings: Vec<String>,
}

/// The tasks of one weekday.
#[derive(Debug)]
pub struct Day {
    pub tasks: Vec<Task>,
}

pub const DAYS_PER_WEEK: usize = 7;

/// Weekdays, in the order in which a `Week` stores them.
#[derive(Clone, Copy, Debug, PartialEq, Eq, Structural)]
pub enum DaysOfTheWeek {
    Monday,
    Tuesday,
    Wednesday,
    Thursday,
    Friday,
    Saturday,
    Sunday,
}

impl DaysOfTheWeek {
    pub open spec fn index(self) -> int {
        match self {
            DaysOfTheWeek::Monday => 0,
            DaysOfTheWeek::Tuesday => 1,
            DaysOfTheWeek::Wednesday => 2,
            DaysOfTheWeek::Thursday => 3,
            DaysOfTheWeek::Friday => 4,
            DaysOfTheWeek::Saturday => 5,
            DaysOfTheWeek::Sunday => 6,
        }
    }

    pub fn position(&self) -> (r: usize)
        ensures
            r as int == self.index(),
            r < DAYS_PER_WEEK,
    {
        match self {
            DaysOfTheWeek::Monday => 0,
            DaysOfTheWeek::Tuesday => 1,
            DaysOfTheWeek::Wednesday => 2,
            DaysOfTheWeek::Thursday => 3,
            DaysOfTheWeek::Friday => 4,
            DaysOfTheWeek::Saturday => 5,
            DaysOfTheWeek::Sunday => 6,
        }
    }
}

/// A weekly schedule: one `Day` per weekday, Monday first.
#[derive(Debug)]
pub struct Week {
    pub days: Vec<Day>,
}

/// The spans of a day's tasks, in order.
pub open spec fn day_spans(d: Day) -> Seq<Span> {
    d.tasks@.map_values(|t: Task| t.span)
}

/// Tasks sorted by start time.
pub open spec fn day_sorted(d: Day) -> bool {
    forall|i: int, j: int|
        0 <= i < j < d.tasks@.len() ==> d.tasks@[i].span.start.mins()
            <= d.tasks@[j].span.start.mins()
}


/// Some task of `a` and some task of `b` overlap on the same weekday.
pub open spec fn weeks_overlap(a: Week, b: Week) -> bool {
    exists|d: int, x: Task, y: Task|
        0 <= d < DAYS_PER_WEEK && #[trigger] a.days@[d].tasks@.contains(x)
            && #[trigger] b.days@[d].tasks@.contains(y) && spans_overlap(x.span, y.span)
}

/// Two weeks hold the same tasks on each day, possibly in another order.
pub open spec fn same_tasks(a: Week, b: Week) -> bool {
    &&& a.days@.len() == b.days@.len()
    &&& forall|d: int|
        0 <= d < a.days@.len() ==> (#[trigger] a.days@[d]).tasks@.to_multiset()
            == b.days@[d].tasks@.to_multiset()
}

/// Reordering the tasks within each day, as sorting does, never changes whether two
/// weeks overlap.
pub proof fn lemma_rearranged_weeks_overlap_alike(a: Week, a2: Week, b: Week, b2: Week)
    requires
        a.wf(),
        b.wf(),
        same_tasks(a, a2),
        same_tasks(b, b2),
    ensures
        weeks_overlap(a, b) == weeks_overlap(a2, b2),
{
    if weeks_overlap(a, b) {
        let (d, x, y) = choose|d: int, x: Task, y: Task|
            0 <= d < DAYS_PER_WEEK && #[trigger] a.days@[d].tasks@.contains(x)
                && #[trigger] b.days@[d].tasks@.contains(y) && spans_overlap(x.span, y.span);
        assert(a.days@[d].tasks@.to_multiset() == a2.days@[d].tasks@.to_multiset());
        assert(b.days@[d].tasks@.to_multiset() == b2.days@[d].tasks@.to_multiset());
        assert(a.days@[d].tasks@.to_multiset().count(x) > 0);
        assert(b.days@[d].tasks@.to_multiset().count(y) > 0);
        assert(a2.days@[d].tasks@.contains(x));
        assert(b2.days@[d].tasks@.contains(y));
    }
    if weeks_overlap(a2, b2) {
        let (d, x, y) = choose|d: int, x: Task, y: Task|
            0 <= d < DAYS_PER_WEEK && #[trigger] a2.days@[d].tasks@.contains(x)
                && #[trigger] b2.days@[d].tasks@.contains(y) && spans_overlap(x.span, y.span);
        assert(a.days@[d].tasks@.to_multiset() == a2.days@[d].tasks@.to_multiset());
        assert(b.days@[d].tasks@.to_multiset() == b2.days@[d].tasks@.to_multiset());
        assert(a2.days@[d].tasks@.to_multiset().count(x) > 0);
        assert(b2.days@[d].tasks@.to_multiset().count(y) > 0);
        assert(a.days@[d].tasks@.contains(x));
        assert(b.days@[d].tasks@.contains(y));
    }
}

/// The text of each string.
pub open spec fn strings_view(v: Seq<String>) -> Seq<Seq<char>> {
    v.map_values(|s: String| s@)
}

/// A task as plain values: subject, span and building names.
pub open spec fn task_view(t: Task) -> (Code, Span, Seq<Seq<char>>) {
    (t.subject, t.span, strings_view(t.buildings@))
}

pub open spec fn day_view(d: Day) -> Seq<(Code, Span, Seq<Seq<char>>)> {
    d.tasks@.map_values(|t: Task| task_view(t))
}

pub fn copy_strings(v: &Vec<String>) -> (r: Vec<String>)
    ensures
        strings_view(r@) == strings_view(v@),
{
    let mut out: Vec<String> = Vec::new();
    let mut k: usize = 0;
    while k < v.len()
        invariant
            k <= v@.len(),
            out@.len() == k,
            forall|i: int| 0 <= i < k ==> (#[trigger] out@[i])@ == v@[i]@,
        decreases v@.len() - k,
    {
        out.push(v[k].clone());
        k = k + 1;
    }
    assert(strings_view(out@) =~= strings_view(v@));
    out
}

impl Task {
    pub fn copy(&self) -> (r: Task)
        ensures
            task_view(r) == task_view(*self),
    {
        Task { subject: self.subject, span: self.span, buildings: copy_strings(&self.buildings) }
    }
}

impl Day {
    /// Appends copies of `other`'s tasks, in order.
    pub fn append_copies(&mut self, other: &Day)
        ensures
            day_view(*final(self)) == day_view(*old(self)) + day_view(*other),
    {
        let ghost start = day_view(*self);
        let mut k: usize = 0;
        while k < other.tasks.len()
            invariant
                k <= other.tasks@.len(),
                self.tasks@.len() == start.len() + k,
                forall|i: int| 0 <= i < start.len() ==> task_view(#[trigger] self.tasks@[i]) == start[i],
                forall|i: int|
                    0 <= i < k ==> task_view(#[trigger] self.tasks@[start.len() + i]) == task_view(other.tasks@[i]),
            decreases other.tasks@.len() - k,
        {
            self.tasks.push(other.tasks[k].copy());
            k = k + 1;
        }
        assert(day_view(*self) =~= start + day_view(*other)) by {
            assert forall|i: int| start.len() <= i < self.tasks@.len() implies task_view(#[trigger] self.tasks@[i])
                == task_view(other.tasks@[i - start.len()]) by {
                assert(task_view(self.tasks@[start.len() + (i - start.len())]) == task_view(other.tasks@[i - start.len()]));
            }
        }
    }
}

impl Day {
    /// Sorts the tasks by start time, keeping the order of equal starts.
    pub fn sort_by_start(&mut self)
        ensures
            final(self).tasks@.to_multiset() == old(self).tasks@.to_multiset(),
            day_sorted(*final(self)),
    {
        let ghost orig = self.tasks@;
        let mut rest: Vec<Task> = Vec::new();
        std::mem::swap(&mut rest, &mut self.tasks);
        let mut out: Vec<Task> = Vec::new();
        while rest.len() > 0
            invariant
                out@.to_multiset().add(rest@.to_multiset()) == orig.to_multiset(),
                forall|i: int, j: int|
                    0 <= i < j < out@.len() ==> out@[i].span.start.mins()
                        <= out@[j].span.start.mins(),
                forall|i: int, j: int|
                    0 <= i < out@.len() && 0 <= j < rest@.len() ==> out@[i].span.start.mins()
                        <= rest@[j].span.start.mins(),
            decreases rest@.len(),
        {
            let mut m: usize = 0;
            let mut k: usize = 1;
            while k < rest.len()
                invariant
                    0 <= m < k <= rest@.len(),
                    forall|j: int|
                        0 <= j < k ==> rest@[m as int].span.start.mins()
                            <= rest@[j].span.start.mins(),
                decreases rest@.len() - k,
            {
                if rest[k].span.start.minutes_since_midnight()
                    < rest[m].span.start.minutes_since_midnight() {
                    m = k;
                }
                k = k + 1;
            }
            let ghost before = rest@;
            let t = rest.remove(m);
            proof {
                assert(before.contains(t)) by {
                    assert(before[m as int] == t);
                }
                assert(before.to_multiset().count(t) > 0);
                assert(rest@.to_multiset() == before.to_multiset().remove(t));
                assert(out@.push(t).to_multiset() == out@.to_multiset().insert(t));
                assert(out@.push(t).to_multiset().add(rest@.to_multiset())
                    =~= out@.to_multiset().add(before.to_multiset()));
                assert forall|j: int| 0 <= j < rest@.len() implies t.span.start.mins()
                    <= #[trigger] rest@[j].span.start.mins() by {
                    if j < m {
                        assert(rest@[j] == before[j]);
                    } else {
                        assert(rest@[j] == before[j + 1]);
                    }
                }
                assert forall|i: int, j: int|
                    0 <= i < out@.len() && 0 <= j < rest@.len() implies #[trigger] out@[i].span.start.mins()
                    <= #[trigger] rest@[j].span.start.mins() by {
                    if j < m {
                        assert(rest@[j] == before[j]);
                    } else {
                        assert(rest@[j] == before[j + 1]);
                    }
                }
            }
            out.push(t);
        }
        proof {
            assert(rest@.to_multiset() =~= Multiset::empty());
            assert(out@.to_multiset().add(Multiset::empty()) =~= out@.to_multiset());
        }
        self.tasks = out;
    }

    /// Some task of this day overlaps `span`. The tasks must be sorted by start time:
    /// the scan stops at the first task that starts at or after the span's end.
    pub fn overlaps_span(&self, span: &Span) -> (r: bool)
        requires
            day_sorted(*self),
        ensures
            r == exists|y: Task| #[trigger] self.tasks@.contains(y) && spans_overlap(*span, y.span),
    {
        let end = span.end.minutes_since_midnight();
        let mut j: usize = 0;
        while j < self.tasks.len()
            invariant
                j <= self.tasks@.len(),
                end as int == span.end.mins(),
                day_sorted(*self),
                forall|k: int| 0 <= k < j ==> !spans_overlap(*span, #[trigger] self.tasks@[k].span),
            decreases self.tasks@.len() - j,
        {
            let t = &self.tasks[j];
            if t.span.start.minutes_since_midnight() >= end {
                assert forall|k: int| 0 <= k < self.tasks@.len() implies !spans_overlap(
                    *span,
                    #[trigger] self.tasks@[k].span,
                ) by {
                    if k >= j {
                        assert(self.tasks@[j as int].span.start.mins() <= self.tasks@[k].span.start.mins());
                    }
                }
                assert forall|y: Task| #[trigger] self.tasks@.contains(y) implies !spans_overlap(*span, y.span) by {
                    let k = choose|k: int| 0 <= k < self.tasks@.len() && self.tasks@[k] == y;
                    assert(!spans_overlap(*span, self.tasks@[k].span));
                }
                return false;
            }
            if span.overlaps(&t.span) {
                assert(self.tasks@.contains(self.tasks@[j as int]));
                return true;
            }
            j = j + 1;
        }
        assert forall|y: Task| #[trigger] self.tasks@.contains(y) implies !spans_overlap(*span, y.span) by {
            let k = choose|k: int| 0 <= k < self.tasks@.len() && self.tasks@[k] == y;
            assert(!spans_overlap(*span, self.tasks@[k].span));
        }
        false
    }
}

impl Week {
    pub open spec fn wf(self) -> bool {
        self.days@.len() == DAYS_PER_WEEK
    }

    /// Every day's tasks are sorted by start time.
    pub open spec fn sorted(self) -> bool {
        forall|d: int| 0 <= d < self.days@.len() ==> day_sorted(#[trigger] self.days@[d])
    }

    pub fn empty() -> (r: Week)
        ensures
            r.wf(),
            forall|d: int| 0 <= d < DAYS_PER_WEEK ==> (#[trigger] r.days@[d]).tasks@.len() == 0,
    {
        let mut days: Vec<Day> = Vec::new();
        let mut k: usize = 0;
        while k < DAYS_PER_WEEK
            invariant
                k <= DAYS_PER_WEEK,
                days@.len() == k,
                forall|d: int| 0 <= d < k ==> (#[trigger] days@[d]).tasks@.len() == 0,
            decreases DAYS_PER_WEEK - k,
        {
            days.push(Day { tasks: Vec::new() });
            k = k + 1;
        }
        Week { days }
    }


    /// Appends copies of `other`'s tasks to each day.
    pub fn merge(&mut self, other: &Week)
        requires
            old(self).wf(),
            other.wf(),
        ensures
            final(self).wf(),
            forall|d: int|
                0 <= d < DAYS_PER_WEEK ==> day_view(#[trigger] final(self).days@[d]) == day_view(old(self).days@[d])
                    + day_view(other.days@[d]),
    {
        let mut k: usize = 0;
        while k < DAYS_PER_WEEK
            invariant
                self.wf(),
                other.wf(),
                k <= DAYS_PER_WEEK,
                forall|d: int|
                    0 <= d < k ==> day_view(#[trigger] self.days@[d]) == day_view(old(self).days@[d])
                        + day_view(other.days@[d]),
                forall|d: int| k <= d < DAYS_PER_WEEK ==> #[trigger] self.days@[d] == old(self).days@[d],
            decreases DAYS_PER_WEEK - k,
        {
            let mut d = Day { tasks: Vec::new() };
            std::mem::swap(&mut d, &mut self.days[k]);
            d.append_copies(&other.days[k]);
            std::mem::swap(&mut d, &mut self.days[k]);
            k = k + 1;
        }
    }

    /// A new week holding, on each day, copies of `self`'s tasks followed by `other`'s.
    pub fn combine(&self, other: &Week) -> (r: Week)
        requires
            self.wf(),
            other.wf(),
        ensures
            r.wf(),
            forall|d: int|
                0 <= d < DAYS_PER_WEEK ==> day_view(#[trigger] r.days@[d]) == day_view(self.days@[d])
                    + day_view(other.days@[d]),
    {
        let mut r = Week::empty();
        let ghost e = r;
        r.merge(self);
        r.merge(other);
        assert forall|d: int| 0 <= d < DAYS_PER_WEEK implies day_view(#[trigger] r.days@[d]) == day_view(self.days@[d])
            + day_view(other.days@[d]) by {
            assert(day_view(e.days@[d]) =~= Seq::empty());
            assert(Seq::<(Code, Span, Seq<Seq<char>>)>::empty() + day_view(self.days@[d]) =~= day_view(self.days@[d]));
        }
        r
    }

    /// Sorts every day's tasks by start time.
    pub fn optimize(&mut self)
        requires
            old(self).wf(),
        ensures
            final(self).wf(),
            final(self).sorted(),
            same_tasks(*old(self), *final(self)),
    {
        let mut k: usize = 0;
        while k < self.days.len()
            invariant
                self.wf(),
                k <= DAYS_PER_WEEK,
                forall|d: int| 0 <= d < k ==> day_sorted(#[trigger] self.days@[d]),
                forall|d: int|
                    0 <= d < DAYS_PER_WEEK ==> (#[trigger] self.days@[d]).tasks@.to_multiset()
                        == old(self).days@[d].tasks@.to_multiset(),
            decreases DAYS_PER_WEEK - k,
        {
            let mut d = Day { tasks: Vec::new() };
            std::mem::swap(&mut d, &mut self.days[k]);
            d.sort_by_start();
            std::mem::swap(&mut d, &mut self.days[k]);
            k = k + 1;
        }
    }

    /// Some task of this week overlaps some task of `other` on the same weekday.
    pub fn overlaps(&self, other: &Week) -> (r: bool)
        requires
            self.wf(),
            other.wf(),
            other.sorted(),
        ensures
            r == weeks_overlap(*self, *other),
    {
        let mut d: usize = 0;
        while d < DAYS_PER_WEEK
            invariant
                d <= DAYS_PER_WEEK,
                self.wf(),
                other.wf(),
                other.sorted(),
                forall|e: int, x: Task, y: Task|
                    0 <= e < d && #[trigger] self.days@[e].tasks@.contains(x)
                        && #[trigger] other.days@[e].tasks@.contains(y) ==> !spans_overlap(x.span, y.span),
            decreases DAYS_PER_WEEK - d,
        {
            let mine = &self.days[d];
            let theirs = &other.days[d];
            let mut i: usize = 0;
            while i < mine.tasks.len()
                invariant
                    i <= mine.tasks@.len(),
                    d < DAYS_PER_WEEK,
                    self.wf(),
                    other.wf(),
                    *mine == self.days@[d as int],
                    *theirs == other.days@[d as int],
                    day_sorted(*theirs),
                    forall|k: int, y: Task|
                        0 <= k < i && #[trigger] theirs.tasks@.contains(y) ==> !spans_overlap(
                            #[trigger] mine.tasks@[k].span,
                            y.span,
                        ),
                decreases mine.tasks@.len() - i,
            {
                if theirs.overlaps_span(&mine.tasks[i].span) {
                    let ghost x = mine.tasks@[i as int];
                    let ghost y = choose|y: Task| #[trigger] theirs.tasks@.contains(y) && spans_overlap(x.span, y.span);
                    assert(self.days@[d as int].tasks@.contains(x));
                    assert(other.days@[d as int].tasks@.contains(y));
                    return true;
                }
                i = i + 1;
            }
            assert forall|x: Task, y: Task|
                #[trigger] self.days@[d as int].tasks@.contains(x)
                    && #[trigger] other.days@[d as int].tasks@.contains(y) implies !spans_overlap(x.span, y.span) by {
                let k = choose|k: int| 0 <= k < mine.tasks@.len() && mine.tasks@[k] == x;
                assert(!spans_overlap(mine.tasks@[k].span, y.span));
            }
            d = d + 1;
        }
        false
    }

    /// Adds a task on the given weekday.
    pub fn add_task(&mut self, day: DaysOfTheWeek, task: Task)
        requires
            old(self).wf(),
        ensures
            final(self).wf(),
            final(self).days@[day.index()].tasks@ == old(self).days@[day.index()].tasks@.push(task),
            forall|d: int| 0 <= d < DAYS_PER_WEEK && d != day.index() ==> #[trigger] final(self).days@[d] == old(self).days@[d],
    {
        let k = day.position();
        let mut d = Day { tasks: Vec::new() };
        std::mem::swap(&mut d, &mut self.days[k]);
        d.tasks.push(task);
        std::mem::swap(&mut d, &mut self.days[k]);
    }
}

} // verus!
