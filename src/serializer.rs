use vstd::prelude::*;

use crate::catalog::{Code, Commission, Subject};
use crate::generator::{after, lemma_emitted_choice_is_sound, lemma_next_is_acceptable, lemma_same_inputs_same_subjects, ChoiceGenerator};
use crate::time::{copy_strings, day_view, strings_view, Span, Week, DAYS_PER_WEEK};

verus! {

/// Display data of a subject that a choice takes.
#[derive(Debug)]
pub struct SubjectSummary {
    pub code: Code,
    pub name: String,
    pub credits: u32,
    /// Names of the commission taken.
    pub commissions: Vec<String>,
}

/// One block of the combined timetable.
#[derive(Debug)]
pub struct TaskSummary {
    pub subject: Code,
    pub buildings: Vec<String>,
    pub span: Span,
}

/// A choice as a timetable: its subjects, and each weekday's blocks.
#[derive(Debug)]
pub struct OptionInfo {
    pub subjects: Vec<SubjectSummary>,
    /// One list per weekday, Monday first.
    pub week: Vec<Vec<TaskSummary>>,
}

pub open spec fn summary_view(s: SubjectSummary) -> (Code, Seq<char>, int, Seq<Seq<char>>) {
    (s.code, s.name@, s.credits as int, strings_view(s.commissions@))
}

pub open spec fn task_summary_view(t: TaskSummary) -> (Code, Span, Seq<Seq<char>>) {
    (t.subject, t.span, strings_view(t.buildings@))
}

/// The (subject, commission) pairs that `choice` takes among its first `k` positions.
pub open spec fn taken(g: ChoiceGenerator, choice: Seq<Option<usize>>, k: int) -> Seq<(Subject, Commission)>
    decreases k,
{
    if k <= 0 {
        Seq::empty()
    } else {
        taken(g, choice, k - 1) + match choice[k - 1] {
            Some(c) => seq![(g.subject(k - 1), g.subject(k - 1).commissions@[c as int])],
            None => Seq::empty(),
        }
    }
}

/// The blocks of weekday `d` of all the commissions, one commission after the other.
pub open spec fn merged_day(picks: Seq<(Subject, Commission)>, d: int) -> Seq<(Code, Span, Seq<Seq<char>>)>
    decreases picks.len(),
{
    if picks.len() == 0 {
        Seq::empty()
    } else {
        merged_day(picks.drop_last(), d) + day_view(picks.last().1.schedule.days@[d])
    }
}

pub open spec fn summary_of(p: (Subject, Commission)) -> (Code, Seq<char>, int, Seq<Seq<char>>) {
    (p.0.code, p.0.name@, p.0.credits as int, strings_view(p.1.names@))
}

/// `choice` takes, at each position, nothing or a commission of that position's subject.
pub open spec fn fits(g: ChoiceGenerator, choice: Seq<Option<usize>>) -> bool {
    &&& choice.len() == g.len()
    &&& forall|i: int|
        0 <= i < choice.len() && (#[trigger] choice[i]) is Some ==> choice[i]->0 < g.subject(i).commissions@.len()
}

/// The timetable of a choice: the subjects it takes, in order, and on each weekday the
/// blocks of the commissions taken, merged one commission after the other.
pub fn describe(g: &ChoiceGenerator, choice: &Vec<Option<usize>>) -> (r: OptionInfo)
    requires
        g.wf(),
        fits(*g, choice@),
    ensures
        r.subjects@.map_values(|s: SubjectSummary| summary_view(s)) == taken(*g, choice@, g.len()).map_values(
            |p: (Subject, Commission)| summary_of(p),
        ),
        r.week@.len() == DAYS_PER_WEEK,
        forall|d: int|
            0 <= d < DAYS_PER_WEEK ==> (#[trigger] r.week@[d])@.map_values(|t: TaskSummary| task_summary_view(t))
                == merged_day(taken(*g, choice@, g.len()), d),
{
    let mut week = Week::empty();
    let mut subjects: Vec<SubjectSummary> = Vec::new();
    let n = g.subject_total();
    let mut i: usize = 0;
    while i < n
        invariant
            g.wf(),
            fits(*g, choice@),
            n == g.len(),
            i <= n,
            week.wf(),
            subjects@.map_values(|s: SubjectSummary| summary_view(s)) == taken(*g, choice@, i as int).map_values(
                |p: (Subject, Commission)| summary_of(p),
            ),
            forall|d: int|
                0 <= d < DAYS_PER_WEEK ==> day_view(#[trigger] week.days@[d]) == merged_day(taken(*g, choice@, i as int), d),
        decreases n - i,
    {
        let ghost before = taken(*g, choice@, i as int);
        let ghost subjects_before = subjects@;
        match choice[i] {
            Some(k) => {
                let s = g.subject_at(i);
                let c = &s.commissions[k];
                assert(c.schedule.wf());
                week.merge(&c.schedule);
                subjects.push(
                    SubjectSummary {
                        code: s.code,
                        name: s.name.clone(),
                        credits: s.credits as u32,
                        commissions: copy_strings(&c.names),
                    },
                );
                proof {
                    let now = taken(*g, choice@, i + 1);
                    assert(now == before.push((*s, *c))) by {
                        assert(now =~= before.push((*s, *c)));
                    }
                    assert(now.drop_last() =~= before);
                    let last = subjects@[subjects@.len() - 1];
                    assert(summary_view(last) == summary_of((*s, *c)));
                    assert(subjects@ == subjects_before.push(last));
                    assert(subjects_before.map_values(|s: SubjectSummary| summary_view(s)) == before.map_values(
                        |p: (Subject, Commission)| summary_of(p),
                    ));
                    assert(subjects_before.map_values(|s: SubjectSummary| summary_view(s)).len() == subjects_before.len());
                    assert(before.map_values(|p: (Subject, Commission)| summary_of(p)).len() == before.len());
                    assert(before.len() == subjects_before.len());
                    assert forall|j: int| 0 <= j < subjects_before.len() implies summary_view(
                        #[trigger] subjects@[j],
                    ) == summary_of(now[j]) by {
                        assert(subjects@[j] == subjects_before[j]);
                        assert(now[j] == before[j]);
                        assert(subjects_before.map_values(|s: SubjectSummary| summary_view(s))[j] == summary_view(
                            subjects_before[j],
                        ));
                        assert(before.map_values(|p: (Subject, Commission)| summary_of(p))[j] == summary_of(before[j]));
                    }
                    assert(subjects@.map_values(|s: SubjectSummary| summary_view(s)) =~= now.map_values(
                        |p: (Subject, Commission)| summary_of(p),
                    ));
                }
            },
            None => {
                proof {
                    assert(taken(*g, choice@, i + 1) =~= before);
                }
            },
        }
        i = i + 1;
    }
    let mut days: Vec<Vec<TaskSummary>> = Vec::new();
    let mut d: usize = 0;
    while d < DAYS_PER_WEEK
        invariant
            week.wf(),
            d <= DAYS_PER_WEEK,
            days@.len() == d,
            forall|e: int|
                0 <= e < d ==> (#[trigger] days@[e])@.map_values(|t: TaskSummary| task_summary_view(t)) == day_view(
                    week.days@[e],
                ),
        decreases DAYS_PER_WEEK - d,
    {
        let day = &week.days[d];
        let mut out: Vec<TaskSummary> = Vec::new();
        let mut k: usize = 0;
        while k < day.tasks.len()
            invariant
                k <= day.tasks@.len(),
                out@.len() == k,
                forall|m: int|
                    0 <= m < k ==> task_summary_view(#[trigger] out@[m]) == crate::time::task_view(day.tasks@[m]),
            decreases day.tasks@.len() - k,
        {
            let t = &day.tasks[k];
            out.push(TaskSummary { subject: t.subject, buildings: copy_strings(&t.buildings), span: t.span });
            k = k + 1;
        }
        assert(out@.map_values(|t: TaskSummary| task_summary_view(t)) =~= day_view(*day));
        days.push(out);
        d = d + 1;
    }
    OptionInfo { subjects, week: days }
}

impl ChoiceGenerator {
    /// The timetable of the next emitted choice, or `None` once every choice has been
    /// emitted.
    pub fn next_timetable(&mut self) -> (r: Option<OptionInfo>)
        requires
            old(self).wf(),
        ensures
            final(self).wf(),
            final(self).same_inputs(*old(self)),
            r matches Some(info) ==> exists|a: Seq<usize>|
                #![trigger old(self).choice_of(a)]
                old(self).is_next(old(self).cursor_view(), a) && final(self).cursor_view() == Some(a) && {
                    let picks = taken(*old(self), old(self).choice_of(a), old(self).len());
                    &&& info.subjects@.map_values(|s: SubjectSummary| summary_view(s)) == picks.map_values(
                        |p: (Subject, Commission)| summary_of(p),
                    )
                    &&& info.week@.len() == DAYS_PER_WEEK
                    &&& forall|d: int|
                        0 <= d < DAYS_PER_WEEK ==> (#[trigger] info.week@[d])@.map_values(
                            |t: TaskSummary| task_summary_view(t),
                        ) == merged_day(picks, d)
                },
            r is None ==> forall|b: Seq<usize>|
                old(self).acceptable(b) ==> !after(old(self).cursor_view(), b),
            r is None ==> final(self).cursor_view() == old(self).cursor_view(),
    {
        let ghost start = *self;
        match self.next_choice() {
            None => None,
            Some(choice) => {
                proof {
                    let a = choose|a: Seq<usize>|
                        start.is_next(start.cursor_view(), a) && choice@ == start.choice_of(a)
                            && self.cursor_view() == Some(a);
                    lemma_next_is_acceptable(start, start.cursor_view(), a);
                    lemma_emitted_choice_is_sound(start, a);
                    lemma_same_inputs_same_subjects(*self, start);
                    lemma_same_taken(*self, start, choice@, start.len());
                    assert(fits(*self, choice@));
                }
                let info = describe(self, &choice);
                Some(info)
            },
        }
    }
}

proof fn lemma_same_taken(g1: ChoiceGenerator, g2: ChoiceGenerator, choice: Seq<Option<usize>>, k: int)
    requires
        g1.same_inputs(g2),
    ensures
        taken(g1, choice, k) == taken(g2, choice, k),
    decreases k,
{
    lemma_same_inputs_same_subjects(g1, g2);
    if k > 0 {
        lemma_same_taken(g1, g2, choice, k - 1);
    }
}

} // verus!
