use vstd::prelude::*;

use crate::catalog::{Code, Commission, Subject};
use crate::filters::{all_keep, passes_all, Filter};
use crate::filters::lemma_fewer_stages_keep_more;
use crate::time::{lemma_rearranged_weeks_overlap_alike, same_tasks, weeks_overlap, Week};

verus! {

/// A commission named by its subject's code and its position among the subject's
/// commissions.
#[derive(Clone, Copy, Debug, PartialEq, Eq, Structural)]
pub struct CommissionRef {
    pub code: Code,
    pub index: usize,
}

/// A pair of commissions that may overlap in time.
pub type CollisionException = (CommissionRef, CommissionRef);

/// The unordered pair `{x, y}` is among the exceptions.
pub open spec fn excepted(exceptions: Seq<CollisionException>, x: CommissionRef, y: CommissionRef) -> bool {
    exists|k: int|
        0 <= k < exceptions.len() && ((#[trigger] exceptions[k] == (x, y)) || exceptions[k] == (y, x))
}

/// Two commissions collide: their schedules overlap and the pair is not excepted.
pub open spec fn collision(
    x: CommissionRef,
    wx: Week,
    y: CommissionRef,
    wy: Week,
    exceptions: Seq<CollisionException>,
) -> bool {
    weeks_overlap(wx, wy) && !excepted(exceptions, x, y)
}

pub fn is_excepted(exceptions: &Vec<CollisionException>, x: CommissionRef, y: CommissionRef) -> (r: bool)
    ensures
        r == excepted(exceptions@, x, y),
{
    let mut k: usize = 0;
    while k < exceptions.len()
        invariant
            k <= exceptions@.len(),
            forall|m: int|
                0 <= m < k ==> !(#[trigger] exceptions@[m] == (x, y)) && exceptions@[m] != (y, x),
        decreases exceptions@.len() - k,
    {
        let e = exceptions[k];
        if (e.0 == x && e.1 == y) || (e.0 == y && e.1 == x) {
            assert(exceptions@[k as int] == (x, y) || exceptions@[k as int] == (y, x));
            return true;
        }
        k = k + 1;
    }
    false
}

/// Collision test between commission `x` of subject `a` and commission `y` of subject `b`.
pub fn collides(
    a: &Subject,
    x: usize,
    b: &Subject,
    y: usize,
    exceptions: &Vec<CollisionException>,
) -> (r: bool)
    requires
        x < a.commissions@.len(),
        y < b.commissions@.len(),
        a.commissions@[x as int].schedule.wf(),
        b.commissions@[y as int].schedule.wf(),
        b.commissions@[y as int].schedule.sorted(),
    ensures
        r == collision(
            CommissionRef { code: a.code, index: x },
            a.commissions@[x as int].schedule,
            CommissionRef { code: b.code, index: y },
            b.commissions@[y as int].schedule,
            exceptions@,
        ),
{
    a.commissions[x].schedule.overlaps(&b.commissions[y].schedule) && !is_excepted(
        exceptions,
        CommissionRef { code: a.code, index: x },
        CommissionRef { code: b.code, index: y },
    )
}


/// `a` and `b` agree before position `k` and `a` is smaller at `k`.
pub open spec fn lex_at(a: Seq<usize>, b: Seq<usize>, k: int) -> bool {
    &&& 0 <= k < a.len()
    &&& k < b.len()
    &&& a[k] < b[k]
    &&& forall|m: int| 0 <= m < k ==> a[m] == b[m]
}

/// Lexicographic order.
pub open spec fn lex_lt(a: Seq<usize>, b: Seq<usize>) -> bool {
    exists|k: int| lex_at(a, b, k)
}

/// `a` comes after the cursor, or there is no cursor yet.
pub open spec fn after(cursor: Option<Seq<usize>>, a: Seq<usize>) -> bool {
    match cursor {
        None => true,
        Some(c) => lex_lt(c, a),
    }
}

/// `b` starts with `p`.
pub open spec fn extends(b: Seq<usize>, p: Seq<usize>) -> bool {
    &&& p.len() <= b.len()
    &&& forall|m: int| 0 <= m < p.len() ==> b[m] == p[m]
}

/// Every sequence that starts with `p` comes after the cursor.
pub open spec fn prefix_after(cursor: Option<Seq<usize>>, p: Seq<usize>) -> bool {
    match cursor {
        None => true,
        Some(c) => exists|k: int| 0 <= k < p.len() && lex_at(c, p, k),
    }
}

pub proof fn lemma_lex_asymmetric(a: Seq<usize>, b: Seq<usize>)
    requires
        lex_lt(a, b),
    ensures
        !lex_lt(b, a),
{
    let k = choose|k: int| lex_at(a, b, k);
    if lex_lt(b, a) {
        let j = choose|j: int| lex_at(b, a, j);
        if j < k {
            assert(a[j] == b[j]);
        } else if k < j {
            assert(a[k] == b[k]);
        }
    }
}

pub proof fn lemma_lex_total(a: Seq<usize>, b: Seq<usize>)
    requires
        a.len() == b.len(),
        a != b,
    ensures
        lex_lt(a, b) || lex_lt(b, a),
{
    if forall|m: int| 0 <= m < a.len() ==> a[m] == b[m] {
        assert(a =~= b);
    }
    let k = choose|k: int| 0 <= k < a.len() && a[k] != b[k];
    lemma_first_difference(a, b, k);
}

proof fn lemma_first_difference(a: Seq<usize>, b: Seq<usize>, k: int)
    requires
        a.len() == b.len(),
        0 <= k < a.len(),
        a[k] != b[k],
    ensures
        lex_lt(a, b) || lex_lt(b, a),
    decreases k,
{
    if forall|m: int| 0 <= m < k ==> a[m] == b[m] {
        if a[k] < b[k] {
            assert(lex_at(a, b, k));
        } else {
            assert(lex_at(b, a, k));
        }
    } else {
        let j = choose|j: int| 0 <= j < k && a[j] != b[j];
        lemma_first_difference(a, b, j);
    }
}

/// Sorts every schedule of every subject by start time.
pub fn optimize_all(subjects: &mut Vec<Subject>)
    requires
        forall|s: int| 0 <= s < old(subjects)@.len() ==> (#[trigger] old(subjects)@[s]).wf(),
    ensures
        final(subjects)@.len() == old(subjects)@.len(),
        forall|s: int|
            0 <= s < old(subjects)@.len() ==> (#[trigger] final(subjects)@[s]).optimized_from(old(subjects)@[s]),
{
    let mut k: usize = 0;
    while k < subjects.len()
        invariant
            k <= subjects@.len(),
            subjects@.len() == old(subjects)@.len(),
            forall|s: int| 0 <= s < k ==> (#[trigger] subjects@[s]).optimized_from(old(subjects)@[s]),
            forall|s: int| k <= s < subjects@.len() ==> #[trigger] subjects@[s] == old(subjects)@[s],
            forall|s: int| 0 <= s < old(subjects)@.len() ==> (#[trigger] old(subjects)@[s]).wf(),
        decreases subjects@.len() - k,
    {
        let mut sub = Subject {
            code: Code { department: 0, number: 0 },
            name: String::new(),
            credits: 0,
            commissions: Vec::new(),
        };
        std::mem::swap(&mut sub, &mut subjects[k]);
        sub.optimize();
        std::mem::swap(&mut sub, &mut subjects[k]);
        k = k + 1;
    }
}

/// Starts the enumeration over `mandatory ++ optional`, with no filter stage yet.
/// The subjects' schedules are sorted by start time first.
pub fn generate(
    mandatory: Vec<Subject>,
    optional: Vec<Subject>,
    exceptions: Vec<CollisionException>,
) -> (r: ChoiceGenerator)
    requires
        forall|s: int| 0 <= s < mandatory@.len() ==> (#[trigger] mandatory@[s]).wf(),
        forall|s: int| 0 <= s < optional@.len() ==> (#[trigger] optional@[s]).wf(),
    ensures
        r.wf(),
        r.len() == mandatory@.len() + optional@.len(),
        r.mandatory_len() == mandatory@.len(),
        forall|i: int| 0 <= i < r.len() ==> (#[trigger] r.subject(i)).optimized_from(
            (mandatory@ + optional@)[i],
        ),
        r.exception_list() == exceptions@,
        r.filter_list().len() == 0,
        r.cursor_view() is None,
{
    let n_mandatory = mandatory.len();
    let mut subjects = mandatory;
    let mut rest = optional;
    let ghost all = subjects@ + rest@;
    subjects.append(&mut rest);
    let mut order: Vec<usize> = Vec::new();
    let mut i: usize = 0;
    while i < subjects.len()
        invariant
            i <= subjects@.len(),
            order@.len() == i,
            forall|k: int| 0 <= k < i ==> #[trigger] order@[k] == k,
        decreases subjects@.len() - i,
    {
        order.push(i);
        i = i + 1;
    }
    ChoiceGenerator::over(subjects, order, n_mandatory, exceptions)
}

/// Lazily enumerates the collision-free ways of taking one commission of each
/// mandatory subject and at most one of each optional subject, in lexicographic order
/// of the commission positions (an optional subject's "skip" comes after its
/// commissions), keeping those that every filter stage accepts.
pub struct ChoiceGenerator {
    subjects: Vec<Subject>,
    order: Vec<usize>,
    n_mandatory: usize,
    exceptions: Vec<CollisionException>,
    filters: Vec<Filter>,
    cursor: Option<Vec<usize>>,
}

impl ChoiceGenerator {
    /// Number of subjects, mandatory first.
    pub closed spec fn len(self) -> int {
        self.order@.len() as int
    }

    pub closed spec fn mandatory_len(self) -> int {
        self.n_mandatory as int
    }

    /// The subject at position `i`.
    pub closed spec fn subject(self, i: int) -> Subject {
        self.subjects@[self.order@[i] as int]
    }

    pub closed spec fn exception_list(self) -> Seq<CollisionException> {
        self.exceptions@
    }

    pub closed spec fn filter_list(self) -> Seq<Filter> {
        self.filters@
    }

    /// The last choice returned, as commission positions.
    pub closed spec fn cursor_view(self) -> Option<Seq<usize>> {
        match self.cursor {
            None => None,
            Some(c) => Some(c@),
        }
    }

    /// Same subjects and exceptions; the filters may differ.
    pub closed spec fn same_search(self, other: ChoiceGenerator) -> bool {
        &&& self.subjects@ == other.subjects@
        &&& self.order@ == other.order@
        &&& self.n_mandatory == other.n_mandatory
        &&& self.exceptions@ == other.exceptions@
    }

    /// Same subjects, exceptions and filters.
    pub closed spec fn same_inputs(self, other: ChoiceGenerator) -> bool {
        &&& self.same_search(other)
        &&& self.filters@ == other.filters@
    }

    pub closed spec fn wf(self) -> bool {
        &&& self.n_mandatory <= self.order@.len()
        &&& forall|i: int| 0 <= i < self.order@.len() ==> (#[trigger] self.order@[i]) < self.subjects@.len()
        &&& forall|s: int| 0 <= s < self.subjects@.len() ==> (#[trigger] self.subjects@[s]).wf()
        &&& forall|s: int| 0 <= s < self.subjects@.len() ==> (#[trigger] self.subjects@[s]).optimized()
        &&& self.cursor matches Some(c) ==> c@.len() == self.order@.len()
    }

    /// Branches at position `i`: its commissions, and a skip for an optional subject.
    pub closed spec fn branches(self, i: int) -> int {
        self.subject(i).commissions@.len() + if i >= self.n_mandatory {
            1int
        } else {
            0int
        }
    }

    /// Position `i` of `a` takes a commission (the value past the last commission skips).
    pub closed spec fn present(self, a: Seq<usize>, i: int) -> bool {
        a[i] < self.subject(i).commissions@.len()
    }

    pub closed spec fn commission_ref(self, a: Seq<usize>, i: int) -> CommissionRef {
        CommissionRef { code: self.subject(i).code, index: a[i] }
    }

    pub closed spec fn schedule(self, a: Seq<usize>, i: int) -> Week {
        self.subject(i).commissions@[a[i] as int].schedule
    }

    /// The commissions taken at positions `i` and `j` collide.
    pub closed spec fn clash(self, a: Seq<usize>, i: int, j: int) -> bool {
        &&& self.present(a, i)
        &&& self.present(a, j)
        &&& collision(
            self.commission_ref(a, i),
            self.schedule(a, i),
            self.commission_ref(a, j),
            self.schedule(a, j),
            self.exceptions@,
        )
    }

    pub closed spec fn in_range(self, a: Seq<usize>) -> bool {
        &&& a.len() == self.len()
        &&& forall|i: int| 0 <= i < a.len() ==> #[trigger] a[i] < self.branches(i)
    }

    /// No two commissions among the first `d` positions collide.
    pub closed spec fn consistent(self, a: Seq<usize>, d: int) -> bool {
        forall|i: int, j: int| 0 <= i < j < d ==> !#[trigger] self.clash(a, i, j)
    }

    pub closed spec fn valid(self, a: Seq<usize>) -> bool {
        self.in_range(a) && self.consistent(a, self.len())
    }

    /// Subjects taken among the first `k` positions.
    pub closed spec fn subject_count(self, a: Seq<usize>, k: int) -> int
        decreases k,
    {
        if k <= 0 {
            0
        } else {
            self.subject_count(a, k - 1) + if self.present(a, k - 1) {
                1int
            } else {
                0int
            }
        }
    }

    /// Credits of the subjects taken among the first `k` positions.
    pub closed spec fn credit_sum(self, a: Seq<usize>, k: int) -> int
        decreases k,
    {
        if k <= 0 {
            0
        } else {
            self.credit_sum(a, k - 1) + if self.present(a, k - 1) {
                self.subject(k - 1).credits as int
            } else {
                0int
            }
        }
    }

    pub closed spec fn kept(self, a: Seq<usize>) -> bool {
        all_keep(self.filters@, self.subject_count(a, self.len()), self.credit_sum(a, self.len()))
    }

    /// `a` is a choice that the generator emits.
    pub closed spec fn acceptable(self, a: Seq<usize>) -> bool {
        self.valid(a) && self.kept(a)
    }

    /// `a` is the first emitted choice after the cursor `c`.
    pub closed spec fn is_next(self, c: Option<Seq<usize>>, a: Seq<usize>) -> bool {
        &&& self.acceptable(a)
        &&& after(c, a)
        &&& forall|b: Seq<usize>| self.acceptable(b) && after(c, b) ==> !lex_lt(b, a)
    }

    /// The choice as the commission position taken for each subject, `None` for a skip.
    pub closed spec fn choice_of(self, a: Seq<usize>) -> Seq<Option<usize>> {
        Seq::new(
            a.len(),
            |i: int|
                if self.present(a, i) {
                    Some(a[i])
                } else {
                    None
                },
        )
    }

    /// A generator over `subjects[order[0]], subjects[order[1]], ...`, the first
    /// `n_mandatory` of them mandatory.
    pub(crate) fn over(
        subjects: Vec<Subject>,
        order: Vec<usize>,
        n_mandatory: usize,
        exceptions: Vec<CollisionException>,
    ) -> (r: ChoiceGenerator)
        requires
            n_mandatory <= order@.len(),
            forall|i: int| 0 <= i < order@.len() ==> (#[trigger] order@[i]) < subjects@.len(),
            forall|s: int| 0 <= s < subjects@.len() ==> (#[trigger] subjects@[s]).wf(),
        ensures
            r.wf(),
            r.len() == order@.len(),
            r.mandatory_len() == n_mandatory,
            forall|i: int| 0 <= i < r.len() ==> (#[trigger] r.subject(i)).optimized_from(
                subjects@[order@[i] as int],
            ),
            r.exception_list() == exceptions@,
            r.filter_list().len() == 0,
            r.cursor_view() is None,
    {
        let mut subjects = subjects;
        optimize_all(&mut subjects);
        ChoiceGenerator {
            subjects,
            order,
            n_mandatory,
            exceptions,
            filters: Vec::new(),
            cursor: None,
        }
    }

    /// Adds a filter stage.
    pub fn filter_choices(self, filter: Filter) -> (r: ChoiceGenerator)
        requires
            self.wf(),
        ensures
            r.wf(),
            r.len() == self.len(),
            r.mandatory_len() == self.mandatory_len(),
            forall|i: int| 0 <= i < r.len() ==> #[trigger] r.subject(i) == self.subject(i),
            r.exception_list() == self.exception_list(),
            r.filter_list() == self.filter_list().push(filter),
            r.cursor_view() == self.cursor_view(),
    {
        let mut g = self;
        g.filters.push(filter);
        g
    }

    /// Extends `path` to the first emitted choice after the cursor that starts with
    /// `path`, or leaves `path` as it is when there is none. `tight` says that `path`
    /// is a prefix of the cursor; otherwise every extension of `path` is after it.
    fn search(&self, path: &mut Vec<usize>, d: usize, tight: bool) -> (found: bool)
        requires
            self.wf(),
            d == old(path)@.len(),
            old(path)@.len() <= self.len(),
            forall|i: int| 0 <= i < old(path)@.len() ==> #[trigger] old(path)@[i] < self.branches(i),
            self.consistent(old(path)@, old(path)@.len() as int),
            tight ==> (self.cursor_view() matches Some(c) && extends(c, old(path)@)),
            !tight ==> prefix_after(self.cursor_view(), old(path)@),
        ensures
            found ==> extends(final(path)@, old(path)@),
            found ==> self.acceptable(final(path)@),
            found ==> after(self.cursor_view(), final(path)@),
            found ==> forall|b: Seq<usize>|
                self.acceptable(b) && extends(b, old(path)@) && after(self.cursor_view(), b)
                    ==> !lex_lt(b, final(path)@),
            !found ==> final(path)@ == old(path)@,
            !found ==> forall|b: Seq<usize>|
                self.acceptable(b) && extends(b, old(path)@) ==> !after(self.cursor_view(), b),
        decreases self.len() - d,
    {
        let ghost p = path@;
        if d == self.order.len() {
            proof {
                assert forall|b: Seq<usize>| self.acceptable(b) && extends(b, p) implies b == p by {
                    assert(b =~= p);
                }
            }
            if tight {
                proof {
                    let c = self.cursor_view()->0;
                    assert(c =~= p);
                    assert forall|b: Seq<usize>| self.acceptable(b) && extends(b, p) implies !after(
                        self.cursor_view(),
                        b,
                    ) by {
                        if lex_lt(c, b) {
                            lemma_lex_asymmetric(c, b);
                        }
                    }
                }
                return false;
            }
            let ok = self.keeps(path);
            proof {
                if let Some(c) = self.cursor_view() {
                    let k = choose|k: int| 0 <= k < p.len() && lex_at(c, p, k);
                    assert(lex_at(c, p, k));
                }
                if ok {
                    assert forall|b: Seq<usize>|
                        self.acceptable(b) && extends(b, p) && after(self.cursor_view(), b) implies !lex_lt(
                        b,
                        p,
                    ) by {
                        if lex_lt(b, p) {
                            lemma_lex_asymmetric(b, p);
                        }
                    }
                }
            }
            return ok;
        }
        let nb = self.branch_count(d);
        let start: usize = if tight {
            match &self.cursor {
                Some(c) => c[d],
                None => 0,
            }
        } else {
            0
        };
        proof {
            if tight {
                let c = self.cursor_view()->0;
                assert forall|b: Seq<usize>|
                    self.acceptable(b) && extends(b, p) && after(self.cursor_view(), b) implies b[d as int]
                    >= start by {
                    if b[d as int] < start {
                        assert(lex_at(b, c, d as int));
                        lemma_lex_asymmetric(b, c);
                    }
                }
            }
        }
        let mut j: u128 = start as u128;
        while j < nb
            invariant
                self.wf(),
                path@ == p,
                p == old(path)@,
                d == p.len(),
                d < self.len(),
                nb as int == self.branches(d as int),
                nb <= usize::MAX as u128 + 1,
                start <= j,
                forall|i: int| 0 <= i < p.len() ==> #[trigger] p[i] < self.branches(i),
                self.consistent(p, d as int),
                tight ==> (self.cursor_view() matches Some(c) && extends(c, p) && c[d as int] == start),
                !tight ==> prefix_after(self.cursor_view(), p),
                forall|b: Seq<usize>|
                    self.acceptable(b) && extends(b, p) && after(self.cursor_view(), b) ==> b[d as int] >= j,
            decreases nb - j,
        {
            let v = j as usize;
            path.push(v);
            let ghost q = path@;
            proof {
                assert(q =~= p.push(v));
            }
            if self.fits_last(path) {
                let next_tight = tight && v == start;
                proof {
                    assert forall|i: int, k: int| 0 <= i < k < d + 1 implies !#[trigger] self.clash(q, i, k) by {
                        if k < d {
                            assert(self.clash(q, i, k) == self.clash(p, i, k));
                        } else {
                            assert(q.len() - 1 == d);
                            assert(!self.clash(q, i, q.len() - 1));
                        }
                    }
                    if tight && !next_tight {
                        let c = self.cursor_view()->0;
                        assert(lex_at(c, q, d as int));
                    }
                    if !tight {
                        if let Some(c) = self.cursor_view() {
                            let k = choose|k: int| 0 <= k < p.len() && lex_at(c, p, k);
                            assert(lex_at(c, q, k));
                        }
                    }
                }
                if self.search(path, path.len(), next_tight) {
                    proof {
                        let r = path@;
                        assert forall|m: int| 0 <= m < p.len() implies r[m] == p[m] by {
                            assert(r[m] == q[m]);
                        }
                        assert(extends(r, p));
                        assert(r[d as int] == q[d as int]);
                        assert(q[d as int] == v);
                        assert forall|b: Seq<usize>|
                            self.acceptable(b) && extends(b, p) && after(self.cursor_view(), b) implies !lex_lt(
                            b,
                            r,
                        ) by {
                            if b[d as int] == v {
                                assert(extends(b, q));
                            } else if lex_lt(b, r) {
                                let k = choose|k: int| lex_at(b, r, k);
                                if k < d {
                                    assert(b[k] == p[k]);
                                } else if k > d {
                                    assert(b[d as int] == r[d as int]);
                                }
                            }
                        }
                    }
                    return true;
                }
                proof {
                    assert forall|b: Seq<usize>|
                        self.acceptable(b) && extends(b, p) && after(self.cursor_view(), b) implies b[d as int]
                        >= j + 1 by {
                        if b[d as int] == v {
                            assert(extends(b, q));
                        }
                    }
                }
            } else {
                proof {
                    let i = choose|i: int| 0 <= i < d && #[trigger] self.clash(q, i, d as int);
                    assert forall|b: Seq<usize>|
                        self.acceptable(b) && extends(b, p) && after(self.cursor_view(), b) implies b[d as int]
                        >= j + 1 by {
                        if b[d as int] == v {
                            assert(b[i] == q[i]);
                            assert(self.clash(b, i, d as int) == self.clash(q, i, d as int));
                        }
                    }
                }
            }
            path.pop();
            proof {
                assert(path@ =~= p);
            }
            j = j + 1;
        }
        false
    }

    /// The next emitted choice, or `None` once every choice has been emitted.
    pub fn next_choice(&mut self) -> (r: Option<Vec<Option<usize>>>)
        requires
            old(self).wf(),
        ensures
            final(self).wf(),
            final(self).same_inputs(*old(self)),
            r matches Some(v) ==> exists|a: Seq<usize>|
                old(self).is_next(old(self).cursor_view(), a) && v@ == old(self).choice_of(a)
                    && final(self).cursor_view() == Some(a),
            r is None ==> forall|b: Seq<usize>|
                old(self).acceptable(b) ==> !after(old(self).cursor_view(), b),
            r is None ==> final(self).cursor_view() == old(self).cursor_view(),
    {
        let mut path: Vec<usize> = Vec::new();
        let tight = self.cursor.is_some();
        proof {
            assert forall|b: Seq<usize>| self.acceptable(b) implies extends(b, path@) by {}
            if let Some(c) = self.cursor_view() {
                assert(extends(c, path@));
            }
        }
        if self.search(&mut path, 0, tight) {
            let v = self.choice_vec(&path);
            let ghost a = path@;
            proof {
                assert forall|b: Seq<usize>| self.acceptable(b) && after(self.cursor_view(), b) implies !lex_lt(b, a) by {
                    assert(extends(b, Seq::<usize>::empty()));
                }
            }
            self.cursor = Some(path);
            Some(v)
        } else {
            proof {
                assert forall|b: Seq<usize>| self.acceptable(b) implies !after(self.cursor_view(), b) by {
                    assert(extends(b, Seq::<usize>::empty()));
                }
            }
            None
        }
    }

    /// The subject at position `i`.
    pub fn subject_at(&self, i: usize) -> (r: &Subject)
        requires
            self.wf(),
            i < self.len(),
        ensures
            *r == self.subject(i as int),
            r.wf(),
    {
        &self.subjects[self.order[i]]
    }

    pub fn subject_total(&self) -> (r: usize)
        ensures
            r == self.len(),
    {
        self.order.len()
    }

    fn branch_count(&self, d: usize) -> (r: u128)
        requires
            self.wf(),
            d < self.len(),
        ensures
            r as int == self.branches(d as int),
            r <= usize::MAX as u128 + 1,
    {
        let n = self.subjects[self.order[d]].commissions.len() as u128;
        if d >= self.n_mandatory {
            n + 1
        } else {
            n
        }
    }

    /// The last commission of `path` collides with none before it.
    fn fits_last(&self, path: &Vec<usize>) -> (r: bool)
        requires
            self.wf(),
            0 < path@.len() <= self.len(),
            forall|i: int| 0 <= i < path@.len() ==> #[trigger] path@[i] < self.branches(i),
        ensures
            r == forall|i: int| 0 <= i < path@.len() - 1 ==> !#[trigger] self.clash(path@, i, path@.len() - 1),
    {
        let d = path.len() - 1;
        let sd = &self.subjects[self.order[d]];
        if path[d] >= sd.commissions.len() {
            return true;
        }
        let mut i: usize = 0;
        while i < d
            invariant
                self.wf(),
                d == path@.len() - 1,
                d < self.len(),
                *sd == self.subject(d as int),
                path@[d as int] < sd.commissions@.len(),
                i <= d,
                forall|k: int| 0 <= k < i ==> !#[trigger] self.clash(path@, k, d as int),
            decreases d - i,
        {
            let si = &self.subjects[self.order[i]];
            if path[i] < si.commissions.len() {
                assert(self.subjects@[self.order@[d as int] as int].wf());
                assert(self.subjects@[self.order@[d as int] as int].optimized());
                assert(self.subjects@[self.order@[i as int] as int].wf());
                if collides(si, path[i], sd, path[d], &self.exceptions) {
                    assert(self.clash(path@, i as int, d as int));
                    return false;
                }
            }
            i = i + 1;
        }
        true
    }

    /// The filters keep the complete choice `path`.
    fn keeps(&self, path: &Vec<usize>) -> (r: bool)
        requires
            self.wf(),
            path@.len() == self.len(),
        ensures
            r == self.kept(path@),
    {
        let mut count: u128 = 0;
        let mut credits: u128 = 0;
        let mut i: usize = 0;
        while i < path.len()
            invariant
                self.wf(),
                path@.len() == self.len(),
                i <= path@.len(),
                count as int == self.subject_count(path@, i as int),
                credits as int == self.credit_sum(path@, i as int),
                count <= i,
                credits <= 255 * i,
            decreases path@.len() - i,
        {
            let s = &self.subjects[self.order[i]];
            if path[i] < s.commissions.len() {
                count = count + 1;
                credits = credits + s.credits as u128;
            }
            i = i + 1;
        }
        passes_all(&self.filters, count, credits)
    }

    fn choice_vec(&self, path: &Vec<usize>) -> (r: Vec<Option<usize>>)
        requires
            self.wf(),
            path@.len() == self.len(),
        ensures
            r@ == self.choice_of(path@),
    {
        let mut out: Vec<Option<usize>> = Vec::new();
        let mut i: usize = 0;
        while i < path.len()
            invariant
                self.wf(),
                path@.len() == self.len(),
                i <= path@.len(),
                out@ == self.choice_of(path@).take(i as int),
            decreases path@.len() - i,
        {
            let s = &self.subjects[self.order[i]];
            if path[i] < s.commissions.len() {
                out.push(Some(path[i]));
            } else {
                out.push(None);
            }
            assert(out@ =~= self.choice_of(path@).take(i + 1));
            i = i + 1;
        }
        assert(out@ =~= self.choice_of(path@));
        out
    }
}

/// The collision test does not depend on the order of the tasks within a day, so
/// sorting the schedules, once or again, leaves every collision result as it was.
pub proof fn lemma_collision_ignores_task_order(
    x: CommissionRef,
    wx: Week,
    wx2: Week,
    y: CommissionRef,
    wy: Week,
    wy2: Week,
    exceptions: Seq<CollisionException>,
)
    requires
        wx.wf(),
        wy.wf(),
        same_tasks(wx, wx2),
        same_tasks(wy, wy2),
    ensures
        collision(x, wx, y, wy, exceptions) == collision(x, wx2, y, wy2, exceptions),
{
    lemma_rearranged_weeks_overlap_alike(wx, wx2, wy, wy2);
}

/// Every emitted choice takes one commission of each mandatory subject, at most one
/// of each optional subject, and no two commissions that it takes collide unless that
/// pair is excepted.
pub proof fn lemma_emitted_choice_is_sound(g: ChoiceGenerator, a: Seq<usize>)
    requires
        g.wf(),
        g.acceptable(a),
    ensures
        g.choice_of(a).len() == g.len(),
        forall|i: int|
            0 <= i < g.mandatory_len() ==> (#[trigger] g.choice_of(a)[i]) is Some && g.choice_of(a)[i]->0
                < g.subject(i).commissions@.len(),
        forall|i: int|
            g.mandatory_len() <= i < g.len() && (#[trigger] g.choice_of(a)[i]) is Some ==> g.choice_of(a)[i]->0
                < g.subject(i).commissions@.len(),
        forall|i: int, j: int|
            0 <= i < j < g.len() && (#[trigger] g.choice_of(a)[i]) is Some && (#[trigger] g.choice_of(a)[j]) is Some
                ==> !weeks_overlap(
                g.subject(i).commissions@[g.choice_of(a)[i]->0 as int].schedule,
                g.subject(j).commissions@[g.choice_of(a)[j]->0 as int].schedule,
            ) || excepted(
                g.exception_list(),
                CommissionRef { code: g.subject(i).code, index: g.choice_of(a)[i]->0 },
                CommissionRef { code: g.subject(j).code, index: g.choice_of(a)[j]->0 },
            ),
{
    assert forall|i: int| 0 <= i < g.mandatory_len() implies (#[trigger] g.choice_of(a)[i]) is Some
        && g.choice_of(a)[i]->0 < g.subject(i).commissions@.len() by {
        assert(a[i] < g.branches(i));
    }
    assert forall|i: int, j: int|
        0 <= i < j < g.len() && (#[trigger] g.choice_of(a)[i]) is Some && (#[trigger] g.choice_of(a)[j]) is Some
            implies !weeks_overlap(
            g.subject(i).commissions@[g.choice_of(a)[i]->0 as int].schedule,
            g.subject(j).commissions@[g.choice_of(a)[j]->0 as int].schedule,
        ) || excepted(
            g.exception_list(),
            CommissionRef { code: g.subject(i).code, index: g.choice_of(a)[i]->0 },
            CommissionRef { code: g.subject(j).code, index: g.choice_of(a)[j]->0 },
        ) by {
        assert(!g.clash(a, i, j));
    }
}

/// Without filter stages, every combination that takes one commission of each
/// mandatory subject, at most one of each optional subject, and no colliding pair is
/// emitted.
pub proof fn lemma_unfiltered_emits_every_valid(g: ChoiceGenerator, a: Seq<usize>)
    requires
        g.wf(),
        g.filter_list().len() == 0,
        g.valid(a),
    ensures
        g.acceptable(a),
{
}

/// The enumeration skips nothing: an emitted choice after the cursor is either the
/// next one returned or comes after it, so it is returned by a later call.
pub proof fn lemma_no_choice_skipped(g: ChoiceGenerator, c: Option<Seq<usize>>, a: Seq<usize>, b: Seq<usize>)
    requires
        g.is_next(c, a),
        g.acceptable(b),
        after(c, b),
    ensures
        b == a || after(Some(a), b),
{
    if b != a {
        assert(a.len() == b.len());
        lemma_lex_total(a, b);
    }
}

/// What a call returns is determined by the cursor alone: there is at most one next
/// choice.
pub proof fn lemma_next_is_unique(g: ChoiceGenerator, c: Option<Seq<usize>>, a1: Seq<usize>, a2: Seq<usize>)
    requires
        g.is_next(c, a1),
        g.is_next(c, a2),
    ensures
        a1 == a2,
{
    if a1 != a2 {
        lemma_lex_total(a1, a2);
    }
}

/// Two generators built from the same inputs emit the same sequence: from equal
/// cursors, they return the same next choice.
pub proof fn lemma_same_inputs_same_sequence(g1: ChoiceGenerator, g2: ChoiceGenerator, c: Option<Seq<usize>>, a: Seq<usize>)
    requires
        g1.same_inputs(g2),
    ensures
        g1.is_next(c, a) == g2.is_next(c, a),
        g1.choice_of(a) == g2.choice_of(a),
{
    assert forall|b: Seq<usize>| #[trigger] g1.acceptable(b) == g2.acceptable(b) by {
        lemma_same_search_same_validity(g1, g2, b);
    }
    lemma_same_search_same_validity(g1, g2, a);
}

/// Each filter stage holds of every emitted choice: its subject count and its credits
/// lie within the stage's bounds.
pub proof fn lemma_emitted_choice_within_bounds(g: ChoiceGenerator, a: Seq<usize>, k: int)
    requires
        g.acceptable(a),
        0 <= k < g.filter_list().len(),
    ensures
        g.filter_list()[k].keeps(g.subject_count(a, g.len()), g.credit_sum(a, g.len())),
{
}

/// Dropping filter stages, or chaining them in another order, only widens what is
/// emitted.
pub proof fn lemma_fewer_filters_emit_more(g: ChoiceGenerator, g2: ChoiceGenerator, a: Seq<usize>)
    requires
        g.same_search(g2),
        forall|k: int| 0 <= k < g2.filter_list().len() ==> g.filter_list().contains(#[trigger] g2.filter_list()[k]),
        g.acceptable(a),
    ensures
        g2.acceptable(a),
{
    lemma_same_search_same_validity(g, g2, a);
    lemma_fewer_stages_keep_more(g.filter_list(), g2.filter_list(), g.subject_count(a, g.len()), g.credit_sum(a, g.len()));
}

proof fn lemma_counts_agree_search(g1: ChoiceGenerator, g2: ChoiceGenerator, a: Seq<usize>, k: int)
    requires
        g1.same_search(g2),
    ensures
        g1.subject_count(a, k) == g2.subject_count(a, k),
        g1.credit_sum(a, k) == g2.credit_sum(a, k),
    decreases k,
{
    if k > 0 {
        lemma_counts_agree_search(g1, g2, a, k - 1);
    }
}

proof fn lemma_same_search_same_validity(g1: ChoiceGenerator, g2: ChoiceGenerator, b: Seq<usize>)
    requires
        g1.same_search(g2),
    ensures
        g1.valid(b) == g2.valid(b),
        g1.subject_count(b, g1.len()) == g2.subject_count(b, g2.len()),
        g1.credit_sum(b, g1.len()) == g2.credit_sum(b, g2.len()),
        g1.choice_of(b) == g2.choice_of(b),
{
    lemma_counts_agree_search(g1, g2, b, g1.len());
    assert forall|i: int| #[trigger] g1.subject(i) == g2.subject(i) by {}
    assert forall|i: int| #[trigger] g1.branches(i) == g2.branches(i) by {
        assert(g1.subject(i) == g2.subject(i));
    }
    assert forall|i: int, j: int| #[trigger] g1.clash(b, i, j) == g2.clash(b, i, j) by {
        assert(g1.subject(i) == g2.subject(i));
        assert(g1.subject(j) == g2.subject(j));
    }
    assert(g1.in_range(b) == g2.in_range(b));
    assert(g1.len() == g2.len());
    if g1.consistent(b, g1.len()) {
        assert forall|i: int, j: int| 0 <= i < j < g2.len() implies !#[trigger] g2.clash(b, i, j) by {
            assert(!g1.clash(b, i, j));
        }
    }
    if g2.consistent(b, g2.len()) {
        assert forall|i: int, j: int| 0 <= i < j < g1.len() implies !#[trigger] g1.clash(b, i, j) by {
            assert(!g2.clash(b, i, j));
        }
    }
    assert forall|i: int| 0 <= i < b.len() implies #[trigger] g1.present(b, i) == g2.present(b, i) by {
        assert(g1.subject(i) == g2.subject(i));
    }
    assert(g1.choice_of(b) =~= g2.choice_of(b));
}

/// Generators with the same inputs have the same subjects.
pub proof fn lemma_same_inputs_same_subjects(g1: ChoiceGenerator, g2: ChoiceGenerator)
    requires
        g1.same_inputs(g2),
    ensures
        g1.len() == g2.len(),
        forall|i: int| #[trigger] g1.subject(i) == g2.subject(i),
{
}

/// The next choice is an emitted one.
pub proof fn lemma_next_is_acceptable(g: ChoiceGenerator, c: Option<Seq<usize>>, a: Seq<usize>)
    requires
        g.is_next(c, a),
    ensures
        g.acceptable(a),
{
}

} // verus!
