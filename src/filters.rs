use vstd::prelude::*;

verus! {

/// Inclusive bounds on a count; a missing bound leaves that side open. Bounds whose
/// minimum exceeds their maximum admit nothing, so such a stage keeps no choice.
#[derive(Clone, Copy, Debug)]
pub struct CountBounds {
    pub min: Option<u32>,
    pub max: Option<u32>,
}

impl CountBounds {
    pub open spec fn admits(self, v: int) -> bool {
        &&& (self.min matches Some(m) ==> m <= v)
        &&& (self.max matches Some(m) ==> v <= m)
    }

    pub fn new(min: Option<u32>, max: Option<u32>) -> (r: Self)
        ensures
            r.min == min,
            r.max == max,
    {
        CountBounds { min, max }
    }

    pub fn contains(&self, v: u128) -> (r: bool)
        ensures
            r == self.admits(v as int),
    {
        let above = match self.min {
            Some(m) => m as u128 <= v,
            None => true,
        };
        let below = match self.max {
            Some(m) => v <= m as u128,
            None => true,
        };
        above && below
    }

    /// `self` admits every value that `narrower` admits.
    pub open spec fn wider_than(self, narrower: CountBounds) -> bool {
        &&& (self.min matches Some(m) ==> (narrower.min matches Some(n) && m <= n))
        &&& (self.max matches Some(m) ==> (narrower.max matches Some(n) && n <= m))
    }
}

/// Dropping or loosening a bound never rejects a value that was admitted.
pub proof fn lemma_wider_bounds_admit_more(wide: CountBounds, narrow: CountBounds, v: int)
    requires
        wide.wider_than(narrow),
        narrow.admits(v),
    ensures
        wide.admits(v),
{
}

/// A stage that keeps only the choices whose count lies within bounds.
#[derive(Clone, Copy, Debug)]
pub enum Filter {
    /// Bounds on how many subjects a choice takes.
    SubjectCount(CountBounds),
    /// Bounds on the credits that a choice adds up to.
    CreditCount(CountBounds),
}

impl Filter {
    /// The stage keeps a choice of `subjects` subjects worth `credits` credits.
    pub open spec fn keeps(self, subjects: int, credits: int) -> bool {
        match self {
            Filter::SubjectCount(b) => b.admits(subjects),
            Filter::CreditCount(b) => b.admits(credits),
        }
    }

    pub fn accepts(&self, subjects: u128, credits: u128) -> (r: bool)
        ensures
            r == self.keeps(subjects as int, credits as int),
    {
        match self {
            Filter::SubjectCount(b) => b.contains(subjects),
            Filter::CreditCount(b) => b.contains(credits),
        }
    }
}

/// Every stage of `filters` keeps the choice.
pub open spec fn all_keep(filters: Seq<Filter>, subjects: int, credits: int) -> bool {
    forall|k: int| 0 <= k < filters.len() ==> (#[trigger] filters[k]).keeps(subjects, credits)
}

/// Stages may be chained in any order, and a stage may be dropped: what a chain keeps
/// depends only on which stages it holds, and a chain keeps whatever a chain with more
/// stages keeps.
pub proof fn lemma_fewer_stages_keep_more(more: Seq<Filter>, fewer: Seq<Filter>, subjects: int, credits: int)
    requires
        forall|k: int| 0 <= k < fewer.len() ==> more.contains(#[trigger] fewer[k]),
        all_keep(more, subjects, credits),
    ensures
        all_keep(fewer, subjects, credits),
{
    assert forall|k: int| 0 <= k < fewer.len() implies (#[trigger] fewer[k]).keeps(subjects, credits) by {
        assert(more.contains(fewer[k]));
        let m = choose|m: int| 0 <= m < more.len() && more[m] == fewer[k];
        assert(more[m].keeps(subjects, credits));
    }
}

pub fn passes_all(filters: &Vec<Filter>, subjects: u128, credits: u128) -> (r: bool)
    ensures
        r == all_keep(filters@, subjects as int, credits as int),
{
    let mut k: usize = 0;
    while k < filters.len()
        invariant
            k <= filters@.len(),
            forall|m: int| 0 <= m < k ==> (#[trigger] filters@[m]).keeps(subjects as int, credits as int),
        decreases filters@.len() - k,
    {
        if !filters[k].accepts(subjects, credits) {
            return false;
        }
        k = k + 1;
    }
    true
}

} // verus!
