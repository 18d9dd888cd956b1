use vstd::prelude::*;

use crate::catalog::{
    code_of_text, first_with_code, is_code_text, Code, Commission, Commissions, GeneratorError,
    Subject,
};
use crate::filters::{CountBounds, Filter};
use crate::generator::{optimize_all, ChoiceGenerator, CollisionException, CommissionRef};

verus! {

/// Some name of the commission is `name`.
pub open spec fn has_name(c: Commission, name: Seq<char>) -> bool {
    exists|t: int| 0 <= t < c.names@.len() && (#[trigger] c.names@[t])@ == name
}

/// `j` is the first commission that goes by `name`.
pub open spec fn first_named(commissions: Seq<Commission>, name: Seq<char>, j: int) -> bool {
    &&& 0 <= j < commissions.len()
    &&& has_name(commissions[j], name)
    &&& forall|m: int| 0 <= m < j ==> !has_name(#[trigger] commissions[m], name)
}

/// `r` is the commission that the code text and the name refer to in the catalog.
pub open spec fn resolves_to(subjects: Seq<Subject>, code: Seq<char>, name: Seq<char>, r: CommissionRef) -> bool {
    &&& is_code_text(code)
    &&& r.code == code_of_text(code)
    &&& exists|i: int|
        first_with_code(subjects, r.code, i) && first_named(subjects[i].commissions@, name, r.index as int)
}

pub open spec fn resolvable(subjects: Seq<Subject>, code: Seq<char>, name: Seq<char>) -> bool {
    exists|r: CommissionRef| resolves_to(subjects, code, name, r)
}

/// Reads every code; the first text that is no code is reported.
pub fn parse_codes(texts: &Vec<String>) -> (r: Result<Vec<Code>, GeneratorError>)
    ensures
        r matches Ok(v) ==> v@.len() == texts@.len() && forall|k: int|
            0 <= k < v@.len() ==> #[trigger] v@[k] == code_of_text(texts@[k]@),
        r matches Err(e) ==> exists|k: int|
            0 <= k < texts@.len() && !is_code_text(texts@[k]@) && (e matches GeneratorError::Parse(t)
                && t@ == texts@[k]@) && forall|m: int| 0 <= m < k ==> is_code_text(#[trigger] texts@[m]@),
        r is Ok <==> forall|k: int| 0 <= k < texts@.len() ==> is_code_text(#[trigger] texts@[k]@),
{
    let mut out: Vec<Code> = Vec::new();
    let mut k: usize = 0;
    while k < texts.len()
        invariant
            k <= texts@.len(),
            out@.len() == k,
            forall|m: int| 0 <= m < k ==> #[trigger] out@[m] == code_of_text(texts@[m]@),
            forall|m: int| 0 <= m < k ==> is_code_text(#[trigger] texts@[m]@),
        decreases texts@.len() - k,
    {
        match Code::parse(texts[k].as_str()) {
            Ok(c) => out.push(c),
            Err(e) => {
                return Err(e);
            },
        }
        k = k + 1;
    }
    Ok(out)
}

/// Position of the first commission that goes by `name`.
fn find_named(commissions: &Vec<Commission>, name: &String) -> (r: Option<usize>)
    ensures
        r matches Some(j) ==> first_named(commissions@, name@, j as int),
        r is None ==> forall|j: int| 0 <= j < commissions@.len() ==> !has_name(#[trigger] commissions@[j], name@),
{
    let mut j: usize = 0;
    while j < commissions.len()
        invariant
            j <= commissions@.len(),
            forall|m: int| 0 <= m < j ==> !has_name(#[trigger] commissions@[m], name@),
        decreases commissions@.len() - j,
    {
        let c = &commissions[j];
        let mut t: usize = 0;
        while t < c.names.len()
            invariant
                t <= c.names@.len(),
                j < commissions@.len(),
                *c == commissions@[j as int],
                forall|m: int| 0 <= m < j ==> !has_name(#[trigger] commissions@[m], name@),
                forall|u: int| 0 <= u < t ==> (#[trigger] c.names@[u])@ != name@,
            decreases c.names@.len() - t,
        {
            if c.names[t] == *name {
                assert(c.names@[t as int]@ == name@);
                return Some(j);
            }
            t = t + 1;
        }
        j = j + 1;
    }
    None
}

/// Positions in the catalog of the subjects that the code texts name.
fn resolve_codes(catalog: &Commissions, texts: &Vec<String>) -> (r: Result<Vec<usize>, GeneratorError>)
    ensures
        r matches Ok(v) ==> v@.len() == texts@.len() && forall|k: int|
            0 <= k < v@.len() ==> first_with_code(catalog.subjects@, code_of_text(texts@[k]@), #[trigger] v@[k] as int),
        r is Ok <==> forall|k: int|
            0 <= k < texts@.len() ==> is_code_text(#[trigger] texts@[k]@) && catalog.has_code(code_of_text(texts@[k]@)),
        r matches Err(e) ==> exists|k: int|
            0 <= k < texts@.len() && {
                ||| !is_code_text(texts@[k]@) && (e matches GeneratorError::Parse(t) && t@ == texts@[k]@)
                ||| is_code_text(texts@[k]@) && !catalog.has_code(code_of_text(texts@[k]@))
                    && e == GeneratorError::SubjectNotFound(code_of_text(texts@[k]@))
            },
{
    let codes = parse_codes(texts)?;
    let r = catalog.find_subjects_by_code(&codes);
    proof {
        assert forall|k: int| 0 <= k < codes@.len() implies #[trigger] codes@[k] == code_of_text(texts@[k]@) by {}
        if r is Err {
            let k = choose|k: int| 0 <= k < codes@.len() && !catalog.has_code(#[trigger] codes@[k]);
            assert(codes@[k] == code_of_text(texts@[k]@));
        } else {
            assert forall|k: int| 0 <= k < texts@.len() implies is_code_text(#[trigger] texts@[k]@)
                && catalog.has_code(code_of_text(texts@[k]@)) by {
                assert(catalog.has_code(codes@[k]));
            }
        }
    }
    r
}

/// The commission that the code text and the name refer to.
fn resolve_commission(catalog: &Commissions, code: &String, name: &String) -> (r: Result<CommissionRef, GeneratorError>)
    ensures
        r matches Ok(c) ==> resolves_to(catalog.subjects@, code@, name@, c),
        r is Ok <==> resolvable(catalog.subjects@, code@, name@),
        r matches Err(e) ==> {
            ||| !is_code_text(code@) && (e matches GeneratorError::Parse(t) && t@ == code@)
            ||| is_code_text(code@) && !catalog.has_code(code_of_text(code@))
                && e == GeneratorError::SubjectNotFound(code_of_text(code@))
            ||| is_code_text(code@) && catalog.has_code(code_of_text(code@))
                && (e matches GeneratorError::CommissionNotFound(c, n) && c == code_of_text(code@) && n@ == name@)
        },
{
    let c = Code::parse(code.as_str())?;
    match catalog.position_of(c) {
        None => Err(GeneratorError::SubjectNotFound(c)),
        Some(i) => match find_named(&catalog.subjects[i].commissions, name) {
            Some(j) => {
                let r = CommissionRef { code: c, index: j };
                assert(is_code_text(code@));
                assert(first_with_code(catalog.subjects@, r.code, i as int) && first_named(
                    catalog.subjects@[i as int].commissions@,
                    name@,
                    r.index as int,
                ));
                assert(resolves_to(catalog.subjects@, code@, name@, r));
                Ok(r)
            },
            None => {
                proof {
                    assert forall|r: CommissionRef| !resolves_to(catalog.subjects@, code@, name@, r) by {
                        if resolves_to(catalog.subjects@, code@, name@, r) {
                            let i2 = choose|i2: int|
                                first_with_code(catalog.subjects@, r.code, i2) && first_named(
                                    catalog.subjects@[i2].commissions@,
                                    name@,
                                    r.index as int,
                                );
                            assert(i2 == i);
                        }
                    }
                }
                Err(GeneratorError::CommissionNotFound(c, name.clone()))
            },
        },
    }
}

/// Configures a `ChoiceGenerator` over a catalog. Subjects are kept as positions in the
/// catalog.
pub struct GeneratorBuilder {
    pub subjects: Commissions,
    pub mandatory: Vec<usize>,
    pub optional: Vec<usize>,
    pub collision_exceptions: Vec<CollisionException>,
    pub min_credit_count: Option<u32>,
    pub max_credit_count: Option<u32>,
    pub min_subject_count: Option<u32>,
    pub max_subject_count: Option<u32>,
}

impl GeneratorBuilder {
    pub open spec fn wf(self) -> bool {
        &&& self.subjects.wf()
        &&& forall|k: int| 0 <= k < self.mandatory@.len() ==> (#[trigger] self.mandatory@[k]) < self.subjects.subjects@.len()
        &&& forall|k: int| 0 <= k < self.optional@.len() ==> (#[trigger] self.optional@[k]) < self.subjects.subjects@.len()
    }

    /// The catalog code of the `k`-th subject of `mandatory ++ optional`.
    pub open spec fn code_at(self, k: int) -> Code {
        self.subjects.subjects@[(self.mandatory@ + self.optional@)[k] as int].code
    }

    /// Some code is chosen twice.
    pub open spec fn has_duplicate(self) -> bool {
        exists|i: int, j: int|
            0 <= i < j < self.mandatory@.len() + self.optional@.len() && #[trigger] self.code_at(i)
                == #[trigger] self.code_at(j)
    }

    pub fn new(subjects: Commissions) -> (r: Self)
        requires
            subjects.wf(),
        ensures
            r.wf(),
            r.subjects == subjects,
            r.mandatory@.len() == 0,
            r.optional@.len() == 0,
            r.collision_exceptions@.len() == 0,
            r.min_credit_count is None,
            r.max_credit_count is None,
            r.min_subject_count is None,
            r.max_subject_count is None,
    {
        GeneratorBuilder {
            subjects,
            mandatory: Vec::new(),
            optional: Vec::new(),
            collision_exceptions: Vec::new(),
            min_credit_count: None,
            max_credit_count: None,
            min_subject_count: None,
            max_subject_count: None,
        }
    }

    pub fn set_min_credit_count(self, min_credit_count: Option<u32>) -> (r: Self)
        ensures
            r == (GeneratorBuilder { min_credit_count, ..self }),
    {
        GeneratorBuilder { min_credit_count, ..self }
    }

    pub fn set_max_credit_count(self, max_credit_count: Option<u32>) -> (r: Self)
        ensures
            r == (GeneratorBuilder { max_credit_count, ..self }),
    {
        GeneratorBuilder { max_credit_count, ..self }
    }

    pub fn set_min_subject_count(self, min_subject_count: Option<u32>) -> (r: Self)
        ensures
            r == (GeneratorBuilder { min_subject_count, ..self }),
    {
        GeneratorBuilder { min_subject_count, ..self }
    }

    pub fn set_max_subject_count(self, max_subject_count: Option<u32>) -> (r: Self)
        ensures
            r == (GeneratorBuilder { max_subject_count, ..self }),
    {
        GeneratorBuilder { max_subject_count, ..self }
    }

    /// Takes the subjects with these codes as mandatory. Fails on the first text that
    /// is no code, or on a code that the catalog lacks.
    pub fn set_mandatory_codes(self, codes: Vec<String>) -> (r: Result<Self, GeneratorError>)
        requires
            self.wf(),
        ensures
            r is Ok <==> forall|k: int|
                0 <= k < codes@.len() ==> is_code_text(#[trigger] codes@[k]@) && self.subjects.has_code(
                    code_of_text(codes@[k]@),
                ),
            r matches Ok(b) ==> b.wf() && b == (GeneratorBuilder { mandatory: b.mandatory, ..self })
                && b.mandatory@.len() == codes@.len() && forall|k: int|
                0 <= k < codes@.len() ==> first_with_code(
                    self.subjects.subjects@,
                    code_of_text(codes@[k]@),
                    #[trigger] b.mandatory@[k] as int,
                ),
            r matches Err(e) ==> exists|k: int|
                0 <= k < codes@.len() && {
                    ||| !is_code_text(codes@[k]@) && (e matches GeneratorError::Parse(t) && t@ == codes@[k]@)
                    ||| is_code_text(codes@[k]@) && !self.subjects.has_code(code_of_text(codes@[k]@))
                        && e == GeneratorError::SubjectNotFound(code_of_text(codes@[k]@))
                },
    {
        let mandatory = resolve_codes(&self.subjects, &codes)?;
        proof {
            assert forall|k: int| 0 <= k < mandatory@.len() implies (#[trigger] mandatory@[k]) < self.subjects.subjects@.len() by {
                assert(first_with_code(self.subjects.subjects@, code_of_text(codes@[k]@), mandatory@[k] as int));
            }
        }
        Ok(GeneratorBuilder { mandatory, ..self })
    }

    /// Takes the subjects with these codes as optional. Fails on the first text that
    /// is no code, or on a code that the catalog lacks.
    pub fn set_optional_codes(self, codes: Vec<String>) -> (r: Result<Self, GeneratorError>)
        requires
            self.wf(),
        ensures
            r is Ok <==> forall|k: int|
                0 <= k < codes@.len() ==> is_code_text(#[trigger] codes@[k]@) && self.subjects.has_code(
                    code_of_text(codes@[k]@),
                ),
            r matches Ok(b) ==> b.wf() && b == (GeneratorBuilder { optional: b.optional, ..self })
                && b.optional@.len() == codes@.len() && forall|k: int|
                0 <= k < codes@.len() ==> first_with_code(
                    self.subjects.subjects@,
                    code_of_text(codes@[k]@),
                    #[trigger] b.optional@[k] as int,
                ),
            r matches Err(e) ==> exists|k: int|
                0 <= k < codes@.len() && {
                    ||| !is_code_text(codes@[k]@) && (e matches GeneratorError::Parse(t) && t@ == codes@[k]@)
                    ||| is_code_text(codes@[k]@) && !self.subjects.has_code(code_of_text(codes@[k]@))
                        && e == GeneratorError::SubjectNotFound(code_of_text(codes@[k]@))
                },
    {
        let optional = resolve_codes(&self.subjects, &codes)?;
        proof {
            assert forall|k: int| 0 <= k < optional@.len() implies (#[trigger] optional@[k]) < self.subjects.subjects@.len() by {
                assert(first_with_code(self.subjects.subjects@, code_of_text(codes@[k]@), optional@[k] as int));
            }
        }
        Ok(GeneratorBuilder { optional, ..self })
    }

    /// Allows each pair of commissions, named by subject code and commission name, to
    /// overlap. Fails on the first reference that the catalog cannot resolve.
    pub fn set_collision_exceptions(self, pairs: Vec<((String, String), (String, String))>) -> (r: Result<
        Self,
        GeneratorError,
    >)
        requires
            self.wf(),
        ensures
            r is Ok <==> forall|k: int|
                0 <= k < pairs@.len() ==> resolvable(self.subjects.subjects@, (#[trigger] pairs@[k]).0.0@, pairs@[k].0.1@)
                    && resolvable(self.subjects.subjects@, pairs@[k].1.0@, pairs@[k].1.1@),
            r matches Ok(b) ==> b.wf() && b == (GeneratorBuilder { collision_exceptions: b.collision_exceptions, ..self })
                && b.collision_exceptions@.len() == pairs@.len() && forall|k: int|
                0 <= k < pairs@.len() ==> resolves_to(
                    self.subjects.subjects@,
                    (#[trigger] pairs@[k]).0.0@,
                    pairs@[k].0.1@,
                    b.collision_exceptions@[k].0,
                ) && resolves_to(
                    self.subjects.subjects@,
                    pairs@[k].1.0@,
                    pairs@[k].1.1@,
                    b.collision_exceptions@[k].1,
                ),
    {
        let mut out: Vec<CollisionException> = Vec::new();
        let mut k: usize = 0;
        while k < pairs.len()
            invariant
                k <= pairs@.len(),
                out@.len() == k,
                forall|m: int|
                    0 <= m < k ==> resolves_to(
                        self.subjects.subjects@,
                        (#[trigger] pairs@[m]).0.0@,
                        pairs@[m].0.1@,
                        out@[m].0,
                    ) && resolves_to(self.subjects.subjects@, pairs@[m].1.0@, pairs@[m].1.1@, out@[m].1),
            decreases pairs@.len() - k,
        {
            let p = &pairs[k];
            let a = resolve_commission(&self.subjects, &p.0.0, &p.0.1)?;
            let b = resolve_commission(&self.subjects, &p.1.0, &p.1.1)?;
            out.push((a, b));
            k = k + 1;
        }
        proof {
            assert forall|m: int| 0 <= m < pairs@.len() implies resolvable(
                self.subjects.subjects@,
                (#[trigger] pairs@[m]).0.0@,
                pairs@[m].0.1@,
            ) && resolvable(self.subjects.subjects@, pairs@[m].1.0@, pairs@[m].1.1@) by {
                assert(resolves_to(self.subjects.subjects@, pairs@[m].0.0@, pairs@[m].0.1@, out@[m].0));
                assert(resolves_to(self.subjects.subjects@, pairs@[m].1.0@, pairs@[m].1.1@, out@[m].1));
            }
        }
        Ok(GeneratorBuilder { collision_exceptions: out, ..self })
    }

    /// Sorts the tasks of every schedule in the catalog by start time.
    pub fn optimize(&mut self)
        requires
            old(self).wf(),
        ensures
            final(self).wf(),
            final(self).mandatory == old(self).mandatory,
            final(self).optional == old(self).optional,
            final(self).collision_exceptions == old(self).collision_exceptions,
            final(self).subjects.subjects@.len() == old(self).subjects.subjects@.len(),
            forall|s: int|
                0 <= s < old(self).subjects.subjects@.len() ==> (#[trigger] final(self).subjects.subjects@[s]).optimized_from(
                    old(self).subjects.subjects@[s],
                ),
    {
        optimize_all(&mut self.subjects.subjects);
    }

    /// The generator over `mandatory ++ optional`, followed by a subject-count and a
    /// credit-count stage. A code chosen twice is a configuration error.
    pub fn build(self) -> (r: Result<ChoiceGenerator, GeneratorError>)
        requires
            self.wf(),
        ensures
            r is Err <==> self.has_duplicate(),
            r matches Err(e) ==> exists|i: int, j: int|
                0 <= i < j < self.mandatory@.len() + self.optional@.len() && self.code_at(i) == self.code_at(j)
                    && e == GeneratorError::Config(self.code_at(i)),
            r matches Ok(g) ==> {
                &&& g.wf()
                &&& g.len() == self.mandatory@.len() + self.optional@.len()
                &&& g.mandatory_len() == self.mandatory@.len()
                &&& forall|i: int|
                    0 <= i < g.len() ==> (#[trigger] g.subject(i)).optimized_from(
                        self.subjects.subjects@[(self.mandatory@ + self.optional@)[i] as int],
                    )
                &&& g.exception_list() == self.collision_exceptions@
                &&& g.filter_list() == seq![
                    Filter::SubjectCount(CountBounds { min: self.min_subject_count, max: self.max_subject_count }),
                    Filter::CreditCount(CountBounds { min: self.min_credit_count, max: self.max_credit_count }),
                ]
                &&& g.cursor_view() is None
            },
    {
        let ghost before = self;
        let GeneratorBuilder {
            subjects,
            mandatory,
            optional,
            collision_exceptions,
            min_credit_count,
            max_credit_count,
            min_subject_count,
            max_subject_count,
        } = self;
        let n_mandatory = mandatory.len();
        let mut order = mandatory;
        let mut rest = optional;
        order.append(&mut rest);
        proof {
            assert(order@ == before.mandatory@ + before.optional@);
        }
        let mut i: usize = 0;
        while i < order.len()
            invariant
                order@ == before.mandatory@ + before.optional@,
                subjects == before.subjects,
                before == self,
                before.wf(),
                i <= order@.len(),
                forall|a: int, b: int|
                    0 <= a < i && a < b < order@.len() ==> #[trigger] before.code_at(a) != #[trigger] before.code_at(b),
            decreases order@.len() - i,
        {
            let mut j: usize = i + 1;
            while j < order.len()
                invariant
                    order@ == before.mandatory@ + before.optional@,
                    subjects == before.subjects,
                    before == self,
                    before.wf(),
                    i < j <= order@.len(),
                    forall|a: int, b: int|
                        0 <= a < i && a < b < order@.len() ==> #[trigger] before.code_at(a) != #[trigger] before.code_at(b),
                    forall|b: int| i < b < j ==> before.code_at(i as int) != #[trigger] before.code_at(b),
                decreases order@.len() - j,
            {
                let ci = subjects.subjects[order[i]].code;
                let cj = subjects.subjects[order[j]].code;
                if ci == cj {
                    assert(ci == before.code_at(i as int));
                    assert(cj == before.code_at(j as int));
                    assert(j < before.mandatory@.len() + before.optional@.len());
                    assert(before.has_duplicate());
                    return Err(GeneratorError::Config(ci));
                }
                j = j + 1;
            }
            i = i + 1;
        }
        proof {
            assert(!before.has_duplicate()) by {
                if before.has_duplicate() {
                    let (a, b) = choose|a: int, b: int|
                        0 <= a < b < before.mandatory@.len() + before.optional@.len() && #[trigger] before.code_at(a)
                            == #[trigger] before.code_at(b);
                    assert(before.code_at(a) != before.code_at(b));
                }
            }
        }
        let g = ChoiceGenerator::over(subjects.subjects, order, n_mandatory, collision_exceptions);
        let g = g.filter_choices(Filter::SubjectCount(CountBounds::new(min_subject_count, max_subject_count)));
        let g = g.filter_choices(Filter::CreditCount(CountBounds::new(min_credit_count, max_credit_count)));
        proof {
            assert(g.filter_list() =~= seq![
                Filter::SubjectCount(CountBounds { min: min_subject_count, max: max_subject_count }),
                Filter::CreditCount(CountBounds { min: min_credit_count, max: max_credit_count }),
            ]);
        }
        Ok(g)
    }
}

impl Commissions {
    pub fn create_generator_builder(self) -> (r: GeneratorBuilder)
        requires
            self.wf(),
        ensures
            r.wf(),
            r.subjects == self,
            r.mandatory@.len() == 0,
            r.optional@.len() == 0,
            r.collision_exceptions@.len() == 0,
            r.min_credit_count is None,
            r.max_credit_count is None,
            r.min_subject_count is None,
            r.max_subject_count is None,
    {
        GeneratorBuilder::new(self)
    }
}

} // verus!
