use vstd::prelude::*;
use vstd::string::StrSliceExecFns;

use crate::time::{same_tasks, Week};

verus! {

/// A subject code such as `61.03`: a department and a number within it.
#[derive(Clone, Copy, Debug, PartialEq, Eq, Structural, PartialOrd, Ord, Hash)]
pub struct Code {
    pub department: u8,
    pub number: u8,
}

pub open spec fn is_digit(c: char) -> bool {
    '0' <= c && c <= '9'
}

pub open spec fn digit_value(c: char) -> int {
    c as int - '0' as int
}

/// Text of the form `DD.DD`, two decimal digits on each side of a dot.
pub open spec fn is_code_text(s: Seq<char>) -> bool {
    &&& s.len() == 5
    &&& is_digit(s[0])
    &&& is_digit(s[1])
    &&& s[2] == '.'
    &&& is_digit(s[3])
    &&& is_digit(s[4])
}

/// The code written by `s`, for text that `is_code_text` accepts.
pub open spec fn code_of_text(s: Seq<char>) -> Code {
    Code {
        department: (10 * digit_value(s[0]) + digit_value(s[1])) as u8,
        number: (10 * digit_value(s[3]) + digit_value(s[4])) as u8,
    }
}

fn digit(c: char) -> (r: u8)
    requires
        is_digit(c),
    ensures
        r as int == digit_value(c),
{
    (c as u32 - '0' as u32) as u8
}

impl Code {
    /// Reads a code from its text form; any other text is a parse error.
    pub fn parse(s: &str) -> (r: Result<Code, GeneratorError>)
        ensures
            is_code_text(s@) ==> r == Ok::<Code, GeneratorError>(code_of_text(s@)),
            !is_code_text(s@) ==> (r matches Err(GeneratorError::Parse(t)) && t@ == s@),
    {
        if s.unicode_len() != 5 {
            return Err(GeneratorError::Parse(s.to_owned()));
        }
        let c0 = s.get_char(0);
        let c1 = s.get_char(1);
        let c2 = s.get_char(2);
        let c3 = s.get_char(3);
        let c4 = s.get_char(4);
        if '0' <= c0 && c0 <= '9' && '0' <= c1 && c1 <= '9' && c2 == '.' && '0' <= c3 && c3 <= '9'
            && '0' <= c4 && c4 <= '9' {
            let department = 10 * digit(c0) + digit(c1);
            let number = 10 * digit(c3) + digit(c4);
            Ok(Code { department, number })
        } else {
            Err(GeneratorError::Parse(s.to_owned()))
        }
    }
}

/// Why a generator could not be configured.
#[derive(Debug)]
pub enum GeneratorError {
    /// The text is not a subject code.
    Parse(String),
    /// No subject with this code is in the catalog.
    SubjectNotFound(Code),
    /// The subject has no commission known by this name.
    CommissionNotFound(Code, String),
    /// The code was given both as mandatory and as optional, or twice.
    Config(Code),
}

/// One offered section of a subject, with its weekly schedule.
#[derive(Debug)]
pub struct Commission {
    pub names: Vec<String>,
    pub schedule: Week,
    /// Code of the subject that owns this commission.
    pub subject: Code,
}

#[derive(Debug)]
pub struct Subject {
    pub code: Code,
    pub name: String,
    pub credits: u8,
    pub commissions: Vec<Commission>,
}


impl Subject {
    /// Every commission's schedule has one entry per weekday.
    pub open spec fn wf(self) -> bool {
        forall|k: int| 0 <= k < self.commissions@.len() ==> (#[trigger] self.commissions@[k]).schedule.wf()
    }

    /// Every commission's schedule is sorted by start time.
    pub open spec fn optimized(self) -> bool {
        forall|k: int| 0 <= k < self.commissions@.len() ==> (#[trigger] self.commissions@[k]).schedule.sorted()
    }

    /// `self` is `before` with each schedule's tasks sorted by start time.
    pub open spec fn optimized_from(self, before: Subject) -> bool {
        &&& self.wf()
        &&& self.optimized()
        &&& self.code == before.code
        &&& self.name == before.name
        &&& self.credits == before.credits
        &&& self.commissions@.len() == before.commissions@.len()
        &&& forall|k: int| 0 <= k < before.commissions@.len() ==> {
            let (a, b) = (#[trigger] before.commissions@[k], self.commissions@[k]);
            a.names == b.names && a.subject == b.subject && same_tasks(a.schedule, b.schedule)
        }
    }

    /// Sorts the tasks of each commission's schedule by start time.
    pub fn optimize(&mut self)
        requires
            old(self).wf(),
        ensures
            final(self).optimized_from(*old(self)),
    {
        let mut k: usize = 0;
        while k < self.commissions.len()
            invariant
                k <= self.commissions@.len(),
                self.wf(),
                self.code == old(self).code,
                self.name == old(self).name,
                self.credits == old(self).credits,
                self.commissions@.len() == old(self).commissions@.len(),
                forall|m: int| 0 <= m < k ==> (#[trigger] self.commissions@[m]).schedule.sorted(),
                forall|m: int| 0 <= m < old(self).commissions@.len() ==> {
                    let (a, b) = (#[trigger] old(self).commissions@[m], self.commissions@[m]);
                    a.names == b.names && a.subject == b.subject && same_tasks(a.schedule, b.schedule)
                },
            decreases self.commissions@.len() - k,
        {
            let mut c = Commission {
                names: Vec::new(),
                schedule: Week { days: Vec::new() },
                subject: self.code,
            };
            std::mem::swap(&mut c, &mut self.commissions[k]);
            c.schedule.optimize();
            std::mem::swap(&mut c, &mut self.commissions[k]);
            k = k + 1;
        }
    }
}

/// Display data of one subject.
#[derive(Debug)]
pub struct SubjectInfo {
    pub code: Code,
    pub name: String,
    pub credits: u8,
}

impl SubjectInfo {
    pub fn code(&self) -> (r: Code)
        ensures
            r == self.code,
    {
        self.code
    }

    pub fn name(&self) -> (r: String)
        ensures
            r@ == self.name@,
    {
        self.name.clone()
    }
}

#[derive(Clone, Copy, Debug, PartialEq, Eq, Structural)]
pub enum Semester {
    First,
    Second,
}

/// Index of the first entry of `subjects` with the given code, if any.
pub open spec fn first_with_code(subjects: Seq<Subject>, code: Code, i: int) -> bool {
    &&& 0 <= i < subjects.len()
    &&& subjects[i].code == code
    &&& forall|k: int| 0 <= k < i ==> (#[trigger] subjects[k]).code != code
}

/// The subjects offered in one term.
#[derive(Debug)]
pub struct Commissions {
    pub subjects: Vec<Subject>,
}

impl Commissions {
    /// Every subject's schedules have one entry per weekday.
    pub open spec fn wf(self) -> bool {
        forall|s: int| 0 <= s < self.subjects@.len() ==> (#[trigger] self.subjects@[s]).wf()
    }

    pub fn new(subjects: Vec<Subject>) -> (r: Self)
        requires
            forall|s: int| 0 <= s < subjects@.len() ==> (#[trigger] subjects@[s]).wf(),
        ensures
            r.wf(),
            r.subjects@ == subjects@,
    {
        Commissions { subjects }
    }

    pub open spec fn has_code(self, code: Code) -> bool {
        exists|k: int| 0 <= k < self.subjects@.len() && (#[trigger] self.subjects@[k]).code == code
    }

    /// Position of the first subject with this code.
    pub fn position_of(&self, code: Code) -> (r: Option<usize>)
        ensures
            r matches Some(i) ==> first_with_code(self.subjects@, code, i as int),
            r is None ==> !self.has_code(code),
    {
        let mut i: usize = 0;
        while i < self.subjects.len()
            invariant
                i <= self.subjects@.len(),
                forall|k: int| 0 <= k < i ==> (#[trigger] self.subjects@[k]).code != code,
            decreases self.subjects@.len() - i,
        {
            if self.subjects[i].code == code {
                return Some(i);
            }
            i = i + 1;
        }
        None
    }

    pub fn find_subject_by_code(&self, code: Code) -> (r: Option<&Subject>)
        ensures
            r matches Some(s) ==> exists|i: int|
                first_with_code(self.subjects@, code, i) && self.subjects@[i] == *s,
            r is None ==> !self.has_code(code),
    {
        match self.position_of(code) {
            Some(i) => Some(&self.subjects[i]),
            None => None,
        }
    }

    /// Positions of the subjects with the given codes, in the same order; the first
    /// code that is missing is reported.
    pub fn find_subjects_by_code(&self, codes: &Vec<Code>) -> (r: Result<Vec<usize>, GeneratorError>)
        ensures
            r matches Ok(v) ==> v@.len() == codes@.len() && forall|k: int|
                0 <= k < v@.len() ==> first_with_code(self.subjects@, codes@[k], #[trigger] v@[k] as int),
            r matches Err(e) ==> exists|k: int|
                0 <= k < codes@.len() && !self.has_code(codes@[k]) && e == GeneratorError::SubjectNotFound(codes@[k])
                    && forall|m: int| 0 <= m < k ==> self.has_code(#[trigger] codes@[m]),
            (forall|k: int| 0 <= k < codes@.len() ==> self.has_code(#[trigger] codes@[k])) <==> r is Ok,
    {
        let mut out: Vec<usize> = Vec::new();
        let mut k: usize = 0;
        while k < codes.len()
            invariant
                k <= codes@.len(),
                out@.len() == k,
                forall|m: int|
                    0 <= m < k ==> first_with_code(self.subjects@, codes@[m], #[trigger] out@[m] as int),
                forall|m: int| 0 <= m < k ==> self.has_code(#[trigger] codes@[m]),
            decreases codes@.len() - k,
        {
            match self.position_of(codes[k]) {
                Some(i) => {
                    out.push(i);
                },
                None => {
                    return Err(GeneratorError::SubjectNotFound(codes[k]));
                },
            }
            k = k + 1;
        }
        Ok(out)
    }

    pub fn get_subject_info(&self, code: Code) -> (r: Option<SubjectInfo>)
        ensures
            r matches Some(info) ==> exists|i: int|
                first_with_code(self.subjects@, code, i) && info.code == code
                    && info.name@ == self.subjects@[i].name@ && info.credits == self.subjects@[i].credits,
            r is None <==> !self.has_code(code),
    {
        match self.position_of(code) {
            Some(i) => {
                let s = &self.subjects[i];
                Some(SubjectInfo { code: s.code, name: s.name.clone(), credits: s.credits })
            },
            None => None,
        }
    }
}

} // verus!
