use vstd::prelude::*;

verus! {

/// One completed entry of a student's transcript.
///
/// Credits and grade points are kept in hundredths (a quarter-credit course
/// has `credits == 25`, a B+ is `grade_points == Some(330)`).
#[derive(Debug, PartialEq)]
pub struct CourseInstance {
    pub course: String,
    pub term: String,
    pub section: Option<String>,
    pub year: u16,
    pub semester: String,
    pub level: u64,
    pub credits: u64,
    pub grade_points: Option<u64>,
    pub departments: Vec<String>,
    pub gereqs: Vec<String>,
    pub institution: String,
    pub lab: bool,
    pub international: bool,
}

/// What a transcript entry says, as mathematical values.
pub struct CourseView {
    pub course: Seq<char>,
    pub term: Seq<char>,
    pub section: Option<Seq<char>>,
    pub year: u16,
    pub semester: Seq<char>,
    pub level: u64,
    pub credits: u64,
    pub grade_points: Option<u64>,
    pub departments: Seq<Seq<char>>,
    pub gereqs: Seq<Seq<char>>,
    pub institution: Seq<char>,
    pub lab: bool,
    pub international: bool,
}

pub open spec fn texts(v: Seq<String>) -> Seq<Seq<char>> {
    v.map_values(|s: String| s@)
}

pub open spec fn text_option(v: Option<String>) -> Option<Seq<char>> {
    match v {
        Some(s) => Some(s@),
        None => None,
    }
}

impl CourseInstance {
    pub open spec fn view(&self) -> CourseView {
        CourseView {
            course: self.course@,
            term: self.term@,
            section: text_option(self.section),
            year: self.year,
            semester: self.semester@,
            level: self.level,
            credits: self.credits,
            grade_points: self.grade_points,
            departments: texts(self.departments@),
            gereqs: texts(self.gereqs@),
            institution: self.institution@,
            lab: self.lab,
            international: self.international,
        }
    }
}

/// A requirement for one specific course: the code, and optional further
/// constraints on the matching transcript entry.
#[derive(Debug, PartialEq)]
pub struct CourseRule {
    pub course: String,
    pub term: Option<String>,
    pub section: Option<String>,
    pub year: Option<u16>,
    pub semester: Option<String>,
    pub lab: Option<bool>,
    pub international: Option<bool>,
}

/// Which constraints of a course rule a transcript entry was matched through.
#[derive(Clone, Copy, Debug, PartialEq, Eq, Structural)]
pub struct MatchedParts {
    pub course: bool,
    pub term: bool,
    pub section: bool,
    pub year: bool,
    pub semester: bool,
    pub lab: bool,
    pub international: bool,
}

pub open spec fn no_parts() -> MatchedParts {
    MatchedParts {
        course: false,
        term: false,
        section: false,
        year: false,
        semester: false,
        lab: false,
        international: false,
    }
}

/// The parts through which a whole course is taken by its code alone.
pub open spec fn code_parts() -> MatchedParts {
    MatchedParts { course: true, ..no_parts() }
}

pub open spec fn text_constraint_holds(want: Option<String>, have: Seq<char>) -> bool {
    match want {
        Some(w) => w@ == have,
        None => true,
    }
}

pub open spec fn section_constraint_holds(want: Option<String>, have: Option<Seq<char>>) -> bool {
    match want {
        Some(w) => have == Some(w@),
        None => true,
    }
}

pub open spec fn value_constraint_holds<T>(want: Option<T>, have: T) -> bool {
    match want {
        Some(w) => w == have,
        None => true,
    }
}

/// A course matches a rule when the codes agree and every constraint that the
/// rule sets agrees with the course.
pub open spec fn rule_accepts(c: CourseView, r: CourseRule) -> bool {
    &&& c.course == r.course@
    &&& text_constraint_holds(r.term, c.term)
    &&& section_constraint_holds(r.section, c.section)
    &&& value_constraint_holds(r.year, c.year)
    &&& text_constraint_holds(r.semester, c.semester)
    &&& value_constraint_holds(r.lab, c.lab)
    &&& value_constraint_holds(r.international, c.international)
}

pub open spec fn spec_matches_rule(c: CourseView, r: CourseRule) -> MatchedParts {
    if rule_accepts(c, r) {
        MatchedParts {
            course: true,
            term: r.term.is_some(),
            section: r.section.is_some(),
            year: r.year.is_some(),
            semester: r.semester.is_some(),
            lab: r.lab.is_some(),
            international: r.international.is_some(),
        }
    } else {
        no_parts()
    }
}

impl MatchedParts {
    pub open spec fn spec_any(self) -> bool {
        self.course || self.term || self.section || self.year || self.semester || self.lab
            || self.international
    }

    /// Whether anything matched at all.
    pub fn any(&self) -> (r: bool)
        ensures
            r == self.spec_any(),
    {
        self.course || self.term || self.section || self.year || self.semester || self.lab
            || self.international
    }

    pub fn code_only() -> (r: MatchedParts)
        ensures
            r == code_parts(),
    {
        MatchedParts {
            course: true,
            term: false,
            section: false,
            year: false,
            semester: false,
            lab: false,
            international: false,
        }
    }
}

fn text_constraint_check(want: &Option<String>, have: &String) -> (r: bool)
    ensures
        r == text_constraint_holds(*want, have@),
{
    match want {
        Some(w) => *w == *have,
        None => true,
    }
}

impl CourseInstance {
    /// Which parts of `rule` this course matches; nothing when the code or any
    /// constraint that the rule sets disagrees.
    pub fn matches_rule(&self, rule: &CourseRule) -> (r: MatchedParts)
        ensures
            r == spec_matches_rule(self@, *rule),
            r.spec_any() == rule_accepts(self@, *rule),
    {
        let section_ok = match &rule.section {
            Some(w) => match &self.section {
                Some(h) => *w == *h,
                None => false,
            },
            None => true,
        };
        let year_ok = match rule.year {
            Some(y) => y == self.year,
            None => true,
        };
        let lab_ok = match rule.lab {
            Some(l) => l == self.lab,
            None => true,
        };
        let international_ok = match rule.international {
            Some(i) => i == self.international,
            None => true,
        };
        if rule.course == self.course && text_constraint_check(&rule.term, &self.term) && section_ok
            && year_ok && text_constraint_check(&rule.semester, &self.semester) && lab_ok
            && international_ok {
            MatchedParts {
                course: true,
                term: rule.term.is_some(),
                section: rule.section.is_some(),
                year: rule.year.is_some(),
                semester: rule.semester.is_some(),
                lab: rule.lab.is_some(),
                international: rule.international.is_some(),
            }
        } else {
            MatchedParts {
                course: false,
                term: false,
                section: false,
                year: false,
                semester: false,
                lab: false,
                international: false,
            }
        }
    }
}

fn copy_strings(v: &Vec<String>) -> (r: Vec<String>)
    ensures
        r@ == v@,
{
    let mut out: Vec<String> = Vec::new();
    let mut i: usize = 0;
    while i < v.len()
        invariant
            0 <= i <= v.len(),
            out@ == v@.subrange(0, i as int),
        decreases v.len() - i,
    {
        out.push(v[i].clone());
        i = i + 1;
    }
    assert(v@.subrange(0, v.len() as int) == v@);
    out
}

fn copy_text_option(v: &Option<String>) -> (r: Option<String>)
    ensures
        text_option(r) == text_option(*v),
{
    match v {
        Some(s) => Some(s.clone()),
        None => None,
    }
}

fn same_texts(a: &Vec<String>, b: &Vec<String>) -> (r: bool)
    ensures
        r == (texts(a@) == texts(b@)),
{
    if a.len() != b.len() {
        proof {
            assert(texts(a@).len() != texts(b@).len());
        }
        return false;
    }
    let mut i: usize = 0;
    while i < a.len()
        invariant
            0 <= i <= a.len(),
            a.len() == b.len(),
            forall|k: int| 0 <= k < i ==> a@[k]@ == b@[k]@,
        decreases a.len() - i,
    {
        if a[i] != b[i] {
            proof {
                assert(texts(a@)[i as int] != texts(b@)[i as int]);
            }
            return false;
        }
        i = i + 1;
    }
    assert(texts(a@) =~= texts(b@));
    true
}

fn same_text_option(a: &Option<String>, b: &Option<String>) -> (r: bool)
    ensures
        r == (text_option(*a) == text_option(*b)),
{
    match (a, b) {
        (Some(x), Some(y)) => *x == *y,
        (None, None) => true,
        _ => false,
    }
}

impl CourseInstance {
    /// Whether the two entries say the same thing.
    pub fn same_as(&self, other: &CourseInstance) -> (r: bool)
        ensures
            r == (self@ == other@),
    {
        self.course == other.course && self.term == other.term && same_text_option(
            &self.section,
            &other.section,
        ) && self.year == other.year && self.semester == other.semester && self.level
            == other.level && self.credits == other.credits && self.grade_points
            == other.grade_points && same_texts(&self.departments, &other.departments)
            && same_texts(&self.gereqs, &other.gereqs) && self.institution == other.institution
            && self.lab == other.lab && self.international == other.international
    }

    /// A copy that says what this entry says.
    pub fn duplicate(&self) -> (r: CourseInstance)
        ensures
            r@ == self@,
    {
        CourseInstance {
            course: self.course.clone(),
            term: self.term.clone(),
            section: copy_text_option(&self.section),
            year: self.year,
            semester: self.semester.clone(),
            level: self.level,
            credits: self.credits,
            grade_points: self.grade_points,
            departments: copy_strings(&self.departments),
            gereqs: copy_strings(&self.gereqs),
            institution: self.institution.clone(),
            lab: self.lab,
            international: self.international,
        }
    }
}

impl CourseRule {
    /// A rule that asks for a course by its code alone.
    pub fn by_code(code: String) -> (r: CourseRule)
        ensures
            r.course == code,
            r.term.is_none(),
            r.section.is_none(),
            r.year.is_none(),
            r.semester.is_none(),
            r.lab.is_none(),
            r.international.is_none(),
    {
        CourseRule {
            course: code,
            term: None,
            section: None,
            year: None,
            semester: None,
            lab: None,
            international: None,
        }
    }
}

/// The uninhabited error type of the `void` crate: reading a course rule from
/// its code cannot fail.
#[verifier::external_type_specification]
#[verifier::external_body]
pub struct ExVoid(void::Void);

impl std::str::FromStr for CourseRule {
    type Err = void::Void;

    /// A rule asking for the course coded `s`, with no other constraint; it
    /// cannot fail.
    fn from_str(s: &str) -> (r: Result<Self, Self::Err>)
        ensures
            r is Ok,
            r->Ok_0.course@ == s@,
            r->Ok_0.term.is_none(),
            r->Ok_0.section.is_none(),
            r->Ok_0.year.is_none(),
            r->Ok_0.semester.is_none(),
            r->Ok_0.lab.is_none(),
            r->Ok_0.international.is_none(),
    {
        Ok(CourseRule::by_code(s.to_string()))
    }
}

} // verus!
