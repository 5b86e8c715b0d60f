use vstd::prelude::*;

use crate::course::{CourseInstance, CourseView};

verus! {

/// An attribute that a filter clause may test.
#[derive(Clone, Copy, Debug, PartialEq, Eq, Structural)]
pub enum Attribute {
    Department,
    Level,
    Gereqs,
    Semester,
    Year,
    Grade,
    Institution,
    Lab,
    International,
    AreaKind,
}

#[derive(Clone, Copy, Debug, PartialEq, Eq, Structural)]
pub enum Operator {
    EqualTo,
    NotEqualTo,
    LessThan,
    LessThanEqualTo,
    GreaterThan,
    GreaterThanEqualTo,
}

/// The right-hand side of one comparison.
#[derive(Debug, PartialEq)]
pub enum Value {
    String(String),
    Integer(u64),
    Bool(bool),
}

impl Value {
    /// The text `s` as a value.
    pub fn text(s: &str) -> (r: Value)
        ensures
            r is String,
            r->String_0@ == s@,
    {
        Value::String(s.to_string())
    }

    /// Whether this is the flag `rhs`.
    pub fn equals_flag(&self, rhs: bool) -> (r: bool)
        ensures
            r == (self is Bool && self->Bool_0 == rhs),
    {
        match self {
            Value::Bool(b) => *b == rhs,
            _ => false,
        }
    }
}

impl From<String> for Value {
    fn from(s: String) -> (r: Value) {
        Value::String(s)
    }
}

impl vstd::std_specs::convert::FromSpecImpl<String> for Value {
    open spec fn obeys_from_spec() -> bool {
        true
    }

    open spec fn from_spec(s: String) -> Value {
        Value::String(s)
    }
}

impl From<u64> for Value {
    fn from(n: u64) -> (r: Value) {
        Value::Integer(n)
    }
}

impl vstd::std_specs::convert::FromSpecImpl<u64> for Value {
    open spec fn obeys_from_spec() -> bool {
        true
    }

    open spec fn from_spec(n: u64) -> Value {
        Value::Integer(n)
    }
}

impl From<bool> for Value {
    fn from(b: bool) -> (r: Value) {
        Value::Bool(b)
    }
}

impl vstd::std_specs::convert::FromSpecImpl<bool> for Value {
    open spec fn obeys_from_spec() -> bool {
        true
    }

    open spec fn from_spec(b: bool) -> Value {
        Value::Bool(b)
    }
}

#[derive(Debug, PartialEq)]
pub struct Comparison {
    pub op: Operator,
    pub value: Value,
}

/// One comparison, or several of which one must hold.
#[derive(Debug, PartialEq)]
pub enum WrappedValue {
    Single(Comparison),
    Or(Vec<Comparison>),
}

#[derive(Debug, PartialEq)]
pub struct ClauseEntry {
    pub key: Attribute,
    pub value: WrappedValue,
}

/// A conjunction over attributes, each tested at most once.
#[derive(Debug, PartialEq)]
pub struct Clause {
    pub entries: Vec<ClauseEntry>,
}

#[derive(Clone, Copy, Debug, PartialEq, Eq, Structural)]
pub enum FilterError {
    /// The attribute is tested already in this clause.
    DuplicateKey,
    /// A comparison does not fit the kind of the attribute.
    IllTyped,
}

/// A student's declared area of study (a major, a minor, a concentration).
#[derive(Debug, PartialEq)]
pub struct DeclaredArea {
    pub name: String,
    pub kind: String,
}

pub open spec fn is_text_attribute(a: Attribute) -> bool {
    a == Attribute::Department || a == Attribute::Gereqs || a == Attribute::Semester || a
        == Attribute::Institution || a == Attribute::AreaKind
}

pub open spec fn is_integer_attribute(a: Attribute) -> bool {
    a == Attribute::Level || a == Attribute::Year || a == Attribute::Grade
}

pub open spec fn is_equality(op: Operator) -> bool {
    op == Operator::EqualTo || op == Operator::NotEqualTo
}

/// Text and flags are compared for (in)equality; numbers with any operator.
pub open spec fn comparison_fits(a: Attribute, c: Comparison) -> bool {
    match c.value {
        Value::String(_) => is_text_attribute(a) && is_equality(c.op),
        Value::Integer(_) => is_integer_attribute(a),
        Value::Bool(_) => !is_text_attribute(a) && !is_integer_attribute(a) && is_equality(c.op),
    }
}

pub open spec fn wrapped_fits(a: Attribute, w: WrappedValue) -> bool {
    match w {
        WrappedValue::Single(c) => comparison_fits(a, c),
        WrappedValue::Or(cs) => forall|i: int| 0 <= i < cs.len() ==> comparison_fits(a, #[trigger] cs@[i]),
    }
}

pub open spec fn compare_numbers(op: Operator, have: int, want: int) -> bool {
    match op {
        Operator::EqualTo => have == want,
        Operator::NotEqualTo => have != want,
        Operator::LessThan => have < want,
        Operator::LessThanEqualTo => have <= want,
        Operator::GreaterThan => have > want,
        Operator::GreaterThanEqualTo => have >= want,
    }
}

/// `==` asks that `have` holds the text, `!=` that it does not.
pub open spec fn compare_membership(op: Operator, have: Seq<Seq<char>>, want: Seq<char>) -> bool {
    if op == Operator::EqualTo {
        have.contains(want)
    } else {
        op == Operator::NotEqualTo && !have.contains(want)
    }
}

pub open spec fn compare_text(op: Operator, have: Seq<char>, want: Seq<char>) -> bool {
    if op == Operator::EqualTo {
        have == want
    } else {
        op == Operator::NotEqualTo && have != want
    }
}

pub open spec fn compare_flags(op: Operator, have: bool, want: bool) -> bool {
    if op == Operator::EqualTo {
        have == want
    } else {
        op == Operator::NotEqualTo && have != want
    }
}

/// Whether one comparison on attribute `a` holds of a course.
pub open spec fn course_satisfies(c: CourseView, a: Attribute, cmp: Comparison) -> bool {
    match cmp.value {
        Value::String(s) => match a {
            Attribute::Department => compare_membership(cmp.op, c.departments, s@),
            Attribute::Gereqs => compare_membership(cmp.op, c.gereqs, s@),
            Attribute::Semester => compare_text(cmp.op, c.semester, s@),
            Attribute::Institution => compare_text(cmp.op, c.institution, s@),
            _ => false,
        },
        Value::Integer(n) => match a {
            Attribute::Level => compare_numbers(cmp.op, c.level as int, n as int),
            Attribute::Year => compare_numbers(cmp.op, c.year as int, n as int),
            Attribute::Grade => match c.grade_points {
                Some(g) => compare_numbers(cmp.op, g as int, n as int),
                None => false,
            },
            _ => false,
        },
        Value::Bool(b) => match a {
            Attribute::Lab => compare_flags(cmp.op, c.lab, b),
            Attribute::International => compare_flags(cmp.op, c.international, b),
            _ => false,
        },
    }
}

/// Whether one comparison on attribute `a` holds of a declared area: only
/// its kind can be tested.
pub open spec fn area_satisfies(d: DeclaredArea, a: Attribute, cmp: Comparison) -> bool {
    match cmp.value {
        Value::String(s) => a == Attribute::AreaKind && compare_text(cmp.op, d.kind@, s@),
        _ => false,
    }
}

pub open spec fn course_satisfies_entry(c: CourseView, e: ClauseEntry) -> bool {
    match e.value {
        WrappedValue::Single(cmp) => course_satisfies(c, e.key, cmp),
        WrappedValue::Or(cs) => exists|i: int| 0 <= i < cs.len() && course_satisfies(c, e.key, #[trigger] cs@[i]),
    }
}

pub open spec fn area_satisfies_entry(d: DeclaredArea, e: ClauseEntry) -> bool {
    match e.value {
        WrappedValue::Single(cmp) => area_satisfies(d, e.key, cmp),
        WrappedValue::Or(cs) => exists|i: int| 0 <= i < cs.len() && area_satisfies(d, e.key, #[trigger] cs@[i]),
    }
}

/// A course passes a clause when it satisfies every entry.
pub open spec fn course_passes(entries: Seq<ClauseEntry>, c: CourseView) -> bool {
    forall|i: int| 0 <= i < entries.len() ==> course_satisfies_entry(c, #[trigger] entries[i])
}

pub open spec fn area_passes(entries: Seq<ClauseEntry>, d: DeclaredArea) -> bool {
    forall|i: int| 0 <= i < entries.len() ==> area_satisfies_entry(d, #[trigger] entries[i])
}

fn compare_u64(op: Operator, have: u64, want: u64) -> (r: bool)
    ensures
        r == compare_numbers(op, have as int, want as int),
{
    match op {
        Operator::EqualTo => have == want,
        Operator::NotEqualTo => have != want,
        Operator::LessThan => have < want,
        Operator::LessThanEqualTo => have <= want,
        Operator::GreaterThan => have > want,
        Operator::GreaterThanEqualTo => have >= want,
    }
}

/// Whether `v` holds the text `want`.
pub(crate) fn holds_text(v: &Vec<String>, want: &String) -> (r: bool)
    ensures
        r == crate::course::texts(v@).contains(want@),
{
    let ghost tv = crate::course::texts(v@);
    let mut i: usize = 0;
    while i < v.len()
        invariant
            0 <= i <= v.len(),
            tv == crate::course::texts(v@),
            forall|k: int| 0 <= k < i ==> tv[k] != want@,
        decreases v.len() - i,
    {
        if v[i] == *want {
            assert(tv[i as int] == want@);
            return true;
        }
        i = i + 1;
    }
    false
}

fn membership(op: Operator, have: &Vec<String>, want: &String) -> (r: bool)
    ensures
        r == compare_membership(op, crate::course::texts(have@), want@),
{
    match op {
        Operator::EqualTo => holds_text(have, want),
        Operator::NotEqualTo => !holds_text(have, want),
        _ => false,
    }
}

fn text_equality(op: Operator, have: &String, want: &String) -> (r: bool)
    ensures
        r == compare_text(op, have@, want@),
{
    match op {
        Operator::EqualTo => *have == *want,
        Operator::NotEqualTo => *have != *want,
        _ => false,
    }
}

fn flag_equality(op: Operator, have: bool, want: bool) -> (r: bool)
    ensures
        r == compare_flags(op, have, want),
{
    match op {
        Operator::EqualTo => have == want,
        Operator::NotEqualTo => have != want,
        _ => false,
    }
}

impl Comparison {
    pub fn holds_for_course(&self, key: Attribute, c: &CourseInstance) -> (r: bool)
        ensures
            r == course_satisfies(c@, key, *self),
    {
        match &self.value {
            Value::String(s) => match key {
                Attribute::Department => membership(self.op, &c.departments, s),
                Attribute::Gereqs => membership(self.op, &c.gereqs, s),
                Attribute::Semester => text_equality(self.op, &c.semester, s),
                Attribute::Institution => text_equality(self.op, &c.institution, s),
                _ => false,
            },
            Value::Integer(n) => match key {
                Attribute::Level => compare_u64(self.op, c.level, *n),
                Attribute::Year => compare_u64(self.op, c.year as u64, *n),
                Attribute::Grade => match c.grade_points {
                    Some(g) => compare_u64(self.op, g, *n),
                    None => false,
                },
                _ => false,
            },
            Value::Bool(b) => match key {
                Attribute::Lab => flag_equality(self.op, c.lab, *b),
                Attribute::International => flag_equality(self.op, c.international, *b),
                _ => false,
            },
        }
    }

    pub fn holds_for_area(&self, key: Attribute, d: &DeclaredArea) -> (r: bool)
        ensures
            r == area_satisfies(*d, key, *self),
    {
        match &self.value {
            Value::String(s) => match key {
                Attribute::AreaKind => text_equality(self.op, &d.kind, s),
                _ => false,
            },
            _ => false,
        }
    }

    pub fn fits(&self, key: Attribute) -> (r: bool)
        ensures
            r == comparison_fits(key, *self),
    {
        let text = match key {
            Attribute::Department | Attribute::Gereqs | Attribute::Semester
            | Attribute::Institution | Attribute::AreaKind => true,
            _ => false,
        };
        let integer = match key {
            Attribute::Level | Attribute::Year | Attribute::Grade => true,
            _ => false,
        };
        let equality = match self.op {
            Operator::EqualTo | Operator::NotEqualTo => true,
            _ => false,
        };
        match &self.value {
            Value::String(_) => text && equality,
            Value::Integer(_) => integer,
            Value::Bool(_) => !text && !integer && equality,
        }
    }
}

fn any_holds_for_course(cs: &Vec<Comparison>, key: Attribute, c: &CourseInstance) -> (r: bool)
    ensures
        r == exists|k: int| 0 <= k < cs.len() && course_satisfies(c@, key, #[trigger] cs@[k]),
{
    let mut i: usize = 0;
    while i < cs.len()
        invariant
            0 <= i <= cs.len(),
            forall|k: int| 0 <= k < i ==> !course_satisfies(c@, key, #[trigger] cs@[k]),
        decreases cs.len() - i,
    {
        if cs[i].holds_for_course(key, c) {
            assert(course_satisfies(c@, key, cs@[i as int]));
            return true;
        }
        i = i + 1;
    }
    false
}

fn any_holds_for_area(cs: &Vec<Comparison>, key: Attribute, d: &DeclaredArea) -> (r: bool)
    ensures
        r == exists|k: int| 0 <= k < cs.len() && area_satisfies(*d, key, #[trigger] cs@[k]),
{
    let mut i: usize = 0;
    while i < cs.len()
        invariant
            0 <= i <= cs.len(),
            forall|k: int| 0 <= k < i ==> !area_satisfies(*d, key, #[trigger] cs@[k]),
        decreases cs.len() - i,
    {
        if cs[i].holds_for_area(key, d) {
            assert(area_satisfies(*d, key, cs@[i as int]));
            return true;
        }
        i = i + 1;
    }
    false
}

fn all_fit(cs: &Vec<Comparison>, key: Attribute) -> (r: bool)
    ensures
        r == forall|k: int| 0 <= k < cs.len() ==> comparison_fits(key, #[trigger] cs@[k]),
{
    let mut i: usize = 0;
    while i < cs.len()
        invariant
            0 <= i <= cs.len(),
            forall|k: int| 0 <= k < i ==> comparison_fits(key, #[trigger] cs@[k]),
        decreases cs.len() - i,
    {
        if !cs[i].fits(key) {
            assert(!comparison_fits(key, cs@[i as int]));
            return false;
        }
        i = i + 1;
    }
    true
}

impl ClauseEntry {
    pub fn holds_for_course(&self, c: &CourseInstance) -> (r: bool)
        ensures
            r == course_satisfies_entry(c@, *self),
    {
        match &self.value {
            WrappedValue::Single(cmp) => cmp.holds_for_course(self.key, c),
            WrappedValue::Or(cs) => any_holds_for_course(cs, self.key, c),
        }
    }

    pub fn holds_for_area(&self, d: &DeclaredArea) -> (r: bool)
        ensures
            r == area_satisfies_entry(*d, *self),
    {
        match &self.value {
            WrappedValue::Single(cmp) => cmp.holds_for_area(self.key, d),
            WrappedValue::Or(cs) => any_holds_for_area(cs, self.key, d),
        }
    }

    pub fn fits(&self) -> (r: bool)
        ensures
            r == wrapped_fits(self.key, self.value),
    {
        match &self.value {
            WrappedValue::Single(cmp) => cmp.fits(self.key),
            WrappedValue::Or(cs) => all_fit(cs, self.key),
        }
    }
}

impl Clause {
    pub open spec fn view(&self) -> Seq<ClauseEntry> {
        self.entries@
    }

    pub open spec fn has_key(&self, key: Attribute) -> bool {
        exists|i: int| 0 <= i < self@.len() && (#[trigger] self@[i]).key == key
    }

    /// Keys are unique and every comparison fits its attribute.
    pub open spec fn wf(&self) -> bool {
        &&& forall|i: int, j: int|
            0 <= i < j < self@.len() ==> (#[trigger] self@[i]).key != (#[trigger] self@[j]).key
        &&& forall|i: int| 0 <= i < self@.len() ==> wrapped_fits((#[trigger] self@[i]).key, self@[i].value)
    }

    /// The clause without keys, which every course passes.
    pub fn new() -> (r: Clause)
        ensures
            r@ == Seq::<ClauseEntry>::empty(),
            r.wf(),
    {
        Clause { entries: Vec::new() }
    }

    pub fn contains_key(&self, key: Attribute) -> (r: bool)
        ensures
            r == self.has_key(key),
    {
        let mut i: usize = 0;
        while i < self.entries.len()
            invariant
                0 <= i <= self.entries.len(),
                forall|k: int| 0 <= k < i ==> (#[trigger] self@[k]).key != key,
            decreases self.entries.len() - i,
        {
            if self.entries[i].key == key {
                return true;
            }
            i = i + 1;
        }
        false
    }

    /// Adds a test of `key`; refused when the key is tested already or the
    /// comparison does not fit the attribute, leaving the clause unchanged.
    pub fn insert(&mut self, key: Attribute, value: WrappedValue) -> (r: Result<(), FilterError>)
        requires
            old(self).wf(),
        ensures
            final(self).wf(),
            old(self).has_key(key) ==> r == Err::<(), FilterError>(FilterError::DuplicateKey),
            !old(self).has_key(key) && !wrapped_fits(key, value) ==> r == Err::<(), FilterError>(
                FilterError::IllTyped,
            ),
            r.is_err() ==> final(self)@ == old(self)@,
            r.is_ok() ==> final(self)@ == old(self)@.push(ClauseEntry { key, value }),
            r.is_ok() <==> !old(self).has_key(key) && wrapped_fits(key, value),
    {
        if self.contains_key(key) {
            return Err(FilterError::DuplicateKey);
        }
        let entry = ClauseEntry { key, value };
        if !entry.fits() {
            return Err(FilterError::IllTyped);
        }
        self.entries.push(entry);
        proof {
            let s = old(self)@;
            let t = self@;
            assert(t == s.push(entry));
            assert forall|i: int, j: int| 0 <= i < j < t.len() implies (#[trigger] t[i]).key != (
            #[trigger] t[j]).key by {
                if j == s.len() {
                    assert(t[i] == s[i]);
                }
            }
            assert forall|i: int| 0 <= i < t.len() implies wrapped_fits((#[trigger] t[i]).key, t[i].value) by {
                if i < s.len() {
                    assert(t[i] == s[i]);
                }
            }
        }
        Ok(())
    }

    /// Whether `c` passes every entry of the clause.
    pub fn matches_course(&self, c: &CourseInstance) -> (r: bool)
        ensures
            r == course_passes(self@, c@),
    {
        let mut i: usize = 0;
        while i < self.entries.len()
            invariant
                0 <= i <= self.entries.len(),
                forall|k: int| 0 <= k < i ==> course_satisfies_entry(c@, #[trigger] self@[k]),
            decreases self.entries.len() - i,
        {
            if !self.entries[i].holds_for_course(c) {
                return false;
            }
            i = i + 1;
        }
        true
    }

    /// Whether the declared area `d` passes every entry of the clause.
    pub fn matches_area(&self, d: &DeclaredArea) -> (r: bool)
        ensures
            r == area_passes(self@, *d),
    {
        let mut i: usize = 0;
        while i < self.entries.len()
            invariant
                0 <= i <= self.entries.len(),
                forall|k: int| 0 <= k < i ==> area_satisfies_entry(*d, #[trigger] self@[k]),
            decreases self.entries.len() - i,
        {
            if !self.entries[i].holds_for_area(d) {
                return false;
            }
            i = i + 1;
        }
        true
    }
}

} // verus!
