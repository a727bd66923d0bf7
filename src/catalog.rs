//! Catalog data handed to the model builder: courses and general-education
//! requirements. Course codes are opaque integer identifiers.
use vstd::prelude::*;

verus! {

pub type CourseCode = u64;

/// A course of the flat course list; its index there is its row in the
/// decision matrix.
#[derive(Clone, Copy, Debug, PartialEq, Eq)]
pub struct Course {
    pub code: CourseCode,
    pub credits: i64,
    pub required: bool,
}

/// What a general-education category asks for.
#[derive(Clone, Debug)]
pub enum GenEdReq {
    /// Every listed course is scheduled.
    CourseSet(Vec<CourseCode>),
    /// At least one whole option set is scheduled.
    SetOpts(Vec<Vec<CourseCode>>),
    /// At least `num` of the listed courses are scheduled.
    Courses { num: i64, courses: Vec<CourseCode> },
    /// The scheduled listed courses add up to at least `num` credits.
    Credits { num: i64, courses: Vec<CourseCode> },
}

#[derive(Clone, Debug)]
pub enum GenEd {
    Core { req: GenEdReq },
    Foundation { req: GenEdReq },
    SkillAndPerspective { req: GenEdReq },
}

/// Looks `code` up in the flat course list.
pub fn find_course(courses: &Vec<Course>, code: CourseCode) -> (r: Option<usize>)
    ensures
        r matches Some(i) ==> i < courses@.len() && courses@[i as int].code == code,
        r is None <==> forall|j: int| 0 <= j < courses@.len() ==> courses@[j].code != code,
{
    let mut i: usize = 0;
    while i < courses.len()
        invariant
            i <= courses@.len(),
            forall|j: int| 0 <= j < i ==> courses@[j].code != code,
        decreases courses@.len() - i,
    {
        if courses[i].code == code {
            return Some(i);
        }
        i = i + 1;
    }
    None
}

} // verus!
