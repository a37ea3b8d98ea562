use vstd::prelude::*;

verus! {

/// One course attempt of a student, after normalisation.
#[derive(Debug)]
pub struct Subject {
    pub semester_label: String,
    pub course_code: String,
    pub credit_hours: u32,
    pub obtained_marks: u32,
    pub total_marks: u32,
    pub grade: String,
}

/// What a `Subject` holds, with its strings as character sequences.
pub struct SubjectView {
    pub label: Seq<char>,
    pub course: Seq<char>,
    pub credit_hours: u32,
    pub obtained_marks: u32,
    pub total_marks: u32,
    pub grade: Seq<char>,
}

impl View for Subject {
    type V = SubjectView;

    open spec fn view(&self) -> SubjectView {
        SubjectView {
            label: self.semester_label@,
            course: self.course_code@,
            credit_hours: self.credit_hours,
            obtained_marks: self.obtained_marks,
            total_marks: self.total_marks,
            grade: self.grade@,
        }
    }
}

/// The views of a sequence of subjects.
pub open spec fn subject_views(s: Seq<Subject>) -> Seq<SubjectView> {
    s.map_values(|x: Subject| x@)
}

/// The views of a sequence of strings.
pub open spec fn string_views(s: Seq<String>) -> Seq<Seq<char>> {
    s.map_values(|x: String| x@)
}

impl Subject {
    /// A copy of this subject with equal contents.
    pub fn copied(&self) -> (r: Subject)
        ensures
            r@ == self@,
    {
        Subject {
            semester_label: self.semester_label.clone(),
            course_code: self.course_code.clone(),
            credit_hours: self.credit_hours,
            obtained_marks: self.obtained_marks,
            total_marks: self.total_marks,
            grade: self.grade.clone(),
        }
    }
}

} // verus!
