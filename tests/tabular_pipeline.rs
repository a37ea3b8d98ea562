use gpa_engine::record::Subject;
use gpa_engine::tabular::{
    convert_rows_to_subjects, credit_hours_of, grade_to_point, obtained_marks_of,
    parse_sem_order, parse_table_by_semester, process_student_results, resolve_attempts,
    semester_type, sort_semesters, total_marks_for, words_of, SemesterType,
};
use gpa_engine::aggregate::SemesterResult;

const HEADER: &str = "Sr\tSemester\tTeacher\tCourse\tTitle\tCredit\tMid\tAssign\tFinal\tPrac\tTotal\tGrade";

fn row(sr: u32, label: &str, course: &str, credit: &str, total: &str, grade: &str) -> String {
    format!("{}\t{}\tT\t{}\tTitle\t{}\t0\t0\t0\t0\t{}\t{}", sr, label, course, credit, total, grade)
}

fn subject(label: &str, course: &str, grade: &str, obtained: u32) -> Subject {
    Subject {
        semester_label: label.to_string(),
        course_code: course.to_string(),
        credit_hours: 3,
        obtained_marks: obtained,
        total_marks: 60,
        grade: grade.to_string(),
    }
}

#[test]
fn retake_keeps_higher_grade() {
    let subjects = vec![
        subject("Winter Semester 2021-22", "CS-101", "D", 30),
        subject("Winter Semester 2022-23", "CS-101", "A", 50),
    ];
    let kept = resolve_attempts(&subjects);
    assert_eq!(kept.len(), 1);
    assert_eq!(kept[0].grade, "A");
    assert_eq!(kept[0].semester_label, "Winter Semester 2022-23");
}

#[test]
fn retake_with_equal_grades_keeps_first() {
    let subjects = vec![
        subject("Spring Semester 2022", "MA-201", "B", 40),
        subject("Spring Semester 2023", "MA-201", "B", 41),
    ];
    let kept = resolve_attempts(&subjects);
    assert_eq!(kept.len(), 1);
    assert_eq!(kept[0].semester_label, "Spring Semester 2022");
    assert_eq!(kept[0].obtained_marks, 40);
}

#[test]
fn retakes_in_different_semester_types_are_separate() {
    let subjects = vec![
        subject("Winter Semester 2021-22", "CS-101", "D", 30),
        subject("Spring Semester 2022", "CS-101", "A", 50),
    ];
    assert_eq!(resolve_attempts(&subjects).len(), 2);
}

#[test]
fn semester_ordering_by_year_and_type() {
    assert_eq!(parse_sem_order("Winter Semester 2021-22"), (2021, 0));
    assert_eq!(parse_sem_order("Spring Semester 2022"), (2022, 1));
    assert_eq!(parse_sem_order("Winter Semester 2022-23"), (2022, 0));
    assert_eq!(parse_sem_order("Summer"), (9999, 9));
    assert_eq!(parse_sem_order("Fall Term X-1"), (9999, 9));
    let sems = vec![
        SemesterResult { semester_label: "Winter Semester 2022-23".to_string(), gpa: 1 },
        SemesterResult { semester_label: "Odd".to_string(), gpa: 2 },
        SemesterResult { semester_label: "Spring Semester 2022".to_string(), gpa: 3 },
        SemesterResult { semester_label: "Winter Semester 2021-22".to_string(), gpa: 4 },
    ];
    let sorted = sort_semesters(&sems);
    let labels: Vec<&str> = sorted.iter().map(|s| s.semester_label.as_str()).collect();
    assert_eq!(
        labels,
        vec![
            "Winter Semester 2021-22",
            "Winter Semester 2022-23",
            "Spring Semester 2022",
            "Odd"
        ]
    );
}

#[test]
fn semester_types_and_grades() {
    assert_eq!(semester_type("Spring Semester 2022"), SemesterType::Spring);
    assert_eq!(semester_type("Winter Semester 2021-22"), SemesterType::Winter);
    assert_eq!(semester_type("Fall 2023"), SemesterType::Winter);
    assert_eq!(grade_to_point("A"), 5);
    assert_eq!(grade_to_point("B"), 4);
    assert_eq!(grade_to_point("C"), 3);
    assert_eq!(grade_to_point("D"), 2);
    assert_eq!(grade_to_point("F"), 1);
    assert_eq!(grade_to_point("A+"), 0);
    assert_eq!(grade_to_point(""), 0);
}

#[test]
fn credit_and_marks_columns() {
    assert_eq!(credit_hours_of("3(3-0)"), 3);
    assert_eq!(credit_hours_of(" 2 (1-1)"), 2);
    assert_eq!(credit_hours_of("abc"), 0);
    assert_eq!(credit_hours_of("300(3-0)"), 0);
    assert_eq!(obtained_marks_of("45"), 45);
    assert_eq!(obtained_marks_of("44.5"), 45);
    assert_eq!(obtained_marks_of("44.4"), 44);
    assert_eq!(obtained_marks_of(".7"), 1);
    assert_eq!(obtained_marks_of("abc"), 0);
    assert_eq!(obtained_marks_of("300"), 255);
    assert_eq!(obtained_marks_of("4.5e1"), 0);
    assert_eq!(obtained_marks_of("inf"), 0);
    assert_eq!(obtained_marks_of("-3"), 0);
    assert_eq!(total_marks_for(2), 40);
    assert_eq!(total_marks_for(3), 60);
    assert_eq!(total_marks_for(6), 120);
    assert_eq!(total_marks_for(4), 60);
}

#[test]
fn words_split_on_whitespace() {
    assert_eq!(words_of("  Winter  Semester\t2021-22 "), vec!["Winter", "Semester", "2021-22"]);
    assert!(words_of("   ").is_empty());
}

#[test]
fn table_label_is_carried_forward() {
    let text = [
        HEADER.to_string(),
        row(1, "Winter Semester 2021-22", "CS-101", "3(3-0)", "45", "B"),
        row(2, "", "CS-102", "2(2-0)", "30", "B"),
        "short\tline".to_string(),
        row(3, "Spring Semester 2022", "CS-103", "3(3-0)", "50", "A"),
    ]
    .join("\n");
    let rows = parse_table_by_semester(&text);
    assert_eq!(rows.len(), 3);
    assert_eq!(rows[0].semester_label, "Winter Semester 2021-22");
    assert_eq!(rows[1].semester_label, "Winter Semester 2021-22");
    assert_eq!(rows[2].semester_label, "Spring Semester 2022");
    let subjects = convert_rows_to_subjects(&rows);
    assert_eq!(subjects.len(), 3);
    assert_eq!(subjects[1].course_code, "CS-102");
    assert_eq!(subjects[1].credit_hours, 2);
    assert_eq!(subjects[1].total_marks, 40);
    assert_eq!(subjects[1].obtained_marks, 30);
}

#[test]
fn table_skips_header_and_unlabelled_rows() {
    let text = [
        row(1, "First Line Label", "X", "3", "45", "A"),
        row(2, "", "CS-100", "3", "45", "A"),
        "Sr\tWinter Semester 2021-22\ta\tb\tc\td\te\tf\tg\th\ti\tj".to_string(),
        row(3, "", "CS-101", "3", "45", "A"),
    ]
    .join("\n");
    let rows = parse_table_by_semester(&text);
    assert_eq!(rows.len(), 2);
    assert_eq!(rows[0].semester_label, "First Line Label");
    assert_eq!(rows[1].semester_label, "First Line Label");
}

#[test]
fn header_row_sets_no_label() {
    let rows = parse_table_by_semester("Sr\tSemester\tA\tB\tC\n1\t\tCS-101\tX\t3");
    assert!(rows.is_empty());
}

#[test]
fn tabular_end_to_end() {
    let text = [
        HEADER.to_string(),
        row(1, "Winter Semester 2022-23", "CS-201", "3(3-0)", "50", "A"),
        row(2, "Winter Semester 2021-22", "CS-101", "3(3-0)", "30", "D"),
        row(3, "", "CS-102", "3(3-0)", "45", "B"),
        row(4, "Spring Semester 2022", "CS-101", "3(3-0)", "60", "A"),
        row(5, "Winter Semester 2022-23", "CS-101", "3(3-0)", "48", "A"),
    ]
    .join("\n");
    let res = process_student_results(&text);
    let labels: Vec<&str> = res.semesters.iter().map(|s| s.semester_label.as_str()).collect();
    assert_eq!(
        labels,
        vec!["Winter Semester 2021-22", "Winter Semester 2022-23", "Spring Semester 2022"]
    );
    // Winter 2021-22 keeps only CS-102 (45 -> 11.0 of 12): the D of CS-101 is
    // replaced by the A in Winter 2022-23.
    assert_eq!(res.semesters[0].gpa, 367);
    assert_eq!(res.semesters[1].gpa, 400);
    assert_eq!(res.semesters[2].gpa, 400);
    // (1100*40*3 + 1200*40*3 * 3) / (12 * 120) = 564000 / 1440 = 391.67
    assert_eq!(res.cgpa, 392);
}

#[test]
fn tabular_empty_input() {
    let res = process_student_results("");
    assert!(res.semesters.is_empty());
    assert_eq!(res.cgpa, 0);
}
