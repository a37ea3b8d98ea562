use gpa_engine::delimited::{
    format_hundredths, parse_csv_line, process_multiseme_csv_data, summarize_csv,
};

#[test]
fn end_to_end_two_records_one_semester() {
    let csv = "ch,tm,om,semester\n3,60,45,Fall 2023\n3,60,50,Fall 2023";
    let res = summarize_csv(csv);
    assert_eq!(res.semesters.len(), 1);
    assert_eq!(res.semesters[0].semester_label, "Fall 2023");
    assert_eq!(res.semesters[0].gpa, 383);
    assert_eq!(res.cgpa, 383);
    let report = process_multiseme_csv_data(csv.to_string());
    assert_eq!(report, "Fall 2023 GPA: 3.83\n\nCumulative CGPA: 3.83");
}

#[test]
fn out_of_table_marks_give_zero() {
    let csv = "header\n3,60,10,Fall 2023";
    let res = summarize_csv(csv);
    assert_eq!(res.semesters.len(), 1);
    assert_eq!(res.semesters[0].gpa, 0);
    assert_eq!(res.cgpa, 0);
    let report = process_multiseme_csv_data(csv.to_string());
    assert_eq!(report, "Fall 2023 GPA: 0.00\n\nCumulative CGPA: 0.00");
}

#[test]
fn cgpa_is_credit_weighted() {
    // 3 credits at 4.0 and 1 credit at 8/12 * 4 = 2.667.
    let csv = "h\n3,60,50,S1\n1,60,36,S2";
    let res = summarize_csv(csv);
    assert_eq!(res.semesters.len(), 2);
    assert_eq!(res.semesters[0].semester_label, "S1");
    assert_eq!(res.semesters[0].gpa, 400);
    assert_eq!(res.semesters[1].semester_label, "S2");
    assert_eq!(res.semesters[1].gpa, 267);
    assert_eq!(res.cgpa, 367);
    assert_ne!(res.cgpa, (400 + 267) / 2);
}

#[test]
fn zero_or_unparseable_credit_changes_nothing() {
    let base = summarize_csv("h\n3,60,45,Fall 2023\n3,60,50,Fall 2023");
    let zero = summarize_csv("h\n3,60,45,Fall 2023\n0,60,30,Fall 2023\n3,60,50,Fall 2023");
    let junk = summarize_csv("h\n3,60,45,Fall 2023\nx,60,30,Fall 2023\n3,60,50,Fall 2023");
    let no_scale = summarize_csv("h\n3,60,45,Fall 2023\n3,zz,30,Fall 2023\n3,60,50,Fall 2023");
    assert_eq!(zero.semesters[0].gpa, base.semesters[0].gpa);
    assert_eq!(zero.cgpa, base.cgpa);
    assert_eq!(junk.semesters[0].gpa, base.semesters[0].gpa);
    assert_eq!(junk.cgpa, base.cgpa);
    assert_eq!(no_scale.cgpa, base.cgpa);
}

#[test]
fn wrong_field_count_lines_are_skipped() {
    assert!(parse_csv_line("3,60,45").is_none());
    assert!(parse_csv_line("3,60,45,Fall,2023").is_none());
    let res = summarize_csv("h\n3,60,45\n3,60,50,Fall 2023\n");
    assert_eq!(res.semesters.len(), 1);
    assert_eq!(res.semesters[0].gpa, 400);
}

#[test]
fn csv_line_fields_are_trimmed() {
    let rec = parse_csv_line(" 3 , 60 , 45 ,  Fall 2023 ").unwrap();
    assert_eq!(rec.credit_hours, 3);
    assert_eq!(rec.total_marks, 60);
    assert_eq!(rec.obtained_marks, 45);
    assert_eq!(rec.semester_label, "Fall 2023");
    let bad_marks = parse_csv_line("3,60,abc,Fall").unwrap();
    assert_eq!(bad_marks.obtained_marks, 0);
}

#[test]
fn header_only_and_empty_input() {
    let res = summarize_csv("ch,tm,om,semester");
    assert!(res.semesters.is_empty());
    assert_eq!(res.cgpa, 0);
    assert_eq!(process_multiseme_csv_data(String::new()), "\nCumulative CGPA: 0.00");
}

#[test]
fn forty_and_hundred_twenty_scales_normalize() {
    // 40-scale: 22 marks -> 4.67 of 8 -> 2.335; 120-scale: 96 -> 24 of 24 -> 4.0.
    let res = summarize_csv("h\n2,40,22,A\n6,120,96,B");
    assert_eq!(res.semesters[0].gpa, 234);
    assert_eq!(res.semesters[1].gpa, 400);
    // (467*60*2 + 2400*20*6) / (8 * 120) = 344040 / 960 = 358.375
    assert_eq!(res.cgpa, 358);
}

#[test]
fn gpa_bounds_hold() {
    let res = summarize_csv("h\n3,60,60,A\n2,40,40,A\n6,120,120,B\n3,60,24,B");
    for s in &res.semesters {
        assert!(s.gpa <= 400);
    }
    assert!(res.cgpa <= 400);
}

#[test]
fn hundredths_are_written_with_two_decimals() {
    assert_eq!(format_hundredths(383), "3.83");
    assert_eq!(format_hundredths(5), "0.05");
    assert_eq!(format_hundredths(400), "4.00");
}

#[test]
fn dropped_line_leaves_report_unchanged() {
    let base = "h\n3,60,45,Fall 2023\n2,40,30,Spring 2024";
    let with_zero = "h\n0,60,50,Fall 2023\n3,60,45,Fall 2023\n2,40,30,Spring 2024";
    let with_junk = "h\n3,60,45,Fall 2023\nx,60,50,Fall 2023\n2,40,30,Spring 2024";
    let expected = process_multiseme_csv_data(base.to_string());
    assert_eq!(process_multiseme_csv_data(with_zero.to_string()), expected);
    assert_eq!(process_multiseme_csv_data(with_junk.to_string()), expected);
}

#[test]
fn unreadable_obtained_marks_leave_report_unchanged() {
    let base = "h\n3,60,45,Fall 2023";
    let extra = "h\n3,60,45,Fall 2023\n3,60,abc,Fall 2023";
    assert_eq!(
        process_multiseme_csv_data(extra.to_string()),
        process_multiseme_csv_data(base.to_string())
    );
}
