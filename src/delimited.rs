use vstd::prelude::*;

use crate::aggregate::{
    aggregate_semesters, labels_cover, result_labels, rounded_gpa, semesters_match, total_credits,
    total_points, FinalResult, SemesterResult,
};
use crate::qpt::{build_qpt, qpt_table};
use crate::record::{string_views, subject_views, Subject, SubjectView};
use crate::text::{
    lines_of, lines_seq, parse_bounded, parse_uint, split_on, split_seq, trim_seq, trimmed,
};

verus! {

/// A numeric field: its trimmed value as a `u32`, or 0 when it is not one.
pub open spec fn field_or_zero(s: Seq<char>) -> u32 {
    let v = parse_uint(trim_seq(s));
    if v is Some && v->0 <= u32::MAX as nat {
        v->0 as u32
    } else {
        0
    }
}

/// The record that a line `credit_hours,total_marks,obtained_marks,label`
/// gives, if it has exactly four fields and non-zero credit hours and scale.
pub open spec fn csv_record(line: Seq<char>) -> Option<SubjectView> {
    let f = split_seq(line, ',');
    if f.len() != 4 {
        None
    } else if field_or_zero(f[0]) == 0 || field_or_zero(f[1]) == 0 {
        None
    } else {
        Some(
            SubjectView {
                label: trim_seq(f[3]),
                course: Seq::empty(),
                credit_hours: field_or_zero(f[0]),
                obtained_marks: field_or_zero(f[2]),
                total_marks: field_or_zero(f[1]),
                grade: Seq::empty(),
            },
        )
    }
}

/// The records of a sequence of lines, in order, without the lines that give none.
pub open spec fn csv_records(lines: Seq<Seq<char>>) -> Seq<SubjectView>
    decreases lines.len(),
{
    if lines.len() == 0 {
        Seq::empty()
    } else {
        let prev = csv_records(lines.drop_last());
        match csv_record(lines.last()) {
            Some(r) => prev.push(r),
            None => prev,
        }
    }
}

/// The lines of `text` after its header line.
pub open spec fn data_lines(text: Seq<char>) -> Seq<Seq<char>> {
    let l = lines_seq(text);
    if l.len() == 0 {
        l
    } else {
        l.drop_first()
    }
}

fn numeric_field(s: &str) -> (r: u32)
    ensures
        r == field_or_zero(s@),
{
    let t = trimmed(s);
    match parse_bounded(t.as_str(), u32::MAX) {
        Some(v) => v,
        None => 0,
    }
}

/// Parses one line `credit_hours,total_marks,obtained_marks,label`.
pub fn parse_csv_line(line: &str) -> (r: Option<Subject>)
    ensures
        r is Some <==> csv_record(line@) is Some,
        r is Some ==> r->0@ == csv_record(line@)->0,
{
    let fields = split_on(line, ',');
    assert(fields@.len() == split_seq(line@, ',').len());
    if fields.len() != 4 {
        return None;
    }
    assert(fields@[0]@ == split_seq(line@, ',')[0]);
    assert(fields@[1]@ == split_seq(line@, ',')[1]);
    assert(fields@[2]@ == split_seq(line@, ',')[2]);
    assert(fields@[3]@ == split_seq(line@, ',')[3]);
    let ch = numeric_field(fields[0].as_str());
    let tm = numeric_field(fields[1].as_str());
    let om = numeric_field(fields[2].as_str());
    if ch == 0 || tm == 0 {
        return None;
    }
    let label = trimmed(fields[3].as_str());
    let r = Subject {
        semester_label: label,
        course_code: String::new(),
        credit_hours: ch,
        obtained_marks: om,
        total_marks: tm,
        grade: String::new(),
    };
    assert(r@ == csv_record(line@)->0);
    Some(r)
}

/// The records of a delimited text: every line after the header that parses.
pub fn parse_csv_records(csv: &str) -> (r: Vec<Subject>)
    ensures
        subject_views(r@) == csv_records(data_lines(csv@)),
{
    let lines = lines_of(csv);
    let ghost all = string_views(lines@);
    let ghost data = data_lines(csv@);
    let mut out: Vec<Subject> = Vec::new();
    if lines.len() == 0 {
        assert(subject_views(out@) =~= csv_records(data));
        return out;
    }
    assert(data =~= all.drop_first());
    let mut i: usize = 1;
    assert(data.take(0) =~= Seq::<Seq<char>>::empty());
    assert(subject_views(out@) =~= Seq::<SubjectView>::empty());
    while i < lines.len()
        invariant
            all == string_views(lines@),
            all.len() == lines@.len(),
            data == all.drop_first(),
            1 <= i <= lines@.len(),
            subject_views(out@) == csv_records(data.take(i - 1)),
        decreases lines@.len() - i,
    {
        assert(data.take(i as int).drop_last() =~= data.take(i - 1));
        assert(data.take(i as int).last() == lines@[i as int]@);
        let ghost before = subject_views(out@);
        match parse_csv_line(lines[i].as_str()) {
            Some(rec) => {
                out.push(rec);
                assert(subject_views(out@) =~= before.push(rec@));
            },
            None => {},
        }
        i = i + 1;
    }
    assert(data.take(i - 1) =~= data);
    out
}

/// A line that gives no record (not four fields, or credit hours or scale that
/// are zero or not a number) changes no record, wherever it stands among the
/// data lines, and so no semester and no GPA.
pub proof fn lemma_dropped_line_ignored(a: Seq<Seq<char>>, b: Seq<Seq<char>>, line: Seq<char>)
    requires
        split_seq(line, ',').len() != 4 || field_or_zero(split_seq(line, ',')[0]) == 0
            || field_or_zero(split_seq(line, ',')[1]) == 0,
    ensures
        csv_records(a.push(line) + b) == csv_records(a + b),
    decreases b.len(),
{
    assert(csv_record(line) is None);
    if b.len() == 0 {
        assert(a.push(line) + b =~= a.push(line));
        assert(a + b =~= a);
        assert(a.push(line).drop_last() =~= a);
    } else {
        lemma_dropped_line_ignored(a, b.drop_last(), line);
        assert((a.push(line) + b).drop_last() =~= a.push(line) + b.drop_last());
        assert((a + b).drop_last() =~= a + b.drop_last());
        assert((a.push(line) + b).last() == b.last());
        assert((a + b).last() == b.last());
    }
}

/// Per-semester and cumulative GPAs of a delimited text: one result per
/// distinct label, in an unspecified order.
pub fn summarize_csv(csv: &str) -> (r: FinalResult)
    ensures
        labels_cover(result_labels(r.semesters@), csv_records(data_lines(csv@))),
        semesters_match(qpt_table(), csv_records(data_lines(csv@)), r.semesters@),
        forall|k: int| 0 <= k < r.semesters@.len() ==> #[trigger] r.semesters@[k].gpa <= 400,
        r.cgpa as nat == rounded_gpa(
            total_points(qpt_table(), csv_records(data_lines(csv@))),
            total_credits(qpt_table(), csv_records(data_lines(csv@))),
        ),
        r.cgpa <= 400,
{
    let records = parse_csv_records(csv);
    let qpt = build_qpt();
    aggregate_semesters(&records, &qpt)
}

/// The decimal digit `d` (below ten) as a character.
pub open spec fn digit_char(d: nat) -> char {
    if d == 0 {
        '0'
    } else if d == 1 {
        '1'
    } else if d == 2 {
        '2'
    } else if d == 3 {
        '3'
    } else if d == 4 {
        '4'
    } else if d == 5 {
        '5'
    } else if d == 6 {
        '6'
    } else if d == 7 {
        '7'
    } else if d == 8 {
        '8'
    } else {
        '9'
    }
}

/// A value given in hundredths, written with two decimals (`383` is `3.83`).
pub open spec fn hundredths_text(v: nat) -> Seq<char> {
    seq![digit_char(v / 100), '.', digit_char(v / 10 % 10), digit_char(v % 10)]
}

/// The text between a semester's label and its GPA.
pub open spec fn gpa_infix() -> Seq<char> {
    seq![' ', 'G', 'P', 'A', ':', ' ']
}

/// The text between the semester lines and the cumulative GPA.
pub open spec fn cgpa_prefix() -> Seq<char> {
    seq![
        '\n', 'C', 'u', 'm', 'u', 'l', 'a', 't', 'i', 'v', 'e', ' ', 'C', 'G', 'P', 'A', ':', ' ',
    ]
}

/// One line `<label> GPA: <gpa>` per semester, in order.
pub open spec fn semester_lines(sems: Seq<SemesterResult>) -> Seq<char>
    decreases sems.len(),
{
    if sems.len() == 0 {
        Seq::empty()
    } else {
        semester_lines(sems.drop_last()) + sems.last().semester_label@ + gpa_infix()
            + hundredths_text(sems.last().gpa as nat) + seq!['\n']
    }
}

/// The report: the semester lines, a blank line and the cumulative GPA.
pub open spec fn report_text(sems: Seq<SemesterResult>, cgpa: nat) -> Seq<char> {
    semester_lines(sems) + cgpa_prefix() + hundredths_text(cgpa)
}

fn digit_str(d: u32) -> (r: &'static str)
    requires
        d < 10,
    ensures
        r@ == seq![digit_char(d as nat)],
{
    match d {
        0 => {
            proof {
                reveal_strlit("0");
            }
            "0"
        },
        1 => {
            proof {
                reveal_strlit("1");
            }
            "1"
        },
        2 => {
            proof {
                reveal_strlit("2");
            }
            "2"
        },
        3 => {
            proof {
                reveal_strlit("3");
            }
            "3"
        },
        4 => {
            proof {
                reveal_strlit("4");
            }
            "4"
        },
        5 => {
            proof {
                reveal_strlit("5");
            }
            "5"
        },
        6 => {
            proof {
                reveal_strlit("6");
            }
            "6"
        },
        7 => {
            proof {
                reveal_strlit("7");
            }
            "7"
        },
        8 => {
            proof {
                reveal_strlit("8");
            }
            "8"
        },
        _ => {
            proof {
                reveal_strlit("9");
            }
            "9"
        },
    }
}

/// Writes a value given in hundredths with two decimals.
pub fn format_hundredths(v: u32) -> (r: String)
    requires
        v < 1000,
    ensures
        r@ == hundredths_text(v as nat),
{
    let mut s = String::new();
    s.append(digit_str(v / 100));
    proof {
        reveal_strlit(".");
    }
    s.append(".");
    s.append(digit_str(v / 10 % 10));
    s.append(digit_str(v % 10));
    assert(s@ =~= hundredths_text(v as nat));
    s
}

/// The report of a result: one line per semester, then the cumulative GPA.
pub fn format_report(res: &FinalResult) -> (r: String)
    requires
        forall|k: int| 0 <= k < res.semesters@.len() ==> #[trigger] res.semesters@[k].gpa <= 400,
        res.cgpa <= 400,
    ensures
        r@ == report_text(res.semesters@, res.cgpa as nat),
{
    let mut out = String::new();
    let mut k: usize = 0;
    proof {
        reveal_strlit(" GPA: ");
        reveal_strlit("\n");
        reveal_strlit("\nCumulative CGPA: ");
    }
    assert(res.semesters@.take(0) =~= Seq::<SemesterResult>::empty());
    while k < res.semesters.len()
        invariant
            k <= res.semesters@.len(),
            forall|m: int| 0 <= m < res.semesters@.len() ==> #[trigger] res.semesters@[m].gpa <= 400,
            out@ == semester_lines(res.semesters@.take(k as int)),
            " GPA: "@ == gpa_infix(),
            "\n"@ == seq!['\n'],
        decreases res.semesters@.len() - k,
    {
        let sem = &res.semesters[k];
        assert(res.semesters@.take(k + 1).drop_last() =~= res.semesters@.take(k as int));
        out.append(sem.semester_label.as_str());
        out.append(" GPA: ");
        let g = format_hundredths(sem.gpa);
        out.append(g.as_str());
        out.append("\n");
        assert(out@ =~= semester_lines(res.semesters@.take(k + 1)));
        k = k + 1;
    }
    assert(res.semesters@.take(k as int) =~= res.semesters@);
    assert("\nCumulative CGPA: "@ =~= cgpa_prefix());
    out.append("\nCumulative CGPA: ");
    let c = format_hundredths(res.cgpa);
    out.append(c.as_str());
    assert(out@ =~= report_text(res.semesters@, res.cgpa as nat));
    out
}

/// The report of a delimited text: a line `<label> GPA: <gpa>` per semester,
/// in an unspecified order, a blank line, and the cumulative GPA.
pub fn process_multiseme_csv_data(csv_string: String) -> (r: String)
    ensures
        exists|sems: Seq<SemesterResult>|
            {
                &&& labels_cover(result_labels(sems), csv_records(data_lines(csv_string@)))
                &&& semesters_match(qpt_table(), csv_records(data_lines(csv_string@)), sems)
                &&& r@ == report_text(
                    sems,
                    rounded_gpa(
                        total_points(qpt_table(), csv_records(data_lines(csv_string@))),
                        total_credits(qpt_table(), csv_records(data_lines(csv_string@))),
                    ),
                )
            },
{
    let res = summarize_csv(csv_string.as_str());
    format_report(&res)
}

} // verus!
