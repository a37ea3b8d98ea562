use vstd::prelude::*;

use crate::aggregate::{
    aggregate_semesters, label_credits, label_points, labels_cover, result_labels, rounded_gpa, semesters_match, total_credits,
    total_points, FinalResult, SemesterResult,
};
use crate::qpt::{build_qpt, qpt_table, QualityPointTable};
use crate::record::{string_views, subject_views, Subject, SubjectView};
use crate::text::{
    all_digits, digits_value, is_digit, is_ws, lines_of, lines_seq, parse_bounded, parse_uint, split_on,
    split_seq, trim_seq, trimmed, unsigned_part,
};

verus! {

/// The two kinds of semester that retakes are compared within.
#[derive(PartialEq, Eq, Structural, Clone, Copy, Debug)]
pub enum SemesterType {
    Spring,
    Winter,
}

/// `pat` occurs in `s` at position `i`.
pub open spec fn occurs_at(s: Seq<char>, pat: Seq<char>, i: int) -> bool {
    0 <= i && i + pat.len() <= s.len() && s.subrange(i, i + pat.len()) == pat
}

/// The characters of "Spring".
pub open spec fn spring_word() -> Seq<char> {
    seq!['S', 'p', 'r', 'i', 'n', 'g']
}

/// The characters of "Winter".
pub open spec fn winter_word() -> Seq<char> {
    seq!['W', 'i', 'n', 't', 'e', 'r']
}

/// A label is of the Spring type when "Spring" occurs in it; every other
/// label is of the Winter type.
pub open spec fn semester_type_of(label: Seq<char>) -> SemesterType {
    if exists|i: int| occurs_at(label, spring_word(), i) {
        SemesterType::Spring
    } else {
        SemesterType::Winter
    }
}

fn matches_at(s: &str, n: usize, pat: &str, m: usize, i: usize) -> (r: bool)
    requires
        n == s@.len(),
        m == pat@.len(),
        i + m <= n,
    ensures
        r == occurs_at(s@, pat@, i as int),
{
    let mut j: usize = 0;
    while j < m
        invariant
            n == s@.len(),
            m == pat@.len(),
            i + m <= n,
            j <= m,
            s@.subrange(i as int, i + j) == pat@.take(j as int),
        decreases m - j,
    {
        if s.get_char(i + j) != pat.get_char(j) {
            assert(s@.subrange(i as int, i + m)[j as int] != pat@[j as int]);
            return false;
        }
        assert(s@.subrange(i as int, i + j + 1) =~= pat@.take(j + 1));
        j = j + 1;
    }
    assert(pat@.take(m as int) =~= pat@);
    true
}

/// Whether `pat` occurs anywhere in `s`.
pub fn contains_text(s: &str, pat: &str) -> (r: bool)
    ensures
        r == exists|i: int| occurs_at(s@, pat@, i),
{
    let n = s.unicode_len();
    let m = pat.unicode_len();
    if m > n {
        return false;
    }
    let mut i: usize = 0;
    let last = n - m;
    while i < last
        invariant
            n == s@.len(),
            m == pat@.len(),
            m <= n,
            last == n - m,
            i <= last,
            forall|k: int| 0 <= k < i ==> !occurs_at(s@, pat@, k),
        decreases last - i,
    {
        if matches_at(s, n, pat, m, i) {
            return true;
        }
        i = i + 1;
    }
    if matches_at(s, n, pat, m, last) {
        return true;
    }
    assert forall|k: int| !occurs_at(s@, pat@, k) by {
        if 0 <= k < i {
        }
    }
    false
}

/// The semester type of a label.
pub fn semester_type(label: &str) -> (r: SemesterType)
    ensures
        r == semester_type_of(label@),
{
    proof {
        reveal_strlit("Spring");
    }
    assert("Spring"@ == spring_word());
    if contains_text(label, "Spring") {
        SemesterType::Spring
    } else {
        SemesterType::Winter
    }
}

/// Ordinal rank of a letter grade: `A` 5 down to `F` 1, anything else 0.
pub open spec fn grade_rank(g: Seq<char>) -> u8 {
    if g.len() != 1 {
        0
    } else if g[0] == 'A' {
        5
    } else if g[0] == 'B' {
        4
    } else if g[0] == 'C' {
        3
    } else if g[0] == 'D' {
        2
    } else if g[0] == 'F' {
        1
    } else {
        0
    }
}

/// The ordinal rank of a letter grade.
pub fn grade_to_point(grade: &str) -> (r: u8)
    ensures
        r == grade_rank(grade@),
{
    if grade.unicode_len() != 1 {
        return 0;
    }
    match grade.get_char(0) {
        'A' => 5,
        'B' => 4,
        'C' => 3,
        'D' => 2,
        'F' => 1,
        _ => 0,
    }
}

/// The trimmed tab-separated columns of a line.
pub open spec fn columns(line: Seq<char>) -> Seq<Seq<char>> {
    split_seq(line, '\t').map_values(|c: Seq<char>| trim_seq(c))
}

/// A header row: its first column is `Sr`.
pub open spec fn is_header(cols: Seq<Seq<char>>) -> bool {
    cols[0] == seq!['S', 'r']
}

/// A row of the result table with the semester label that applies to it.
#[derive(Debug)]
pub struct TableRow {
    pub semester_label: String,
    pub cols: Vec<String>,
}

/// What a `TableRow` holds: its label and its columns.
pub open spec fn row_view(r: TableRow) -> (Seq<char>, Seq<Seq<char>>) {
    (r.semester_label@, string_views(r.cols@))
}

/// The views of a sequence of table rows.
pub open spec fn row_views(rows: Seq<TableRow>) -> Seq<(Seq<char>, Seq<Seq<char>>)> {
    rows.map_values(|r: TableRow| row_view(r))
}

/// The label carried forward past a row: its second column if that is not
/// empty, else the label so far.
pub open spec fn carried_label(current: Seq<char>, cols: Seq<Seq<char>>) -> Seq<char> {
    if cols[1].len() > 0 {
        cols[1]
    } else {
        current
    }
}

/// The fold over the lines of a table: the current label, and the data rows
/// so far with their labels. Rows with fewer than five columns and header rows
/// are skipped and leave the label alone; the first line and rows before any
/// label are skipped after the label is carried.
pub open spec fn table_fold(lines: Seq<Seq<char>>) -> (Seq<char>, Seq<(Seq<char>, Seq<Seq<char>>)>)
    decreases lines.len(),
{
    if lines.len() == 0 {
        (Seq::empty(), Seq::empty())
    } else {
        let prev = table_fold(lines.drop_last());
        let cols = columns(lines.last());
        if cols.len() < 5 {
            prev
        } else {
            let cur = if is_header(cols) {
                prev.0
            } else {
                carried_label(prev.0, cols)
            };
            if lines.len() == 1 || cur.len() == 0 || is_header(cols) {
                (cur, prev.1)
            } else {
                (cur, prev.1.push((cur, cols)))
            }
        }
    }
}

/// Splits a line at tabs and trims each column.
pub fn split_columns(line: &str) -> (r: Vec<String>)
    ensures
        string_views(r@) == columns(line@),
{
    let raw = split_on(line, '\t');
    let ghost pieces = split_seq(line@, '\t');
    let mut out: Vec<String> = Vec::new();
    let mut i: usize = 0;
    while i < raw.len()
        invariant
            string_views(raw@) == pieces,
            raw@.len() == pieces.len(),
            i <= raw@.len(),
            string_views(out@) == pieces.take(i as int).map_values(|c: Seq<char>| trim_seq(c)),
        decreases raw@.len() - i,
    {
        let ghost before = string_views(out@);
        out.push(trimmed(raw[i].as_str()));
        assert(raw@[i as int]@ == pieces[i as int]);
        assert(string_views(out@) =~= before.push(trim_seq(pieces[i as int])));
        assert(pieces.take(i + 1).map_values(|c: Seq<char>| trim_seq(c)) =~= pieces.take(
            i as int,
        ).map_values(|c: Seq<char>| trim_seq(c)).push(trim_seq(pieces[i as int])));
        i = i + 1;
    }
    assert(pieces.take(i as int) =~= pieces);
    out
}

/// The data rows of a tab-separated result table, each with the semester
/// label carried forward to it, in input order.
pub fn parse_table_by_semester(table_text: &str) -> (r: Vec<TableRow>)
    ensures
        row_views(r@) == table_fold(lines_seq(table_text@)).1,
{
    let lines = lines_of(table_text);
    let ghost ls = lines_seq(table_text@);
    let mut current = String::new();
    let mut rows: Vec<TableRow> = Vec::new();
    let mut i: usize = 0;
    assert(row_views(rows@) =~= Seq::<(Seq<char>, Seq<Seq<char>>)>::empty());
    assert(ls.take(0) =~= Seq::<Seq<char>>::empty());
    while i < lines.len()
        invariant
            string_views(lines@) == ls,
            lines@.len() == ls.len(),
            i <= lines@.len(),
            (current@, row_views(rows@)) == table_fold(ls.take(i as int)),
        decreases lines@.len() - i,
    {
        assert(ls.take(i + 1).drop_last() =~= ls.take(i as int));
        assert(ls.take(i + 1).last() == lines@[i as int]@);
        let cols = split_columns(lines[i].as_str());
        assert(cols@.len() == columns(lines@[i as int]@).len());
        if cols.len() >= 5 {
            assert(cols@[1]@ == columns(lines@[i as int]@)[1]);
            assert(cols@[0]@ == columns(lines@[i as int]@)[0]);
            proof {
                reveal_strlit("Sr");
            }
            let header = cols[0].as_str().unicode_len() == 2 && cols[0].as_str().get_char(0) == 'S'
                && cols[0].as_str().get_char(1) == 'r';
            assert(header == is_header(columns(lines@[i as int]@))) by {
                if cols@[0]@.len() == 2 {
                    if cols@[0]@[0] == 'S' && cols@[0]@[1] == 'r' {
                        assert(cols@[0]@ =~= seq!['S', 'r']);
                    }
                }
            }
            if !header && cols[1].as_str().unicode_len() > 0 {
                current = cols[1].clone();
            }
            if !(i == 0 || current.as_str().unicode_len() == 0 || header) {
                let ghost before = row_views(rows@);
                rows.push(TableRow { semester_label: current.clone(), cols });
                assert(row_views(rows@) =~= before.push((current@, columns(lines@[i as int]@))));
            }
        }
        i = i + 1;
    }
    assert(ls.take(i as int) =~= ls);
    rows
}

/// Credit hours of a column such as `3(3-0)`: the trimmed text before any
/// `(` as a `u8`, or 0 when it is not one.
pub open spec fn credit_field(s: Seq<char>) -> u32 {
    let v = parse_uint(trim_seq(split_seq(s, '(')[0]));
    if v is Some && v->0 <= 255 {
        v->0 as u32
    } else {
        0
    }
}

/// The mark scale of a course with `ch` credit hours.
pub open spec fn scale_for_credits(ch: u32) -> u32 {
    if ch == 2 {
        40
    } else if ch == 6 {
        120
    } else {
        60
    }
}

/// A decimal mark (`45`, `44.5`, `+45.`, `.7`) rounded half up to a whole
/// number. Only plain decimal notation is a mark: exponent forms (`4.5e1`),
/// `inf`, `NaN` and a leading `-` give none.
pub open spec fn marks_value(s: Seq<char>) -> Option<nat> {
    let p = split_seq(unsigned_part(s), '.');
    if p.len() == 1 {
        if p[0].len() > 0 && all_digits(p[0]) {
            Some(digits_value(p[0]))
        } else {
            None
        }
    } else if p.len() == 2 && all_digits(p[0]) && all_digits(p[1]) && p[0].len() + p[1].len() > 0 {
        Some(
            digits_value(p[0]) + if p[1].len() > 0 && p[1][0] as u32 >= 53 {
                1nat
            } else {
                0nat
            },
        )
    } else {
        None
    }
}

/// The obtained marks of a column: its rounded value, at most 255, or 0 when
/// it is not a number.
pub open spec fn obtained_field(s: Seq<char>) -> u32 {
    match marks_value(s) {
        Some(v) => if v <= 255 {
            v as u32
        } else {
            255
        },
        None => 0,
    }
}

/// The record of a table row: course code in column 3, credit hours in
/// column 5, obtained marks in column 10 and grade in column 11; none for a
/// row with fewer than twelve columns or without credit hours.
pub open spec fn row_subject(row: (Seq<char>, Seq<Seq<char>>)) -> Option<SubjectView> {
    let cols = row.1;
    if cols.len() < 12 || credit_field(cols[5]) == 0 {
        None
    } else {
        Some(
            SubjectView {
                label: row.0,
                course: cols[3],
                credit_hours: credit_field(cols[5]),
                obtained_marks: obtained_field(cols[10]),
                total_marks: scale_for_credits(credit_field(cols[5])),
                grade: cols[11],
            },
        )
    }
}

/// The records of a sequence of table rows, in order.
pub open spec fn row_subjects(rows: Seq<(Seq<char>, Seq<Seq<char>>)>) -> Seq<SubjectView>
    decreases rows.len(),
{
    if rows.len() == 0 {
        Seq::empty()
    } else {
        let prev = row_subjects(rows.drop_last());
        match row_subject(rows.last()) {
            Some(r) => prev.push(r),
            None => prev,
        }
    }
}

/// Whether every character of `s` is a decimal digit.
pub fn all_digit_chars(s: &str) -> (r: bool)
    ensures
        r == all_digits(s@),
{
    let n = s.unicode_len();
    let mut i: usize = 0;
    while i < n
        invariant
            n == s@.len(),
            i <= n,
            forall|k: int| 0 <= k < i ==> is_digit(#[trigger] s@[k]),
        decreases n - i,
    {
        let u = s.get_char(i) as u32;
        if !(48 <= u && u <= 57) {
            assert(!is_digit(s@[i as int]));
            return false;
        }
        i = i + 1;
    }
    true
}

fn saturated_digits(s: &str) -> (r: u32)
    requires
        all_digits(s@),
    ensures
        r as nat == if digits_value(s@) <= 255 {
            digits_value(s@)
        } else {
            255
        },
{
    if s.unicode_len() == 0 {
        return 0;
    }
    match parse_bounded(s, 255) {
        Some(v) => v,
        None => 255,
    }
}

/// The obtained marks of a column; a column in any other notation than plain
/// decimal (`4.5e1`, `inf`) reads as 0.
pub fn obtained_marks_of(s: &str) -> (r: u32)
    ensures
        r == obtained_field(s@),
{
    let n = s.unicode_len();
    let start: usize = if n > 0 && s.get_char(0) == '+' {
        1
    } else {
        0
    };
    let u = s.substring_char(start, n);
    assert(u@ =~= unsigned_part(s@));
    let p = split_on(u, '.');
    let ghost ps = split_seq(u@, '.');
    assert(p@.len() == ps.len());
    if p.len() == 1 {
        assert(p@[0]@ == ps[0]);
        if p[0].as_str().unicode_len() > 0 && all_digit_chars(p[0].as_str()) {
            return saturated_digits(p[0].as_str());
        }
        return 0;
    }
    if p.len() != 2 {
        return 0;
    }
    assert(p@[0]@ == ps[0]);
    assert(p@[1]@ == ps[1]);
    let whole = p[0].as_str();
    let frac = p[1].as_str();
    if !all_digit_chars(whole) || !all_digit_chars(frac) {
        return 0;
    }
    let wl = whole.unicode_len();
    let fl = frac.unicode_len();
    if wl == 0 && fl == 0 {
        return 0;
    }
    let w = saturated_digits(whole);
    let up: u32 = if fl > 0 && frac.get_char(0) as u32 >= 53 {
        1
    } else {
        0
    };
    if w + up > 255 {
        255
    } else {
        w + up
    }
}

/// Credit hours of a column such as `3(3-0)`.
pub fn credit_hours_of(s: &str) -> (r: u32)
    ensures
        r == credit_field(s@),
{
    let p = split_on(s, '(');
    proof {
        crate::text::lemma_split_nonempty(s@, '(');
    }
    assert(p@[0]@ == split_seq(s@, '(')[0]);
    let t = trimmed(p[0].as_str());
    match parse_bounded(t.as_str(), 255) {
        Some(v) => v,
        None => 0,
    }
}

/// The mark scale of a course with `ch` credit hours.
pub fn total_marks_for(ch: u32) -> (r: u32)
    ensures
        r == scale_for_credits(ch),
{
    match ch {
        2 => 40,
        6 => 120,
        _ => 60,
    }
}

/// The records of the table rows that have twelve columns and credit hours.
pub fn convert_rows_to_subjects(rows: &Vec<TableRow>) -> (r: Vec<Subject>)
    ensures
        subject_views(r@) == row_subjects(row_views(rows@)),
{
    let ghost rv = row_views(rows@);
    let mut out: Vec<Subject> = Vec::new();
    let mut i: usize = 0;
    assert(rv.take(0) =~= Seq::<(Seq<char>, Seq<Seq<char>>)>::empty());
    assert(subject_views(out@) =~= Seq::<SubjectView>::empty());
    while i < rows.len()
        invariant
            rv == row_views(rows@),
            rv.len() == rows@.len(),
            i <= rows@.len(),
            subject_views(out@) == row_subjects(rv.take(i as int)),
        decreases rows@.len() - i,
    {
        assert(rv.take(i + 1).drop_last() =~= rv.take(i as int));
        assert(rv.take(i + 1).last() == rv[i as int]);
        let row = &rows[i];
        let ghost cv = string_views(row.cols@);
        assert(rv[i as int] == (row.semester_label@, cv));
        if row.cols.len() >= 12 {
            assert(row.cols@[5]@ == cv[5]);
            assert(row.cols@[3]@ == cv[3]);
            assert(row.cols@[10]@ == cv[10]);
            assert(row.cols@[11]@ == cv[11]);
            let ch = credit_hours_of(row.cols[5].as_str());
            if ch > 0 {
                let rec = Subject {
                    semester_label: row.semester_label.clone(),
                    course_code: row.cols[3].clone(),
                    credit_hours: ch,
                    obtained_marks: obtained_marks_of(row.cols[10].as_str()),
                    total_marks: total_marks_for(ch),
                    grade: row.cols[11].clone(),
                };
                let ghost before = subject_views(out@);
                out.push(rec);
                assert(subject_views(out@) =~= before.push(row_subject(rv[i as int])->0));
            }
        }
        i = i + 1;
    }
    assert(rv.take(i as int) =~= rv);
    out
}

/// Two attempts of one course in semesters of the same type.
pub open spec fn same_attempt_key(a: SubjectView, b: SubjectView) -> bool {
    semester_type_of(a.label) == semester_type_of(b.label) && a.course == b.course
}

/// The first position in `res` whose key matches `x`'s, or -1.
pub open spec fn key_pos(res: Seq<SubjectView>, x: SubjectView) -> int
    decreases res.len(),
{
    if res.len() == 0 {
        -1
    } else {
        let k = key_pos(res.drop_last(), x);
        if k >= 0 {
            k
        } else if same_attempt_key(res.last(), x) {
            res.len() - 1
        } else {
            -1
        }
    }
}

/// One attempt per `(semester type, course)` key, in order of the key's first
/// appearance: the attempt with the strictly highest grade rank, the first
/// one among equals.
pub open spec fn resolve(recs: Seq<SubjectView>) -> Seq<SubjectView>
    decreases recs.len(),
{
    if recs.len() == 0 {
        Seq::empty()
    } else {
        let res = resolve(recs.drop_last());
        let x = recs.last();
        let k = key_pos(res, x);
        if k < 0 {
            res.push(x)
        } else if grade_rank(x.grade) > grade_rank(res[k].grade) {
            res.update(k, x)
        } else {
            res
        }
    }
}

proof fn lemma_key_pos_range(res: Seq<SubjectView>, x: SubjectView)
    ensures
        -1 <= key_pos(res, x) < res.len(),
        key_pos(res, x) >= 0 ==> same_attempt_key(res[key_pos(res, x)], x),
    decreases res.len(),
{
    if res.len() > 0 {
        lemma_key_pos_range(res.drop_last(), x);
    }
}

proof fn lemma_key_pos_prefix(res: Seq<SubjectView>, x: SubjectView, j: int)
    requires
        0 <= j <= res.len(),
        key_pos(res.take(j), x) >= 0,
    ensures
        key_pos(res, x) == key_pos(res.take(j), x),
    decreases res.len() - j,
{
    if j < res.len() {
        assert(res.take(j + 1).drop_last() =~= res.take(j));
        lemma_key_pos_prefix(res, x, j + 1);
    } else {
        assert(res.take(j) =~= res);
    }
}

fn same_key(a: &Subject, b: &Subject) -> (r: bool)
    ensures
        r == same_attempt_key(a@, b@),
{
    semester_type(a.semester_label.as_str()) == semester_type(b.semester_label.as_str())
        && a.course_code == b.course_code
}

/// Keeps one attempt per `(semester type, course)`: the best graded, the
/// first seen among equals.
pub fn resolve_attempts(subjects: &Vec<Subject>) -> (r: Vec<Subject>)
    ensures
        subject_views(r@) == resolve(subject_views(subjects@)),
{
    let ghost recs = subject_views(subjects@);
    let mut res: Vec<Subject> = Vec::new();
    let mut i: usize = 0;
    assert(recs.take(0) =~= Seq::<SubjectView>::empty());
    assert(subject_views(res@) =~= Seq::<SubjectView>::empty());
    while i < subjects.len()
        invariant
            recs == subject_views(subjects@),
            recs.len() == subjects@.len(),
            i <= subjects@.len(),
            subject_views(res@) == resolve(recs.take(i as int)),
        decreases subjects@.len() - i,
    {
        assert(recs.take(i + 1).drop_last() =~= recs.take(i as int));
        let x = &subjects[i];
        assert(recs.take(i + 1).last() == x@);
        let ghost rv = subject_views(res@);
        let mut j: usize = 0;
        let mut found = false;
        assert(rv.take(0) =~= Seq::<SubjectView>::empty());
        while j < res.len() && !found
            invariant
                rv == subject_views(res@),
                rv.len() == res@.len(),
                j <= res@.len(),
                found ==> j >= 1 && key_pos(rv, x@) == j - 1,
                !found ==> key_pos(rv.take(j as int), x@) == -1,
            decreases res@.len() - j + if found { 0int } else { 1int },
        {
            assert(rv.take(j + 1).drop_last() =~= rv.take(j as int));
            if same_key(&res[j], x) {
                found = true;
                assert(key_pos(rv.take(j + 1), x@) == j);
                proof {
                    lemma_key_pos_prefix(rv, x@, j + 1);
                }
            }
            j = j + 1;
        }
        if !found {
            assert(rv.take(j as int) =~= rv);
            let ghost before = subject_views(res@);
            res.push(x.copied());
            assert(subject_views(res@) =~= before.push(x@));
        } else {
            let k = j - 1;
            assert(res@[k as int]@ == rv[k as int]);
            if grade_to_point(x.grade.as_str()) > grade_to_point(res[k].grade.as_str()) {
                let ghost before = subject_views(res@);
                res.set(k, x.copied());
                assert(subject_views(res@) =~= before.update(k as int, x@));
            }
        }
        i = i + 1;
    }
    assert(recs.take(i as int) =~= recs);
    res
}

/// The whitespace-separated words of `s`, as `str::split_whitespace` gives them.
pub open spec fn words_seq(s: Seq<char>) -> Seq<Seq<char>>
    decreases s.len(),
{
    if s.len() == 0 {
        Seq::empty()
    } else {
        let w = words_seq(s.drop_last());
        let c = s.last();
        if is_ws(c) {
            w
        } else if s.len() >= 2 && !is_ws(s[s.len() - 2]) {
            w.update(w.len() - 1, w.last().push(c))
        } else {
            w.push(seq![c])
        }
    }
}

/// The whitespace-separated words of `s`.
pub fn words_of(s: &str) -> (r: Vec<String>)
    ensures
        string_views(r@) == words_seq(s@),
{
    let n = s.unicode_len();
    let mut out: Vec<String> = Vec::new();
    let mut start: usize = 0;
    let mut i: usize = 0;
    assert(s@.take(0) =~= Seq::<char>::empty());
    assert(string_views(out@) =~= Seq::<Seq<char>>::empty());
    while i < n
        invariant
            n == s@.len(),
            start <= i <= n,
            start == i ==> i == 0 || is_ws(s@[i - 1]),
            start < i ==> !is_ws(s@[i - 1]),
            start < i ==> words_seq(s@.take(i as int)) == string_views(out@).push(
                s@.subrange(start as int, i as int),
            ),
            start == i ==> words_seq(s@.take(i as int)) == string_views(out@),
        decreases n - i,
    {
        let c = s.get_char(i);
        assert(s@.take(i + 1).drop_last() =~= s@.take(i as int));
        assert(s@.take(i + 1).last() == c);
        if crate::text::is_whitespace_char(c) {
            if start < i {
                let ghost before = string_views(out@);
                out.push(s.substring_char(start, i).to_owned());
                assert(string_views(out@) =~= before.push(s@.subrange(start as int, i as int)));
            }
            start = i + 1;
        } else {
            if start < i {
                assert(s@.take(i + 1)[i - 1] == s@[i - 1]);
                assert(s@.subrange(start as int, i + 1) =~= s@.subrange(start as int, i as int).push(c));
            } else {
                if i > 0 {
                    assert(s@.take(i + 1)[i - 1] == s@[i - 1]);
                }
                assert(s@.subrange(start as int, i + 1) =~= seq![c]);
            }
        }
        i = i + 1;
    }
    assert(s@.take(n as int) =~= s@);
    if start < n {
        let ghost before = string_views(out@);
        out.push(s.substring_char(start, n).to_owned());
        assert(string_views(out@) =~= before.push(s@.subrange(start as int, n as int)));
    }
    out
}

/// The chronological key of a semester label: the year before the first `-`
/// of its third word, and 0 for a label whose first word is `Winter`, 1
/// otherwise; `(9999, 9)` for a label without such a year.
pub open spec fn semester_order(label: Seq<char>) -> (u32, u32) {
    let w = words_seq(label);
    if w.len() < 3 {
        (9999, 9)
    } else {
        let y = parse_uint(split_seq(w[2], '-')[0]);
        if y is Some && y->0 <= u32::MAX as nat {
            (y->0 as u32, if w[0] == winter_word() {
                0
            } else {
                1
            })
        } else {
            (9999, 9)
        }
    }
}

/// Lexicographic order on semester keys.
pub open spec fn key_le(a: (u32, u32), b: (u32, u32)) -> bool {
    a.0 < b.0 || (a.0 == b.0 && a.1 <= b.1)
}

/// The semesters are in chronological order of their labels.
pub open spec fn sorted_by_order(sems: Seq<SemesterResult>) -> bool {
    forall|i: int, j: int|
        0 <= i < j < sems.len() ==> key_le(
            semester_order(#[trigger] sems[i].semester_label@),
            semester_order(#[trigger] sems[j].semester_label@),
        )
}

/// The chronological key of a semester label.
pub fn parse_sem_order(label: &str) -> (r: (u32, u32))
    ensures
        r == semester_order(label@),
{
    let w = words_of(label);
    assert(w@.len() == words_seq(label@).len());
    if w.len() < 3 {
        return (9999, 9);
    }
    assert(w@[2]@ == words_seq(label@)[2]);
    assert(w@[0]@ == words_seq(label@)[0]);
    let pieces = split_on(w[2].as_str(), '-');
    proof {
        crate::text::lemma_split_nonempty(w@[2]@, '-');
    }
    assert(pieces@[0]@ == split_seq(w@[2]@, '-')[0]);
    match parse_bounded(pieces[0].as_str(), u32::MAX) {
        Some(year) => {
            proof {
                reveal_strlit("Winter");
            }
            let first = w[0].as_str();
            let winter = first.unicode_len() == 6 && matches_at(first, 6, "Winter", 6, 0);
            assert(winter == (w@[0]@ == winter_word())) by {
                assert("Winter"@ =~= winter_word());
                if w@[0]@.len() == 6 {
                    assert(w@[0]@.subrange(0, 6) =~= w@[0]@);
                }
            }
            (year, if winter {
                0
            } else {
                1
            })
        },
        None => (9999, 9),
    }
}

/// Orders semester results chronologically by their labels; the order among
/// results with equal keys is not specified.
pub fn sort_semesters(sems: &Vec<SemesterResult>) -> (r: Vec<SemesterResult>)
    ensures
        r@.to_multiset() == sems@.to_multiset(),
        sorted_by_order(r@),
{
    broadcast use vstd::seq_lib::to_multiset_build, vstd::seq_lib::to_multiset_insert;

    let mut out: Vec<SemesterResult> = Vec::new();
    let mut keys: Vec<(u32, u32)> = Vec::new();
    let mut i: usize = 0;
    assert(sems@.take(0) =~= Seq::<SemesterResult>::empty());
    while i < sems.len()
        invariant
            i <= sems@.len(),
            keys@.len() == out@.len(),
            forall|m: int| 0 <= m < out@.len() ==> #[trigger] keys@[m] == semester_order(out@[m].semester_label@),
            out@.to_multiset() == sems@.take(i as int).to_multiset(),
            sorted_by_order(out@),
        decreases sems@.len() - i,
    {
        let x = &sems[i];
        let kx = parse_sem_order(x.semester_label.as_str());
        let mut p: usize = 0;
        while p < keys.len() && !(kx.0 < keys[p].0 || (kx.0 == keys[p].0 && kx.1 < keys[p].1))
            invariant
                p <= keys@.len(),
                keys@.len() == out@.len(),
                forall|m: int| 0 <= m < p ==> key_le(#[trigger] keys@[m], kx),
            decreases keys@.len() - p,
        {
            p = p + 1;
        }
        let item = SemesterResult { semester_label: x.semester_label.clone(), gpa: x.gpa };
        assert(item == sems@[i as int]);
        let ghost old_out = out@;
        let ghost old_keys = keys@;
        out.insert(p, item);
        keys.insert(p, kx);
        assert(sems@.take(i + 1) =~= sems@.take(i as int).push(sems@[i as int]));
        assert(out@ == old_out.insert(p as int, item));
        proof {
            vstd::seq_lib::to_multiset_insert(old_out, p as int, item);
            vstd::seq_lib::to_multiset_build(sems@.take(i as int), sems@[i as int]);
        }
        assert forall|m: int| 0 <= m < out@.len() implies #[trigger] keys@[m] == semester_order(
            out@[m].semester_label@,
        ) by {
            if m < p {
                assert(keys@[m] == old_keys[m] && out@[m] == old_out[m]);
            } else if m > p {
                assert(keys@[m] == old_keys[m - 1] && out@[m] == old_out[m - 1]);
            }
        }
        assert forall|a: int, b: int| 0 <= a < b < out@.len() implies key_le(
            semester_order(#[trigger] out@[a].semester_label@),
            semester_order(#[trigger] out@[b].semester_label@),
        ) by {
            assert(keys@[a] == semester_order(out@[a].semester_label@));
            assert(keys@[b] == semester_order(out@[b].semester_label@));
            if b < p {
                assert(old_out[a] == out@[a] && old_out[b] == out@[b]);
            } else if a > p {
                assert(old_out[a - 1] == out@[a] && old_out[b - 1] == out@[b]);
            } else if a < p && b > p {
                assert(old_out[a] == out@[a] && old_out[b - 1] == out@[b]);
                assert(key_le(old_keys[a], kx));
                if p < old_keys.len() {
                    assert(old_keys[p as int] == semester_order(old_out[p as int].semester_label@));
                    assert(key_le(
                        semester_order(old_out[p as int].semester_label@),
                        semester_order(old_out[b - 1].semester_label@),
                    ) || p as int == b - 1);
                }
            } else if a == p {
                if p < old_keys.len() {
                    assert(old_keys[p as int] == semester_order(old_out[p as int].semester_label@));
                    assert(old_out[b - 1] == out@[b]);
                    assert(key_le(
                        semester_order(old_out[p as int].semester_label@),
                        semester_order(old_out[b - 1].semester_label@),
                    ) || p as int == b - 1);
                }
            } else {
                assert(old_out[a] == out@[a]);
                assert(key_le(old_keys[a], kx));
            }
        }
        i = i + 1;
    }
    assert(sems@.take(i as int) =~= sems@);
    out
}

/// Of two attempts at one course in semesters of the same type, the second is
/// kept only when its grade ranks strictly higher; otherwise the first stays.
pub proof fn lemma_retake_keeps_best(x: SubjectView, y: SubjectView)
    requires
        same_attempt_key(x, y),
    ensures
        resolve(seq![x, y]) == if grade_rank(y.grade) > grade_rank(x.grade) {
            seq![y]
        } else {
            seq![x]
        },
{
    let s = seq![x, y];
    assert(s.drop_last() =~= seq![x]);
    assert(seq![x].drop_last() =~= Seq::<SubjectView>::empty());
    let e = Seq::<SubjectView>::empty();
    assert(resolve(e) == e);
    assert(key_pos(e, x) == -1);
    assert(key_pos(e, y) == -1);
    assert(seq![x].last() == x);
    assert(e.push(x) =~= seq![x]);
    assert(resolve(seq![x]) == seq![x]);
    assert(key_pos(seq![x], y) == 0);
    assert(s.last() == y);
    assert(seq![x].update(0, y) =~= seq![y]);
}

/// Some kept attempt has `r`'s key and a grade ranked at least as high.
pub open spec fn kept_at_least(out: Seq<SubjectView>, r: SubjectView) -> bool {
    exists|k: int|
        0 <= k < out.len() && same_attempt_key(out[k], r) && grade_rank(out[k].grade) >= grade_rank(
            r.grade,
        )
}

/// `y` is one of the attempts of `recs`.
pub open spec fn is_attempt_of(recs: Seq<SubjectView>, y: SubjectView) -> bool {
    exists|i: int| 0 <= i < recs.len() && recs[i] == y
}

proof fn lemma_key_pos_none(res: Seq<SubjectView>, x: SubjectView)
    requires
        key_pos(res, x) < 0,
    ensures
        forall|j: int| 0 <= j < res.len() ==> !same_attempt_key(#[trigger] res[j], x),
    decreases res.len(),
{
    if res.len() > 0 {
        lemma_key_pos_range(res.drop_last(), x);
        lemma_key_pos_none(res.drop_last(), x);
        assert forall|j: int| 0 <= j < res.len() implies !same_attempt_key(#[trigger] res[j], x) by {
            if j < res.len() - 1 {
                assert(res[j] == res.drop_last()[j]);
            }
        }
    }
}

/// Retake resolution in general: every attempt's `(semester type, course)`
/// key is kept, by an attempt graded at least as well; each kept attempt is
/// one of the input's; and no two kept attempts share a key.
#[verifier::rlimit(60)]
pub proof fn lemma_resolve_keeps_best(recs: Seq<SubjectView>)
    ensures
        forall|i: int| 0 <= i < recs.len() ==> kept_at_least(resolve(recs), #[trigger] recs[i]),
        forall|k: int| 0 <= k < resolve(recs).len() ==> is_attempt_of(recs, #[trigger] resolve(recs)[k]),
        forall|k1: int, k2: int|
            0 <= k1 < k2 < resolve(recs).len() ==> !same_attempt_key(
                #[trigger] resolve(recs)[k1],
                #[trigger] resolve(recs)[k2],
            ),
    decreases recs.len(),
{
    if recs.len() > 0 {
        let init = recs.drop_last();
        let x = recs.last();
        let out = resolve(init);
        let res = resolve(recs);
        lemma_resolve_keeps_best(init);
        lemma_key_pos_range(out, x);
        let k = key_pos(out, x);
        let n = recs.len() - 1;
        assert(recs[n] == x);
        if k < 0 {
            lemma_key_pos_none(out, x);
            assert(res == out.push(x));
            assert forall|i: int| 0 <= i < recs.len() implies kept_at_least(res, #[trigger] recs[i]) by {
                if i < n {
                    assert(recs[i] == init[i]);
                    assert(kept_at_least(out, init[i]));
                    let w = choose|w: int|
                        0 <= w < out.len() && same_attempt_key(out[w], init[i]) && grade_rank(
                            out[w].grade,
                        ) >= grade_rank(init[i].grade);
                    assert(res[w] == out[w]);
                } else {
                    assert(res[out.len() as int] == x);
                }
            }
            assert forall|j: int| 0 <= j < res.len() implies is_attempt_of(recs, #[trigger] res[j]) by {
                if j < out.len() {
                    assert(res[j] == out[j]);
                    assert(is_attempt_of(init, out[j]));
                    let i = choose|i: int| 0 <= i < init.len() && init[i] == out[j];
                    assert(recs[i] == init[i]);
                } else {
                    assert(recs[n] == res[j]);
                }
            }
            assert forall|k1: int, k2: int| 0 <= k1 < k2 < res.len() implies !same_attempt_key(
                #[trigger] res[k1],
                #[trigger] res[k2],
            ) by {
                assert(res[k1] == out[k1]);
                if k2 < out.len() {
                    assert(res[k2] == out[k2]);
                } else {
                    assert(!same_attempt_key(out[k1], x));
                }
            }
        } else if grade_rank(x.grade) > grade_rank(out[k].grade) {
            assert(res == out.update(k, x));
            assert forall|i: int| 0 <= i < recs.len() implies kept_at_least(res, #[trigger] recs[i]) by {
                if i < n {
                    assert(recs[i] == init[i]);
                    assert(kept_at_least(out, init[i]));
                    let w = choose|w: int|
                        0 <= w < out.len() && same_attempt_key(out[w], init[i]) && grade_rank(
                            out[w].grade,
                        ) >= grade_rank(init[i].grade);
                    if w != k {
                        assert(res[w] == out[w]);
                    } else {
                        assert(res[k] == x);
                    }
                } else {
                    assert(res[k] == x);
                }
            }
            assert forall|j: int| 0 <= j < res.len() implies is_attempt_of(recs, #[trigger] res[j]) by {
                if j != k {
                    assert(res[j] == out[j]);
                    assert(is_attempt_of(init, out[j]));
                    let i = choose|i: int| 0 <= i < init.len() && init[i] == out[j];
                    assert(recs[i] == init[i]);
                } else {
                    assert(recs[n] == res[j]);
                }
            }
            assert forall|k1: int, k2: int| 0 <= k1 < k2 < res.len() implies !same_attempt_key(
                #[trigger] res[k1],
                #[trigger] res[k2],
            ) by {
                if k1 == k {
                    assert(res[k2] == out[k2]);
                    assert(!same_attempt_key(out[k], out[k2]));
                } else if k2 == k {
                    assert(res[k1] == out[k1]);
                    assert(!same_attempt_key(out[k1], out[k]));
                } else {
                    assert(res[k1] == out[k1]);
                    assert(res[k2] == out[k2]);
                }
            }
        } else {
            assert(res == out);
            assert forall|i: int| 0 <= i < recs.len() implies kept_at_least(res, #[trigger] recs[i]) by {
                if i < n {
                    assert(recs[i] == init[i]);
                    assert(kept_at_least(out, init[i]));
                }
            }
            assert forall|j: int| 0 <= j < res.len() implies is_attempt_of(recs, #[trigger] res[j]) by {
                assert(is_attempt_of(init, out[j]));
                let i = choose|i: int| 0 <= i < init.len() && init[i] == out[j];
                assert(recs[i] == init[i]);
            }
        }
    }
}

/// Semester GPAs in chronological order and the cumulative GPA, over the
/// best attempt of each course.
pub fn calculate_gpa_cgpa(subjects: &Vec<Subject>, qpt: &QualityPointTable) -> (r: FinalResult)
    requires
        qpt.wf(),
    ensures
        exists|sems: Seq<SemesterResult>|
            {
                &&& labels_cover(result_labels(sems), resolve(subject_views(subjects@)))
                &&& r.semesters@.to_multiset() == sems.to_multiset()
            },
        semesters_match(qpt@, resolve(subject_views(subjects@)), r.semesters@),
        sorted_by_order(r.semesters@),
        forall|k: int| 0 <= k < r.semesters@.len() ==> #[trigger] r.semesters@[k].gpa <= 400,
        r.cgpa as nat == rounded_gpa(
            total_points(qpt@, resolve(subject_views(subjects@))),
            total_credits(qpt@, resolve(subject_views(subjects@))),
        ),
        r.cgpa <= 400,
{
    let resolved = resolve_attempts(subjects);
    let grouped = aggregate_semesters(&resolved, qpt);
    let semesters = sort_semesters(&grouped.semesters);
    let ghost g = grouped.semesters@;
    assert forall|k: int| 0 <= k < semesters@.len() implies g.contains(#[trigger] semesters@[k]) by {
        vstd::seq_lib::to_multiset_contains(semesters@, semesters@[k]);
        vstd::seq_lib::to_multiset_contains(g, semesters@[k]);
    }
    assert forall|k: int| 0 <= k < semesters@.len() implies #[trigger] semesters@[k].gpa as nat
        == rounded_gpa(
        label_points(qpt@, resolve(subject_views(subjects@)), semesters@[k].semester_label@),
        label_credits(qpt@, resolve(subject_views(subjects@)), semesters@[k].semester_label@),
    ) && semesters@[k].gpa <= 400 by {
        assert(g.contains(semesters@[k]));
        let m = choose|m: int| 0 <= m < g.len() && g[m] == semesters@[k];
        assert(g[m].gpa <= 400);
    }
    FinalResult { semesters, cgpa: grouped.cgpa }
}

/// The records of a result table's text, before retakes are resolved.
pub open spec fn table_subjects(table_text: Seq<char>) -> Seq<SubjectView> {
    row_subjects(table_fold(lines_seq(table_text)).1)
}

/// Semester GPAs in chronological order and the cumulative GPA of a
/// tab-separated result table.
pub fn process_student_results(table_text: &str) -> (r: FinalResult)
    ensures
        exists|sems: Seq<SemesterResult>|
            {
                &&& labels_cover(result_labels(sems), resolve(table_subjects(table_text@)))
                &&& r.semesters@.to_multiset() == sems.to_multiset()
            },
        semesters_match(qpt_table(), resolve(table_subjects(table_text@)), r.semesters@),
        sorted_by_order(r.semesters@),
        forall|k: int| 0 <= k < r.semesters@.len() ==> #[trigger] r.semesters@[k].gpa <= 400,
        r.cgpa as nat == rounded_gpa(
            total_points(qpt_table(), resolve(table_subjects(table_text@))),
            total_credits(qpt_table(), resolve(table_subjects(table_text@))),
        ),
        r.cgpa <= 400,
{
    let rows = parse_table_by_semester(table_text);
    let subjects = convert_rows_to_subjects(&rows);
    let qpt = build_qpt();
    calculate_gpa_cgpa(&subjects, &qpt)
}

} // verus!
