use vstd::prelude::*;

use crate::qpt::{
    lemma_lookup_bounded, lemma_table_bounded, max_quality_point, scale_max, table_lookup, QpRow,
    QualityPointTable,
};
use crate::record::{string_views, subject_views, Subject, SubjectView};

verus! {

/// A record's quality point on the 4.0 scale, in units of 1/12000 of a point
/// (`(qp / scale_max) * 4.0`, exact for every scale's maximum).
pub open spec fn normalized_units(scale: u32, qp: u32) -> nat {
    match scale_max(scale) {
        Some(m) => qp as nat * (480nat / m as nat),
        None => 48000,
    }
}

/// What a record adds to a weighted sum: `(normalized point * credit hours,
/// credit hours)`, or nothing when it has no credit, no scale, or no table entry.
pub open spec fn contribution(t: Seq<QpRow>, s: SubjectView) -> (nat, nat) {
    if s.credit_hours == 0 || s.total_marks == 0 {
        (0, 0)
    } else {
        match table_lookup(t, s.total_marks, s.obtained_marks) {
            Some(q) => (normalized_units(s.total_marks, q) * s.credit_hours as nat, s.credit_hours as nat),
            None => (0, 0),
        }
    }
}

/// The record has a quality point and so enters the sums.
pub open spec fn contributes(t: Seq<QpRow>, s: SubjectView) -> bool {
    s.credit_hours != 0 && s.total_marks != 0 && table_lookup(t, s.total_marks, s.obtained_marks) is Some
}

/// Weighted points of the records labelled `label`.
pub open spec fn label_points(t: Seq<QpRow>, recs: Seq<SubjectView>, label: Seq<char>) -> nat
    decreases recs.len(),
{
    if recs.len() == 0 {
        0
    } else {
        label_points(t, recs.drop_last(), label) + if recs.last().label == label {
            contribution(t, recs.last()).0
        } else {
            0
        }
    }
}

/// Credit hours of the contributing records labelled `label`.
pub open spec fn label_credits(t: Seq<QpRow>, recs: Seq<SubjectView>, label: Seq<char>) -> nat
    decreases recs.len(),
{
    if recs.len() == 0 {
        0
    } else {
        label_credits(t, recs.drop_last(), label) + if recs.last().label == label {
            contribution(t, recs.last()).1
        } else {
            0
        }
    }
}

/// Weighted points of all records.
pub open spec fn total_points(t: Seq<QpRow>, recs: Seq<SubjectView>) -> nat
    decreases recs.len(),
{
    if recs.len() == 0 {
        0
    } else {
        total_points(t, recs.drop_last()) + contribution(t, recs.last()).0
    }
}

/// Credit hours of all contributing records.
pub open spec fn total_credits(t: Seq<QpRow>, recs: Seq<SubjectView>) -> nat
    decreases recs.len(),
{
    if recs.len() == 0 {
        0
    } else {
        total_credits(t, recs.drop_last()) + contribution(t, recs.last()).1
    }
}

/// `points / credits` in hundredths of a grade point, rounded half up; zero
/// without credits. `points` is in units of 1/12000.
pub open spec fn rounded_gpa(points: nat, credits: nat) -> nat {
    if credits == 0 {
        0
    } else {
        (points + 60 * credits) / (120 * credits)
    }
}

/// One semester's GPA, in hundredths of a grade point.
#[derive(Debug)]
pub struct SemesterResult {
    pub semester_label: String,
    pub gpa: u32,
}

/// Per-semester GPAs and the cumulative GPA, in hundredths of a grade point.
#[derive(Debug)]
pub struct FinalResult {
    pub semesters: Vec<SemesterResult>,
    pub cgpa: u32,
}

/// The labels of a sequence of semester results.
pub open spec fn result_labels(s: Seq<SemesterResult>) -> Seq<Seq<char>> {
    s.map_values(|x: SemesterResult| x.semester_label@)
}

/// No label occurs twice.
pub open spec fn distinct(s: Seq<Seq<char>>) -> bool {
    forall|i: int, j: int| 0 <= i < j < s.len() ==> s[i] != s[j]
}

/// Some record of `recs` carries `label`.
pub open spec fn has_label(recs: Seq<SubjectView>, label: Seq<char>) -> bool {
    exists|i: int| 0 <= i < recs.len() && recs[i].label == label
}

/// `labels` names exactly the labels of `recs`, each once.
pub open spec fn labels_cover(labels: Seq<Seq<char>>, recs: Seq<SubjectView>) -> bool {
    &&& distinct(labels)
    &&& forall|i: int| 0 <= i < recs.len() ==> labels.contains(#[trigger] recs[i].label)
    &&& forall|k: int| 0 <= k < labels.len() ==> has_label(recs, #[trigger] labels[k])
}

/// Each semester result carries the GPA of the records of its label.
pub open spec fn semesters_match(t: Seq<QpRow>, recs: Seq<SubjectView>, sems: Seq<SemesterResult>) -> bool {
    forall|k: int|
        0 <= k < sems.len() ==> #[trigger] sems[k].gpa as nat == rounded_gpa(
            label_points(t, recs, sems[k].semester_label@),
            label_credits(t, recs, sems[k].semester_label@),
        )
}

proof fn lemma_units_bounded(scale: u32, q: u32)
    requires
        scale_max(scale) is Some,
        q <= 100 * scale_max(scale)->0,
    ensures
        normalized_units(scale, q) <= 48000,
{
    let m = scale_max(scale)->0 as nat;
    assert(480nat / m * m == 480) by {
        assert(m == 8 || m == 12 || m == 20 || m == 24);
    }
    assert(q as nat * (480nat / m) <= 100 * m * (480nat / m)) by (nonlinear_arith)
        requires q as nat <= 100 * m;
    assert(100 * m * (480nat / m) == 100 * (480nat / m * m)) by (nonlinear_arith);
}

/// A GPA computed from points at most 4.0 per credit hour is at most 4.00.
pub proof fn lemma_rounded_gpa_bounded(p: nat, c: nat)
    requires
        p <= 48000 * c,
    ensures
        rounded_gpa(p, c) <= 400,
{
    if c > 0 {
        assert((p + 60 * c) / (120 * c) <= 400) by (nonlinear_arith)
            requires p <= 48000 * c, c > 0;
    }
}

/// What one record adds: exact, and at most 4.0 per credit hour.
pub fn record_contribution(qpt: &QualityPointTable, s: &Subject) -> (r: (u64, u32))
    requires
        qpt.wf(),
    ensures
        r.0 as nat == contribution(qpt@, s@).0,
        r.1 as nat == contribution(qpt@, s@).1,
        r.0 <= 48000 * r.1 as nat,
{
    if s.credit_hours == 0 || s.total_marks == 0 {
        return (0, 0);
    }
    match qpt.lookup(s.total_marks, s.obtained_marks) {
        Some(q) => {
            proof {
                lemma_table_bounded();
                lemma_lookup_bounded(qpt@, s.total_marks, s.obtained_marks);
                lemma_units_bounded(s.total_marks, q);
            }
            let m = max_quality_point(s.total_marks).unwrap();
            let units: u64 = q as u64 * (480 / m as u64);
            assert(units <= 48000);
            assert(units * s.credit_hours as u64 <= 48000 * s.credit_hours as nat) by (nonlinear_arith)
                requires units <= 48000;
            (units * s.credit_hours as u64, s.credit_hours)
        },
        None => (0, 0),
    }
}

/// Weighted points and credit hours of the records labelled `label`, and their
/// GPA in hundredths (0 when none contributes).
pub fn calculate_gpa(subjects: &Vec<Subject>, label: &String, qpt: &QualityPointTable) -> (r: (
    u32,
    u128,
    u128,
))
    requires
        qpt.wf(),
    ensures
        r.1 as nat == label_points(qpt@, subject_views(subjects@), label@),
        r.2 as nat == label_credits(qpt@, subject_views(subjects@), label@),
        r.0 as nat == rounded_gpa(r.1 as nat, r.2 as nat),
        r.0 <= 400,
{
    let ghost recs = subject_views(subjects@);
    let mut points: u128 = 0;
    let mut credits: u128 = 0;
    let mut i: usize = 0;
    while i < subjects.len()
        invariant
            qpt.wf(),
            i <= subjects@.len(),
            recs == subject_views(subjects@),
            points as nat == label_points(qpt@, recs.take(i as int), label@),
            credits as nat == label_credits(qpt@, recs.take(i as int), label@),
            points <= 48000 * credits,
            credits <= i * 0x1_0000_0000,
        decreases subjects@.len() - i,
    {
        assert(recs.take(i + 1).drop_last() =~= recs.take(i as int));
        if subjects[i].semester_label == *label {
            let (p, c) = record_contribution(qpt, &subjects[i]);
            points = points + p as u128;
            credits = credits + c as u128;
        }
        i = i + 1;
    }
    assert(recs.take(i as int) =~= recs);
    proof {
        lemma_rounded_gpa_bounded(points as nat, credits as nat);
    }
    let gpa: u128 = if credits == 0 {
        0
    } else {
        (points + 60 * credits) / (120 * credits)
    };
    (gpa as u32, points, credits)
}

/// The distinct semester labels of `subjects`, each once.
pub fn semester_labels(subjects: &Vec<Subject>) -> (r: Vec<String>)
    ensures
        labels_cover(string_views(r@), subject_views(subjects@)),
{
    let ghost recs = subject_views(subjects@);
    let mut labels: Vec<String> = Vec::new();
    let mut i: usize = 0;
    while i < subjects.len()
        invariant
            i <= subjects@.len(),
            recs == subject_views(subjects@),
            recs.len() == subjects@.len(),
            distinct(string_views(labels@)),
            forall|j: int| 0 <= j < i ==> string_views(labels@).contains(#[trigger] recs[j].label),
            forall|k: int|
                0 <= k < string_views(labels@).len() ==> exists|j: int|
                    0 <= j < i && recs[j].label == #[trigger] string_views(labels@)[k],
        decreases subjects@.len() - i,
    {
        let mut k: usize = 0;
        let mut found = false;
        while k < labels.len()
            invariant
                k <= labels@.len(),
                i < subjects@.len(),
                recs == subject_views(subjects@),
                found ==> string_views(labels@).contains(recs[i as int].label),
                !found ==> forall|m: int| 0 <= m < k ==> string_views(labels@)[m] != recs[i as int].label,
            decreases labels@.len() - k,
        {
            if labels[k] == subjects[i].semester_label {
                assert(string_views(labels@)[k as int] == recs[i as int].label);
                found = true;
            }
            k = k + 1;
        }
        if !found {
            let ghost before = string_views(labels@);
            labels.push(subjects[i].semester_label.clone());
            proof {
                assert(string_views(labels@) =~= before.push(recs[i as int].label));
                assert forall|j: int| 0 <= j <= i implies string_views(labels@).contains(
                    #[trigger] recs[j].label,
                ) by {
                    if j < i {
                        let m = choose|m: int| 0 <= m < before.len() && before[m] == recs[j].label;
                        assert(string_views(labels@)[m] == recs[j].label);
                    } else {
                        assert(string_views(labels@)[before.len() as int] == recs[j].label);
                    }
                }
                assert forall|k2: int| 0 <= k2 < string_views(labels@).len() implies exists|j: int|
                    0 <= j < i + 1 && recs[j].label == #[trigger] string_views(labels@)[k2] by {
                    if k2 < before.len() {
                        assert(string_views(labels@)[k2] == before[k2]);
                    } else {
                        assert(recs[i as int].label == string_views(labels@)[k2]);
                    }
                }
            }
        }
        i = i + 1;
    }
    assert forall|k: int| 0 <= k < string_views(labels@).len() implies has_label(
        recs,
        #[trigger] string_views(labels@)[k],
    ) by {
        let j = choose|j: int| 0 <= j < i && recs[j].label == string_views(labels@)[k];
        assert(0 <= j < recs.len());
    }
    labels
}

/// Weighted points and credit hours of all records, and the cumulative GPA in
/// hundredths.
pub fn cumulative_gpa(subjects: &Vec<Subject>, qpt: &QualityPointTable) -> (r: (u32, u128, u128))
    requires
        qpt.wf(),
    ensures
        r.1 as nat == total_points(qpt@, subject_views(subjects@)),
        r.2 as nat == total_credits(qpt@, subject_views(subjects@)),
        r.0 as nat == rounded_gpa(r.1 as nat, r.2 as nat),
        r.0 <= 400,
{
    let ghost recs = subject_views(subjects@);
    let mut points: u128 = 0;
    let mut credits: u128 = 0;
    let mut i: usize = 0;
    while i < subjects.len()
        invariant
            qpt.wf(),
            i <= subjects@.len(),
            recs == subject_views(subjects@),
            points as nat == total_points(qpt@, recs.take(i as int)),
            credits as nat == total_credits(qpt@, recs.take(i as int)),
            points <= 48000 * credits,
            credits <= i * 0x1_0000_0000,
        decreases subjects@.len() - i,
    {
        assert(recs.take(i + 1).drop_last() =~= recs.take(i as int));
        let (p, c) = record_contribution(qpt, &subjects[i]);
        points = points + p as u128;
        credits = credits + c as u128;
        i = i + 1;
    }
    assert(recs.take(i as int) =~= recs);
    proof {
        lemma_rounded_gpa_bounded(points as nat, credits as nat);
    }
    let gpa: u128 = if credits == 0 {
        0
    } else {
        (points + 60 * credits) / (120 * credits)
    };
    (gpa as u32, points, credits)
}

/// Groups `subjects` by semester label, one result per distinct label, with
/// each semester's GPA and the cumulative GPA over all records.
pub fn aggregate_semesters(subjects: &Vec<Subject>, qpt: &QualityPointTable) -> (r: FinalResult)
    requires
        qpt.wf(),
    ensures
        labels_cover(result_labels(r.semesters@), subject_views(subjects@)),
        semesters_match(qpt@, subject_views(subjects@), r.semesters@),
        forall|k: int| 0 <= k < r.semesters@.len() ==> #[trigger] r.semesters@[k].gpa <= 400,
        r.cgpa as nat == rounded_gpa(
            total_points(qpt@, subject_views(subjects@)),
            total_credits(qpt@, subject_views(subjects@)),
        ),
        r.cgpa <= 400,
{
    let labels = semester_labels(subjects);
    let mut semesters: Vec<SemesterResult> = Vec::new();
    let mut k: usize = 0;
    while k < labels.len()
        invariant
            qpt.wf(),
            k <= labels@.len(),
            result_labels(semesters@) == string_views(labels@).take(k as int),
            semesters_match(qpt@, subject_views(subjects@), semesters@),
            forall|m: int| 0 <= m < semesters@.len() ==> #[trigger] semesters@[m].gpa <= 400,
        decreases labels@.len() - k,
    {
        let (gpa, _, _) = calculate_gpa(subjects, &labels[k], qpt);
        let ghost before = semesters@;
        semesters.push(SemesterResult { semester_label: labels[k].clone(), gpa });
        assert(result_labels(semesters@) =~= result_labels(before).push(labels@[k as int]@));
        assert(string_views(labels@).take(k + 1) =~= string_views(labels@).take(k as int).push(
            labels@[k as int]@,
        ));
        assert(semesters@[semesters@.len() - 1].semester_label@ == labels@[k as int]@);
        assert forall|m: int| 0 <= m < semesters@.len() implies #[trigger] semesters@[m].gpa as nat
            == rounded_gpa(
            label_points(qpt@, subject_views(subjects@), semesters@[m].semester_label@),
            label_credits(qpt@, subject_views(subjects@), semesters@[m].semester_label@),
        ) by {
            if m < before.len() {
                assert(semesters@[m] == before[m]);
            }
        }
        k = k + 1;
    }
    assert(string_views(labels@).take(k as int) =~= string_views(labels@));
    let (cgpa, _, _) = cumulative_gpa(subjects, qpt);
    FinalResult { semesters, cgpa }
}

/// The semesters' weighted points, summed over `labels`.
pub open spec fn sum_label_points(t: Seq<QpRow>, recs: Seq<SubjectView>, labels: Seq<Seq<char>>) -> nat
    decreases labels.len(),
{
    if labels.len() == 0 {
        0
    } else {
        sum_label_points(t, recs, labels.drop_last()) + label_points(t, recs, labels.last())
    }
}

/// The semesters' credit hours, summed over `labels`.
pub open spec fn sum_label_credits(t: Seq<QpRow>, recs: Seq<SubjectView>, labels: Seq<Seq<char>>) -> nat
    decreases labels.len(),
{
    if labels.len() == 0 {
        0
    } else {
        sum_label_credits(t, recs, labels.drop_last()) + label_credits(t, recs, labels.last())
    }
}

/// Weighted points of the records whose label is among `labels`.
pub open spec fn points_within(t: Seq<QpRow>, recs: Seq<SubjectView>, labels: Seq<Seq<char>>) -> nat
    decreases recs.len(),
{
    if recs.len() == 0 {
        0
    } else {
        points_within(t, recs.drop_last(), labels) + if labels.contains(recs.last().label) {
            contribution(t, recs.last()).0
        } else {
            0
        }
    }
}

/// Credit hours of the records whose label is among `labels`.
pub open spec fn credits_within(t: Seq<QpRow>, recs: Seq<SubjectView>, labels: Seq<Seq<char>>) -> nat
    decreases recs.len(),
{
    if recs.len() == 0 {
        0
    } else {
        credits_within(t, recs.drop_last(), labels) + if labels.contains(recs.last().label) {
            contribution(t, recs.last()).1
        } else {
            0
        }
    }
}

proof fn lemma_within_push(t: Seq<QpRow>, recs: Seq<SubjectView>, labels: Seq<Seq<char>>, l: Seq<char>)
    requires
        !labels.contains(l),
    ensures
        points_within(t, recs, labels.push(l)) == points_within(t, recs, labels) + label_points(t, recs, l),
        credits_within(t, recs, labels.push(l)) == credits_within(t, recs, labels) + label_credits(
            t,
            recs,
            l,
        ),
    decreases recs.len(),
{
    if recs.len() > 0 {
        lemma_within_push(t, recs.drop_last(), labels, l);
        let lab = recs.last().label;
        if labels.push(l).contains(lab) {
            let k = choose|k: int| 0 <= k < labels.push(l).len() && labels.push(l)[k] == lab;
            if k < labels.len() {
                assert(labels.contains(lab));
            }
        }
        if labels.contains(lab) {
            let k = choose|k: int| 0 <= k < labels.len() && labels[k] == lab;
            assert(labels.push(l)[k] == lab);
        }
        if lab == l {
            assert(labels.push(l)[labels.len() as int] == lab);
        }
    }
}

proof fn lemma_sum_is_within(t: Seq<QpRow>, recs: Seq<SubjectView>, labels: Seq<Seq<char>>)
    requires
        distinct(labels),
    ensures
        sum_label_points(t, recs, labels) == points_within(t, recs, labels),
        sum_label_credits(t, recs, labels) == credits_within(t, recs, labels),
    decreases labels.len(),
{
    if labels.len() == 0 {
        lemma_within_empty(t, recs, labels);
    } else {
        let init = labels.drop_last();
        assert(distinct(init));
        lemma_sum_is_within(t, recs, init);
        assert(!init.contains(labels.last()));
        assert(init.push(labels.last()) =~= labels);
        lemma_within_push(t, recs, init, labels.last());
    }
}

proof fn lemma_within_empty(t: Seq<QpRow>, recs: Seq<SubjectView>, labels: Seq<Seq<char>>)
    requires
        labels.len() == 0,
    ensures
        points_within(t, recs, labels) == 0,
        credits_within(t, recs, labels) == 0,
    decreases recs.len(),
{
    if recs.len() > 0 {
        lemma_within_empty(t, recs.drop_last(), labels);
    }
}

proof fn lemma_within_all(t: Seq<QpRow>, recs: Seq<SubjectView>, labels: Seq<Seq<char>>)
    requires
        forall|i: int| 0 <= i < recs.len() ==> labels.contains(#[trigger] recs[i].label),
    ensures
        points_within(t, recs, labels) == total_points(t, recs),
        credits_within(t, recs, labels) == total_credits(t, recs),
    decreases recs.len(),
{
    if recs.len() > 0 {
        let init = recs.drop_last();
        assert forall|i: int| 0 <= i < init.len() implies labels.contains(#[trigger] init[i].label) by {
            assert(init[i] == recs[i]);
        }
        lemma_within_all(t, init, labels);
        assert(labels.contains(recs[recs.len() - 1].label));
    }
}

/// The cumulative GPA is the credit-weighted mean over all semesters: total
/// weighted points over total credit hours, both summed semester by semester,
/// and not a mean of the semesters' GPAs.
pub proof fn lemma_cgpa_credit_weighted(t: Seq<QpRow>, recs: Seq<SubjectView>, labels: Seq<Seq<char>>)
    requires
        labels_cover(labels, recs),
    ensures
        total_points(t, recs) == sum_label_points(t, recs, labels),
        total_credits(t, recs) == sum_label_credits(t, recs, labels),
        rounded_gpa(total_points(t, recs), total_credits(t, recs)) == rounded_gpa(
            sum_label_points(t, recs, labels),
            sum_label_credits(t, recs, labels),
        ),
{
    lemma_sum_is_within(t, recs, labels);
    lemma_within_all(t, recs, labels);
}

/// A record that does not contribute (no credit hours, no scale, or no
/// quality point for its marks) changes no semester's sums and no total,
/// wherever it stands.
pub proof fn lemma_non_contributing_ignored(
    t: Seq<QpRow>,
    a: Seq<SubjectView>,
    b: Seq<SubjectView>,
    x: SubjectView,
    label: Seq<char>,
)
    requires
        !contributes(t, x),
    ensures
        label_points(t, a.push(x) + b, label) == label_points(t, a + b, label),
        label_credits(t, a.push(x) + b, label) == label_credits(t, a + b, label),
        total_points(t, a.push(x) + b) == total_points(t, a + b),
        total_credits(t, a.push(x) + b) == total_credits(t, a + b),
    decreases b.len(),
{
    if b.len() == 0 {
        assert(a.push(x) + b =~= a.push(x));
        assert(a + b =~= a);
        assert(a.push(x).drop_last() =~= a);
    } else {
        lemma_non_contributing_ignored(t, a, b.drop_last(), x, label);
        assert((a.push(x) + b).drop_last() =~= a.push(x) + b.drop_last());
        assert((a + b).drop_last() =~= a + b.drop_last());
        assert((a.push(x) + b).last() == b.last());
        assert((a + b).last() == b.last());
    }
}

} // verus!
