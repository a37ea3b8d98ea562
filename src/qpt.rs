use vstd::prelude::*;

verus! {

/// One row of the quality-point table: `(scale, obtained_marks, quality_point)`,
/// the quality point given in hundredths (`11.0` is `1100`).
pub type QpRow = (u32, u32, u32);

/// Quality points on the 60-mark scale, as `(obtained_marks, hundredths)`.
pub open spec fn qps_60() -> Seq<(u32, u32)> {
    seq![
        (24, 300), (25, 350), (26, 400), (27, 450), (28, 500),
        (29, 550), (30, 600), (31, 633), (32, 667), (33, 700),
        (34, 733), (35, 767), (36, 800), (37, 833), (38, 867),
        (39, 900), (40, 933), (41, 967), (42, 1000), (43, 1033),
        (44, 1067), (45, 1100), (46, 1133), (47, 1167), (48, 1200),
        (49, 1200), (50, 1200), (51, 1200), (52, 1200), (53, 1200),
        (54, 1200), (55, 1200), (56, 1200), (57, 1200), (58, 1200),
        (59, 1200), (60, 1200),
    ]
}

/// Quality points on the 40-mark scale.
pub open spec fn qps_40() -> Seq<(u32, u32)> {
    seq![
        (16, 200), (17, 250), (18, 300), (19, 350), (20, 400),
        (21, 433), (22, 467), (23, 500), (24, 533), (25, 567),
        (26, 600), (27, 633), (28, 667), (29, 700), (30, 733),
        (31, 767), (32, 800), (33, 800), (34, 800), (35, 800),
        (36, 800), (37, 800), (38, 800), (39, 800), (40, 800),
    ]
}

/// Quality points on the 120-mark scale. The key 80 appears twice; the
/// later row is the one that lookups see.
pub open spec fn qps_120() -> Seq<(u32, u32)> {
    seq![
        (48, 600), (49, 650), (50, 700), (51, 750), (52, 800),
        (53, 850), (54, 900), (55, 950), (56, 1000), (57, 1050),
        (58, 1100), (59, 1150), (60, 1200), (61, 1250), (62, 1300),
        (63, 1317), (64, 1334), (65, 1367), (66, 1400), (67, 1450),
        (68, 1500), (69, 1517), (70, 1534), (71, 1567), (72, 1600),
        (73, 1650), (74, 1700), (75, 1717), (76, 1734), (77, 1767),
        (78, 1800), (79, 1850), (80, 1900), (81, 1917), (82, 1934),
        (80, 1967), (84, 2000), (85, 2050), (86, 2100), (87, 2117),
        (88, 2134), (89, 2167), (90, 2200), (91, 2150), (92, 2300),
        (93, 2317), (94, 2334), (95, 2367), (96, 2400),
        (98, 2400), (100, 2400), (102, 2400), (104, 2400), (106, 2400),
        (107, 2400), (108, 2400), (110, 2400), (112, 2400), (114, 2400),
        (116, 2400), (118, 2400), (120, 2400),
    ]
}

/// The rows of one scale, tagged with that scale.
pub open spec fn tag_scale(scale: u32, rows: Seq<(u32, u32)>) -> Seq<QpRow> {
    rows.map_values(|p: (u32, u32)| (scale, p.0, p.1))
}

/// The whole table in construction order: the 60, 40 and 120 scales.
pub open spec fn qpt_table() -> Seq<QpRow> {
    tag_scale(60, qps_60()) + tag_scale(40, qps_40()) + tag_scale(120, qps_120())
}

/// The quality point that `t` gives to `(scale, obtained)`: the last row with
/// that key wins.
pub open spec fn table_lookup(t: Seq<QpRow>, scale: u32, obtained: u32) -> Option<u32>
    decreases t.len(),
{
    if t.len() == 0 {
        None
    } else if t.last().0 == scale && t.last().1 == obtained {
        Some(t.last().2)
    } else {
        table_lookup(t.drop_last(), scale, obtained)
    }
}

/// The highest quality point reachable on a scale, in whole points.
pub open spec fn scale_max(scale: u32) -> Option<u32> {
    if scale == 40 {
        Some(8)
    } else if scale == 60 {
        Some(12)
    } else if scale == 100 {
        Some(20)
    } else if scale == 120 {
        Some(24)
    } else {
        None
    }
}

/// Every row's quality point lies within its scale's maximum.
pub open spec fn rows_bounded(t: Seq<QpRow>) -> bool {
    forall|i: int|
        0 <= i < t.len() ==> (#[trigger] scale_max(t[i].0)) is Some && t[i].2 <= 100
            * scale_max(t[i].0)->0
}

/// The fixed quality-point table of the grading scheme.
pub struct QualityPointTable {
    rows: Vec<QpRow>,
}

impl View for QualityPointTable {
    type V = Seq<QpRow>;

    closed spec fn view(&self) -> Seq<QpRow> {
        self.rows@
    }
}

fn push_scale(rows: &mut Vec<QpRow>, scale: u32, pairs: Vec<(u32, u32)>)
    ensures
        final(rows)@ == old(rows)@ + tag_scale(scale, pairs@),
{
    let ghost start = rows@;
    let mut i: usize = 0;
    while i < pairs.len()
        invariant
            i <= pairs@.len(),
            rows@ == start + tag_scale(scale, pairs@.take(i as int)),
        decreases pairs@.len() - i,
    {
        let (om, qp) = pairs[i];
        rows.push((scale, om, qp));
        proof {
            assert(pairs@.take(i + 1) =~= pairs@.take(i as int).push(pairs@[i as int]));
            assert(tag_scale(scale, pairs@.take(i + 1)) =~= tag_scale(
                scale,
                pairs@.take(i as int),
            ).push((scale, om, qp)));
        }
        i = i + 1;
    }
    assert(pairs@.take(i as int) =~= pairs@);
}

/// Builds the table: the 60, 40 and 120 scales, in that order.
pub fn build_qpt() -> (r: QualityPointTable)
    ensures
        r@ == qpt_table(),
{
    let rows_60: Vec<(u32, u32)> = vec![
        (24, 300), (25, 350), (26, 400), (27, 450), (28, 500),
        (29, 550), (30, 600), (31, 633), (32, 667), (33, 700),
        (34, 733), (35, 767), (36, 800), (37, 833), (38, 867),
        (39, 900), (40, 933), (41, 967), (42, 1000), (43, 1033),
        (44, 1067), (45, 1100), (46, 1133), (47, 1167), (48, 1200),
        (49, 1200), (50, 1200), (51, 1200), (52, 1200), (53, 1200),
        (54, 1200), (55, 1200), (56, 1200), (57, 1200), (58, 1200),
        (59, 1200), (60, 1200),
    ];
    assert(rows_60@ =~= qps_60());
    let mut rows: Vec<QpRow> = Vec::new();
    push_scale(&mut rows, 60, rows_60);
    let rows_40: Vec<(u32, u32)> = vec![
        (16, 200), (17, 250), (18, 300), (19, 350), (20, 400),
        (21, 433), (22, 467), (23, 500), (24, 533), (25, 567),
        (26, 600), (27, 633), (28, 667), (29, 700), (30, 733),
        (31, 767), (32, 800), (33, 800), (34, 800), (35, 800),
        (36, 800), (37, 800), (38, 800), (39, 800), (40, 800),
    ];
    assert(rows_40@ =~= qps_40());
    push_scale(&mut rows, 40, rows_40);
    let rows_120: Vec<(u32, u32)> = vec![
        (48, 600), (49, 650), (50, 700), (51, 750), (52, 800),
        (53, 850), (54, 900), (55, 950), (56, 1000), (57, 1050),
        (58, 1100), (59, 1150), (60, 1200), (61, 1250), (62, 1300),
        (63, 1317), (64, 1334), (65, 1367), (66, 1400), (67, 1450),
        (68, 1500), (69, 1517), (70, 1534), (71, 1567), (72, 1600),
        (73, 1650), (74, 1700), (75, 1717), (76, 1734), (77, 1767),
        (78, 1800), (79, 1850), (80, 1900), (81, 1917), (82, 1934),
        (80, 1967), (84, 2000), (85, 2050), (86, 2100), (87, 2117),
        (88, 2134), (89, 2167), (90, 2200), (91, 2150), (92, 2300),
        (93, 2317), (94, 2334), (95, 2367), (96, 2400),
        (98, 2400), (100, 2400), (102, 2400), (104, 2400), (106, 2400),
        (107, 2400), (108, 2400), (110, 2400), (112, 2400), (114, 2400),
        (116, 2400), (118, 2400), (120, 2400),
    ];
    assert(rows_120@ =~= qps_120());
    push_scale(&mut rows, 120, rows_120);
    QualityPointTable { rows }
}

impl QualityPointTable {
    /// The table is the fixed one of the grading scheme.
    pub open spec fn wf(&self) -> bool {
        self@ == qpt_table()
    }

    /// The quality point (hundredths) for `obtained` marks on `scale`, if the
    /// table has one; the last matching row wins.
    pub fn lookup(&self, scale: u32, obtained: u32) -> (r: Option<u32>)
        ensures
            r == table_lookup(self@, scale, obtained),
    {
        let mut i: usize = self.rows.len();
        assert(self@.take(i as int) =~= self@);
        while i > 0
            invariant
                i <= self@.len(),
                self@ == self.rows@,
                table_lookup(self@, scale, obtained) == table_lookup(
                    self@.take(i as int),
                    scale,
                    obtained,
                ),
            decreases i,
        {
            let row = self.rows[i - 1];
            assert(self@.take(i as int).drop_last() =~= self@.take(i - 1));
            if row.0 == scale && row.1 == obtained {
                return Some(row.2);
            }
            i = i - 1;
        }
        None
    }
}

/// The highest quality point reachable on `scale`, in whole points.
pub fn max_quality_point(scale: u32) -> (r: Option<u32>)
    ensures
        r == scale_max(scale),
{
    match scale {
        40 => Some(8),
        60 => Some(12),
        100 => Some(20),
        120 => Some(24),
        _ => None,
    }
}

proof fn lemma_tagged_bounded(scale: u32, rows: Seq<(u32, u32)>)
    requires
        scale_max(scale) is Some,
        forall|i: int| 0 <= i < rows.len() ==> rows[i].1 <= 100 * scale_max(scale)->0,
    ensures
        rows_bounded(tag_scale(scale, rows)),
{
    assert forall|i: int| 0 <= i < tag_scale(scale, rows).len() implies (#[trigger] scale_max(
        tag_scale(scale, rows)[i].0,
    )) is Some && tag_scale(scale, rows)[i].2 <= 100 * scale_max(
        tag_scale(scale, rows)[i].0,
    )->0 by {
        assert(tag_scale(scale, rows)[i] == (scale, rows[i].0, rows[i].1));
    }
}

proof fn lemma_concat_bounded(a: Seq<QpRow>, b: Seq<QpRow>)
    requires
        rows_bounded(a),
        rows_bounded(b),
    ensures
        rows_bounded(a + b),
{
    assert forall|i: int| 0 <= i < (a + b).len() implies (#[trigger] scale_max((a + b)[i].0)) is Some
        && (a + b)[i].2 <= 100 * scale_max((a + b)[i].0)->0 by {
        if i < a.len() {
            assert((a + b)[i] == a[i]);
        } else {
            assert((a + b)[i] == b[i - a.len()]);
        }
    }
}

/// No quality point of the fixed table exceeds its scale's maximum.
pub proof fn lemma_table_bounded()
    ensures
        rows_bounded(qpt_table()),
{
    assert forall|i: int| 0 <= i < qps_60().len() implies qps_60()[i].1 <= 1200 by {}
    assert forall|i: int| 0 <= i < qps_40().len() implies qps_40()[i].1 <= 800 by {}
    assert forall|i: int| 0 <= i < qps_120().len() implies qps_120()[i].1 <= 2400 by {}
    lemma_tagged_bounded(60, qps_60());
    lemma_tagged_bounded(40, qps_40());
    lemma_tagged_bounded(120, qps_120());
    lemma_concat_bounded(tag_scale(60, qps_60()), tag_scale(40, qps_40()));
    lemma_concat_bounded(tag_scale(60, qps_60()) + tag_scale(40, qps_40()), tag_scale(120, qps_120()));
}

/// A point found in a table whose rows are bounded is bounded by its scale's maximum.
pub proof fn lemma_lookup_bounded(t: Seq<QpRow>, scale: u32, obtained: u32)
    requires
        rows_bounded(t),
    ensures
        table_lookup(t, scale, obtained) is Some ==> scale_max(scale) is Some
            && table_lookup(t, scale, obtained)->0 <= 100 * scale_max(scale)->0,
    decreases t.len(),
{
    if t.len() > 0 {
        assert(scale_max(t[t.len() - 1].0) is Some);
        if !(t.last().0 == scale && t.last().1 == obtained) {
            assert forall|i: int| 0 <= i < t.drop_last().len() implies (#[trigger] scale_max(
                t.drop_last()[i].0,
            )) is Some && t.drop_last()[i].2 <= 100 * scale_max(t.drop_last()[i].0)->0 by {
                assert(t.drop_last()[i] == t[i]);
                assert(scale_max(t[i].0) is Some);
            }
            lemma_lookup_bounded(t.drop_last(), scale, obtained);
        }
    }
}

/// Every row of `t` needs at least `m` obtained marks.
pub open spec fn rows_from(t: Seq<QpRow>, m: u32) -> bool {
    forall|i: int| 0 <= i < t.len() ==> #[trigger] t[i].1 >= m
}

proof fn lemma_lookup_below(t: Seq<QpRow>, m: u32, scale: u32, obtained: u32)
    requires
        rows_from(t, m),
        obtained < m,
    ensures
        table_lookup(t, scale, obtained) is None,
    decreases t.len(),
{
    if t.len() > 0 {
        assert(t[t.len() - 1].1 >= m);
        assert forall|i: int| 0 <= i < t.drop_last().len() implies #[trigger] t.drop_last()[i].1 >= m by {
            assert(t.drop_last()[i] == t[i]);
        }
        lemma_lookup_below(t.drop_last(), m, scale, obtained);
    }
}

/// The fixed table has no quality point below 16 obtained marks, on any
/// scale: such marks, and marks that read as 0, never contribute.
pub proof fn lemma_low_marks_not_found(scale: u32, obtained: u32)
    requires
        obtained < 16,
    ensures
        table_lookup(qpt_table(), scale, obtained) is None,
{
    let t = qpt_table();
    assert forall|i: int| 0 <= i < qps_60().len() implies qps_60()[i].0 >= 16 by {}
    assert forall|i: int| 0 <= i < qps_40().len() implies qps_40()[i].0 >= 16 by {}
    assert forall|i: int| 0 <= i < qps_120().len() implies qps_120()[i].0 >= 16 by {}
    let a = tag_scale(60, qps_60());
    let b = tag_scale(40, qps_40());
    let c = tag_scale(120, qps_120());
    assert forall|i: int| 0 <= i < t.len() implies #[trigger] t[i].1 >= 16 by {
        assert(t == a + b + c);
        if i < a.len() {
            assert(t[i] == a[i]);
            assert(a[i] == (60u32, qps_60()[i].0, qps_60()[i].1));
        } else if i < a.len() + b.len() {
            assert(t[i] == b[i - a.len()]);
            assert(b[i - a.len()] == (40u32, qps_40()[i - a.len()].0, qps_40()[i - a.len()].1));
        } else {
            let j = i - a.len() - b.len();
            assert(t[i] == c[j]);
            assert(c[j] == (120u32, qps_120()[j].0, qps_120()[j].1));
        }
    }
    lemma_lookup_below(t, 16, scale, obtained);
}

} // verus!
