use vstd::prelude::*;

verus! {

/// Among the first `k` cells of two rows, how many hold `pv` in `p` and `av`
/// in `a` at once.
pub open spec fn cell_count(p: Seq<u32>, a: Seq<u32>, pv: u32, av: u32, k: int) -> nat
    decreases k,
{
    if k <= 0 {
        0
    } else {
        cell_count(p, a, pv, av, k - 1) + (if p[k - 1] == pv && a[k - 1] == av {
            1nat
        } else {
            0nat
        })
    }
}

/// The cells of two rows, paired up to the shorter one's length, that hold
/// `pv` in `p` and `av` in `a`.
pub open spec fn row_count(p: Seq<u32>, a: Seq<u32>, pv: u32, av: u32) -> nat {
    cell_count(p, a, pv, av, if p.len() <= a.len() { p.len() as int } else { a.len() as int })
}

/// Over the first `r` row pairs of two matrices, the cells that hold `pv` in
/// `p` and `av` in `a`.
pub open spec fn matrix_count(p: Seq<Seq<u32>>, a: Seq<Seq<u32>>, pv: u32, av: u32, r: int) -> nat
    decreases r,
{
    if r <= 0 {
        0
    } else {
        matrix_count(p, a, pv, av, r - 1) + row_count(p[r - 1], a[r - 1], pv, av)
    }
}

/// The cells of two matrices, rows and columns paired up to the shorter
/// length, that hold `pv` in `p` and `av` in `a`.
pub open spec fn count_pairs(p: Seq<Seq<u32>>, a: Seq<Seq<u32>>, pv: u32, av: u32) -> nat {
    matrix_count(p, a, pv, av, if p.len() <= a.len() { p.len() as int } else { a.len() as int })
}

/// The number of cells of the first `r` rows of `m`.
pub open spec fn cells(m: Seq<Seq<u32>>, r: int) -> nat
    decreases r,
{
    if r <= 0 {
        0
    } else {
        cells(m, r - 1) + m[r - 1].len()
    }
}

/// The number of cells of `m`.
pub open spec fn total_cells(m: Seq<Seq<u32>>) -> nat {
    cells(m, m.len() as int)
}

/// Micro-averaged F1 as the exact fraction `numerator / denominator`.
#[derive(Clone, Copy, Debug, PartialEq, Eq, Structural)]
pub struct F1Score {
    pub numerator: u64,
    pub denominator: u64,
}

/// F1 from the counts: `0 / 1` when there is no true positive, else
/// `2 tp / (2 tp + fp + fn)`, which equals `2 P R / (P + R)` for precision
/// `P = tp / (tp + fp)` and recall `R = tp / (tp + fn)`.
pub open spec fn f1_of(tp: nat, fp: nat, fn_: nat) -> (int, int) {
    if tp == 0 {
        (0, 1)
    } else {
        ((2 * tp) as int, (2 * tp + fp + fn_) as int)
    }
}

/// Whether the fraction `a` is strictly greater than the fraction `b`, both
/// with positive denominators.
pub open spec fn exceeds(a: F1Score, b: F1Score) -> bool {
    (a.numerator as int) * (b.denominator as int) > (b.numerator as int) * (a.denominator as int)
}

proof fn lemma_cell_counts_bounded(p: Seq<u32>, a: Seq<u32>, k: int)
    ensures
        cell_count(p, a, 1, 1, k) + cell_count(p, a, 1, 0, k) + cell_count(p, a, 0, 1, k)
            <= if k <= 0 { 0 } else { k },
    decreases k,
{
    if k > 0 {
        lemma_cell_counts_bounded(p, a, k - 1);
    }
}

proof fn lemma_matrix_counts_bounded(p: Seq<Seq<u32>>, a: Seq<Seq<u32>>, r: int)
    requires
        r <= p.len(),
    ensures
        matrix_count(p, a, 1, 1, r) + matrix_count(p, a, 1, 0, r) + matrix_count(p, a, 0, 1, r)
            <= cells(p, r),
    decreases r,
{
    if r > 0 {
        lemma_matrix_counts_bounded(p, a, r - 1);
        let k = if p[r - 1].len() <= a[r - 1].len() {
            p[r - 1].len() as int
        } else {
            a[r - 1].len() as int
        };
        lemma_cell_counts_bounded(p[r - 1], a[r - 1], k);
    }
}

proof fn lemma_cells_monotone(m: Seq<Seq<u32>>, r: int, s: int)
    requires
        r <= s,
    ensures
        cells(m, r) <= cells(m, s),
    decreases s - r,
{
    if r < s {
        lemma_cells_monotone(m, r, s - 1);
    }
}

/// How many paired cells hold `predicted_value` in the prediction and
/// `actual_value` in the truth, rows and columns paired up to the shorter
/// length.
pub fn fold_with_values(
    predicted_labels: &Vec<Vec<u32>>,
    actual_labels: &Vec<Vec<u32>>,
    predicted_value: u32,
    actual_value: u32,
) -> (r: usize)
    requires
        total_cells(predicted_labels.deep_view()) <= usize::MAX,
    ensures
        r == count_pairs(
            predicted_labels.deep_view(),
            actual_labels.deep_view(),
            predicted_value,
            actual_value,
        ),
{
    let ghost p = predicted_labels.deep_view();
    let ghost a = actual_labels.deep_view();
    let rows = if predicted_labels.len() <= actual_labels.len() {
        predicted_labels.len()
    } else {
        actual_labels.len()
    };
    let mut count: usize = 0;
    let mut i: usize = 0;
    while i < rows
        invariant
            i <= rows <= predicted_labels.len(),
            rows <= actual_labels.len(),
            p == predicted_labels.deep_view(),
            a == actual_labels.deep_view(),
            total_cells(p) <= usize::MAX,
            count == matrix_count(p, a, predicted_value, actual_value, i as int),
            count <= cells(p, i as int),
        decreases rows - i,
    {
        let prow = &predicted_labels[i];
        let arow = &actual_labels[i];
        let cols = if prow.len() <= arow.len() {
            prow.len()
        } else {
            arow.len()
        };
        proof {
            lemma_cells_monotone(p, i + 1, p.len() as int);
            assert(p[i as int] == prow@);
            assert(a[i as int] == arow@);
        }
        let mut j: usize = 0;
        let ghost base = count;
        while j < cols
            invariant
                j <= cols <= prow.len(),
                cols <= arow.len(),
                base + cell_count(prow@, arow@, predicted_value, actual_value, j as int) == count,
                cell_count(prow@, arow@, predicted_value, actual_value, j as int) <= j,
                base <= cells(p, i as int),
                cells(p, i as int) + prow.len() <= usize::MAX,
            decreases cols - j,
        {
            if prow[j] == predicted_value && actual_value == arow[j] {
                count = count + 1;
            }
            j = j + 1;
        }
        i = i + 1;
    }
    count
}

/// Cells predicted `1` that are `1` in the truth.
pub fn true_positives(predicted_labels: &Vec<Vec<u32>>, actual_labels: &Vec<Vec<u32>>) -> (r: usize)
    requires
        total_cells(predicted_labels.deep_view()) <= usize::MAX,
    ensures
        r == count_pairs(predicted_labels.deep_view(), actual_labels.deep_view(), 1, 1),
{
    fold_with_values(predicted_labels, actual_labels, 1, 1)
}

/// Cells predicted `1` that are `0` in the truth.
pub fn false_positives(predicted_labels: &Vec<Vec<u32>>, actual_labels: &Vec<Vec<u32>>) -> (r: usize)
    requires
        total_cells(predicted_labels.deep_view()) <= usize::MAX,
    ensures
        r == count_pairs(predicted_labels.deep_view(), actual_labels.deep_view(), 1, 0),
{
    fold_with_values(predicted_labels, actual_labels, 1, 0)
}

/// Cells predicted `0` that are `1` in the truth.
pub fn false_negatives(predicted_labels: &Vec<Vec<u32>>, actual_labels: &Vec<Vec<u32>>) -> (r: usize)
    requires
        total_cells(predicted_labels.deep_view()) <= usize::MAX,
    ensures
        r == count_pairs(predicted_labels.deep_view(), actual_labels.deep_view(), 0, 1),
{
    fold_with_values(predicted_labels, actual_labels, 0, 1)
}

/// Micro-averaged F1 of a 0/1 prediction against the 0/1 truth; `0 / 1`,
/// without any division, when no cell is a true positive.
pub fn f1_score(predicted_labels: &Vec<Vec<u32>>, actual_labels: &Vec<Vec<u32>>) -> (r: F1Score)
    requires
        total_cells(predicted_labels.deep_view()) <= usize::MAX,
        total_cells(predicted_labels.deep_view()) <= i64::MAX,
    ensures
        (r.numerator as int, r.denominator as int) == f1_of(
            count_pairs(predicted_labels.deep_view(), actual_labels.deep_view(), 1, 1),
            count_pairs(predicted_labels.deep_view(), actual_labels.deep_view(), 1, 0),
            count_pairs(predicted_labels.deep_view(), actual_labels.deep_view(), 0, 1),
        ),
        r.denominator > 0,
        r.numerator <= r.denominator,
{
    let tp = true_positives(predicted_labels, actual_labels);
    if tp == 0 {
        return F1Score { numerator: 0, denominator: 1 };
    }
    let fp = false_positives(predicted_labels, actual_labels);
    let fn_ = false_negatives(predicted_labels, actual_labels);
    proof {
        let p = predicted_labels.deep_view();
        let a = actual_labels.deep_view();
        let rows = if p.len() <= a.len() { p.len() as int } else { a.len() as int };
        lemma_matrix_counts_bounded(p, a, rows);
        lemma_cells_monotone(p, rows, p.len() as int);
    }
    let tp2 = 2 * (tp as u64);
    F1Score { numerator: tp2, denominator: tp2 + fp as u64 + fn_ as u64 }
}

/// Whether `a` is a strictly greater F1 than `b`.
pub fn f1_exceeds(a: F1Score, b: F1Score) -> (r: bool)
    ensures
        r == exceeds(a, b),
{
    let an = a.numerator as u128;
    let ad = a.denominator as u128;
    let bn = b.numerator as u128;
    let bd = b.denominator as u128;
    assert(an * bd <= u64::MAX * u64::MAX) by (nonlinear_arith)
        requires
            an <= u64::MAX,
            bd <= u64::MAX,
    ;
    assert(bn * ad <= u64::MAX * u64::MAX) by (nonlinear_arith)
        requires
            bn <= u64::MAX,
            ad <= u64::MAX,
    ;
    an * bd > bn * ad
}

} // verus!
