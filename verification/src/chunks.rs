//! Attention chunk by chunk, built up one score, one row and one chunk at a time.
use vstd::prelude::*;

use crate::array;
use crate::array::Array;
use crate::elements;
use crate::formula;
use crate::formula::{Arithmetic, State};
use crate::fused;
use crate::launch;
use crate::online::Online;
use crate::positions;
use crate::rowwise;

verus! {

/// The largest score starts below all scores, and one score more is compared with it.
pub proof fn lemma_peak<T>(a: Arithmetic<T>, scores: Seq<T>, s: T)
    ensures
        formula::peak(a, Seq::<T>::empty()) == (a.plus)(a.zero, a.floor),
        formula::peak(a, scores.push(s)) == (a.larger)(formula::peak(a, scores), s),
{
    assert(scores.push(s).drop_last() =~= scores);
}

/// The sum of the exponentials starts at zero, and one score more adds its own.
pub proof fn lemma_exp_total<T>(a: Arithmetic<T>, scores: Seq<T>, s: T, m: T)
    ensures
        formula::exp_total(a, Seq::<T>::empty(), m) == a.zero,
        formula::exp_total(a, scores.push(s), m) == (a.plus)(
            formula::exp_total(a, scores, m),
            (a.exp)((a.minus)(s, m)),
        ),
{
    assert(scores.push(s).drop_last() =~= scores);
}

/// The weighted sum starts at zero, and one row more adds its column under the exponential
/// of its score.
pub proof fn lemma_mixture<T>(
    a: Arithmetic<T>,
    rows: Seq<Seq<T>>,
    scores: Seq<T>,
    row: Seq<T>,
    s: T,
    m: T,
    c: int,
)
    ensures
        formula::mixture(a, Seq::<Seq<T>>::empty(), Seq::<T>::empty(), m, c) == a.zero,
        formula::mixture(a, rows.push(row), scores.push(s), m, c) == (a.plus)(
            formula::mixture(a, rows, scores, m, c),
            (a.times)((a.exp)((a.minus)(s, m)), row[c]),
        ),
{
    assert(rows.push(row).drop_last() =~= rows);
    assert(scores.push(s).drop_last() =~= scores);
}

/// Attention over chunks starts from nothing. A chunk more is scored row by row; what was
/// there is brought to the new largest score, and the chunk is added to it. Only the first
/// chunk finds no weighted sum to add to.
pub proof fn lemma_one_chunk_more<T>(
    a: Arithmetic<T>,
    q: Seq<T>,
    chunks: Seq<Seq<Seq<T>>>,
    rows: Seq<Seq<T>>,
)
    ensures
        ({
            let none = formula::over_chunks(a, q, Seq::<Seq<Seq<T>>>::empty());
            let before = formula::over_chunks(a, q, chunks);
            let after = formula::over_chunks(a, q, chunks.push(rows));
            let scores = Seq::new(
                rows.len(),
                |k: int|
                    (a.over)(
                        (a.times)(
                            (a.sum_columns)(
                                Seq::new(rows[k].len(), |c: int| (a.times)(q[c], rows[k][c])),
                            ),
                            a.scale,
                        ),
                        (a.root)(
                            (a.plus)(
                                (a.sum_columns)(
                                    Seq::new(
                                        rows[k].len(),
                                        |c: int| (a.times)(rows[k][c], rows[k][c]),
                                    ),
                                ),
                                a.epsilon,
                            ),
                        ),
                    ),
            );
            let top = formula::peak(a, scores);
            let rescale = (a.exp)((a.minus)(before.max, after.max));
            &&& none.max == (a.plus)(a.zero, a.floor)
            &&& none.sum == a.zero
            &&& none.acc == Seq::new(q.len(), |c: int| a.zero)
            &&& after.max == (a.larger)(before.max, top)
            &&& after.sum == (a.plus)(
                (a.times)(before.sum, rescale),
                (a.times)(
                    formula::exp_total(a, scores, top),
                    (a.exp)((a.minus)(top, after.max)),
                ),
            )
            &&& after.acc.len() == q.len()
            &&& forall|c: int|
                0 <= c < q.len() ==> #[trigger] after.acc[c] == (if chunks.len() == 0 {
                    formula::mixture(a, rows, scores, after.max, c)
                } else {
                    (a.plus)(
                        (a.times)(before.acc[c], rescale),
                        formula::mixture(a, rows, scores, after.max, c),
                    )
                })
        }),
    decreases chunks.len(),
{
    assert(chunks.push(rows).drop_last() =~= chunks);
    lemma_width(a, q, chunks);
    let scores = Seq::new(rows.len(), |k: int| formula::fused_score(a, q, rows[k]));
    assert(scores =~= Seq::new(
        rows.len(),
        |k: int|
            (a.over)(
                (a.times)(
                    (a.sum_columns)(Seq::new(rows[k].len(), |c: int| (a.times)(q[c], rows[k][c]))),
                    a.scale,
                ),
                (a.root)(
                    (a.plus)(
                        (a.sum_columns)(
                            Seq::new(rows[k].len(), |c: int| (a.times)(rows[k][c], rows[k][c])),
                        ),
                        a.epsilon,
                    ),
                ),
            ),
    ));
}

proof fn lemma_width<T>(a: Arithmetic<T>, q: Seq<T>, chunks: Seq<Seq<Seq<T>>>)
    ensures
        formula::over_chunks(a, q, chunks).acc.len() == q.len(),
    decreases chunks.len(),
{
    if chunks.len() > 0 {
        lemma_width(a, q, chunks.drop_last());
    }
}

/// The attended output: every column over the bounded sum of the weights.
pub proof fn lemma_output<T>(a: Arithmetic<T>, o: State<T>)
    ensures
        formula::attended(a, o) == Seq::new(
            o.acc.len(),
            |c: int| (a.over)(o.acc[c], (a.bounded)(o.sum)),
        ),
{
}

/// What one launch of the chunk computes, at every position and in every column: the
/// largest score is the larger of the running one and the largest of the chunk, what was
/// there is brought to it, and the chunk is added to it.
pub proof fn lemma_folded(
    o: Online,
    rows: Seq<Array>,
    scores: Seq<Array>,
    first: bool,
    like: Array,
    b: nat,
    t: nat,
    d: nat,
    m: nat,
    c: nat,
)
    requires
        rows.len() == scores.len(),
        like.shape == seq![b, t, d],
        like.data.len() == b * t * d,
        o.max_score.shape == seq![b, t, 1],
        o.max_score.data.len() == b * t,
        o.max_score.element == like.element,
        o.sum_exp.shape == seq![b, t, 1],
        o.sum_exp.data.len() == b * t,
        o.sum_exp.element == like.element,
        o.acc.shape == seq![b, t, d],
        o.acc.data.len() == b * t * d,
        o.acc.element == like.element,
        forall|k: int|
            0 <= k < rows.len() ==> (#[trigger] rows[k]).shape == seq![b, t, d]
                && rows[k].data.len() == b * t * d && rows[k].element == like.element,
        forall|k: int|
            0 <= k < scores.len() ==> (#[trigger] scores[k]).shape == seq![b, t, 1]
                && scores[k].data.len() == b * t && scores[k].element == like.element,
        m < b * t,
        c < d,
    ensures
        ({
            let e = like.element;
            let (i, j) = (m as int, (m * d + c) as int);
            let a = rowwise::codes(e, false, d);
            let r = fused::folded(o, rows, scores, first, like);
            let row_data = Seq::new(
                rows.len(),
                |k: int| Seq::new(d, |n: int| rows[k].data[m * d + n]),
            );
            let score_data = Seq::new(scores.len(), |k: int| scores[k].data[m as int]);
            let top = formula::peak(a, score_data);
            let peak = r.max_score.data[i];
            let rescale = array::exp_code(e, array::sub_code(e, o.max_score.data[i], peak));
            let mix = formula::mixture(a, row_data, score_data, peak, c as int);
            &&& peak == (if array::below(e, o.max_score.data[i], top) {
                top
            } else {
                o.max_score.data[i]
            })
            &&& r.sum_exp.data[i] == array::add_code(
                e,
                array::mul_code(e, o.sum_exp.data[i], rescale),
                array::mul_code(
                    e,
                    formula::exp_total(a, score_data, top),
                    array::exp_code(e, array::sub_code(e, top, peak)),
                ),
            )
            &&& r.acc.data[j] == (if first {
                mix
            } else {
                array::add_code(e, array::mul_code(e, o.acc.data[j], rescale), mix)
            })
        }),
{
    let e = like.element;
    let outer = seq![b, t];
    let a = rowwise::codes(e, false, d);
    elements::lemma_arithmetic(e, false, d);
    elements::lemma_layout(like, b, t, d);
    elements::lemma_layout(o.max_score, b, t, 1);
    elements::lemma_layout(o.sum_exp, b, t, 1);
    elements::lemma_layout(o.acc, b, t, d);
    assert forall|k: int| 0 <= k < rows.len() implies positions::rows_on(#[trigger] rows[k], outer)
        && rows[k].shape.last() == d && rows[k].element == e by {
        elements::lemma_layout(rows[k], b, t, d);
    }
    assert forall|k: int| 0 <= k < scores.len() implies positions::rows_on(
        #[trigger] scores[k],
        outer,
    ) && scores[k].shape.last() == 1 && scores[k].element == e by {
        elements::lemma_layout(scores[k], b, t, 1);
    }
    rowwise::lemma_folded(o, rows, scores, first, like, outer, false);
    let r = fused::folded(o, rows, scores, first, like);
    let row_data = Seq::new(rows.len(), |k: int| Seq::new(d, |n: int| rows[k].data[m * d + n]));
    let score_data = Seq::new(scores.len(), |k: int| scores[k].data[m as int]);
    let at = rowwise::rows_at(rows, m);
    assert forall|k: int| 0 <= k < rows.len() implies #[trigger] at[k] == row_data[k] by {
        assert(rows[k].shape == seq![b, t, d]);
        elements::lemma_layout(rows[k], b, t, d);
        elements::lemma_row(rows[k], outer, m);
        assert(at[k] =~= row_data[k]);
    }
    assert(at =~= row_data);
    assert(rowwise::cells_at(scores, m) =~= score_data) by {
        assert forall|k: int| 0 <= k < scores.len() implies #[trigger] rowwise::cells_at(
            scores,
            m,
        )[k] == score_data[k] by {
            assert(scores[k].shape == seq![b, t, 1nat]);
            elements::lemma_layout(scores[k], b, t, 1);
            elements::lemma_row(scores[k], outer, m);
        }
    }
    elements::lemma_row(o.max_score, outer, m);
    elements::lemma_row(o.sum_exp, outer, m);
    elements::lemma_row(o.acc, outer, m);
    elements::lemma_row(r.max_score, outer, m);
    elements::lemma_row(r.sum_exp, outer, m);
    elements::lemma_row(r.acc, outer, m);
    let s = rowwise::state(r, m);
    let before = rowwise::state(o, m);
    assert(s == formula::folded(a, before, row_data, score_data, first));
    let j = (m * d + c) as int;
    assert(before.acc.len() == d);
    assert(before.acc[c as int] == o.acc.data[j]);
    assert(s.acc[c as int] == r.acc.data[j]);
    assert(before.max == o.max_score.data[m as int]);
    assert(before.sum == o.sum_exp.data[m as int]);
    assert(s.max == r.max_score.data[m as int]);
    assert(s.sum == r.sum_exp.data[m as int]);
}

/// A chunk buffer has one row for each layer, but no more than eight.
pub proof fn lemma_height(l: nat)
    ensures
        launch::height(l) <= l,
        launch::height(l) <= 8,
        launch::height(l) == l || launch::height(l) == 8,
{
}

/// Chunks are full, of eight layers, but for the last; together they hold every layer.
pub proof fn lemma_chunk_sizes(l: nat, c: nat)
    requires
        0 < l <= usize::MAX,
        c < launch::chunk_count(l),
    ensures
        8 * (launch::chunk_count(l) - 1) < l <= 8 * launch::chunk_count(l),
        launch::chunk(l, c).start == 8 * c,
        launch::chunk(l, c).rows == if l - 8 * c < 8 {
            l - 8 * c
        } else {
            8
        },
        launch::chunk(l, c).first <==> c == 0,
        launch::chunk(l, c).last <==> l <= 8 * (c + 1),
{
    launch::lemma_chunk_count(l);
    launch::lemma_chunks_in_order(l, c);
    let g = launch::height(l);
    let n = launch::chunk_count(l);
    assert(0 <= c * g <= (n - 1) * g) by (nonlinear_arith)
        requires
            0 <= c <= n - 1,
            g >= 0,
    ;
    if l >= 8 {
        assert(g == 8);
        assert((n - 1) * g == 8 * (n - 1)) by (nonlinear_arith)
            requires
                g == 8,
        ;
        assert(n * g == 8 * n) by (nonlinear_arith)
            requires
                g == 8,
        ;
        assert(c * g == 8 * c) by (nonlinear_arith)
            requires
                g == 8,
        ;
    } else {
        assert(n == 1) by (nonlinear_arith)
            requires
                (n - 1) * g < l,
                g == l,
                n > 0,
        ;
        assert(c * g == 0) by (nonlinear_arith)
            requires
                c == 0,
        ;
    }
}

/// How a launch is divided: two to the number of rounds is the number of threads, and the
/// threads have enough turns for every column, and none to spare.
pub proof fn lemma_division(d: nat)
    ensures
        launch::THREADS == 256,
        launch::LOG_THREADS == 8,
        ({
            let per = (d + launch::THREADS - 1) / launch::THREADS as int;
            &&& 256 * per >= d
            &&& d > 0 ==> 256 * (per - 1) < d
            &&& d == 0 ==> per == 0
        }),
        forall|j: nat, tid: nat| #[trigger] launch::column(j, tid) == j * 256 + tid,
{
}

/// Where a launch keeps its entries: positions within a row, columns within a position.
pub proof fn lemma_places(row: nat, positions: nat, at: nat, d: nat, col: nat)
    ensures
        launch::score_index(row, positions, at) == row * positions + at,
        launch::layer_index(at, d, col) == at * d + col,
        launch::chunk_index(row, positions, at, d, col) == row * (positions * d) + at * d + col,
{
}

} // verus!
