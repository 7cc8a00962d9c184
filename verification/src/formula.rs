//! The formulas of attention at one position, over any arithmetic.
//!
//! A row holds the columns of one position. [`rowwise`](crate::rowwise) shows that these
//! formulas, in the arithmetic of an element type, are what the library computes at every
//! position. [`exact`](crate::exact) shows what holds of them in the arithmetic of the
//! real numbers, where nothing is rounded.
use vstd::prelude::*;

verus! {

/// What is computed with single elements, and with the elements of one line.
#[verifier::reject_recursive_types(T)]
pub struct Arithmetic<T> {
    pub plus: spec_fn(T, T) -> T,
    pub minus: spec_fn(T, T) -> T,
    pub times: spec_fn(T, T) -> T,
    pub over: spec_fn(T, T) -> T,
    pub larger: spec_fn(T, T) -> T,
    /// An element times itself.
    pub square: spec_fn(T) -> T,
    pub root: spec_fn(T) -> T,
    /// An element to the power of -1/2.
    pub inverse_root: spec_fn(T) -> T,
    /// An element to the power of -3/2.
    pub inverse_cube: spec_fn(T) -> T,
    pub exp: spec_fn(T) -> T,
    pub magnitude: spec_fn(T) -> T,
    pub halved: spec_fn(T) -> T,
    /// An element, or the least divisor where that is larger.
    pub bounded: spec_fn(T) -> T,
    /// The sum of the columns of a row.
    pub sum_columns: spec_fn(Seq<T>) -> T,
    /// The sum of one column over the layers.
    pub sum_layers: spec_fn(Seq<T>) -> T,
    /// The softmax of the scores of the layers.
    pub softmax: spec_fn(Seq<T>) -> Seq<T>,
    pub zero: T,
    pub one: T,
    /// The term that keeps a norm away from zero.
    pub epsilon: T,
    /// The scale of the scores.
    pub scale: T,
    /// What lies below the scores.
    pub floor: T,
}

/// Attention over the sources so far, at one position.
pub struct State<T> {
    pub max: T,
    pub sum: T,
    pub acc: Seq<T>,
}

/// The norm of a row: the root of the sum of squares and a small term.
pub open spec fn norm<T>(a: Arithmetic<T>, x: Seq<T>) -> T {
    let squares = Seq::new(x.len(), |c: int| (a.square)(x[c]));
    (a.root)((a.plus)((a.sum_columns)(squares), a.epsilon))
}

/// The score of a row: the scaled product of the query and the row over its norm.
pub open spec fn score<T>(a: Arithmetic<T>, q: Seq<T>, x: Seq<T>) -> T {
    let n = norm(a, x);
    let products = Seq::new(x.len(), |c: int| (a.times)(q[c], (a.over)(x[c], n)));
    (a.times)((a.sum_columns)(products), a.scale)
}

/// The score of a row: the scaled product of the query and the row, over the norm.
pub open spec fn fused_score<T>(a: Arithmetic<T>, q: Seq<T>, x: Seq<T>) -> T {
    let products = Seq::new(x.len(), |c: int| (a.times)(q[c], x[c]));
    let squares = Seq::new(x.len(), |c: int| (a.times)(x[c], x[c]));
    (a.over)(
        (a.times)((a.sum_columns)(products), a.scale),
        (a.root)((a.plus)((a.sum_columns)(squares), a.epsilon)),
    )
}

/// The weights of the layers.
pub open spec fn weights<T>(a: Arithmetic<T>, q: Seq<T>, rows: Seq<Seq<T>>) -> Seq<T> {
    (a.softmax)(Seq::new(rows.len(), |k: int| score(a, q, rows[k])))
}

/// The sum of the layers under their weights.
pub open spec fn weighted_sum<T>(a: Arithmetic<T>, q: Seq<T>, rows: Seq<Seq<T>>) -> Seq<T> {
    let w = weights(a, q, rows);
    Seq::new(
        q.len(),
        |c: int| (a.sum_layers)(Seq::new(rows.len(), |k: int| (a.times)(rows[k][c], w[k]))),
    )
}

/// The larger of two scores, as half of their sum and their distance.
pub open spec fn upper<T>(a: Arithmetic<T>, m: T, s: T) -> T {
    (a.halved)((a.plus)((a.plus)(m, s), (a.magnitude)((a.minus)(m, s))))
}

/// Attention over one source.
pub open spec fn first<T>(a: Arithmetic<T>, x: Seq<T>, s: T) -> State<T> {
    State { max: s, sum: a.one, acc: x }
}

/// Attention with one source more, relative to the new reference point `m`.
pub open spec fn moved<T>(a: Arithmetic<T>, o: State<T>, x: Seq<T>, s: T, m: T) -> State<T> {
    let rescale = (a.exp)((a.minus)(o.max, m));
    let w = (a.exp)((a.minus)(s, m));
    State {
        max: m,
        sum: (a.plus)((a.times)(o.sum, rescale), w),
        acc: Seq::new(
            x.len(),
            |c: int| (a.plus)((a.times)(o.acc[c], rescale), (a.times)(x[c], w)),
        ),
    }
}

/// Attention with one source more.
pub open spec fn merge<T>(a: Arithmetic<T>, o: State<T>, x: Seq<T>, s: T) -> State<T> {
    moved(a, o, x, s, upper(a, o.max, s))
}

/// Attention with one source more, on the fused path.
pub open spec fn fused_merge<T>(a: Arithmetic<T>, o: State<T>, x: Seq<T>, s: T) -> State<T> {
    moved(a, o, x, s, (a.larger)(o.max, s))
}

/// The attended output.
pub open spec fn attended<T>(a: Arithmetic<T>, o: State<T>) -> Seq<T> {
    Seq::new(o.acc.len(), |c: int| (a.over)(o.acc[c], (a.bounded)(o.sum)))
}

/// Attention over sources in their order.
pub open spec fn over_sources<T>(a: Arithmetic<T>, q: Seq<T>, rows: Seq<Seq<T>>) -> State<T>
    decreases rows.len(),
{
    let x = rows.last();
    let s = score(a, q, x);
    if rows.len() <= 1 {
        first(a, x, s)
    } else {
        merge(a, over_sources(a, q, rows.drop_last()), x, s)
    }
}

/// Attention over sources in their order, on the fused path.
pub open spec fn fused_over_sources<T>(a: Arithmetic<T>, q: Seq<T>, rows: Seq<Seq<T>>) -> State<T>
    decreases rows.len(),
{
    let x = rows.last();
    let s = fused_score(a, q, x);
    if rows.len() <= 1 {
        first(a, x, s)
    } else {
        fused_merge(a, fused_over_sources(a, q, rows.drop_last()), x, s)
    }
}

/// The largest of the scores of a chunk.
pub open spec fn peak<T>(a: Arithmetic<T>, scores: Seq<T>) -> T
    decreases scores.len(),
{
    if scores.len() == 0 {
        (a.plus)(a.zero, a.floor)
    } else {
        (a.larger)(peak(a, scores.drop_last()), scores.last())
    }
}

/// The sum of the exponentials of the scores relative to `m`.
pub open spec fn exp_total<T>(a: Arithmetic<T>, scores: Seq<T>, m: T) -> T
    decreases scores.len(),
{
    if scores.len() == 0 {
        a.zero
    } else {
        (a.plus)(exp_total(a, scores.drop_last(), m), (a.exp)((a.minus)(scores.last(), m)))
    }
}

/// One column of the sum of the rows under the exponentials of their scores.
pub open spec fn mixture<T>(a: Arithmetic<T>, rows: Seq<Seq<T>>, scores: Seq<T>, m: T, c: int) -> T
    decreases rows.len(),
{
    if rows.len() == 0 {
        a.zero
    } else {
        (a.plus)(
            mixture(a, rows.drop_last(), scores.drop_last(), m, c),
            (a.times)((a.exp)((a.minus)(scores.last(), m)), rows.last()[c]),
        )
    }
}

/// Attention with one chunk of rows more.
pub open spec fn folded<T>(
    a: Arithmetic<T>,
    o: State<T>,
    rows: Seq<Seq<T>>,
    scores: Seq<T>,
    first: bool,
) -> State<T> {
    let top = peak(a, scores);
    let m = (a.larger)(o.max, top);
    let rescale = (a.exp)((a.minus)(o.max, m));
    State {
        max: m,
        sum: (a.plus)(
            (a.times)(o.sum, rescale),
            (a.times)(exp_total(a, scores, top), (a.exp)((a.minus)(top, m))),
        ),
        acc: Seq::new(
            o.acc.len(),
            |c: int|
                {
                    let mix = mixture(a, rows, scores, m, c);
                    if first {
                        mix
                    } else {
                        (a.plus)((a.times)(o.acc[c], rescale), mix)
                    }
                },
        ),
    }
}

/// Attention over nothing, for rows of `d` columns.
pub open spec fn unstarted<T>(a: Arithmetic<T>, d: nat) -> State<T> {
    State { max: (a.plus)(a.zero, a.floor), sum: a.zero, acc: Seq::new(d, |c: int| a.zero) }
}

/// Attention over chunks of rows, in their order.
pub open spec fn over_chunks<T>(a: Arithmetic<T>, q: Seq<T>, chunks: Seq<Seq<Seq<T>>>) -> State<T>
    decreases chunks.len(),
{
    if chunks.len() == 0 {
        unstarted(a, q.len())
    } else {
        let rows = chunks.last();
        let scores = Seq::new(rows.len(), |k: int| fused_score(a, q, rows[k]));
        folded(a, over_chunks(a, q, chunks.drop_last()), rows, scores, chunks.len() == 1)
    }
}

/// All rows of the chunks, in their order.
pub open spec fn joined<T>(chunks: Seq<Seq<Seq<T>>>) -> Seq<Seq<T>>
    decreases chunks.len(),
{
    if chunks.len() == 0 {
        seq![]
    } else {
        joined(chunks.drop_last()) + chunks.last()
    }
}

/// The plain sum of the rows of a block.
pub open spec fn block_sum<T>(a: Arithmetic<T>, rows: Seq<Seq<T>>) -> Seq<T>
    decreases rows.len(),
{
    if rows.len() <= 1 {
        rows.last()
    } else {
        let before = block_sum(a, rows.drop_last());
        Seq::new(rows.last().len(), |c: int| (a.plus)(before[c], rows.last()[c]))
    }
}

// ---- the gradient ----

/// The square of the norm of a row.
pub open spec fn norm_square<T>(a: Arithmetic<T>, x: Seq<T>) -> T {
    let squares = Seq::new(x.len(), |c: int| (a.square)(x[c]));
    (a.plus)((a.sum_columns)(squares), a.epsilon)
}

/// The product of two rows.
pub open spec fn dot<T>(a: Arithmetic<T>, q: Seq<T>, x: Seq<T>) -> T {
    (a.sum_columns)(Seq::new(x.len(), |c: int| (a.times)(q[c], x[c])))
}

/// The score of a row, by way of the inverse of its norm.
pub open spec fn gradient_score<T>(a: Arithmetic<T>, q: Seq<T>, x: Seq<T>) -> T {
    (a.times)((a.times)(dot(a, q, x), (a.inverse_root)(norm_square(a, x))), a.scale)
}

/// The weights of the layers, by way of these scores.
pub open spec fn gradient_weights<T>(a: Arithmetic<T>, q: Seq<T>, rows: Seq<Seq<T>>) -> Seq<T> {
    (a.softmax)(Seq::new(rows.len(), |k: int| gradient_score(a, q, rows[k])))
}

/// The gradient of the score of the layer `k`, for the gradient `g` of the result.
pub open spec fn score_gradient<T>(
    a: Arithmetic<T>,
    q: Seq<T>,
    rows: Seq<Seq<T>>,
    g: Seq<T>,
    k: int,
) -> T {
    let w = gradient_weights(a, q, rows);
    let mean = (a.sum_layers)(
        Seq::new(rows.len(), |j: int| (a.times)(w[j], dot(a, g, rows[j]))),
    );
    (a.times)(w[k], (a.minus)(dot(a, g, rows[k]), mean))
}

/// The gradient of the layer `k`.
pub open spec fn layer_gradient<T>(
    a: Arithmetic<T>,
    q: Seq<T>,
    rows: Seq<Seq<T>>,
    g: Seq<T>,
    k: int,
) -> Seq<T> {
    let x = rows[k];
    let w = gradient_weights(a, q, rows)[k];
    let ds = score_gradient(a, q, rows, g, k);
    let n = norm_square(a, x);
    Seq::new(
        x.len(),
        |c: int|
            (a.plus)(
                (a.times)(w, g[c]),
                (a.times)(
                    (a.times)(
                        ds,
                        (a.minus)(
                            (a.times)(q[c], (a.inverse_root)(n)),
                            (a.times)((a.times)(x[c], dot(a, q, x)), (a.inverse_cube)(n)),
                        ),
                    ),
                    a.scale,
                ),
            ),
    )
}

/// What the layer `k` adds to the gradient of the query.
pub open spec fn query_gradient<T>(
    a: Arithmetic<T>,
    q: Seq<T>,
    rows: Seq<Seq<T>>,
    g: Seq<T>,
    k: int,
) -> Seq<T> {
    let x = rows[k];
    let ds = score_gradient(a, q, rows, g, k);
    Seq::new(
        x.len(),
        |c: int|
            (a.times)(
                (a.times)((a.times)(ds, x[c]), (a.inverse_root)(norm_square(a, x))),
                a.scale,
            ),
    )
}

} // verus!
