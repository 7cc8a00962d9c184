//! Attention in exact arithmetic, written out.
use vstd::prelude::*;

use crate::exact;
use crate::exact::chunks;
use crate::exact::depth;
use crate::exact::{Choice, Row};
use crate::formula;

verus! {

/// A sum starts at zero, and one term more is added to it.
pub proof fn lemma_total(s: Seq<real>, v: real)
    ensures
        exact::total(Seq::<real>::empty()) == 0real,
        exact::total(s.push(v)) == exact::total(s) + v,
{
    assert(s.push(v).drop_last() =~= s);
}

/// The arithmetic of real numbers has the operations of the real numbers.
pub proof fn lemma_reals(x: Choice)
    ensures
        ({
            let a = exact::reals(x);
            &&& forall|u: real, v: real| #[trigger] (a.plus)(u, v) == u + v
            &&& forall|u: real, v: real| #[trigger] (a.minus)(u, v) == u - v
            &&& forall|u: real, v: real| #[trigger] (a.times)(u, v) == u * v
            &&& forall|u: real, v: real| #[trigger] (a.over)(u, v) == u / v
            &&& forall|u: real, v: real|
                (#[trigger] (a.larger)(u, v)) == (if u < v {
                    v
                } else {
                    u
                })
            &&& forall|u: real| #[trigger] (a.square)(u) == u * u
            &&& forall|u: real| #[trigger] (a.root)(u) == (x.root)(u)
            &&& forall|u: real| #[trigger] (a.inverse_root)(u) == 1real / (x.root)(u)
            &&& forall|u: real| #[trigger] (a.inverse_cube)(u) == 1real / ((x.root)(u) * u)
            &&& forall|u: real| #[trigger] (a.exp)(u) == (x.e)(u)
            &&& forall|u: real|
                (#[trigger] (a.magnitude)(u)) == (if u < 0real {
                    -u
                } else {
                    u
                })
            &&& forall|u: real| #[trigger] (a.halved)(u) == u / 2real
            &&& forall|u: real|
                (#[trigger] (a.bounded)(u)) == (if u < x.least {
                    x.least
                } else {
                    u
                })
            &&& forall|s: Seq<real>| #[trigger] (a.sum_columns)(s) == exact::total(s)
            &&& forall|s: Seq<real>| #[trigger] (a.sum_layers)(s) == exact::total(s)
            &&& forall|s: Seq<real>, k: int|
                0 <= k < s.len() ==> #[trigger] (a.softmax)(s)[k] == (x.e)(s[k]) / exact::total(
                    Seq::new(s.len(), |j: int| (x.e)(s[j])),
                )
            &&& a.zero == 0real
            &&& a.one == 1real
            &&& a.epsilon == x.epsilon
            &&& a.scale == x.scale
            &&& a.floor == x.floor
        }),
{
}

/// Depth attention, and attention over the same layers one at a time: every column is the
/// sum of that column over all layers, each under the exponential of its score, over the
/// sum of these exponentials. The score of a layer is the scaled product of the query and
/// the layer over the layer's norm.
pub proof fn lemma_mixture(x: Choice, q: Row, rows: Seq<Row>, c: int)
    requires
        exact::sound(x),
        rows.len() > 0,
        forall|k: int| 0 <= k < rows.len() ==> (#[trigger] rows[k]).len() == q.len(),
        0 <= c < q.len(),
    ensures
        ({
            let a = exact::reals(x);
            let norm = |k: int|
                (x.root)(
                    exact::total(Seq::new(q.len(), |i: int| rows[k][i] * rows[k][i])) + x.epsilon,
                );
            let score = |k: int|
                exact::total(Seq::new(q.len(), |i: int| q[i] * (rows[k][i] / norm(k)))) * x.scale;
            let weight = exact::total(Seq::new(rows.len(), |k: int| (x.e)(score(k))));
            let sum = exact::total(Seq::new(rows.len(), |k: int| (x.e)(score(k)) * rows[k][c]));
            &&& weight > 0real
            &&& formula::weighted_sum(a, q, rows)[c] == sum / weight
            &&& formula::attended(a, formula::over_sources(a, q, rows))[c] == sum / weight
        }),
{
    let a = exact::reals(x);
    let s = exact::scorer(x, q);
    let norm = |k: int|
        (x.root)(exact::total(Seq::new(q.len(), |i: int| rows[k][i] * rows[k][i])) + x.epsilon);
    let score = |k: int|
        exact::total(Seq::new(q.len(), |i: int| q[i] * (rows[k][i] / norm(k)))) * x.scale;
    assert forall|k: int| 0 <= k < rows.len() implies #[trigger] score(k) == s(rows[k]) by {
        let r = rows[k];
        assert(r.len() == q.len());
        assert(Seq::new(r.len(), |i: int| (a.square)(r[i])) =~= Seq::new(
            q.len(),
            |i: int| rows[k][i] * rows[k][i],
        ));
        let n = formula::norm(a, r);
        assert(n == norm(k));
        assert(Seq::new(r.len(), |i: int| (a.times)(q[i], (a.over)(r[i], n))) =~= Seq::new(
            q.len(),
            |i: int| q[i] * (rows[k][i] / norm(k)),
        ));
    }
    let exps = Seq::new(rows.len(), |k: int| (x.e)(score(k)));
    let terms = Seq::new(rows.len(), |k: int| (x.e)(score(k)) * rows[k][c]);
    assert forall|k: int| 0 <= k < rows.len() implies #[trigger] exps[k] == (|r: Row|
        (x.e)(s(r) - 0real))(rows[k]) by {
        assert(score(k) == s(rows[k]) - 0real);
    }
    depth::lemma_total_rows(rows, |r: Row| (x.e)(s(r) - 0real), exps);
    assert forall|k: int| 0 <= k < rows.len() implies #[trigger] terms[k] == (|r: Row|
        (x.e)(s(r) - 0real) * r[c])(rows[k]) by {
        assert(score(k) == s(rows[k]) - 0real);
    }
    depth::lemma_total_rows(rows, |r: Row| (x.e)(s(r) - 0real) * r[c], terms);
    exact::lemma_mass(x.e, s, rows, 0real);
    depth::lemma_depth(x, q, rows);
    depth::lemma_streaming_is_depth(x, q, rows);
}

/// Attention chunk by chunk gives that mixture of all rows too, where one of the scores is
/// not below the floor.
pub proof fn lemma_chunked_mixture(
    x: Choice,
    q: Row,
    chunks: Seq<Seq<Row>>,
    top: int,
    c: int,
)
    requires
        exact::sound(x),
        forall|k: int|
            0 <= k < formula::joined(chunks).len() ==> (#[trigger] formula::joined(chunks)[k]).len()
                == q.len(),
        0 <= top < formula::joined(chunks).len(),
        formula::score(exact::reals(x), q, formula::joined(chunks)[top]) >= x.floor,
        0 <= c < q.len(),
    ensures
        ({
            let a = exact::reals(x);
            let rows = formula::joined(chunks);
            let norm = |k: int|
                (x.root)(
                    exact::total(Seq::new(q.len(), |i: int| rows[k][i] * rows[k][i])) + x.epsilon,
                );
            let score = |k: int|
                exact::total(Seq::new(q.len(), |i: int| q[i] * (rows[k][i] / norm(k)))) * x.scale;
            let weight = exact::total(Seq::new(rows.len(), |k: int| (x.e)(score(k))));
            let sum = exact::total(Seq::new(rows.len(), |k: int| (x.e)(score(k)) * rows[k][c]));
            formula::attended(a, formula::over_chunks(a, q, chunks))[c] == sum / weight
        }),
{
    let rows = formula::joined(chunks);
    lemma_highest(exact::scorer(x, q), rows, top);
    lemma_mixture(x, q, rows, c);
    chunks::lemma_chunks_are_depth(x, q, chunks);
}

proof fn lemma_highest(s: spec_fn(Row) -> real, rows: Seq<Row>, k: int)
    requires
        0 <= k < rows.len(),
    ensures
        exact::highest(s, rows) >= s(rows[k]),
    decreases rows.len(),
{
    if rows.len() > 1 && k < rows.len() - 1 {
        lemma_highest(s, rows.drop_last(), k);
    }
}

} // verus!
