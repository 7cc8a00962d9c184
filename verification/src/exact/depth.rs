//! Depth attention in exact arithmetic.
use vstd::prelude::*;

use crate::exact;
use crate::exact::{Choice, Row};
use crate::formula;

verus! {

/// A sum over rows, term by term.
pub proof fn lemma_total_rows(rows: Seq<Row>, g: spec_fn(Row) -> real, t: Seq<real>)
    requires
        t.len() == rows.len(),
        forall|k: int| 0 <= k < rows.len() ==> #[trigger] t[k] == g(rows[k]),
    ensures
        exact::total(t) == exact::over_rows(rows, g),
    decreases rows.len(),
{
    if rows.len() > 0 {
        let (u, v) = (rows.drop_last(), t.drop_last());
        assert forall|k: int| 0 <= k < u.len() implies #[trigger] v[k] == g(u[k]) by {
            assert(v[k] == t[k]);
        }
        lemma_total_rows(u, g, v);
    }
}

/// Depth attention is the mixture of the layers under the softmax of their scores.
pub proof fn lemma_depth(x: Choice, q: Row, rows: Seq<Row>)
    requires
        exact::sound(x),
        rows.len() > 0,
    ensures
        formula::weighted_sum(exact::reals(x), q, rows) == exact::mixed(x.e, exact::scorer(x, q), rows, q.len()),
{
    let a = exact::reals(x);
    let s = exact::scorer(x, q);
    let scores = Seq::new(rows.len(), |k: int| formula::score(a, q, rows[k]));
    let exps = Seq::new(scores.len(), |j: int| (x.e)(scores[j]));
    let all = exact::mass(x.e, s, rows, 0real);
    assert forall|k: int| 0 <= k < rows.len() implies #[trigger] exps[k] == (|r: Row|
        (x.e)(s(r) - 0real))(rows[k]) by {
        assert(scores[k] == s(rows[k]) - 0real);
    }
    lemma_total_rows(rows, |r: Row| (x.e)(s(r) - 0real), exps);
    exact::lemma_mass(x.e, s, rows, 0real);
    let w = formula::weights(a, q, rows);
    let r = formula::weighted_sum(a, q, rows);
    let f = 1real / all;
    assert forall|c: int| 0 <= c < q.len() implies #[trigger] r[c] == exact::pull(x.e, s, rows, 0real, c)
        / all by {
        let g = |r: Row| (x.e)(s(r) - 0real) * r[c];
        let plain = Seq::new(rows.len(), |k: int| g(rows[k]));
        let terms = Seq::new(rows.len(), |k: int| (a.times)(rows[k][c], w[k]));
        lemma_total_rows(rows, g, plain);
        assert forall|k: int| 0 <= k < plain.len() implies #[trigger] terms[k] == plain[k] * f by {
            let (u, v) = (rows[k][c], (x.e)(scores[k]));
            assert(scores[k] == s(rows[k]) - 0real);
            assert(w[k] == v / exact::total(exps));
            assert(u * (v / all) == (v * u) * (1real / all)) by (nonlinear_arith)
                requires
                    all > 0real,
            ;
        }
        exact::lemma_total_scaled(plain, terms, f);
        let p = exact::total(plain);
        assert(p * (1real / all) == p / all) by (nonlinear_arith)
            requires
                all > 0real,
        ;
    }
    assert(r =~= exact::mixed(x.e, s, rows, q.len()));
}

/// Attention over sources one at a time is depth attention over them.
pub proof fn lemma_streaming_is_depth(x: Choice, q: Row, rows: Seq<Row>)
    requires
        exact::sound(x),
        rows.len() > 0,
        exact::fitting(q, rows),
    ensures
        formula::attended(exact::reals(x), formula::over_sources(exact::reals(x), q, rows))
            == formula::weighted_sum(exact::reals(x), q, rows),
{
    exact::lemma_attended(x, q, rows);
    lemma_depth(x, q, rows);
}

/// Depth attention over one layer is that layer.
pub proof fn lemma_one_layer(x: Choice, q: Row, row: Row)
    requires
        exact::sound(x),
        row.len() == q.len(),
    ensures
        formula::weighted_sum(exact::reals(x), q, seq![row]) == row,
{
    let rows = seq![row];
    let s = exact::scorer(x, q);
    lemma_depth(x, q, rows);
    let e = (x.e)(s(row) - 0real);
    assert(rows.drop_last() =~= Seq::<Row>::empty());
    assert(exact::mass(x.e, s, rows, 0real) == exact::over_rows(
        rows.drop_last(),
        |r: Row| (x.e)(s(r) - 0real),
    ) + e);
    assert forall|c: int| 0 <= c < q.len() implies #[trigger] exact::mixed(x.e, s, rows, q.len())[c]
        == row[c] by {
        assert(exact::pull(x.e, s, rows, 0real, c) == exact::over_rows(
            rows.drop_last(),
            |r: Row| (x.e)(s(r) - 0real) * r[c],
        ) + e * row[c]);
        let v = row[c];
        assert((e * v) / e == v) by (nonlinear_arith)
            requires
                e > 0real,
        ;
    }
    assert(exact::mixed(x.e, s, rows, q.len()) =~= row);
}

} // verus!
