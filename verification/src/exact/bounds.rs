//! Bounds in exact arithmetic, and attention with a query of zeros.
use vstd::prelude::*;

use crate::exact;
use crate::exact::algebra;
use crate::exact::depth;
use crate::exact::gradient;
use crate::exact::{Choice, Row};
use crate::formula;

verus! {

// ---- the result stays among the layers ----

proof fn lemma_pull_bounds(
    e: spec_fn(real) -> real,
    s: spec_fn(Row) -> real,
    rows: Seq<Row>,
    c: int,
    lo: real,
    hi: real,
)
    requires
        exact::exponential(e),
        forall|k: int| 0 <= k < rows.len() ==> lo <= (#[trigger] rows[k])[c] <= hi,
    ensures
        lo * exact::mass(e, s, rows, 0real) <= exact::pull(e, s, rows, 0real, c),
        exact::pull(e, s, rows, 0real, c) <= hi * exact::mass(e, s, rows, 0real),
    decreases rows.len(),
{
    if rows.len() == 0 {
        algebra::lemma_nothing(lo);
        algebra::lemma_nothing(hi);
    } else {
        let before = rows.drop_last();
        let r = rows.last();
        assert forall|k: int| 0 <= k < before.len() implies lo <= (#[trigger] before[k])[c]
            <= hi by {
            assert(before[k] == rows[k]);
        }
        assert(rows[rows.len() - 1] == r);
        lemma_pull_bounds(e, s, before, c, lo, hi);
        let w = e(s(r) - 0real);
        exact::lemma_exp(e, s(r) - 0real, 0real);
        let m = exact::mass(e, s, before, 0real);
        assert(exact::mass(e, s, rows, 0real) == m + w);
        assert(exact::pull(e, s, rows, 0real, c) == exact::pull(e, s, before, 0real, c) + w * r[c]);
        algebra::lemma_distributes(m, w, lo);
        algebra::lemma_distributes(m, w, hi);
        algebra::lemma_ordered(lo, r[c], w);
        algebra::lemma_ordered(r[c], hi, w);
        algebra::lemma_commutes(w, r[c]);
    }
}

/// The result of depth attention stays bounded: no column of it leaves the range of that
/// column in the layers, however many layers there are.
pub proof fn lemma_bounded(x: Choice, q: Row, rows: Seq<Row>, c: int, lo: real, hi: real)
    requires
        exact::sound(x),
        rows.len() > 0,
        0 <= c < q.len(),
        forall|k: int| 0 <= k < rows.len() ==> lo <= (#[trigger] rows[k])[c] <= hi,
    ensures
        lo <= formula::weighted_sum(exact::reals(x), q, rows)[c] <= hi,
{
    let s = exact::scorer(x, q);
    depth::lemma_depth(x, q, rows);
    lemma_pull_bounds(x.e, s, rows, c, lo, hi);
    exact::lemma_mass(x.e, s, rows, 0real);
    let (p, m) = (exact::pull(x.e, s, rows, 0real, c), exact::mass(x.e, s, rows, 0real));
    algebra::lemma_divided(p, m);
    algebra::lemma_order_without(lo, p / m, m);
    algebra::lemma_order_without(p / m, hi, m);
}

// ---- scores ----

/// The square of the product of two rows is at most the product of their squares, with the
/// term of the norm in one of them.
proof fn lemma_product_bound(x: Choice, q: Row, r: Row)
    requires
        exact::sound(x),
        r.len() == q.len(),
    ensures
        gradient::inner(q, r) * gradient::inner(q, r) <= gradient::inner(q, q)
            * formula::norm_square(exact::reals(x), r),
{
    let a = exact::reals(x);
    let n = formula::norm_square(a, r);
    let (b, c) = (gradient::inner(q, r), gradient::inner(q, q));
    let qq = Seq::new(q.len(), |k: int| q[k] * q[k]);
    let qr = Seq::new(r.len(), |k: int| q[k] * r[k]);
    let rr = Seq::new(r.len(), |k: int| r[k] * r[k]);
    assert(Seq::new(r.len(), |k: int| (a.square)(r[k])) =~= rr);
    let t = exact::total(rr);
    assert(n == t + x.epsilon);
    gradient::lemma_norm_square(x, r);
    let v = formula::norm(a, r);
    algebra::lemma_inverses(v);
    assert(n > 0real);
    // the squares of n q - b r
    let nb = (n * b) * 2real;
    let squares = Seq::new(r.len(), |k: int| (n * q[k] - b * r[k]) * (n * q[k] - b * r[k]));
    assert forall|k: int| 0 <= k < squares.len() implies #[trigger] squares[k] == qq[k] * (n * n)
        + qr[k] * (0real - nb) + rr[k] * (b * b) by {
        lemma_expanded(n, q[k], b, r[k]);
    }
    algebra::lemma_total_blend(squares, qq, qr, rr, n * n, 0real - nb, b * b);
    assert forall|k: int| 0 <= k < squares.len() implies #[trigger] squares[k] >= 0real by {
        algebra::lemma_square(n * q[k] - b * r[k]);
    }
    exact::lemma_total_nonnegative(squares);
    // c n n - 2 n b b + t b b >= 0, and t <= n
    algebra::lemma_negated(b, nb);
    algebra::lemma_three(n, b, b);
    let bb = b * b;
    algebra::lemma_associates(b, n * b, 2real);
    algebra::lemma_three(b, n, b);
    assert(b * nb == (n * bb) * 2real);
    algebra::lemma_square(b);
    algebra::lemma_ordered(t, n, bb);
    algebra::lemma_associates(c, n, n);
    algebra::lemma_commutes(n, bb);
    assert(bb * n <= (c * n) * n);
    algebra::lemma_order_without(bb, c * n, n);
}

proof fn lemma_expanded(n: real, q: real, b: real, r: real)
    ensures
        (n * q - b * r) * (n * q - b * r) == (q * q) * (n * n) + (q * r) * (0real - (n * b) * 2real)
            + (r * r) * (b * b),
{
    let (u, w) = (n * q, b * r);
    algebra::lemma_distributes(u, w, u - w);
    algebra::lemma_distributes(u, w, u);
    algebra::lemma_distributes(u, w, w);
    algebra::lemma_commutes(u, w);
    algebra::lemma_four(n, q, n, q);
    algebra::lemma_four(n, q, b, r);
    algebra::lemma_four(b, r, b, r);
    algebra::lemma_negated(q * r, (n * b) * 2real);
    algebra::lemma_associates(q * r, n * b, 2real);
}

/// A score is bounded by the query alone: its square is at most the square of the query
/// times the square of the scale, whatever the source is.
pub proof fn lemma_score_bounded(x: Choice, q: Row, r: Row)
    requires
        exact::sound(x),
        r.len() == q.len(),
    ensures
        ({
            let s = formula::score(exact::reals(x), q, r);
            s * s <= gradient::inner(q, q) * (x.scale * x.scale)
        }),
{
    let a = exact::reals(x);
    let s = formula::score(a, q, r);
    let n = formula::norm_square(a, r);
    let v = formula::norm(a, r);
    let b = gradient::inner(q, r);
    let c = gradient::inner(q, q);
    let i = 1real / v;
    gradient::lemma_norm_square(x, r);
    gradient::lemma_gradient_weights(x, q, seq![r]);
    gradient::lemma_dot(x, q, r);
    assert(formula::gradient_score(a, q, r) == (b * i) * x.scale);
    lemma_product_bound(x, q, r);
    algebra::lemma_inverses(v);
    // s s = (b b) (i i) (k k)
    let (bb, ii, kk) = (b * b, i * i, x.scale * x.scale);
    algebra::lemma_four(b * i, x.scale, b * i, x.scale);
    algebra::lemma_commutes(kk, (b * i) * (b * i));
    algebra::lemma_four(b, i, b, i);
    algebra::lemma_commutes(ii, bb);
    assert(s * s == (bb * ii) * kk);
    // (b b) (i i) <= c
    algebra::lemma_square(i);
    algebra::lemma_ordered(bb, c * n, ii);
    algebra::lemma_divided(1real, n);
    algebra::lemma_commutes(n, ii);
    algebra::lemma_associates(c, n, ii);
    assert(c * 1real == c);
    algebra::lemma_square(x.scale);
    algebra::lemma_ordered(bb * ii, c, kk);
}

// ---- a query of zeros ----

/// A row of zeros.
pub open spec fn is_zero(q: Row) -> bool {
    forall|c: int| 0 <= c < q.len() ==> #[trigger] q[c] == 0real
}

proof fn lemma_zero_product(q: Row, r: Row)
    requires
        is_zero(q),
        r.len() == q.len(),
    ensures
        gradient::inner(q, r) == 0real,
{
    let s = Seq::new(r.len(), |c: int| q[c] * r[c]);
    assert forall|c: int| 0 <= c < s.len() implies #[trigger] s[c] == 0real by {
        assert(q[c] == 0real);
        algebra::lemma_nothing(r[c]);
    }
    algebra::lemma_total_nothing(s);
}

/// A query of zeros weighs all layers alike.
pub proof fn lemma_zero_query_weights(x: Choice, q: Row, rows: Seq<Row>)
    requires
        exact::sound(x),
        rows.len() > 0,
        exact::fitting(q, rows),
        is_zero(q),
    ensures
        ({
            let w = formula::weights(exact::reals(x), q, rows);
            &&& w.len() == rows.len()
            &&& forall|k: int| 0 <= k < rows.len() ==> #[trigger] w[k] == 1real / rows.len() as real
        }),
{
    let a = exact::reals(x);
    let scores = Seq::new(rows.len(), |k: int| formula::score(a, q, rows[k]));
    gradient::lemma_gradient_weights(x, q, rows);
    exact::lemma_exp(x.e, 0real, 0real);
    let exps = Seq::new(scores.len(), |j: int| (x.e)(scores[j]));
    assert forall|k: int| 0 <= k < exps.len() implies #[trigger] exps[k] == 1real by {
        let r = rows[k];
        assert(r.len() == q.len());
        gradient::lemma_dot(x, q, r);
        lemma_zero_product(q, r);
        algebra::lemma_nothing((a.inverse_root)(formula::norm_square(a, r)));
        algebra::lemma_nothing(x.scale);
        assert(formula::gradient_score(a, q, r) == 0real);
        assert(scores[k] == 0real);
    }
    algebra::lemma_total_ones(exps);
    let w = formula::weights(a, q, rows);
    assert forall|k: int| 0 <= k < rows.len() implies #[trigger] w[k] == 1real
        / rows.len() as real by {
        assert(exps[k] == 1real);
        assert(w[k] == (x.e)(scores[k]) / exact::total(exps));
    }
}

/// With a query of zeros depth attention is the mean of the layers.
pub proof fn lemma_zero_query_is_mean(x: Choice, q: Row, rows: Seq<Row>)
    requires
        exact::sound(x),
        rows.len() > 0,
        exact::fitting(q, rows),
        is_zero(q),
    ensures
        formula::weighted_sum(exact::reals(x), q, rows) == Seq::new(
            q.len(),
            |c: int| exact::over_rows(rows, |r: Row| r[c]) / rows.len() as real,
        ),
{
    let a = exact::reals(x);
    let w = formula::weights(a, q, rows);
    let n = rows.len() as real;
    let out = formula::weighted_sum(a, q, rows);
    lemma_zero_query_weights(x, q, rows);
    assert(n > 0real);
    assert forall|c: int| 0 <= c < q.len() implies #[trigger] out[c] == exact::over_rows(
        rows,
        |r: Row| r[c],
    ) / n by {
        let terms = Seq::new(rows.len(), |k: int| (a.times)(rows[k][c], w[k]));
        let plain = Seq::new(rows.len(), |k: int| rows[k][c]);
        assert forall|k: int| 0 <= k < plain.len() implies #[trigger] terms[k] == plain[k] * (1real
            / n) by {
            assert(w[k] == 1real / n);
        }
        exact::lemma_total_scaled(plain, terms, 1real / n);
        depth::lemma_total_rows(rows, |r: Row| r[c], plain);
        algebra::lemma_divided(exact::total(plain), n);
    }
    assert(out =~= Seq::new(q.len(), |c: int| exact::over_rows(rows, |r: Row| r[c]) / n));
}

/// With a query of zeros the gradient of the result is distributed over the layers alike.
pub proof fn lemma_zero_query_gradient(x: Choice, q: Row, rows: Seq<Row>, g: Row, k: int)
    requires
        exact::sound(x),
        exact::fitting(q, rows),
        is_zero(q),
        g.len() == q.len(),
        0 <= k < rows.len(),
    ensures
        formula::layer_gradient(exact::reals(x), q, rows, g, k) == Seq::new(
            q.len(),
            |c: int| g[c] / rows.len() as real,
        ),
{
    let a = exact::reals(x);
    let n = rows.len() as real;
    let y = rows[k];
    lemma_zero_query_weights(x, q, rows);
    gradient::lemma_gradient_weights(x, q, rows);
    gradient::lemma_dot(x, q, y);
    lemma_zero_product(q, y);
    let ds = formula::score_gradient(a, q, rows, g, k);
    let square = formula::norm_square(a, y);
    let out = formula::layer_gradient(a, q, rows, g, k);
    assert(formula::weights(a, q, rows)[k] == 1real / n);
    assert(n > 0real);
    assert forall|c: int| 0 <= c < q.len() implies #[trigger] out[c] == g[c] / n by {
        assert(q[c] == 0real);
        algebra::lemma_nothing((a.inverse_root)(square));
        algebra::lemma_nothing(y[c]);
        algebra::lemma_nothing((a.inverse_cube)(square));
        algebra::lemma_nothing(ds);
        algebra::lemma_nothing(x.scale);
        algebra::lemma_divided(g[c], n);
        algebra::lemma_commutes(g[c], 1real / n);
    }
    assert(out =~= Seq::new(q.len(), |c: int| g[c] / n));
}

} // verus!
