//! The gradient of depth attention in exact arithmetic.
use vstd::prelude::*;

use crate::exact;
use crate::exact::algebra;
use crate::exact::{Choice, Row};
use crate::formula;

verus! {

/// The product of two rows.
pub open spec fn inner(p: Row, x: Row) -> real {
    exact::total(Seq::new(x.len(), |c: int| p[c] * x[c]))
}

/// The square of the norm of a row is that of a positive norm.
pub proof fn lemma_norm_square(x: Choice, r: Row)
    requires
        exact::sound(x),
    ensures
        ({
            let a = exact::reals(x);
            let n = formula::norm_square(a, r);
            let v = formula::norm(a, r);
            &&& v > 0real
            &&& n == v * v
            &&& (a.inverse_root)(n) == 1real / v
            &&& (a.inverse_cube)(n) == 1real / (v * n)
        }),
{
    let a = exact::reals(x);
    let squares = Seq::new(r.len(), |c: int| (a.square)(r[c]));
    exact::lemma_norm(x, r);
    assert forall|k: int| 0 <= k < squares.len() implies #[trigger] squares[k] >= 0real by {
        let v = r[k];
        assert(v * v >= 0real) by (nonlinear_arith);
    }
    exact::lemma_total_nonnegative(squares);
    let n = exact::total(squares) + x.epsilon;
    assert(n > 0real);
    assert((x.root)(n) > 0real);
}

/// The scores that the gradient goes by are the scores, and so are the weights.
pub proof fn lemma_gradient_weights(x: Choice, q: Row, rows: Seq<Row>)
    requires
        exact::sound(x),
    ensures
        forall|r: Row|
            #[trigger] formula::gradient_score(exact::reals(x), q, r) == formula::score(
                exact::reals(x),
                q,
                r,
            ),
        formula::gradient_weights(exact::reals(x), q, rows) == formula::weights(
            exact::reals(x),
            q,
            rows,
        ),
{
    let a = exact::reals(x);
    assert forall|r: Row| #[trigger] formula::gradient_score(a, q, r) == formula::score(
        a,
        q,
        r,
    ) by {
        let v = formula::norm(a, r);
        let p = formula::dot(a, q, r);
        lemma_norm_square(x, r);
        exact::lemma_fused_score(x, q, r);
        assert(Seq::new(r.len(), |c: int| (a.square)(r[c])) =~= Seq::new(
            r.len(),
            |c: int| (a.times)(r[c], r[c]),
        ));
        algebra::lemma_divided(p * x.scale, v);
        algebra::lemma_three(p, x.scale, 1real / v);
    }
    assert(Seq::new(rows.len(), |k: int| formula::gradient_score(a, q, rows[k])) =~= Seq::new(
        rows.len(),
        |k: int| formula::score(a, q, rows[k]),
    ));
}

// ---- the gradient is linear ----

/// `s` times one row and `t` times another.
pub open spec fn combined(g: Row, s: real, h: Row, t: real) -> Row {
    Seq::new(g.len(), |c: int| g[c] * s + h[c] * t)
}

proof fn lemma_inner_combined(g: Row, s: real, h: Row, t: real, x: Row)
    requires
        g.len() == x.len(),
        h.len() == x.len(),
    ensures
        inner(combined(g, s, h, t), x) == inner(g, x) * s + inner(h, x) * t,
{
    let p = combined(g, s, h, t);
    let l = Seq::new(x.len(), |c: int| p[c] * x[c]);
    let m = Seq::new(x.len(), |c: int| g[c] * x[c]);
    let n = Seq::new(x.len(), |c: int| h[c] * x[c]);
    assert forall|c: int| 0 <= c < x.len() implies #[trigger] l[c] == m[c] * s + n[c] * t + n[c]
        * 0real by {
        algebra::lemma_distributes(g[c] * s, h[c] * t, x[c]);
        algebra::lemma_three(g[c], s, x[c]);
        algebra::lemma_three(h[c], t, x[c]);
        let v = n[c];
        assert(v * 0real == 0real) by (nonlinear_arith);
    }
    algebra::lemma_total_blend(l, m, n, n, s, t, 0real);
    let v = exact::total(n);
    assert(v * 0real == 0real) by (nonlinear_arith);
}

/// The gradient of the scores is linear in the gradient of the result.
pub proof fn lemma_score_gradient_linear(
    x: Choice,
    q: Row,
    rows: Seq<Row>,
    g: Row,
    s: real,
    h: Row,
    t: real,
    k: int,
)
    requires
        exact::fitting(q, rows),
        g.len() == q.len(),
        h.len() == q.len(),
        0 <= k < rows.len(),
    ensures
        ({
            let a = exact::reals(x);
            formula::score_gradient(a, q, rows, combined(g, s, h, t), k) == formula::score_gradient(
                a,
                q,
                rows,
                g,
                k,
            ) * s + formula::score_gradient(a, q, rows, h, k) * t
        }),
{
    let a = exact::reals(x);
    let w = formula::gradient_weights(a, q, rows);
    let p = combined(g, s, h, t);
    let l = Seq::new(rows.len(), |j: int| (a.times)(w[j], formula::dot(a, p, rows[j])));
    let m = Seq::new(rows.len(), |j: int| (a.times)(w[j], formula::dot(a, g, rows[j])));
    let n = Seq::new(rows.len(), |j: int| (a.times)(w[j], formula::dot(a, h, rows[j])));
    assert forall|j: int| 0 <= j < rows.len() implies formula::dot(a, p, #[trigger] rows[j])
        == formula::dot(a, g, rows[j]) * s + formula::dot(a, h, rows[j]) * t by {
        lemma_dot(x, p, rows[j]);
        lemma_dot(x, g, rows[j]);
        lemma_dot(x, h, rows[j]);
        lemma_inner_combined(g, s, h, t, rows[j]);
    }
    assert forall|j: int| 0 <= j < rows.len() implies #[trigger] l[j] == m[j] * s + n[j] * t
        + n[j] * 0real by {
        let (y, z) = (formula::dot(a, g, rows[j]), formula::dot(a, h, rows[j]));
        algebra::lemma_distributes(y * s, z * t, w[j]);
        algebra::lemma_three(w[j], y, s);
        algebra::lemma_three(w[j], z, t);
        let v = n[j];
        assert(v * 0real == 0real) by (nonlinear_arith);
    }
    algebra::lemma_total_blend(l, m, n, n, s, t, 0real);
    let v = exact::total(n);
    assert(v * 0real == 0real) by (nonlinear_arith);
    let (y, z) = (formula::dot(a, g, rows[k]), formula::dot(a, h, rows[k]));
    let (e, f) = (exact::total(m), exact::total(n));
    assert(formula::dot(a, p, rows[k]) == y * s + z * t);
    // w (y s + z t - e s - f t)
    algebra::lemma_distributes(y, e, s);
    algebra::lemma_distributes(z, f, t);
    algebra::lemma_distributes((y - e) * s, (z - f) * t, w[k]);
    algebra::lemma_three(w[k], y - e, s);
    algebra::lemma_three(w[k], z - f, t);
}

/// Products of rows are products of rows.
pub proof fn lemma_dot(x: Choice, p: Row, r: Row)
    ensures
        formula::dot(exact::reals(x), p, r) == inner(p, r),
{
    let a = exact::reals(x);
    assert(Seq::new(r.len(), |c: int| (a.times)(p[c], r[c])) =~= Seq::new(
        r.len(),
        |c: int| p[c] * r[c],
    ));
}

/// The gradients of the layers and of the query are linear in the gradient of the result.
pub proof fn lemma_gradient_linear(
    x: Choice,
    q: Row,
    rows: Seq<Row>,
    g: Row,
    s: real,
    h: Row,
    t: real,
    k: int,
)
    requires
        exact::fitting(q, rows),
        g.len() == q.len(),
        h.len() == q.len(),
        0 <= k < rows.len(),
    ensures
        ({
            let a = exact::reals(x);
            let p = combined(g, s, h, t);
            &&& formula::layer_gradient(a, q, rows, p, k) == combined(
                formula::layer_gradient(a, q, rows, g, k),
                s,
                formula::layer_gradient(a, q, rows, h, k),
                t,
            )
            &&& formula::query_gradient(a, q, rows, p, k) == combined(
                formula::query_gradient(a, q, rows, g, k),
                s,
                formula::query_gradient(a, q, rows, h, k),
                t,
            )
        }),
{
    let a = exact::reals(x);
    let p = combined(g, s, h, t);
    let y = rows[k];
    let w = formula::gradient_weights(a, q, rows)[k];
    lemma_score_gradient_linear(x, q, rows, g, s, h, t, k);
    let (ds, dg, dh) = (
        formula::score_gradient(a, q, rows, p, k),
        formula::score_gradient(a, q, rows, g, k),
        formula::score_gradient(a, q, rows, h, k),
    );
    let n = formula::norm_square(a, y);
    let (i, u) = ((a.inverse_root)(n), (a.inverse_cube)(n));
    let layer = formula::layer_gradient(a, q, rows, p, k);
    let other = combined(
        formula::layer_gradient(a, q, rows, g, k),
        s,
        formula::layer_gradient(a, q, rows, h, k),
        t,
    );
    assert forall|c: int| 0 <= c < q.len() implies #[trigger] layer[c] == other[c] by {
        let b = q[c] * i - (y[c] * formula::dot(a, q, y)) * u;
        lemma_two_ways(w, g[c], s, h[c], t);
        lemma_two_ways_scaled(dg, s, dh, t, b, x.scale);
        algebra::lemma_distributes(w * g[c], (dg * b) * x.scale, s);
        algebra::lemma_distributes(w * h[c], (dh * b) * x.scale, t);
        assert(p[c] == g[c] * s + h[c] * t);
    }
    assert(layer =~= other);
    let part = formula::query_gradient(a, q, rows, p, k);
    let both = combined(
        formula::query_gradient(a, q, rows, g, k),
        s,
        formula::query_gradient(a, q, rows, h, k),
        t,
    );
    assert forall|c: int| 0 <= c < q.len() implies #[trigger] part[c] == both[c] by {
        lemma_two_ways_scaled(dg, s, dh, t, y[c], i);
        algebra::lemma_distributes(((dg * y[c]) * i) * s, ((dh * y[c]) * i) * t, x.scale);
        algebra::lemma_three((dg * y[c]) * i, s, x.scale);
        algebra::lemma_three((dh * y[c]) * i, t, x.scale);
    }
    assert(part =~= both);
}

proof fn lemma_two_ways(w: real, g: real, s: real, h: real, t: real)
    ensures
        w * (g * s + h * t) == (w * g) * s + (w * h) * t,
{
    algebra::lemma_distributes(g * s, h * t, w);
    algebra::lemma_three(w, g, s);
    algebra::lemma_three(w, h, t);
}

proof fn lemma_two_ways_scaled(dg: real, s: real, dh: real, t: real, b: real, k: real)
    ensures
        ((dg * s + dh * t) * b) * k == ((dg * b) * k) * s + ((dh * b) * k) * t,
{
    algebra::lemma_distributes(dg * s, dh * t, b);
    algebra::lemma_three(dg, s, b);
    algebra::lemma_three(dh, t, b);
    algebra::lemma_distributes((dg * b) * s, (dh * b) * t, k);
    algebra::lemma_three(dg * b, s, k);
    algebra::lemma_three(dh * b, t, k);
}

} // verus!
