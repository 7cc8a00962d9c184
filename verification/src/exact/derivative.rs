//! The derivative of depth attention in exact arithmetic.
//!
//! A number together with its rate of change along a direction obeys the rules of
//! differentiation: those of a sum, a product, a quotient, a root and an exponential. The
//! formulas over such numbers give a result together with its rate of change.
use vstd::prelude::*;

use crate::exact;
use crate::exact::algebra;
use crate::exact::gradient;
use crate::exact::{Choice, Row};
use crate::formula;
use crate::formula::Arithmetic;

verus! {

/// A number and its rate of change.
pub struct Moving {
    pub value: real,
    pub rate: real,
}

/// A number that does not change.
pub open spec fn fixed(value: real) -> Moving {
    Moving { value, rate: 0real }
}

/// The rate of change of a quotient.
pub open spec fn quotient(a: Moving, b: Moving) -> Moving {
    Moving {
        value: a.value / b.value,
        rate: (a.rate * b.value - a.value * b.rate) / (b.value * b.value),
    }
}

/// The values of a line.
pub open spec fn values(s: Seq<Moving>) -> Seq<real> {
    Seq::new(s.len(), |k: int| s[k].value)
}

/// The rates of change of a line.
pub open spec fn rates(s: Seq<Moving>) -> Seq<real> {
    Seq::new(s.len(), |k: int| s[k].rate)
}

/// A sum and its rate of change.
pub open spec fn summed(s: Seq<Moving>) -> Moving {
    Moving { value: exact::total(values(s)), rate: exact::total(rates(s)) }
}

/// The exponential and its rate of change.
pub open spec fn raised(x: Choice, a: Moving) -> Moving {
    Moving { value: (x.e)(a.value), rate: (x.e)(a.value) * a.rate }
}

/// The root and its rate of change.
pub open spec fn rooted(x: Choice, a: Moving) -> Moving {
    Moving { value: (x.root)(a.value), rate: (a.rate / 2real) / (x.root)(a.value) }
}

/// The arithmetic of changing numbers.
pub open spec fn movings(x: Choice) -> Arithmetic<Moving> {
    Arithmetic {
        plus: |a: Moving, b: Moving| Moving { value: a.value + b.value, rate: a.rate + b.rate },
        minus: |a: Moving, b: Moving| Moving { value: a.value - b.value, rate: a.rate - b.rate },
        times: |a: Moving, b: Moving|
            Moving { value: a.value * b.value, rate: a.value * b.rate + a.rate * b.value },
        over: |a: Moving, b: Moving| quotient(a, b),
        larger: |a: Moving, b: Moving|
            if a.value < b.value {
                b
            } else {
                a
            },
        square: |a: Moving|
            Moving { value: a.value * a.value, rate: (a.value * a.rate) * 2real },
        root: |a: Moving| rooted(x, a),
        inverse_root: |a: Moving| quotient(fixed(1real), rooted(x, a)),
        inverse_cube: |a: Moving|
            quotient(quotient(fixed(1real), rooted(x, a)), a),
        exp: |a: Moving| raised(x, a),
        magnitude: |a: Moving|
            if a.value < 0real {
                Moving { value: -a.value, rate: -a.rate }
            } else {
                a
            },
        halved: |a: Moving| Moving { value: a.value / 2real, rate: a.rate / 2real },
        bounded: |a: Moving|
            if a.value < x.least {
                fixed(x.least)
            } else {
                a
            },
        sum_columns: |s: Seq<Moving>| summed(s),
        sum_layers: |s: Seq<Moving>| summed(s),
        softmax: |s: Seq<Moving>|
            Seq::new(
                s.len(),
                |k: int|
                    quotient(
                        raised(x, s[k]),
                        summed(Seq::new(s.len(), |j: int| raised(x, s[j]))),
                    ),
            ),
        zero: fixed(0real),
        one: fixed(1real),
        epsilon: fixed(x.epsilon),
        scale: fixed(x.scale),
        floor: fixed(x.floor),
    }
}

/// A row that changes in a direction.
pub open spec fn along(r: Row, v: Row) -> Seq<Moving> {
    Seq::new(r.len(), |c: int| Moving { value: r[c], rate: v[c] })
}

/// Rows that change, each in its direction.
pub open spec fn all_along(rows: Seq<Row>, dirs: Seq<Row>) -> Seq<Seq<Moving>> {
    Seq::new(rows.len(), |k: int| along(rows[k], dirs[k]))
}

/// The norm and its rate of change.
proof fn lemma_norm(x: Choice, r: Row, v: Row)
    requires
        exact::sound(x),
        v.len() == r.len(),
    ensures
        ({
            let n = formula::norm(movings(x), along(r, v));
            &&& n.value == formula::norm(exact::reals(x), r)
            &&& n.rate == gradient::inner(r, v) / n.value
        }),
{
    let a = movings(x);
    let b = exact::reals(x);
    let m = along(r, v);
    let squares = Seq::new(m.len(), |c: int| (a.square)(m[c]));
    assert(values(squares) =~= Seq::new(r.len(), |c: int| (b.square)(r[c])));
    let products = Seq::new(v.len(), |c: int| r[c] * v[c]);
    assert forall|k: int| 0 <= k < products.len() implies #[trigger] rates(squares)[k]
        == products[k] * 2real by {
        assert(squares[k] == (a.square)(m[k]));
    }
    exact::lemma_total_scaled(products, rates(squares), 2real);
    let t = exact::total(products);
    assert((t * 2real + 0real) / 2real == t);
}

/// The term of one column in the rate of change of a score.
proof fn lemma_term(q: real, v: real, y: real, u: real, r: real, rate: real)
    requires
        r > 0real,
    ensures
        q * ((v * r - y * rate) / (r * r)) + u * (y / r) == (q * v) * (1real / r) + (q * y) * (0real
            - rate * (1real / (r * r))) + (u * y) * (1real / r),
{
    let i = 1real / r;
    let j = 1real / (r * r);
    let p = v * r - y * rate;
    algebra::lemma_inverses(r);
    algebra::lemma_divided(p, r * r);
    algebra::lemma_divided(y, r);
    algebra::lemma_distributes(v * r, y * rate, j);
    algebra::lemma_associates(v, r, j);
    algebra::lemma_associates(y, rate, j);
    let b = rate * j;
    assert(p * j == v * i - y * b);
    algebra::lemma_distributes(v * i, y * b, q);
    algebra::lemma_associates(q, v, i);
    algebra::lemma_associates(q, y, b);
    algebra::lemma_negated(q * y, b);
    algebra::lemma_associates(u, y, i);
}

/// The rate of change of a score, for a row that changes by `v` and a query that changes
/// by `u`.
pub open spec fn score_rate(x: Choice, q: Row, u: Row, r: Row, v: Row) -> real {
    let n = formula::norm(exact::reals(x), r);
    (gradient::inner(q, v) * (1real / n) + gradient::inner(q, r) * (0real - gradient::inner(r, v)
        * (1real / (n * (n * n)))) + gradient::inner(u, r) * (1real / n)) * x.scale
}

/// The score and its rate of change.
proof fn lemma_score(x: Choice, q: Row, u: Row, r: Row, v: Row)
    requires
        exact::sound(x),
        r.len() == q.len(),
        u.len() == q.len(),
        v.len() == q.len(),
    ensures
        ({
            let s = formula::score(movings(x), along(q, u), along(r, v));
            &&& s.value == formula::score(exact::reals(x), q, r)
            &&& s.rate == score_rate(x, q, u, r, v)
        }),
{
    let a = movings(x);
    let b = exact::reals(x);
    let (mq, mr) = (along(q, u), along(r, v));
    lemma_norm(x, r, v);
    gradient::lemma_norm_square(x, r);
    let n = formula::norm(a, mr);
    let w = n.value;
    let products = Seq::new(mr.len(), |c: int| (a.times)(mq[c], (a.over)(mr[c], n)));
    assert(values(products) =~= Seq::new(r.len(), |c: int| (b.times)(q[c], (b.over)(r[c], w))));
    let i = 1real / w;
    let j = 1real / (w * w);
    let t = gradient::inner(r, v);
    algebra::lemma_inverses(w);
    algebra::lemma_divided(t, w);
    algebra::lemma_associates(t, i, j);
    // the rate of the norm over its square
    let k = 0real - t * (1real / (w * (w * w)));
    assert(n.rate * j == t * (1real / (w * (w * w))));
    let (qv, qr, ur) = (
        Seq::new(v.len(), |c: int| q[c] * v[c]),
        Seq::new(r.len(), |c: int| q[c] * r[c]),
        Seq::new(r.len(), |c: int| u[c] * r[c]),
    );
    assert forall|c: int| 0 <= c < r.len() implies #[trigger] rates(products)[c] == qv[c] * i
        + qr[c] * k + ur[c] * i by {
        assert(products[c] == (a.times)(mq[c], (a.over)(mr[c], n)));
        lemma_term(q[c], v[c], r[c], u[c], w, n.rate);
    }
    algebra::lemma_total_blend(rates(products), qv, qr, ur, i, k, i);
    let sum = summed(products);
    let z = sum.value;
    assert(z * 0real == 0real) by (nonlinear_arith);
}

/// The rate of change of a weight: how far the rate of its score is from the mean.
proof fn lemma_weight_rate(e: real, s: real, all: real, sum: real)
    requires
        all > 0real,
    ensures
        ((e * s) * all - e * sum) / (all * all) == (e / all) * (s - sum * (1real / all)),
{
    let i = 1real / all;
    let j = 1real / (all * all);
    let p = (e * s) * all - e * sum;
    algebra::lemma_inverses(all);
    algebra::lemma_divided(p, all * all);
    algebra::lemma_divided(e, all);
    algebra::lemma_distributes((e * s) * all, e * sum, j);
    algebra::lemma_associates(e * s, all, j);
    // (e s) i - (e sum) j
    algebra::lemma_three(e, s, i);
    // (e sum) (i i) = (e i) (sum i)
    algebra::lemma_associates(e, sum, j);
    algebra::lemma_three(sum, i, i);
    algebra::lemma_associates(e, i, sum * i);
    algebra::lemma_three(i, sum, i);
    algebra::lemma_distributes(s, sum * i, e * i);
}

/// Directions that fit a query and rows.
pub open spec fn directed(q: Row, u: Row, rows: Seq<Row>, dirs: Seq<Row>) -> bool {
    &&& exact::fitting(q, rows)
    &&& exact::fitting(q, dirs)
    &&& dirs.len() == rows.len()
    &&& u.len() == q.len()
}

/// The rates of change of the scores.
pub open spec fn score_rates(x: Choice, q: Row, u: Row, rows: Seq<Row>, dirs: Seq<Row>) -> Row {
    Seq::new(rows.len(), |k: int| score_rate(x, q, u, rows[k], dirs[k]))
}

/// The sum of products, term by term.
pub open spec fn weighed(w: Row, s: Row) -> real {
    exact::total(Seq::new(w.len(), |k: int| w[k] * s[k]))
}

/// The weights and their rates of change.
proof fn lemma_weights(x: Choice, q: Row, u: Row, rows: Seq<Row>, dirs: Seq<Row>)
    requires
        exact::sound(x),
        rows.len() > 0,
        directed(q, u, rows, dirs),
    ensures
        ({
            let m = formula::weights(movings(x), along(q, u), all_along(rows, dirs));
            let w = formula::weights(exact::reals(x), q, rows);
            let s = score_rates(x, q, u, rows, dirs);
            &&& m.len() == rows.len()
            &&& w.len() == rows.len()
            &&& forall|k: int|
                0 <= k < rows.len() ==> (#[trigger] m[k]).value == w[k] && m[k].rate == w[k] * (s[k]
                    - weighed(w, s))
        }),
{
    let a = movings(x);
    let b = exact::reals(x);
    let (mq, mrows) = (along(q, u), all_along(rows, dirs));
    let scores = Seq::new(mrows.len(), |k: int| formula::score(a, mq, mrows[k]));
    let plain = Seq::new(rows.len(), |k: int| formula::score(b, q, rows[k]));
    let s = score_rates(x, q, u, rows, dirs);
    assert forall|k: int| 0 <= k < rows.len() implies (#[trigger] scores[k]).value == plain[k]
        && scores[k].rate == s[k] by {
        assert(rows[k].len() == q.len() && dirs[k].len() == q.len());
        lemma_score(x, q, u, rows[k], dirs[k]);
        assert(mrows[k] == along(rows[k], dirs[k]));
    }
    let exps = Seq::new(scores.len(), |j: int| raised(x, scores[j]));
    let bare = Seq::new(plain.len(), |j: int| (x.e)(plain[j]));
    assert forall|k: int| 0 <= k < rows.len() implies #[trigger] values(exps)[k] == bare[k] by {
        assert(exps[k] == raised(x, scores[k]));
        assert(scores[k].value == plain[k]);
    }
    assert(values(exps) =~= bare);
    let all = exact::total(bare);
    lemma_total_positive(bare);
    let sum = exact::total(rates(exps));
    let w = formula::weights(b, q, rows);
    let terms = Seq::new(w.len(), |k: int| w[k] * s[k]);
    let i = 1real / all;
    assert forall|k: int| 0 <= k < rows.len() implies #[trigger] terms[k] == rates(exps)[k] * i by {
        assert(exps[k] == raised(x, scores[k]));
        assert(scores[k].value == plain[k] && scores[k].rate == s[k]);
        algebra::lemma_divided(bare[k], all);
        algebra::lemma_three(bare[k], i, s[k]);
    }
    exact::lemma_total_scaled(rates(exps), terms, i);
    let m = formula::weights(a, mq, mrows);
    assert forall|k: int| 0 <= k < rows.len() implies (#[trigger] m[k]).value == w[k] && m[k].rate
        == w[k] * (s[k] - weighed(w, s)) by {
        assert(m[k] == quotient(raised(x, scores[k]), summed(exps)));
        assert(scores[k].value == plain[k] && scores[k].rate == s[k]);
        lemma_weight_rate(bare[k], s[k], all, sum);
    }
}

proof fn lemma_total_positive(s: Seq<real>)
    requires
        s.len() > 0,
        forall|k: int| 0 <= k < s.len() ==> #[trigger] s[k] > 0real,
    ensures
        exact::total(s) > 0real,
    decreases s.len(),
{
    assert(s[s.len() - 1] > 0real);
    let before = s.drop_last();
    if before.len() > 0 {
        assert forall|k: int| 0 <= k < before.len() implies #[trigger] before[k] > 0real by {
            assert(before[k] == s[k]);
        }
        lemma_total_positive(before);
    } else {
        assert(exact::total(before) == 0real);
    }
}

/// A sum over columns of sums over layers is a sum over layers of sums over columns.
proof fn lemma_exchange(g: Row, rows: Seq<Row>, dirs: Seq<Row>, p: Row, w: Row)
    requires
        exact::fitting(g, rows),
        exact::fitting(g, dirs),
        dirs.len() == rows.len(),
        p.len() == rows.len(),
        w.len() == rows.len(),
    ensures
        exact::total(
            Seq::new(
                g.len(),
                |c: int|
                    g[c] * exact::total(
                        Seq::new(rows.len(), |k: int| rows[k][c] * p[k] + dirs[k][c] * w[k]),
                    ),
            ),
        ) == exact::total(
            Seq::new(
                rows.len(),
                |k: int| gradient::inner(g, rows[k]) * p[k] + gradient::inner(g, dirs[k]) * w[k],
            ),
        ),
    decreases rows.len(),
{
    let n = rows.len();
    let left = Seq::new(
        g.len(),
        |c: int|
            g[c] * exact::total(
                Seq::new(rows.len(), |k: int| rows[k][c] * p[k] + dirs[k][c] * w[k]),
            ),
    );
    let right = Seq::new(
        rows.len(),
        |k: int| gradient::inner(g, rows[k]) * p[k] + gradient::inner(g, dirs[k]) * w[k],
    );
    if n == 0 {
        let none = Seq::new(g.len(), |c: int| 0real);
        assert forall|c: int| 0 <= c < left.len() implies #[trigger] left[c] == none[c] * 0real by {
            let v = g[c];
            assert(v * 0real == 0real) by (nonlinear_arith);
        }
        exact::lemma_total_scaled(none, left, 0real);
        let v = exact::total(none);
        assert(v * 0real == 0real) by (nonlinear_arith);
    } else {
        let (r, d) = (rows.drop_last(), dirs.drop_last());
        let (pp, ww) = (p.drop_last(), w.drop_last());
        assert forall|k: int| 0 <= k < r.len() implies (#[trigger] r[k]).len() == g.len() by {
            assert(r[k] == rows[k]);
        }
        assert forall|k: int| 0 <= k < d.len() implies (#[trigger] d[k]).len() == g.len() by {
            assert(d[k] == dirs[k]);
        }
        lemma_exchange(g, r, d, pp, ww);
        let before = Seq::new(
            g.len(),
            |c: int|
                g[c] * exact::total(Seq::new(r.len(), |k: int| r[k][c] * pp[k] + d[k][c] * ww[k])),
        );
        let (y, v) = (rows.last(), dirs.last());
        assert(rows[n - 1].len() == g.len() && dirs[n - 1].len() == g.len());
        let gy = Seq::new(y.len(), |c: int| g[c] * y[c]);
        let gv = Seq::new(v.len(), |c: int| g[c] * v[c]);
        let (a, b) = (p.last(), w.last());
        assert forall|c: int| 0 <= c < g.len() implies #[trigger] left[c] == before[c] * 1real
            + gy[c] * a + gv[c] * b by {
            let line = Seq::new(rows.len(), |k: int| rows[k][c] * p[k] + dirs[k][c] * w[k]);
            let fore = Seq::new(r.len(), |k: int| r[k][c] * pp[k] + d[k][c] * ww[k]);
            assert(line.drop_last() =~= fore);
            algebra::lemma_distributes(exact::total(fore), y[c] * a + v[c] * b, g[c]);
            algebra::lemma_distributes(y[c] * a, v[c] * b, g[c]);
            algebra::lemma_associates(g[c], y[c], a);
            algebra::lemma_associates(g[c], v[c], b);
        }
        algebra::lemma_total_blend(left, before, gy, gv, 1real, a, b);
        assert(right.drop_last() =~= Seq::new(
            r.len(),
            |k: int| gradient::inner(g, r[k]) * pp[k] + gradient::inner(g, d[k]) * ww[k],
        ));
    }
}

/// To weigh how far the rates are from their mean is to weigh how far the other factor is
/// from its mean.
proof fn lemma_swapped_means(w: Row, s: Row, f: Row)
    requires
        s.len() == w.len(),
        f.len() == w.len(),
    ensures
        exact::total(Seq::new(w.len(), |k: int| f[k] * (w[k] * (s[k] - weighed(w, s)))))
            == exact::total(Seq::new(w.len(), |k: int| (w[k] * (f[k] - weighed(w, f))) * s[k])),
{
    let (m, n) = (weighed(w, s), weighed(w, f));
    let left = Seq::new(w.len(), |k: int| f[k] * (w[k] * (s[k] - m)));
    let right = Seq::new(w.len(), |k: int| (w[k] * (f[k] - n)) * s[k]);
    let ws = Seq::new(w.len(), |k: int| w[k] * s[k]);
    let wf = Seq::new(w.len(), |k: int| w[k] * f[k]);
    let full = Seq::new(w.len(), |k: int| (w[k] * s[k]) * f[k]);
    assert forall|k: int| 0 <= k < w.len() implies #[trigger] left[k] == full[k] * 1real + wf[k] * (
    0real - m) + wf[k] * 0real by {
        algebra::lemma_distributes(s[k], m, w[k]);
        algebra::lemma_distributes(w[k] * s[k], w[k] * m, f[k]);
        algebra::lemma_commutes(f[k], w[k] * s[k]);
        algebra::lemma_commutes(f[k], w[k] * m);
        algebra::lemma_three(w[k], m, f[k]);
        algebra::lemma_negated(wf[k], m);
        let v = wf[k];
        assert(v * 0real == 0real) by (nonlinear_arith);
    }
    algebra::lemma_total_blend(left, full, wf, wf, 1real, 0real - m, 0real);
    assert forall|k: int| 0 <= k < w.len() implies #[trigger] right[k] == full[k] * 1real + ws[k]
        * (0real - n) + ws[k] * 0real by {
        algebra::lemma_distributes(f[k], n, w[k]);
        algebra::lemma_distributes(w[k] * f[k], w[k] * n, s[k]);
        algebra::lemma_three(w[k], f[k], s[k]);
        algebra::lemma_three(w[k], n, s[k]);
        algebra::lemma_negated(ws[k], n);
        let v = ws[k];
        assert(v * 0real == 0real) by (nonlinear_arith);
    }
    algebra::lemma_total_blend(right, full, ws, ws, 1real, 0real - n, 0real);
    algebra::lemma_negated(n, m);
    algebra::lemma_negated(m, n);
    algebra::lemma_commutes(n, m);
    let (y, z) = (exact::total(wf), exact::total(ws));
    assert(y * 0real == 0real) by (nonlinear_arith);
    assert(z * 0real == 0real) by (nonlinear_arith);
}

/// The term of one column in the product of a direction and the gradient of a layer.
proof fn lemma_layer_term(
    w: real,
    g: real,
    ds: real,
    q: real,
    inv: real,
    y: real,
    dot: real,
    cube: real,
    k: real,
    v: real,
)
    ensures
        (w * g + (ds * (q * inv - (y * dot) * cube)) * k) * v == (g * v) * w + (q * v) * ((ds * inv)
            * k) + (y * v) * (0real - (ds * (dot * cube)) * k),
{
    let f = dot * cube;
    algebra::lemma_associates(y, dot, cube);
    algebra::lemma_distributes(q * inv, y * f, ds);
    algebra::lemma_distributes(ds * (q * inv), ds * (y * f), k);
    algebra::lemma_distributes(w * g, (ds * (q * inv)) * k - (ds * (y * f)) * k, v);
    algebra::lemma_distributes((ds * (q * inv)) * k, (ds * (y * f)) * k, v);
    algebra::lemma_three(w, g, v);
    lemma_pull(q, inv, ds, k, v);
    lemma_pull(y, f, ds, k, v);
    algebra::lemma_negated(y * v, (ds * f) * k);
}

proof fn lemma_pull(y: real, f: real, ds: real, k: real, v: real)
    ensures
        ((ds * (y * f)) * k) * v == (y * v) * ((ds * f) * k),
{
    algebra::lemma_three(ds, y, f);
    algebra::lemma_associates(y, ds * f, k);
    algebra::lemma_three(y, (ds * f) * k, v);
}

/// The gradients of one layer, along the directions of the layer and of the query: the
/// weight times the product of the two directions, and the gradient of the score times
/// its rate of change.
proof fn lemma_layer_rate(
    x: Choice,
    q: Row,
    u: Row,
    rows: Seq<Row>,
    dirs: Seq<Row>,
    g: Row,
    k: int,
)
    requires
        exact::sound(x),
        directed(q, u, rows, dirs),
        g.len() == q.len(),
        0 <= k < rows.len(),
    ensures
        ({
            let a = exact::reals(x);
            gradient::inner(formula::layer_gradient(a, q, rows, g, k), dirs[k]) + gradient::inner(
                formula::query_gradient(a, q, rows, g, k),
                u,
            ) == gradient::inner(g, dirs[k]) * formula::gradient_weights(a, q, rows)[k]
                + formula::score_gradient(a, q, rows, g, k) * score_rate(
                x,
                q,
                u,
                rows[k],
                dirs[k],
            )
        }),
{
    let a = exact::reals(x);
    let (y, v) = (rows[k], dirs[k]);
    let w = formula::gradient_weights(a, q, rows)[k];
    let ds = formula::score_gradient(a, q, rows, g, k);
    let square = formula::norm_square(a, y);
    let n = formula::norm(a, y);
    gradient::lemma_norm_square(x, y);
    let (inv, cube) = (1real / n, 1real / (n * (n * n)));
    let dot = formula::dot(a, q, y);
    gradient::lemma_dot(x, q, y);
    let scale = x.scale;
    let (p, b) = ((ds * inv) * scale, 0real - (ds * (dot * cube)) * scale);
    // along the direction of the layer
    let layer = formula::layer_gradient(a, q, rows, g, k);
    let l = Seq::new(v.len(), |c: int| layer[c] * v[c]);
    let gv = Seq::new(v.len(), |c: int| g[c] * v[c]);
    let qv = Seq::new(v.len(), |c: int| q[c] * v[c]);
    let yv = Seq::new(v.len(), |c: int| y[c] * v[c]);
    assert forall|c: int| 0 <= c < v.len() implies #[trigger] l[c] == gv[c] * w + qv[c] * p + yv[c]
        * b by {
        lemma_layer_term(w, g[c], ds, q[c], inv, y[c], dot, cube, scale, v[c]);
    }
    algebra::lemma_total_blend(l, gv, qv, yv, w, p, b);
    // along the direction of the query
    let part = formula::query_gradient(a, q, rows, g, k);
    let m = Seq::new(u.len(), |c: int| part[c] * u[c]);
    let uy = Seq::new(y.len(), |c: int| u[c] * y[c]);
    assert forall|c: int| 0 <= c < u.len() implies #[trigger] m[c] == uy[c] * p by {
        // ((ds y) inv) scale u
        algebra::lemma_three(ds, y[c], inv);
        algebra::lemma_commutes(ds * inv, y[c]);
        algebra::lemma_associates(y[c], ds * inv, scale);
        algebra::lemma_three(y[c], p, u[c]);
    }
    exact::lemma_total_scaled(uy, m, p);
    // the rate of the score
    let (iq, iy, iu) = (gradient::inner(q, v), gradient::inner(y, v), gradient::inner(u, y));
    let t = 0real - iy * cube;
    let f = ds * scale;
    let sum = iq * inv + dot * t + iu * inv;
    algebra::lemma_three(ds, sum, scale);
    algebra::lemma_distributes(iq * inv + dot * t, iu * inv, f);
    algebra::lemma_distributes(iq * inv, dot * t, f);
    algebra::lemma_associates(iq, inv, f);
    algebra::lemma_associates(iu, inv, f);
    algebra::lemma_three(ds, inv, scale);
    algebra::lemma_commutes(inv, f);
    assert(inv * f == p);
    // the part of the norm
    algebra::lemma_negated(dot, iy * cube);
    algebra::lemma_negated(f, dot * (iy * cube));
    algebra::lemma_three(dot, iy, cube);
    algebra::lemma_associates(iy, dot * cube, f);
    algebra::lemma_three(ds, dot * cube, scale);
    algebra::lemma_commutes(dot * cube, f);
    algebra::lemma_negated(iy, (ds * (dot * cube)) * scale);
}

/// Depth attention and its rate of change along directions of the layers and of the query:
/// for every gradient of the result, the gradients of the layers and of the query along
/// these directions sum up to the gradient of the result along the result's rate of change.
pub proof fn lemma_gradient_is_derivative(
    x: Choice,
    q: Row,
    u: Row,
    rows: Seq<Row>,
    dirs: Seq<Row>,
    g: Row,
)
    requires
        exact::sound(x),
        rows.len() > 0,
        directed(q, u, rows, dirs),
        g.len() == q.len(),
    ensures
        ({
            let a = exact::reals(x);
            let out = formula::weighted_sum(movings(x), along(q, u), all_along(rows, dirs));
            &&& values(out) == formula::weighted_sum(a, q, rows)
            &&& weighed(g, rates(out)) == exact::total(
                Seq::new(
                    rows.len(),
                    |k: int|
                        gradient::inner(formula::layer_gradient(a, q, rows, g, k), dirs[k])
                            + gradient::inner(formula::query_gradient(a, q, rows, g, k), u),
                ),
            )
        }),
{
    let a = exact::reals(x);
    let b = movings(x);
    let (mq, mrows) = (along(q, u), all_along(rows, dirs));
    let n = rows.len();
    let out = formula::weighted_sum(b, mq, mrows);
    let mw = formula::weights(b, mq, mrows);
    let w = formula::weights(a, q, rows);
    let s = score_rates(x, q, u, rows, dirs);
    lemma_weights(x, q, u, rows, dirs);
    gradient::lemma_gradient_weights(x, q, rows);
    let p = Seq::new(n, |k: int| w[k] * (s[k] - weighed(w, s)));
    // the values and the rates, column by column
    assert forall|c: int| 0 <= c < q.len() implies #[trigger] values(out)[c]
        == formula::weighted_sum(a, q, rows)[c] && rates(out)[c] == exact::total(
        Seq::new(n, |k: int| rows[k][c] * p[k] + dirs[k][c] * w[k]),
    ) by {
        let terms = Seq::new(mrows.len(), |k: int| (b.times)(mrows[k][c], mw[k]));
        assert(out[c] == summed(terms));
        assert forall|k: int| 0 <= k < n implies (#[trigger] terms[k]).value == rows[k][c] * w[k]
            && terms[k].rate == rows[k][c] * p[k] + dirs[k][c] * w[k] by {
            assert(rows[k].len() == q.len());
            assert(mrows[k][c] == (Moving { value: rows[k][c], rate: dirs[k][c] }));
            assert(mw[k].value == w[k] && mw[k].rate == w[k] * (s[k] - weighed(w, s)));
        }
        assert(values(terms) =~= Seq::new(rows.len(), |k: int| (a.times)(rows[k][c], w[k])));
        assert(rates(terms) =~= Seq::new(n, |k: int| rows[k][c] * p[k] + dirs[k][c] * w[k]));
    }
    assert(values(out) =~= formula::weighted_sum(a, q, rows));
    // the sum over columns becomes a sum over layers
    assert forall|k: int| 0 <= k < rows.len() implies (#[trigger] rows[k]).len() == g.len() by {
        assert(rows[k].len() == q.len());
    }
    assert forall|k: int| 0 <= k < dirs.len() implies (#[trigger] dirs[k]).len() == g.len() by {
        assert(dirs[k].len() == q.len());
    }
    lemma_exchange(g, rows, dirs, p, w);
    let columns = Seq::new(g.len(), |c: int| g[c] * rates(out)[c]);
    let lines = Seq::new(
        g.len(),
        |c: int|
            g[c] * exact::total(
                Seq::new(rows.len(), |k: int| rows[k][c] * p[k] + dirs[k][c] * w[k]),
            ),
    );
    assert forall|c: int| 0 <= c < g.len() implies #[trigger] columns[c] == lines[c] by {
        assert(values(out)[c] == formula::weighted_sum(a, q, rows)[c]);
    }
    assert(columns =~= lines);
    let f = Seq::new(n, |k: int| gradient::inner(g, rows[k]));
    let e = Seq::new(n, |k: int| gradient::inner(g, dirs[k]) * w[k]);
    let layers = Seq::new(
        n,
        |k: int| gradient::inner(g, rows[k]) * p[k] + gradient::inner(g, dirs[k]) * w[k],
    );
    let moved = Seq::new(w.len(), |k: int| f[k] * (w[k] * (s[k] - weighed(w, s))));
    let slopes = Seq::new(w.len(), |k: int| (w[k] * (f[k] - weighed(w, f))) * s[k]);
    lemma_swapped_means(w, s, f);
    assert forall|k: int| 0 <= k < n implies #[trigger] layers[k] == moved[k] * 1real + e[k] * 1real
        + e[k] * 0real by {
        let v = e[k];
        assert(v * 0real == 0real) by (nonlinear_arith);
    }
    algebra::lemma_total_blend(layers, moved, e, e, 1real, 1real, 0real);
    // layer by layer
    let total = Seq::new(
        rows.len(),
        |k: int|
            gradient::inner(formula::layer_gradient(a, q, rows, g, k), dirs[k]) + gradient::inner(
                formula::query_gradient(a, q, rows, g, k),
                u,
            ),
    );
    let mean = Seq::new(rows.len(), |j: int| (a.times)(w[j], formula::dot(a, g, rows[j])));
    assert forall|j: int| 0 <= j < n implies #[trigger] mean[j] == w[j] * f[j] by {
        gradient::lemma_dot(x, g, rows[j]);
    }
    assert(mean =~= Seq::new(w.len(), |j: int| w[j] * f[j]));
    assert forall|k: int| 0 <= k < n implies #[trigger] total[k] == slopes[k] * 1real + e[k] * 1real
        + e[k] * 0real by {
        lemma_layer_rate(x, q, u, rows, dirs, g, k);
        gradient::lemma_dot(x, g, rows[k]);
        assert(formula::score_gradient(a, q, rows, g, k) == w[k] * (f[k] - weighed(w, f)));
        let v = e[k];
        assert(v * 0real == 0real) by (nonlinear_arith);
    }
    algebra::lemma_total_blend(total, slopes, e, e, 1real, 1real, 0real);
}

// ---- the gradient is the only one ----

/// A row of zeros.
spec fn still(d: nat) -> Row {
    Seq::new(d, |c: int| 0real)
}

/// A row that is one in the column `j` and zero elsewhere.
spec fn unit(d: nat, j: int) -> Row {
    Seq::new(
        d,
        |c: int|
            if c == j {
                1real
            } else {
                0real
            },
    )
}

proof fn lemma_inner_unit(p: Row, d: nat, j: int)
    requires
        0 <= j < d,
    ensures
        gradient::inner(p, unit(d, j)) == p[j],
        gradient::inner(p, still(d)) == 0real,
{
    let u = unit(d, j);
    let s = Seq::new(u.len(), |c: int| p[c] * u[c]);
    assert forall|c: int| 0 <= c < s.len() && c != j implies #[trigger] s[c] == 0real by {
        algebra::lemma_nothing(p[c]);
    }
    algebra::lemma_total_single(s, j);
    let z = still(d);
    let t = Seq::new(z.len(), |c: int| p[c] * z[c]);
    assert forall|c: int| 0 <= c < t.len() implies #[trigger] t[c] == 0real by {
        algebra::lemma_nothing(p[c]);
    }
    algebra::lemma_total_nothing(t);
}

/// What `layers` and `query` say of the rate of change along the directions `dirs` and `u`.
pub open spec fn along_directions(layers: Seq<Row>, query: Row, dirs: Seq<Row>, u: Row) -> real {
    exact::total(Seq::new(layers.len(), |k: int| gradient::inner(layers[k], dirs[k])))
        + gradient::inner(query, u)
}

/// The rate of change of depth attention along the directions `dirs` and `u`, for the
/// gradient `g` of the result.
pub open spec fn rate_along(
    x: Choice,
    q: Row,
    u: Row,
    rows: Seq<Row>,
    dirs: Seq<Row>,
    g: Row,
) -> real {
    weighed(
        g,
        rates(formula::weighted_sum(movings(x), along(q, u), all_along(rows, dirs))),
    )
}

/// There is one gradient only. Whatever computes rows that give the rate of change of depth
/// attention along every direction, a graph of the single operations among them, computes
/// the gradients of the layers and, summed over the layers, that of the query.
pub proof fn lemma_gradient_is_unique(
    x: Choice,
    q: Row,
    rows: Seq<Row>,
    g: Row,
    layers: Seq<Row>,
    query: Row,
)
    requires
        exact::sound(x),
        rows.len() > 0,
        exact::fitting(q, rows),
        g.len() == q.len(),
        layers.len() == rows.len(),
        exact::fitting(q, layers),
        query.len() == q.len(),
        forall|u: Row, dirs: Seq<Row>| #[trigger]
            directed(q, u, rows, dirs) ==> rate_along(x, q, u, rows, dirs, g) == along_directions(
                layers,
                query,
                dirs,
                u,
            ),
    ensures
        ({
            let a = exact::reals(x);
            &&& forall|k: int|
                0 <= k < rows.len() ==> #[trigger] layers[k] == formula::layer_gradient(
                    a,
                    q,
                    rows,
                    g,
                    k,
                )
            &&& query == Seq::new(
                q.len(),
                |c: int|
                    exact::total(
                        Seq::new(
                            rows.len(),
                            |k: int| formula::query_gradient(a, q, rows, g, k)[c],
                        ),
                    ),
            )
        }),
{
    let a = exact::reals(x);
    let (n, d) = (rows.len(), q.len());
    assert forall|k: int| 0 <= k < n implies #[trigger] layers[k] == formula::layer_gradient(
        a,
        q,
        rows,
        g,
        k,
    ) by {
        let own = formula::layer_gradient(a, q, rows, g, k);
        assert(rows[k].len() == d && layers[k].len() == d);
        assert forall|j: int| 0 <= j < d implies #[trigger] layers[k][j] == own[j] by {
            let dirs = Seq::new(
                n,
                |i: int|
                    if i == k {
                        unit(d, j)
                    } else {
                        still(d)
                    },
            );
            let u = still(d);
            assert(directed(q, u, rows, dirs));
            lemma_gradient_is_derivative(x, q, u, rows, dirs, g);
            let said = Seq::new(layers.len(), |i: int| gradient::inner(layers[i], dirs[i]));
            let total = Seq::new(
                rows.len(),
                |i: int|
                    gradient::inner(formula::layer_gradient(a, q, rows, g, i), dirs[i])
                        + gradient::inner(formula::query_gradient(a, q, rows, g, i), u),
            );
            lemma_inner_unit(query, d, j);
            assert forall|i: int| 0 <= i < n implies (#[trigger] said[i]) == (if i == k {
                layers[k][j]
            } else {
                0real
            }) && total[i] == (if i == k {
                own[j]
            } else {
                0real
            }) by {
                lemma_inner_unit(layers[i], d, j);
                lemma_inner_unit(formula::layer_gradient(a, q, rows, g, i), d, j);
                lemma_inner_unit(formula::query_gradient(a, q, rows, g, i), d, j);
            }
            algebra::lemma_total_single(said, k);
            assert forall|i: int| 0 <= i < n && i != k implies #[trigger] total[i] == 0real by {
                assert(said[i] == 0real);
            }
            algebra::lemma_total_single(total, k);
            assert(said[k] == layers[k][j]);
        }
        assert(layers[k] =~= own);
    }
    let sums = Seq::new(
        d,
        |c: int|
            exact::total(
                Seq::new(rows.len(), |k: int| formula::query_gradient(a, q, rows, g, k)[c]),
            ),
    );
    assert forall|j: int| 0 <= j < d implies #[trigger] query[j] == sums[j] by {
        let dirs = Seq::new(n, |i: int| still(d));
        let u = unit(d, j);
        assert(directed(q, u, rows, dirs));
        lemma_gradient_is_derivative(x, q, u, rows, dirs, g);
        let said = Seq::new(layers.len(), |i: int| gradient::inner(layers[i], dirs[i]));
        let total = Seq::new(
            rows.len(),
            |i: int|
                gradient::inner(formula::layer_gradient(a, q, rows, g, i), dirs[i])
                    + gradient::inner(formula::query_gradient(a, q, rows, g, i), u),
        );
        let parts = Seq::new(rows.len(), |k: int| formula::query_gradient(a, q, rows, g, k)[j]);
        lemma_inner_unit(query, d, j);
        assert forall|i: int| 0 <= i < n implies (#[trigger] said[i]) == 0real && total[i]
            == parts[i] by {
            lemma_inner_unit(layers[i], d, j);
            lemma_inner_unit(formula::layer_gradient(a, q, rows, g, i), d, j);
            lemma_inner_unit(formula::query_gradient(a, q, rows, g, i), d, j);
        }
        algebra::lemma_total_nothing(said);
        assert forall|i: int| 0 <= i < n implies #[trigger] total[i] == parts[i] by {
            assert(said[i] == 0real);
        }
        assert(total =~= parts);
    }
    assert(query =~= sums);
}

} // verus!
