//! Two sources in exact arithmetic.
use vstd::prelude::*;

use crate::exact;
use crate::exact::algebra;
use crate::exact::{Choice, Row};
use crate::formula;
use crate::formula::State;

verus! {

proof fn lemma_mix_of_two(y: real, z: real, f: real, g: real, k: real)
    requires
        f > 0real,
        g > 0real,
        f * k + g * k > 0real,
    ensures
        (y * (f * k) + z * (g * k)) / (1real * (f * k) + g * k) == y * (f / (f + g)) + z * (g / (f
            + g)),
{
    let h = f + g;
    let d = h * k;
    let (p, q) = (f / h, g / h);
    let n = y * p + z * q;
    algebra::lemma_divided(f, h);
    algebra::lemma_divided(g, h);
    algebra::lemma_distributes(f, g, k);
    algebra::lemma_associates(p, h, k);
    algebra::lemma_associates(q, h, k);
    algebra::lemma_associates(y, p, d);
    algebra::lemma_associates(z, q, d);
    algebra::lemma_distributes(y * p, z * q, d);
    algebra::lemma_cancels(n, d);
}

proof fn lemma_twice(w: real, a: real, y: real, b: real, k: real)
    ensures
        (w * a + y * b) * k == w * (a * k) + y * (b * k),
        (w * a + b) * k == w * (a * k) + b * k,
{
    algebra::lemma_associates(w, a, k);
    algebra::lemma_associates(y, b, k);
    algebra::lemma_distributes(w * a, y * b, k);
    algebra::lemma_distributes(w * a, b, k);
}

/// The order in which two sources are merged does not matter.
pub proof fn lemma_merge_order(x: Choice, o: State<real>, u: Row, s: real, v: Row, t: real)
    requires
        exact::sound(x),
        u.len() == v.len(),
        o.acc.len() == u.len(),
    ensures
        ({
            let a = exact::reals(x);
            formula::merge(a, formula::merge(a, o, u, s), v, t) == formula::merge(
                a,
                formula::merge(a, o, v, t),
                u,
                s,
            )
        }),
{
    let a = exact::reals(x);
    let (p, q) = (formula::merge(a, o, u, s), formula::merge(a, o, v, t));
    let (l, r) = (formula::merge(a, p, v, t), formula::merge(a, q, u, s));
    exact::lemma_fused_merge(x, o, u, s);
    exact::lemma_fused_merge(x, o, v, t);
    exact::lemma_fused_merge(x, p, v, t);
    exact::lemma_fused_merge(x, q, u, s);
    let n = l.max;
    assert(r.max == n);
    exact::lemma_exp(x.e, o.max - p.max, p.max - n);
    exact::lemma_exp(x.e, s - p.max, p.max - n);
    exact::lemma_exp(x.e, o.max - q.max, q.max - n);
    exact::lemma_exp(x.e, t - q.max, q.max - n);
    assert((o.max - p.max) + (p.max - n) == o.max - n);
    assert((s - p.max) + (p.max - n) == s - n);
    assert((o.max - q.max) + (q.max - n) == o.max - n);
    assert((t - q.max) + (q.max - n) == t - n);
    lemma_twice(
        o.sum,
        (x.e)(o.max - p.max),
        1real,
        (x.e)(s - p.max),
        (x.e)(p.max - n),
    );
    lemma_twice(
        o.sum,
        (x.e)(o.max - q.max),
        1real,
        (x.e)(t - q.max),
        (x.e)(q.max - n),
    );
    assert(l.sum == r.sum);
    assert forall|c: int| 0 <= c < u.len() implies #[trigger] l.acc[c] == r.acc[c] by {
        lemma_twice(
            o.acc[c],
            (x.e)(o.max - p.max),
            u[c],
            (x.e)(s - p.max),
            (x.e)(p.max - n),
        );
        lemma_twice(
            o.acc[c],
            (x.e)(o.max - q.max),
            v[c],
            (x.e)(t - q.max),
            (x.e)(q.max - n),
        );
        assert(l.acc[c] == p.acc[c] * (x.e)(p.max - n) + v[c] * (x.e)(t - n));
        assert(r.acc[c] == q.acc[c] * (x.e)(q.max - n) + u[c] * (x.e)(s - n));
    }
    assert(l.acc =~= r.acc);
}

/// Two sources of any scores mix as the softmax of the scores says.
pub proof fn lemma_two_scores(x: Choice, u: Row, s: real, v: Row, t: real)
    requires
        exact::sound(x),
        u.len() == v.len(),
    ensures
        ({
            let a = exact::reals(x);
            let w = (a.softmax)(seq![s, t]);
            formula::attended(a, formula::merge(a, formula::first(a, u, s), v, t)) == Seq::new(
                u.len(),
                |c: int| u[c] * w[0] + v[c] * w[1],
            )
        }),
{
    let a = exact::reals(x);
    let o = formula::first(a, u, s);
    let p = formula::merge(a, o, v, t);
    let m = exact::top(s, t);
    exact::lemma_fused_merge(x, o, v, t);
    exact::lemma_exp(x.e, s, 0real - m);
    exact::lemma_exp(x.e, t, 0real - m);
    exact::lemma_exp(x.e, 0real - m, 0real);
    assert(s + (0real - m) == s - m);
    assert(t + (0real - m) == t - m);
    assert(m - m == 0real);
    let (k, f, g) = ((x.e)(0real - m), (x.e)(s), (x.e)(t));
    let scores = seq![s, t];
    let exps = Seq::new(scores.len(), |j: int| (x.e)(scores[j]));
    assert(exact::total(exps) == f + g) by {
        assert(exps =~= seq![f, g]);
        assert(exps.drop_last() =~= seq![f]);
        assert(exps.drop_last().drop_last() =~= Seq::<real>::empty());
        reveal_with_fuel(exact::total, 3);
    }
    assert((x.e)(t) > 0real);
    assert(p.sum == 1real * (f * k) + g * k);
    assert((x.e)(s - m) > 0real && (x.e)(t - m) > 0real);
    assert(p.sum >= 1real);
    let r = formula::attended(a, p);
    let w = (a.softmax)(scores);
    assert forall|c: int| 0 <= c < u.len() implies #[trigger] r[c] == u[c] * w[0] + v[c]
        * w[1] by {
        let (y, z) = (u[c], v[c]);
        assert(r[c] == (y * (f * k) + z * (g * k)) / (1real * (f * k) + g * k));
        assert(w[0] == f / (f + g) && w[1] == g / (f + g));
        lemma_mix_of_two(y, z, f, g, k);
    }
    assert(r =~= Seq::new(u.len(), |c: int| u[c] * w[0] + v[c] * w[1]));
}

} // verus!
