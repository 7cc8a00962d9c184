//! What holds in exact arithmetic.
//!
//! The laws here speak of the formulas of [`formula`] over the real numbers. What a tensor
//! holds is rounded after every operation, and no bound on the difference is stated.
use vstd::prelude::*;

use crate::formula;
use crate::formula::{Arithmetic, State};

pub mod algebra;
pub mod bounds;
pub mod chunks;
pub mod depth;
pub mod derivative;
pub mod gradient;
pub mod merging;
pub mod mixture;
pub mod order;

verus! {

/// The exponential of a sum is the product of the exponentials.
pub open spec fn turns(e: spec_fn(real) -> real, x: real, y: real) -> bool {
    e(x + y) == e(x) * e(y)
}

/// The natural exponential: it turns sums into products, is positive, and lies on or above
/// its tangent at zero.
pub open spec fn exponential(e: spec_fn(real) -> real) -> bool {
    &&& forall|x: real, y: real| #[trigger] turns(e, x, y)
    &&& forall|x: real| #[trigger] e(x) > 0real
    &&& forall|x: real| #[trigger] e(x) >= 1real + x
}

/// The larger of two numbers.
pub open spec fn top(x: real, y: real) -> real {
    if x < y {
        y
    } else {
        x
    }
}

/// The sum of a sequence.
pub open spec fn total(s: Seq<real>) -> real
    decreases s.len(),
{
    if s.len() == 0 {
        0real
    } else {
        total(s.drop_last()) + s.last()
    }
}

/// What the arithmetic of real numbers leaves open: the exponential, the root, and the
/// constants.
pub struct Choice {
    pub e: spec_fn(real) -> real,
    pub root: spec_fn(real) -> real,
    pub epsilon: real,
    pub scale: real,
    pub floor: real,
    pub least: real,
}

/// The exponential and the root have their laws, the term of a norm is positive, and the
/// least divisor is at most one.
pub open spec fn sound(x: Choice) -> bool {
    &&& exponential(x.e)
    &&& forall|v: real|
        v > 0real ==> #[trigger] (x.root)(v) > 0real && (x.root)(v) * (x.root)(v) == v
    &&& x.epsilon > 0real
    &&& x.least <= 1real
}

/// The arithmetic of real numbers.
pub open spec fn reals(x: Choice) -> Arithmetic<real> {
    Arithmetic {
        plus: |a: real, b: real| a + b,
        minus: |a: real, b: real| a - b,
        times: |a: real, b: real| a * b,
        over: |a: real, b: real| a / b,
        larger: |a: real, b: real| top(a, b),
        square: |a: real| a * a,
        root: x.root,
        inverse_root: |a: real| 1real / (x.root)(a),
        inverse_cube: |a: real| 1real / ((x.root)(a) * a),
        exp: x.e,
        magnitude: |a: real| if a < 0real { -a } else { a },
        halved: |a: real| a / 2real,
        bounded: |a: real| top(a, x.least),
        sum_columns: |s: Seq<real>| total(s),
        sum_layers: |s: Seq<real>| total(s),
        softmax: |s: Seq<real>|
            Seq::new(
                s.len(),
                |k: int| (x.e)(s[k]) / total(Seq::new(s.len(), |j: int| (x.e)(s[j]))),
            ),
        zero: 0real,
        one: 1real,
        epsilon: x.epsilon,
        scale: x.scale,
        floor: x.floor,
    }
}

/// A row of real numbers.
pub type Row = Seq<real>;

/// The sum of what `g` makes of the rows.
pub open spec fn over_rows(rows: Seq<Row>, g: spec_fn(Row) -> real) -> real
    decreases rows.len(),
{
    if rows.len() == 0 {
        0real
    } else {
        over_rows(rows.drop_last(), g) + g(rows.last())
    }
}

/// The sum of the exponentials of the scores relative to `m`.
pub open spec fn mass(e: spec_fn(real) -> real, s: spec_fn(Row) -> real, rows: Seq<Row>, m: real) -> real {
    over_rows(rows, |r: Row| e(s(r) - m))
}

/// One column of the sum of the rows under these exponentials.
pub open spec fn pull(
    e: spec_fn(real) -> real,
    s: spec_fn(Row) -> real,
    rows: Seq<Row>,
    m: real,
    c: int,
) -> real {
    over_rows(rows, |r: Row| e(s(r) - m) * r[c])
}

/// The largest score.
pub open spec fn highest(s: spec_fn(Row) -> real, rows: Seq<Row>) -> real
    decreases rows.len(),
{
    if rows.len() <= 1 {
        s(rows.last())
    } else {
        top(highest(s, rows.drop_last()), s(rows.last()))
    }
}

/// The mixture of the rows under the softmax of their scores.
pub open spec fn mixed(
    e: spec_fn(real) -> real,
    s: spec_fn(Row) -> real,
    rows: Seq<Row>,
    d: nat,
) -> Row {
    Seq::new(d, |c: int| pull(e, s, rows, 0real, c) / mass(e, s, rows, 0real))
}

/// The laws of the exponential, at two numbers.
pub proof fn lemma_exp(e: spec_fn(real) -> real, x: real, y: real)
    requires
        exponential(e),
    ensures
        e(x + y) == e(x) * e(y),
        e(x) > 0real,
        e(0real) == 1real,
{
    assert(turns(e, x, y));
    assert(turns(e, 0real, 0real));
    let u = e(0real);
    assert(u > 0real);
    assert(0real + 0real == 0real);
    assert(u == 1real) by (nonlinear_arith)
        requires
            u == u * u,
            u > 0real,
    ;
}

/// Another reference point changes all exponentials by one factor.
pub proof fn lemma_shift(
    e: spec_fn(real) -> real,
    s: spec_fn(Row) -> real,
    rows: Seq<Row>,
    m: real,
    n: real,
    c: int,
)
    requires
        exponential(e),
    ensures
        mass(e, s, rows, n) == mass(e, s, rows, m) * e(m - n),
        pull(e, s, rows, n, c) == pull(e, s, rows, m, c) * e(m - n),
    decreases rows.len(),
{
    let k = e(m - n);
    if rows.len() == 0 {
        assert(0real * k == 0real);
    } else {
        let before = rows.drop_last();
        let r = rows.last();
        lemma_shift(e, s, before, m, n, c);
        lemma_exp(e, s(r) - m, m - n);
        assert((s(r) - m) + (m - n) == s(r) - n);
        let (a, b, w, x) = (mass(e, s, before, m), pull(e, s, before, m, c), e(s(r) - m), r[c]);
        assert(e(s(r) - n) == w * k);
        assert((a + w) * k == a * k + w * k) by (nonlinear_arith);
        assert((b + w * x) * k == b * k + (w * k) * x) by (nonlinear_arith);
        assert(mass(e, s, rows, m) == a + w);
        assert(pull(e, s, rows, m, c) == b + w * x);
        assert(mass(e, s, rows, n) == mass(e, s, before, n) + e(s(r) - n));
        assert(pull(e, s, rows, n, c) == pull(e, s, before, n, c) + e(s(r) - n) * x);
    }
}

/// The sum of the exponentials lies between one and the number of rows, relative to the
/// largest score.
pub proof fn lemma_mass(e: spec_fn(real) -> real, s: spec_fn(Row) -> real, rows: Seq<Row>, m: real)
    requires
        exponential(e),
    ensures
        mass(e, s, rows, m) >= 0real,
        rows.len() > 0 ==> mass(e, s, rows, m) > 0real,
        rows.len() > 0 && m == highest(s, rows) ==> mass(e, s, rows, m) >= 1real,
        rows.len() > 0 && m >= highest(s, rows) ==> mass(e, s, rows, m) <= rows.len() as real,
    decreases rows.len(),
{
    if rows.len() > 0 {
        let before = rows.drop_last();
        let r = rows.last();
        lemma_mass(e, s, before, m);
        lemma_exp(e, s(r) - m, 0real);
        assert(mass(e, s, rows, m) == mass(e, s, before, m) + e(s(r) - m));
        if m == highest(s, rows) && s(r) == m {
            assert(s(r) - m == 0real);
        }
        if m >= highest(s, rows) {
            lemma_exp(e, s(r) - m, m - s(r));
            assert((s(r) - m) + (m - s(r)) == 0real);
            let (a, b) = (e(s(r) - m), e(m - s(r)));
            assert(a <= 1real) by (nonlinear_arith)
                requires
                    a * b == 1real,
                    a > 0real,
                    b >= 1real,
            ;
            assert(rows.len() as real == before.len() as real + 1real);
        }
    }
}

/// The mixture does not depend on the reference point.
pub proof fn lemma_quotient(
    e: spec_fn(real) -> real,
    s: spec_fn(Row) -> real,
    rows: Seq<Row>,
    m: real,
    c: int,
)
    requires
        exponential(e),
        rows.len() > 0,
    ensures
        pull(e, s, rows, m, c) / mass(e, s, rows, m) == pull(e, s, rows, 0real, c) / mass(
            e,
            s,
            rows,
            0real,
        ),
{
    lemma_shift(e, s, rows, 0real, m, c);
    lemma_mass(e, s, rows, 0real);
    lemma_exp(e, 0real - m, 0real);
    let (p, q, k) = (pull(e, s, rows, 0real, c), mass(e, s, rows, 0real), e(0real - m));
    assert((p * k) / (q * k) == p / q) by (nonlinear_arith)
        requires
            q > 0real,
            k > 0real,
    ;
}

// ---- scores ----

/// The score of a row against `q`.
pub open spec fn scorer(x: Choice, q: Row) -> spec_fn(Row) -> real {
    |r: Row| formula::score(reals(x), q, r)
}

/// Rows as wide as the query.
pub open spec fn fitting(q: Row, rows: Seq<Row>) -> bool {
    forall|k: int| 0 <= k < rows.len() ==> (#[trigger] rows[k]).len() == q.len()
}

/// A sum of numbers that are not negative is not negative.
pub proof fn lemma_total_nonnegative(s: Seq<real>)
    requires
        forall|k: int| 0 <= k < s.len() ==> #[trigger] s[k] >= 0real,
    ensures
        total(s) >= 0real,
    decreases s.len(),
{
    if s.len() > 0 {
        assert(s.last() >= 0real);
        assert forall|k: int| 0 <= k < s.drop_last().len() implies #[trigger] s.drop_last()[k]
            >= 0real by {
            assert(s.drop_last()[k] == s[k]);
        }
        lemma_total_nonnegative(s.drop_last());
    }
}

/// A factor of all terms is a factor of the sum.
pub proof fn lemma_total_scaled(s: Seq<real>, t: Seq<real>, f: real)
    requires
        s.len() == t.len(),
        forall|k: int| 0 <= k < s.len() ==> #[trigger] t[k] == s[k] * f,
    ensures
        total(t) == total(s) * f,
    decreases s.len(),
{
    if s.len() > 0 {
        let (u, v) = (s.drop_last(), t.drop_last());
        assert forall|k: int| 0 <= k < u.len() implies #[trigger] v[k] == u[k] * f by {
            assert(v[k] == t[k]);
        }
        lemma_total_scaled(u, v, f);
        let (a, b) = (total(u), s.last());
        assert(t.last() == b * f);
        assert((a + b) * f == a * f + b * f) by (nonlinear_arith);
    } else {
        assert(0real * f == 0real) by (nonlinear_arith);
    }
}

/// The norm of a row is positive.
pub proof fn lemma_norm(x: Choice, r: Row)
    requires
        sound(x),
    ensures
        formula::norm(reals(x), r) > 0real,
{
    let a = reals(x);
    let squares = Seq::new(r.len(), |c: int| (a.square)(r[c]));
    assert forall|k: int| 0 <= k < squares.len() implies #[trigger] squares[k] >= 0real by {
        let v = r[k];
        assert(v * v >= 0real) by (nonlinear_arith);
    }
    lemma_total_nonnegative(squares);
    assert((x.root)(total(squares) + x.epsilon) > 0real);
}

/// Scores on the fused path are scores: to divide by the norm at the end is to divide
/// every column by it.
pub proof fn lemma_fused_score(x: Choice, q: Row, r: Row)
    requires
        sound(x),
    ensures
        formula::fused_score(reals(x), q, r) == formula::score(reals(x), q, r),
{
    let a = reals(x);
    let n = formula::norm(a, r);
    lemma_norm(x, r);
    assert(Seq::new(r.len(), |c: int| (a.square)(r[c])) =~= Seq::new(
        r.len(),
        |c: int| (a.times)(r[c], r[c]),
    ));
    let products = Seq::new(r.len(), |c: int| (a.times)(q[c], r[c]));
    let quotients = Seq::new(r.len(), |c: int| (a.times)(q[c], (a.over)(r[c], n)));
    let f = 1real / n;
    assert forall|k: int| 0 <= k < products.len() implies #[trigger] quotients[k] == products[k]
        * f by {
        let (u, v) = (q[k], r[k]);
        assert(u * (v / n) == (u * v) * (1real / n)) by (nonlinear_arith)
            requires
                n > 0real,
        ;
    }
    lemma_total_scaled(products, quotients, f);
    let (p, c) = (total(products), x.scale);
    assert((p * f) * c == (p * c) / n) by (nonlinear_arith)
        requires
            f == 1real / n,
            n > 0real,
    ;
}

/// Half of the sum and the distance of two scores is the larger of them, and so the two
/// paths merge alike.
pub proof fn lemma_fused_merge(x: Choice, o: State<real>, r: Row, s: real)
    ensures
        formula::upper(reals(x), o.max, s) == top(o.max, s),
        formula::fused_merge(reals(x), o, r, s) == formula::merge(reals(x), o, r, s),
{
}

// ---- attention over sources ----

/// Attention over sources in closed form: the largest score, and relative to it the sum
/// of the exponentials and the sum of the sources under them.
pub proof fn lemma_closed_form(x: Choice, q: Row, rows: Seq<Row>)
    requires
        sound(x),
        rows.len() > 0,
        fitting(q, rows),
    ensures
        ({
            let o = formula::over_sources(reals(x), q, rows);
            let s = scorer(x, q);
            &&& o.max == highest(s, rows)
            &&& o.sum == mass(x.e, s, rows, o.max)
            &&& 1real <= o.sum <= rows.len() as real
            &&& o.acc.len() == q.len()
            &&& forall|c: int|
                0 <= c < q.len() ==> #[trigger] o.acc[c] == pull(x.e, s, rows, o.max, c)
        }),
    decreases rows.len(),
{
    let a = reals(x);
    let s = scorer(x, q);
    let o = formula::over_sources(a, q, rows);
    let r = rows.last();
    let before = rows.drop_last();
    assert(s(r) == formula::score(a, q, r));
    assert(rows[rows.len() - 1].len() == q.len());
    if rows.len() == 1 {
        lemma_exp(x.e, 0real, 0real);
        assert(s(r) - s(r) == 0real);
        assert(over_rows(before, |r: Row| (x.e)(s(r) - o.max)) == 0real);
        assert forall|c: int| 0 <= c < q.len() implies #[trigger] o.acc[c] == pull(
            x.e,
            s,
            rows,
            o.max,
            c,
        ) by {
            assert(over_rows(before, |r: Row| (x.e)(s(r) - o.max) * r[c]) == 0real);
            assert(1real * r[c] == r[c]);
        }
    } else {
        assert forall|k: int| 0 <= k < before.len() implies (#[trigger] before[k]).len()
            == q.len() by {
            assert(before[k] == rows[k]);
        }
        lemma_closed_form(x, q, before);
        let p = formula::over_sources(a, q, before);
        lemma_fused_merge(x, p, r, s(r));
        lemma_shift(x.e, s, before, p.max, o.max, 0);
        assert forall|c: int| 0 <= c < q.len() implies #[trigger] o.acc[c] == pull(
            x.e,
            s,
            rows,
            o.max,
            c,
        ) by {
            lemma_shift(x.e, s, before, p.max, o.max, c);
            assert(p.acc[c] == pull(x.e, s, before, p.max, c));
            let (u, v) = ((x.e)(s(r) - o.max), r[c]);
            assert(u * v == v * u) by (nonlinear_arith);
        }
    }
    lemma_mass(x.e, s, rows, o.max);
}

/// The attended output over sources is their mixture under the softmax of their scores.
pub proof fn lemma_attended(x: Choice, q: Row, rows: Seq<Row>)
    requires
        sound(x),
        rows.len() > 0,
        fitting(q, rows),
    ensures
        formula::attended(reals(x), formula::over_sources(reals(x), q, rows)) == mixed(
            x.e,
            scorer(x, q),
            rows,
            q.len(),
        ),
{
    let o = formula::over_sources(reals(x), q, rows);
    let r = formula::attended(reals(x), o);
    lemma_closed_form(x, q, rows);
    assert forall|c: int| 0 <= c < q.len() implies #[trigger] r[c] == mixed(
        x.e,
        scorer(x, q),
        rows,
        q.len(),
    )[c] by {
        lemma_quotient(x.e, scorer(x, q), rows, o.max, c);
        assert(o.acc[c] == pull(x.e, scorer(x, q), rows, o.max, c));
    }
    assert(r =~= mixed(x.e, scorer(x, q), rows, q.len()));
}

/// Attention over sources is the same on the fused path.
pub proof fn lemma_fused_streaming(x: Choice, q: Row, rows: Seq<Row>)
    requires
        sound(x),
    ensures
        formula::fused_over_sources(reals(x), q, rows) == formula::over_sources(reals(x), q, rows),
    decreases rows.len(),
{
    let r = rows.last();
    lemma_fused_score(x, q, r);
    if rows.len() > 1 {
        let before = rows.drop_last();
        lemma_fused_streaming(x, q, before);
        let o = formula::over_sources(reals(x), q, before);
        lemma_fused_merge(x, o, r, formula::score(reals(x), q, r));
    }
}

} // verus!
