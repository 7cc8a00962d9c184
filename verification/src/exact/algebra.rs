//! Products and quotients of real numbers.
use vstd::prelude::*;

use crate::exact;

verus! {

/// Products distribute over sums and differences.
pub proof fn lemma_distributes(a: real, b: real, k: real)
    ensures
        (a + b) * k == a * k + b * k,
        (a - b) * k == a * k - b * k,
        k * (a + b) == k * a + k * b,
        k * (a - b) == k * a - k * b,
{
    assert((a + b) * k == a * k + b * k) by (nonlinear_arith);
    assert((a - b) * k == a * k - b * k) by (nonlinear_arith);
    assert(k * (a + b) == k * a + k * b) by (nonlinear_arith);
    assert(k * (a - b) == k * a - k * b) by (nonlinear_arith);
}

/// The order of two factors does not matter.
pub proof fn lemma_commutes(a: real, b: real)
    ensures
        a * b == b * a,
{
    assert(a * b == b * a) by (nonlinear_arith);
}

/// The grouping of three factors does not matter.
pub proof fn lemma_associates(a: real, b: real, k: real)
    ensures
        (a * b) * k == a * (b * k),
{
    assert((a * b) * k == a * (b * k)) by (nonlinear_arith);
}

/// The products of three numbers, in any order.
pub proof fn lemma_three(a: real, b: real, k: real)
    ensures
        (a * b) * k == a * (b * k),
        (a * b) * k == (a * k) * b,
        (a * b) * k == (k * a) * b,
        (a * b) * k == (b * k) * a,
        a * (b * k) == b * (a * k),
{
    lemma_associates(a, b, k);
    lemma_associates(a, k, b);
    lemma_commutes(b, k);
    lemma_commutes(a, k);
    lemma_commutes(a, b * k);
    lemma_commutes(a, b);
    lemma_associates(b, a, k);
}

/// Products with a negated factor.
pub proof fn lemma_negated(k: real, p: real)
    ensures
        k * (0real - p) == 0real - k * p,
        (0real - p) * k == 0real - p * k,
{
    lemma_distributes(0real, p, k);
    assert(k * 0real == 0real) by (nonlinear_arith);
    assert(0real * k == 0real) by (nonlinear_arith);
}

/// A quotient times its divisor, and as a product with the inverse.
pub proof fn lemma_divided(f: real, h: real)
    requires
        h > 0real,
    ensures
        (f / h) * h == f,
        f / h == f * (1real / h),
{
    assert((f / h) * h == f) by (nonlinear_arith)
        requires
            h > 0real,
    ;
    assert(f / h == f * (1real / h)) by (nonlinear_arith)
        requires
            h > 0real,
    ;
}

/// A product over one of its factors.
pub proof fn lemma_cancels(n: real, d: real)
    requires
        d > 0real,
    ensures
        (n * d) / d == n,
{
    assert((n * d) / d == n) by (nonlinear_arith)
        requires
            d > 0real,
    ;
}

/// The inverses of a number, of its square and of its cube.
pub proof fn lemma_inverses(r: real)
    requires
        r > 0real,
    ensures
        r * r > 0real,
        r * (1real / (r * r)) == 1real / r,
        1real / (r * r) == (1real / r) * (1real / r),
        1real / (r * (r * r)) == (1real / r) * (1real / (r * r)),
{
    assert(r * r > 0real) by (nonlinear_arith)
        requires
            r > 0real,
    ;
    let i = 1real / r;
    let n = r * r;
    let j = 1real / n;
    lemma_divided(1real, r);
    lemma_divided(1real, n);
    // i * r == 1 and j * (r * r) == 1
    lemma_commutes(j, n);
    lemma_associates(r, r, j);
    // r * (r * j) == 1
    let k = r * j;
    assert(i * (r * k) == (i * r) * k) by {
        lemma_associates(i, r, k);
    }
    assert(1real * k == k && i * 1real == i);
    assert(k == i);
    lemma_associates(i, r, j);
    assert(1real * j == j);
    assert(j == i * i);
    // the cube
    let c = r * n;
    assert(c > 0real) by (nonlinear_arith)
        requires
            c == r * n,
            r > 0real,
            n > 0real,
    ;
    lemma_divided(1real, c);
    let x = 1real / c;
    lemma_associates(x, r, n);
    // (x * r) * n == 1
    lemma_associates(x * r, n, j);
    lemma_commutes(n, j);
    assert((x * r) * 1real == x * r);
    assert(x * r == j);
    lemma_associates(x, r, i);
    lemma_commutes(r, i);
    assert(x * 1real == x);
    lemma_commutes(j, i);
}

/// A factor that is not negative keeps an order.
pub proof fn lemma_ordered(a: real, b: real, k: real)
    requires
        a <= b,
        k >= 0real,
    ensures
        a * k <= b * k,
{
    assert(a * k <= b * k) by (nonlinear_arith)
        requires
            a <= b,
            k >= 0real,
    ;
}

/// A positive factor can be taken out of an order.
pub proof fn lemma_order_without(a: real, b: real, k: real)
    requires
        a * k <= b * k,
        k > 0real,
    ensures
        a <= b,
{
    if a > b {
        assert(a * k > b * k) by (nonlinear_arith)
            requires
                a > b,
                k > 0real,
        ;
    }
}

/// A product of a product with another one, factor by factor.
pub proof fn lemma_four(a: real, b: real, c: real, d: real)
    ensures
        (a * b) * (c * d) == (b * d) * (a * c),
{
    lemma_associates(a, b, c * d);
    lemma_three(b, c, d);
    lemma_three(a, c, b * d);
    lemma_commutes(a * c, b * d);
    lemma_associates(a, c, b * d);
}

/// Products with zero.
pub proof fn lemma_nothing(a: real)
    ensures
        a * 0real == 0real,
        0real * a == 0real,
{
    assert(a * 0real == 0real) by (nonlinear_arith);
    assert(0real * a == 0real) by (nonlinear_arith);
}

/// A square is not negative.
pub proof fn lemma_square(a: real)
    ensures
        a * a >= 0real,
{
    assert(a * a >= 0real) by (nonlinear_arith);
}

/// A sum of zeros.
pub proof fn lemma_total_nothing(s: Seq<real>)
    requires
        forall|k: int| 0 <= k < s.len() ==> #[trigger] s[k] == 0real,
    ensures
        exact::total(s) == 0real,
    decreases s.len(),
{
    if s.len() > 0 {
        let before = s.drop_last();
        assert forall|k: int| 0 <= k < before.len() implies #[trigger] before[k] == 0real by {
            assert(before[k] == s[k]);
        }
        lemma_total_nothing(before);
        assert(s[s.len() - 1] == 0real);
    }
}

/// A sum of which all terms but one are zero.
pub proof fn lemma_total_single(s: Seq<real>, j: int)
    requires
        0 <= j < s.len(),
        forall|k: int| 0 <= k < s.len() && k != j ==> #[trigger] s[k] == 0real,
    ensures
        exact::total(s) == s[j],
    decreases s.len(),
{
    let before = s.drop_last();
    assert forall|k: int| 0 <= k < before.len() && k != j implies #[trigger] before[k] == 0real by {
        assert(before[k] == s[k]);
    }
    if j == s.len() - 1 {
        lemma_total_nothing(before);
    } else {
        lemma_total_single(before, j);
        assert(s[s.len() - 1] == 0real);
        assert(before[j] == s[j]);
    }
}

/// A sum of ones.
pub proof fn lemma_total_ones(s: Seq<real>)
    requires
        forall|k: int| 0 <= k < s.len() ==> #[trigger] s[k] == 1real,
    ensures
        exact::total(s) == s.len() as real,
    decreases s.len(),
{
    if s.len() > 0 {
        let before = s.drop_last();
        assert forall|k: int| 0 <= k < before.len() implies #[trigger] before[k] == 1real by {
            assert(before[k] == s[k]);
        }
        lemma_total_ones(before);
        assert(s[s.len() - 1] == 1real);
        assert(s.len() as real == before.len() as real + 1real);
    }
}

/// The sum of a combination of three sequences.
pub proof fn lemma_total_blend(
    s: Seq<real>,
    t: Seq<real>,
    u: Seq<real>,
    v: Seq<real>,
    a: real,
    b: real,
    c: real,
)
    requires
        t.len() == s.len(),
        u.len() == s.len(),
        v.len() == s.len(),
        forall|k: int| 0 <= k < s.len() ==> #[trigger] s[k] == t[k] * a + u[k] * b + v[k] * c,
    ensures
        exact::total(s) == exact::total(t) * a + exact::total(u) * b + exact::total(v) * c,
    decreases s.len(),
{
    if s.len() > 0 {
        let (p, q, r, w) = (s.drop_last(), t.drop_last(), u.drop_last(), v.drop_last());
        assert forall|k: int| 0 <= k < p.len() implies #[trigger] p[k] == q[k] * a + r[k] * b
            + w[k] * c by {
            assert(p[k] == s[k]);
        }
        lemma_total_blend(p, q, r, w, a, b, c);
        lemma_distributes(exact::total(q), t.last(), a);
        lemma_distributes(exact::total(r), u.last(), b);
        lemma_distributes(exact::total(w), v.last(), c);
        assert(s[s.len() - 1] == s.last());
    } else {
        assert(0real * a == 0real) by (nonlinear_arith);
        assert(0real * b == 0real) by (nonlinear_arith);
        assert(0real * c == 0real) by (nonlinear_arith);
    }
}

} // verus!
