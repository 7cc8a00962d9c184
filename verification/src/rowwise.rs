//! Every position is computed by the same formulas.
//!
//! What the operations on arrays make of the row of a position is what the formulas of
//! [`formula`] make of it in the arithmetic of the element type.
use vstd::prelude::*;

use crate::array;
use crate::array::Array;
use crate::backward;
use crate::depth;
use crate::formula;
use crate::formula::{Arithmetic, State};
use crate::fused;
use crate::fused_block;
use crate::launch;
use crate::laws;
use crate::locality;
use crate::online;
use crate::online::Online;
use crate::positions;
use crate::score;

pub mod gradient;

verus! {

/// The code of a double precision bit pattern in an element type.
pub open spec fn narrow_code(element: nat, bits: nat) -> nat {
    if score::is_half(element) {
        array::cast_code(32, element, array::cast_code(64, 32, bits))
    } else {
        array::cast_code(64, element, bits)
    }
}

/// The code of the larger of an element and the least divisor.
pub open spec fn bounded_code(element: nat, recording: bool, x: nat) -> nat {
    let least = online::LEAST_SUM as nat;
    if score::is_half(element) && !recording {
        array::cast_code(
            32,
            element,
            array::larger_code(
                32,
                array::cast_code(element, 32, x),
                array::cast_code(64, 32, least),
            ),
        )
    } else {
        array::larger_code(element, x, array::cast_code(64, element, least))
    }
}

/// The arithmetic of an element type, for rows of `d` columns, in tensors that record
/// gradients or in those that do not.
pub open spec fn codes(element: nat, recording: bool, d: nat) -> Arithmetic<nat> {
    Arithmetic {
        plus: |x: nat, y: nat| array::add_code(element, x, y),
        minus: |x: nat, y: nat| array::sub_code(element, x, y),
        times: |x: nat, y: nat| array::mul_code(element, x, y),
        over: |x: nat, y: nat| array::div_code(element, x, y),
        larger: |x: nat, y: nat| array::larger_code(element, x, y),
        square: |x: nat| array::powf_scalar_code(element, x, 2),
        root: |x: nat| array::sqrt_code(element, x),
        inverse_root: |x: nat|
            array::powf_code(element, x, narrow_code(element, score::MINUS_HALF as nat)),
        inverse_cube: |x: nat|
            array::powf_code(
                element,
                x,
                narrow_code(element, backward::MINUS_THREE_HALVES as nat),
            ),
        exp: |x: nat| array::exp_code(element, x),
        magnitude: |x: nat| array::magnitude_code(element, x),
        halved: |x: nat| array::div_scalar_code(element, x, 2),
        bounded: |x: nat| bounded_code(element, recording, x),
        sum_columns: |l: Seq<nat>| array::sum_code(element, true, l),
        sum_layers: |l: Seq<nat>| array::sum_code(element, false, l),
        softmax: |l: Seq<nat>| array::softmax_codes(element, recording, l),
        zero: 0,
        one: array::one_code(element),
        epsilon: narrow_code(element, score::EPSILON as nat),
        scale: narrow_code(
            element,
            array::powf_code(64, array::full_code(d), score::MINUS_HALF as nat),
        ),
        floor: narrow_code(element, fused::FLOOR as nat),
    }
}

/// The row of a position.
pub open spec fn row(x: Array, m: nat) -> Seq<nat> {
    Seq::new(x.shape.last(), |c: int| positions::cell(x, true, m, c as nat))
}

/// The attention state of a position.
pub open spec fn state(o: Online, m: nat) -> State<nat> {
    State {
        max: positions::cell(o.max_score, true, m, 0),
        sum: positions::cell(o.sum_exp, true, m, 0),
        acc: row(o.acc, m),
    }
}

// ---- the operations ----

/// The result `z` of an elementwise operation, at every place.
pub open spec fn computes(
    z: Array,
    x: Array,
    ox: bool,
    y: Array,
    oy: bool,
    f: spec_fn(nat, nat) -> nat,
    outer: Seq<nat>,
) -> bool {
    &&& positions::rows_on(z, outer)
    &&& z.shape.last() == positions::wider(x, y)
    &&& z.element == x.element
    &&& forall|m: nat, c: nat|
        m < array::volume(outer) && (c < z.shape.last() || z.shape.last() == 1)
            ==> #[trigger] positions::cell(z, true, m, c) == f(
            positions::cell(x, ox, m, c),
            positions::cell(y, oy, m, c),
        )
}

proof fn lemma_computes(
    x: Array,
    ox: bool,
    y: Array,
    oy: bool,
    f: spec_fn(nat, nat) -> nat,
    outer: Seq<nat>,
)
    requires
        positions::pairs(x, ox, y, oy, outer),
    ensures
        computes(array::elementwise(x, y, array::zipped(x, y, f)), x, ox, y, oy, f, outer),
{
    let w = positions::wider(x, y);
    let z = array::elementwise(x, y, array::zipped(x, y, f));
    positions::lemma_zip_element(x, ox, y, oy, f, outer);
    assert(outer.push(w).drop_last() =~= outer);
    assert forall|m: nat, c: nat| m < array::volume(outer) && (c < w || w == 1) implies #[trigger] positions::cell(
        z,
        true,
        m,
        c,
    ) == f(positions::cell(x, ox, m, c), positions::cell(y, oy, m, c)) by {
        let col = if w == 1 {
            0
        } else {
            c
        };
        assert(array::zipped(x, y, f)[(m * w + col) as int] == f(
            positions::cell(x, ox, m, col),
            positions::cell(y, oy, m, col),
        ));
    }
}

/// The elementwise operations on two operands, at every place.
pub proof fn lemma_binary(x: Array, ox: bool, y: Array, oy: bool, outer: Seq<nat>)
    requires
        positions::pairs(x, ox, y, oy, outer),
    ensures
        ({
            let e = x.element;
            &&& computes(
                array::plus(x, y),
                x,
                ox,
                y,
                oy,
                |u: nat, v: nat| array::add_code(e, u, v),
                outer,
            )
            &&& computes(
                array::minus(x, y),
                x,
                ox,
                y,
                oy,
                |u: nat, v: nat| array::sub_code(e, u, v),
                outer,
            )
            &&& computes(
                array::times(x, y),
                x,
                ox,
                y,
                oy,
                |u: nat, v: nat| array::mul_code(e, u, v),
                outer,
            )
            &&& computes(
                array::over(x, y),
                x,
                ox,
                y,
                oy,
                |u: nat, v: nat| array::div_code(e, u, v),
                outer,
            )
            &&& computes(
                array::larger(x, y),
                x,
                ox,
                y,
                oy,
                |u: nat, v: nat| array::larger_code(e, u, v),
                outer,
            )
        }),
{
    let e = x.element;
    lemma_computes(x, ox, y, oy, |u: nat, v: nat| array::add_code(e, u, v), outer);
    lemma_computes(x, ox, y, oy, |u: nat, v: nat| array::sub_code(e, u, v), outer);
    lemma_computes(x, ox, y, oy, |u: nat, v: nat| array::mul_code(e, u, v), outer);
    lemma_computes(x, ox, y, oy, |u: nat, v: nat| array::div_code(e, u, v), outer);
    lemma_computes(x, ox, y, oy, |u: nat, v: nat| array::larger_code(e, u, v), outer);
}

/// The result `z` of an operation on each element, at every place.
spec fn converts(z: Array, x: Array, f: spec_fn(nat) -> nat, outer: Seq<nat>) -> bool {
    &&& positions::rows_on(z, outer)
    &&& z.shape == x.shape
    &&& forall|m: nat, c: nat|
        m < array::volume(outer) && (c < z.shape.last() || z.shape.last() == 1)
            ==> #[trigger] positions::cell(z, true, m, c) == f(positions::cell(x, true, m, c))
}

proof fn lemma_converts(x: Array, f: spec_fn(nat) -> nat, element: nat, outer: Seq<nat>)
    requires
        positions::rows_on(x, outer),
    ensures
        converts(Array { data: array::mapped(x, f), element, ..x }, x, f, outer),
{
    let w = x.shape.last();
    let z = Array { data: array::mapped(x, f), element, ..x };
    assert(outer.push(w) =~= x.shape);
    assert forall|m: nat, c: nat| m < array::volume(outer) && (c < w || w == 1) implies #[trigger] positions::cell(
        z,
        true,
        m,
        c,
    ) == f(positions::cell(x, true, m, c)) by {
        let col = if w == 1 {
            0
        } else {
            c
        };
        positions::lemma_place(outer, w, m, col);
    }
}

proof fn lemma_unary(x: Array, outer: Seq<nat>)
    requires
        positions::rows_on(x, outer),
    ensures
        ({
            let e = x.element;
            &&& converts(array::exp(x), x, |u: nat| array::exp_code(e, u), outer)
            &&& converts(array::sqrt(x), x, |u: nat| array::sqrt_code(e, u), outer)
            &&& converts(array::absolute(x), x, |u: nat| array::magnitude_code(e, u), outer)
            &&& converts(array::power_int(x, 2), x, |u: nat| array::powf_scalar_code(e, u, 2), outer)
            &&& converts(array::over_int(x, 2), x, |u: nat| array::div_scalar_code(e, u, 2), outer)
        }),
{
    let e = x.element;
    lemma_converts(x, |u: nat| array::exp_code(e, u), e, outer);
    lemma_converts(x, |u: nat| array::sqrt_code(e, u), e, outer);
    lemma_converts(x, |u: nat| array::magnitude_code(e, u), e, outer);
    lemma_converts(x, |u: nat| array::powf_scalar_code(e, u, 2), e, outer);
    lemma_converts(x, |u: nat| array::div_scalar_code(e, u, 2), e, outer);
    let f = |u: nat| array::powf_scalar_code(e, u, 2);
    assert(array::power_int(x, 2).data =~= array::mapped(x, f));
    let f = |u: nat| array::div_scalar_code(e, u, 2);
    assert(array::over_int(x, 2).data =~= array::mapped(x, f));
}

proof fn lemma_cast_value(x: Array, element: nat, outer: Seq<nat>)
    requires
        positions::rows_on(x, outer),
    ensures
        ({
            let e = x.element;
            converts(array::cast(x, element), x, |u: nat| array::cast_code(e, element, u), outer)
        }),
{
    let e = x.element;
    lemma_converts(x, |u: nat| array::cast_code(e, element, u), element, outer);
}

/// The sum along the columns, at every position.
proof fn lemma_sum_value(x: Array, outer: Seq<nat>)
    requires
        positions::rows_on(x, outer),
    ensures
        ({
            let z = array::sum(x, outer.len());
            &&& positions::rows_on(z, outer)
            &&& z.shape.last() == 1
            &&& z.element == x.element
            &&& forall|m: nat, c: nat|
                m < array::volume(outer) ==> #[trigger] positions::cell(z, true, m, c)
                    == array::sum_code(x.element, true, row(x, m))
        }),
{
    let a = outer.len();
    let d = x.shape.last();
    let z = array::sum(x, a);
    assert(x.shape =~= outer.push(d));
    assert(z.shape =~= outer.push(1));
    assert(z.shape.drop_last() =~= outer);
    assert(x.shape.skip(a as int + 1) =~= Seq::<nat>::empty());
    assert(array::width_after(x.shape, a) == 1);
    assert forall|m: nat, c: nat| m < array::volume(outer) implies #[trigger] positions::cell(
        z,
        true,
        m,
        c,
    ) == array::sum_code(x.element, true, row(x, m)) by {
        positions::lemma_place(outer, 1, m, 0);
        assert(array::line(x, a, m, 0) =~= row(x, m));
        assert(z.data[m as int] == array::sum_code(x.element, true, array::line(x, a, m, 0)));
    }
}

/// A constant, at every position.
proof fn lemma_constant_value(bits: nat, rank: nat, like: Array)
    ensures
        ({
            let c = score::constant_array(bits, rank + 1, like);
            &&& positions::same_row(c, rank)
            &&& c.shape.last() == 1
            &&& c.element == like.element
            &&& c.data =~= seq![narrow_code(like.element, bits)]
        }),
{
    let s = array::unit_shape(rank + 1);
    assert(s.drop_last() =~= array::unit_shape(rank));
    locality::lemma_unit_volume(rank + 1);
}

/// The scale of the scores, at every position.
proof fn lemma_scale_value(d: nat, rank: nat, like: Array)
    ensures
        ({
            let c = score::scale_array(d, rank + 1, like);
            &&& positions::same_row(c, rank)
            &&& c.shape.last() == 1
            &&& c.element == like.element
            &&& c.data =~= seq![codes(like.element, false, d).scale]
        }),
{
    let s = array::unit_shape(rank + 1);
    assert(s.drop_last() =~= array::unit_shape(rank));
    locality::lemma_unit_volume(rank);
    locality::lemma_unit_volume(rank + 1);
    let x = array::whole(d, rank + 1, like);
    let y = array::wide(score::MINUS_HALF as nat, rank + 1, like);
    let outer = array::unit_shape(rank);
    let f = |u: nat, v: nat| array::powf_code(64, u, v);
    lemma_computes(x, true, y, true, f, outer);
    let z = array::power(x, y);
    assert(z.shape =~= s);
    assert(z.data =~= array::zipped(x, y, f));
    assert(positions::cell(z, true, 0, 0) == f(
        positions::cell(x, true, 0, 0),
        positions::cell(y, true, 0, 0),
    ));
    assert(z.data =~= seq![
        array::powf_code(64, array::full_code(d), score::MINUS_HALF as nat),
    ]);
}

// ---- scores ----

/// The scores of rows against a query that is the same for every position.
pub proof fn lemma_scores(query: Array, x: Array, outer: Seq<nat>, recording: bool)
    requires
        positions::rows_on(x, outer),
        positions::same_row(query, outer.len()),
        query.shape.last() == x.shape.last(),
        query.element == x.element,
    ensures
        ({
            let z = score::scores_array(query, x);
            let a = codes(x.element, recording, x.shape.last());
            &&& positions::rows_on(z, outer)
            &&& z.shape.last() == 1
            &&& z.element == x.element
            &&& forall|m: nat, c: nat|
                m < array::volume(outer) ==> #[trigger] positions::cell(z, true, m, c)
                    == formula::score(a, query.data, row(x, m))
        }),
{
    let n = outer.len();
    let d = x.shape.last();
    let e = x.element;
    let a = codes(e, recording, d);
    let square = array::power_int(x, 2);
    lemma_unary(x, outer);
    let total = array::sum(square, n);
    lemma_sum_value(square, outer);
    let eps = score::constant_array(score::EPSILON as nat, n + 1, total);
    lemma_constant_value(score::EPSILON as nat, n, total);
    let sum = array::plus(total, eps);
    lemma_binary(total, true, eps, false, outer);
    let norm = array::sqrt(sum);
    lemma_unary(sum, outer);
    let normal = array::over(x, norm);
    lemma_binary(x, true, norm, true, outer);
    let product = array::times(query, normal);
    lemma_binary(query, false, normal, true, outer);
    let dot = array::sum(product, n);
    lemma_sum_value(product, outer);
    let scale = score::scale_array(d, n + 1, x);
    lemma_scale_value(d, n, x);
    let z = array::times(dot, scale);
    lemma_binary(dot, true, scale, false, outer);
    assert(x.shape.len() == n + 1);
    assert(z == score::scores_array(query, x));
    assert(query.shape =~= array::unit_shape(n).push(d));
    assert forall|m: nat, c: nat| m < array::volume(outer) implies #[trigger] positions::cell(
        z,
        true,
        m,
        c,
    ) == formula::score(a, query.data, row(x, m)) by {
        let r = row(x, m);
        assert(row(square, m) =~= Seq::new(r.len(), |c: int| (a.square)(r[c])));
        assert(positions::cell(norm, true, m, 0) == formula::norm(a, r));
        let w = formula::norm(a, r);
        assert forall|k: int| 0 <= k < d implies #[trigger] row(product, m)[k] == (a.times)(
            query.data[k],
            (a.over)(r[k], w),
        ) by {
            assert(positions::cell(product, true, m, k as nat) == row(product, m)[k]);
            assert(positions::cell(norm, true, m, k as nat) == positions::cell(norm, true, m, 0));
            assert(positions::cell(normal, true, m, k as nat) == (a.over)(r[k], w));
        }
        assert(row(product, m) =~= Seq::new(
            r.len(),
            |c: int| (a.times)(query.data[c], (a.over)(r[c], w)),
        ));
        assert(positions::cell(dot, true, m, c) == (a.sum_columns)(row(product, m)));
        assert(positions::cell(scale, false, m, c) == a.scale);
    }
}

/// The score of a source, at every position.
pub proof fn lemma_score(query: Array, src: Array, outer: Seq<nat>, recording: bool)
    requires
        outer.len() == 2,
        positions::rows_on(src, outer),
        query.shape == seq![src.shape[2]],
        positions::sized(query),
        query.element == src.element,
    ensures
        ({
            let z = score::score(query, src);
            let a = codes(src.element, recording, src.shape[2]);
            &&& positions::rows_on(z, outer)
            &&& z.shape.last() == 1
            &&& z.element == src.element
            &&& forall|m: nat, c: nat|
                m < array::volume(outer) ==> #[trigger] positions::cell(z, true, m, c)
                    == formula::score(a, query.data, row(src, m))
        }),
{
    let d = src.shape[2];
    let flat = array::reshaped(query, seq![1, 1, d]);
    array::lemma_leading_ones(1, 1, d);
    assert(flat.shape.drop_last() =~= array::unit_shape(2));
    lemma_scores(flat, src, outer, recording);
}

/// The score of a source on the fused path, at every position.
pub proof fn lemma_fused_score(query: Array, src: Array, outer: Seq<nat>, recording: bool)
    requires
        outer.len() == 2,
        positions::rows_on(src, outer),
        query.shape == seq![src.shape[2]],
        positions::sized(query),
        query.element == src.element,
    ensures
        ({
            let z = fused::fused_score(query, src);
            let a = codes(src.element, recording, src.shape[2]);
            &&& positions::rows_on(z, outer)
            &&& z.shape.last() == 1
            &&& z.element == src.element
            &&& forall|m: nat, c: nat|
                m < array::volume(outer) ==> #[trigger] positions::cell(z, true, m, c)
                    == formula::fused_score(a, query.data, row(src, m))
        }),
{
    let d = src.shape[2];
    let e = src.element;
    let a = codes(e, recording, d);
    let flat = array::reshaped(query, seq![1, 1, d]);
    array::lemma_leading_ones(1, 1, d);
    assert(flat.shape.drop_last() =~= array::unit_shape(2));
    let square = array::times(src, src);
    lemma_binary(src, true, src, true, outer);
    let total = array::sum(square, 2);
    lemma_sum_value(square, outer);
    let eps = score::constant_array(score::EPSILON as nat, 3, total);
    lemma_constant_value(score::EPSILON as nat, 2, total);
    let sum = array::plus(total, eps);
    lemma_binary(total, true, eps, false, outer);
    let norm = array::sqrt(sum);
    lemma_unary(sum, outer);
    let product = array::times(flat, src);
    lemma_binary(flat, false, src, true, outer);
    let dot = array::sum(product, 2);
    lemma_sum_value(product, outer);
    let scale = score::scale_array(d, 3, src);
    lemma_scale_value(d, 2, src);
    let top = array::times(dot, scale);
    lemma_binary(dot, true, scale, false, outer);
    let z = array::over(top, norm);
    lemma_binary(top, true, norm, true, outer);
    assert forall|m: nat, c: nat| m < array::volume(outer) implies #[trigger] positions::cell(
        z,
        true,
        m,
        c,
    ) == formula::fused_score(a, query.data, row(src, m)) by {
        let r = row(src, m);
        assert forall|k: int| 0 <= k < d implies #[trigger] row(square, m)[k] == (a.times)(
            r[k],
            r[k],
        ) by {
            assert(positions::cell(square, true, m, k as nat) == row(square, m)[k]);
        }
        assert(row(square, m) =~= Seq::new(r.len(), |c: int| (a.times)(r[c], r[c])));
        assert forall|k: int| 0 <= k < d implies #[trigger] row(product, m)[k] == (a.times)(
            query.data[k],
            r[k],
        ) by {
            assert(positions::cell(product, true, m, k as nat) == row(product, m)[k]);
        }
        assert(row(product, m) =~= Seq::new(r.len(), |c: int| (a.times)(query.data[c], r[c])));
        assert(positions::cell(scale, false, m, c) == a.scale);
        assert(positions::cell(top, true, m, c) == (a.times)(
            (a.sum_columns)(row(product, m)),
            a.scale,
        ));
        assert(positions::cell(eps, false, m, c) == a.epsilon);
        assert(positions::cell(sum, true, m, c) == (a.plus)(
            (a.sum_columns)(row(square, m)),
            a.epsilon,
        ));
    }
}

// ---- attention over sources ----

/// Attention over sources of `d` columns, in one element type.
pub open spec fn online_of(o: Online, outer: Seq<nat>, d: nat, element: nat) -> bool {
    &&& locality::online_on(o, outer, d)
    &&& o.max_score.element == element
    &&& o.sum_exp.element == element
    &&& o.acc.element == element
}

/// Attention with one source more relative to `top`, at every position.
proof fn lemma_moved(
    o: Online,
    src: Array,
    s: Array,
    top: Array,
    outer: Seq<nat>,
    recording: bool,
)
    requires
        online_of(o, outer, src.shape.last(), src.element),
        positions::rows_on(src, outer),
        positions::rows_on(s, outer),
        s.shape.last() == 1,
        s.element == src.element,
        positions::rows_on(top, outer),
        top.shape.last() == 1,
    ensures
        ({
            let rescale = array::exp(array::minus(o.max_score, top));
            let w = array::exp(array::minus(s, top));
            let r = Online {
                max_score: top,
                sum_exp: array::plus(array::times(o.sum_exp, rescale), w),
                acc: array::plus(array::times(o.acc, rescale), array::times(src, w)),
            };
            let a = codes(src.element, recording, src.shape.last());
            &&& locality::online_on(r, outer, src.shape.last())
            &&& r.sum_exp.element == src.element
            &&& r.acc.element == src.element
            &&& forall|m: nat|
                m < array::volume(outer) ==> #[trigger] state(r, m) == formula::moved(
                    a,
                    state(o, m),
                    row(src, m),
                    positions::cell(s, true, m, 0),
                    positions::cell(top, true, m, 0),
                )
        }),
{
    let d = src.shape.last();
    let a = codes(src.element, recording, d);
    let gap = array::minus(o.max_score, top);
    lemma_binary(o.max_score, true, top, true, outer);
    let rescale = array::exp(gap);
    lemma_unary(gap, outer);
    let drop = array::minus(s, top);
    lemma_binary(s, true, top, true, outer);
    let w = array::exp(drop);
    lemma_unary(drop, outer);
    let kept_sum = array::times(o.sum_exp, rescale);
    lemma_binary(o.sum_exp, true, rescale, true, outer);
    let sum = array::plus(kept_sum, w);
    lemma_binary(kept_sum, true, w, true, outer);
    let kept = array::times(o.acc, rescale);
    lemma_binary(o.acc, true, rescale, true, outer);
    let added = array::times(src, w);
    lemma_binary(src, true, w, true, outer);
    let acc = array::plus(kept, added);
    lemma_binary(kept, true, added, true, outer);
    let r = Online { max_score: top, sum_exp: sum, acc };
    assert forall|m: nat| m < array::volume(outer) implies #[trigger] state(r, m)
        == formula::moved(
        a,
        state(o, m),
        row(src, m),
        positions::cell(s, true, m, 0),
        positions::cell(top, true, m, 0),
    ) by {
        let x = row(src, m);
        let f = formula::moved(
            a,
            state(o, m),
            x,
            positions::cell(s, true, m, 0),
            positions::cell(top, true, m, 0),
        );
        assert(positions::cell(sum, true, m, 0) == f.sum);
        assert forall|k: int| 0 <= k < d implies #[trigger] row(acc, m)[k] == f.acc[k] by {
            let c = k as nat;
            assert(positions::cell(acc, true, m, c) == row(acc, m)[k]);
            assert(positions::cell(rescale, true, m, c) == positions::cell(rescale, true, m, 0));
            assert(positions::cell(w, true, m, c) == positions::cell(w, true, m, 0));
            assert(positions::cell(kept, true, m, c) == (a.times)(
                state(o, m).acc[k],
                positions::cell(rescale, true, m, 0),
            ));
            assert(positions::cell(added, true, m, c) == (a.times)(
                x[k],
                positions::cell(w, true, m, 0),
            ));
        }
        assert(row(acc, m) =~= f.acc);
    }
}

/// Attention with one source more, at every position.
pub proof fn lemma_merge(o: Online, src: Array, s: Array, outer: Seq<nat>, recording: bool)
    requires
        online_of(o, outer, src.shape.last(), src.element),
        positions::rows_on(src, outer),
        positions::rows_on(s, outer),
        s.shape.last() == 1,
        s.element == src.element,
    ensures
        ({
            let a = codes(src.element, recording, src.shape.last());
            let d = src.shape.last();
            &&& online_of(online::merge(o, src, s), outer, d, src.element)
            &&& online_of(fused::fused_merge(o, src, s), outer, d, src.element)
            &&& forall|m: nat|
                m < array::volume(outer) ==> #[trigger] state(online::merge(o, src, s), m)
                    == formula::merge(
                    a,
                    state(o, m),
                    row(src, m),
                    positions::cell(s, true, m, 0),
                )
            &&& forall|m: nat|
                m < array::volume(outer) ==> #[trigger] state(fused::fused_merge(o, src, s), m)
                    == formula::fused_merge(
                    a,
                    state(o, m),
                    row(src, m),
                    positions::cell(s, true, m, 0),
                )
        }),
{
    let max = o.max_score;
    lemma_binary(max, true, s, true, outer);
    let both = array::plus(max, s);
    let gap = array::minus(max, s);
    lemma_unary(gap, outer);
    let distance = array::absolute(gap);
    lemma_binary(both, true, distance, true, outer);
    let twice = array::plus(both, distance);
    lemma_unary(twice, outer);
    let top = array::over_int(twice, 2);
    assert(top == online::upper(max, s));
    lemma_moved(o, src, s, top, outer, recording);
    let other = array::larger(max, s);
    lemma_moved(o, src, s, other, outer, recording);
    let a = codes(src.element, recording, src.shape.last());
    assert forall|m: nat| m < array::volume(outer) implies #[trigger] state(
        online::merge(o, src, s),
        m,
    ) == formula::merge(a, state(o, m), row(src, m), positions::cell(s, true, m, 0)) by {
        assert(positions::cell(top, true, m, 0) == formula::upper(
            a,
            state(o, m).max,
            positions::cell(s, true, m, 0),
        ));
    }
    assert forall|m: nat| m < array::volume(outer) implies #[trigger] state(
        fused::fused_merge(o, src, s),
        m,
    ) == formula::fused_merge(a, state(o, m), row(src, m), positions::cell(s, true, m, 0)) by {
        assert(positions::cell(other, true, m, 0) == (a.larger)(
            state(o, m).max,
            positions::cell(s, true, m, 0),
        ));
    }
}

/// The sum of the weights or the least divisor, at every position.
pub proof fn lemma_bounded(x: Array, outer: Seq<nat>)
    requires
        outer.len() == 2,
        positions::rows_on(x, outer),
        x.shape.last() == 1,
    ensures
        ({
            let z = online::at_least(x);
            &&& positions::rows_on(z, outer)
            &&& z.shape.last() == 1
            &&& forall|m: nat, c: nat|
                m < array::volume(outer) ==> #[trigger] positions::cell(z, true, m, c)
                    == bounded_code(x.element, x.tape != 0, positions::cell(x, true, m, c))
        }),
{
    let least = array::wide(online::LEAST_SUM as nat, 3, x);
    assert(array::unit_shape(3).drop_last() =~= array::unit_shape(2));
    locality::lemma_unit_volume(3);
    if score::is_half(x.element) && x.tape == 0 {
        let wide = array::cast(x, 32);
        lemma_cast_value(x, 32, outer);
        let low = array::cast(least, 32);
        lemma_binary(wide, true, low, false, outer);
        let top = array::larger(wide, low);
        lemma_cast_value(top, x.element, outer);
    } else {
        let low = array::cast(least, x.element);
        lemma_binary(x, true, low, false, outer);
    }
}

/// The attended output, at every position.
pub proof fn lemma_attended(o: Online, outer: Seq<nat>, d: nat, element: nat)
    requires
        outer.len() == 2,
        online_of(o, outer, d, element),
    ensures
        ({
            let z = online::attended(o);
            let a = codes(element, o.sum_exp.tape != 0, d);
            &&& positions::rows_on(z, outer)
            &&& z.shape.last() == d
            &&& forall|m: nat|
                m < array::volume(outer) ==> #[trigger] row(z, m) == formula::attended(
                    a,
                    state(o, m),
                )
        }),
{
    let a = codes(element, o.sum_exp.tape != 0, d);
    lemma_bounded(o.sum_exp, outer);
    let low = online::at_least(o.sum_exp);
    lemma_binary(o.acc, true, low, true, outer);
    let z = online::attended(o);
    assert forall|m: nat| m < array::volume(outer) implies #[trigger] row(z, m)
        == formula::attended(a, state(o, m)) by {
        let f = formula::attended(a, state(o, m));
        assert forall|k: int| 0 <= k < d implies #[trigger] row(z, m)[k] == f[k] by {
            assert(positions::cell(z, true, m, k as nat) == row(z, m)[k]);
            assert(positions::cell(o.sum_exp, true, m, k as nat) == positions::cell(
                o.sum_exp,
                true,
                m,
                0,
            ));
        }
        assert(row(z, m) =~= f);
    }
}

/// Sources with a row of `d` columns per position, in one element type.
pub open spec fn sources_on(
    query: Array,
    sources: Seq<Array>,
    outer: Seq<nat>,
    d: nat,
) -> bool {
    &&& outer.len() == 2
    &&& query.shape == seq![d]
    &&& positions::sized(query)
    &&& forall|i: int|
        0 <= i < sources.len() ==> positions::rows_on(#[trigger] sources[i], outer)
            && sources[i].shape.last() == d && sources[i].element == query.element
}

/// The rows of the sources at a position.
pub open spec fn rows_at(sources: Seq<Array>, m: nat) -> Seq<Seq<nat>> {
    Seq::new(sources.len(), |i: int| row(sources[i], m))
}

/// Attention over sources in their order, at every position.
pub proof fn lemma_over_sources(
    query: Array,
    sources: Seq<Array>,
    outer: Seq<nat>,
    d: nat,
    recording: bool,
)
    requires
        sources.len() > 0,
        sources_on(query, sources, outer, d),
    ensures
        ({
            let o = online::over_sources(query, sources);
            let a = codes(query.element, recording, d);
            &&& online_of(o, outer, d, query.element)
            &&& forall|m: nat|
                m < array::volume(outer) ==> #[trigger] state(o, m) == formula::over_sources(
                    a,
                    query.data,
                    rows_at(sources, m),
                )
        }),
    decreases sources.len(),
{
    let o = online::over_sources(query, sources);
    let a = codes(query.element, recording, d);
    let src = sources.last();
    assert(sources[sources.len() - 1] == src);
    let s = score::score(query, src);
    assert(src.shape[2] == d);
    lemma_score(query, src, outer, recording);
    if sources.len() == 1 {
        let ones = array::ones(online::column(src.shape), src);
        assert(online::column(src.shape) =~= outer.push(1)) by {
            assert(src.shape.drop_last()[0] == src.shape[0]);
            assert(src.shape.drop_last()[1] == src.shape[1]);
        }
        assert(outer.push(1).drop_last() =~= outer);
        assert forall|m: nat| m < array::volume(outer) implies #[trigger] state(o, m)
            == formula::over_sources(a, query.data, rows_at(sources, m)) by {
            positions::lemma_place(outer, 1, m, 0);
            assert(rows_at(sources, m).last() == row(src, m));
            assert(positions::cell(ones, true, m, 0) == array::one_code(src.element));
        }
    } else {
        let before = sources.drop_last();
        assert forall|i: int| 0 <= i < before.len() implies positions::rows_on(
            #[trigger] before[i],
            outer,
        ) && before[i].shape.last() == d && before[i].element == query.element by {
            assert(before[i] == sources[i]);
        }
        lemma_over_sources(query, before, outer, d, recording);
        let p = online::over_sources(query, before);
        lemma_merge(p, src, s, outer, recording);
        assert forall|m: nat| m < array::volume(outer) implies #[trigger] state(o, m)
            == formula::over_sources(a, query.data, rows_at(sources, m)) by {
            assert(rows_at(sources, m).drop_last() =~= rows_at(before, m));
            assert(rows_at(sources, m).last() == row(src, m));
            assert(o == online::merge(p, src, s));
            assert(state(p, m) == formula::over_sources(a, query.data, rows_at(before, m)));
            assert(state(online::merge(p, src, s), m) == formula::merge(
                a,
                state(p, m),
                row(src, m),
                positions::cell(s, true, m, 0),
            ));
        }
    }
}

/// Attention over sources in their order on the fused path, at every position.
pub proof fn lemma_fused_over_sources(
    query: Array,
    sources: Seq<Array>,
    outer: Seq<nat>,
    d: nat,
    recording: bool,
)
    requires
        sources.len() > 0,
        d > 0,
        sources_on(query, sources, outer, d),
        query.tape == 0,
        forall|i: int| 0 <= i < sources.len() ==> (#[trigger] sources[i]).tape == 0,
    ensures
        ({
            let o = fused_block::over_sources_on(query, sources, true);
            let a = codes(query.element, recording, d);
            &&& online_of(o, outer, d, query.element)
            &&& o.acc.tape == 0
            &&& o.max_score.tape == 0
            &&& o.sum_exp.tape == 0
            &&& forall|m: nat|
                m < array::volume(outer) ==> #[trigger] state(o, m) == formula::fused_over_sources(
                    a,
                    query.data,
                    rows_at(sources, m),
                )
        }),
    decreases sources.len(),
{
    let o = fused_block::over_sources_on(query, sources, true);
    let a = codes(query.element, recording, d);
    let src = sources.last();
    assert(sources[sources.len() - 1] == src);
    let s = fused::fused_score(query, src);
    assert(src.shape[2] == d);
    assert(fused_block::score_on(query, src, true) == s) by {
        reveal(fused_block::score_on);
    }
    lemma_fused_score(query, src, outer, recording);
    if sources.len() == 1 {
        let ones = array::ones(online::column(src.shape), src);
        assert(online::column(src.shape) =~= outer.push(1)) by {
            assert(src.shape.drop_last()[0] == src.shape[0]);
            assert(src.shape.drop_last()[1] == src.shape[1]);
        }
        assert(outer.push(1).drop_last() =~= outer);
        assert forall|m: nat| m < array::volume(outer) implies #[trigger] state(o, m)
            == formula::fused_over_sources(a, query.data, rows_at(sources, m)) by {
            positions::lemma_place(outer, 1, m, 0);
            assert(rows_at(sources, m).last() == row(src, m));
            assert(positions::cell(ones, true, m, 0) == array::one_code(src.element));
        }
    } else {
        let before = sources.drop_last();
        assert forall|i: int| 0 <= i < before.len() implies positions::rows_on(
            #[trigger] before[i],
            outer,
        ) && before[i].shape.last() == d && before[i].element == query.element
            && before[i].tape == 0 by {
            assert(before[i] == sources[i]);
        }
        lemma_fused_over_sources(query, before, outer, d, recording);
        let p = fused_block::over_sources_on(query, before, true);
        lemma_merge(p, src, s, outer, recording);
        assert(o == fused::fused_merge(p, src, s)) by {
            reveal(fused_block::merge_on);
            let all = seq![p.acc, p.max_score, p.sum_exp, src, s];
            assert forall|i: int| 0 <= i < all.len() implies (#[trigger] all[i]).tape == 0 by {}
        }
        assert forall|m: nat| m < array::volume(outer) implies #[trigger] state(o, m)
            == formula::fused_over_sources(a, query.data, rows_at(sources, m)) by {
            assert(rows_at(sources, m).drop_last() =~= rows_at(before, m));
            assert(rows_at(sources, m).last() == row(src, m));
            assert(state(p, m) == formula::fused_over_sources(a, query.data, rows_at(before, m)));
            assert(state(fused::fused_merge(p, src, s), m) == formula::fused_merge(
                a,
                state(p, m),
                row(src, m),
                positions::cell(s, true, m, 0),
            ));
        }
    }
}

// ---- depth attention ----

/// The line through the layers of a stack.
proof fn lemma_line(x: Array, l: nat, outer: Seq<nat>, r: nat, c: nat)
    requires
        outer.len() == 2,
        positions::rows_on(x, locality::stack_axes(l, outer)),
        r < array::volume(outer),
        c < x.shape.last(),
    ensures
        array::width_after(x.shape, 0) == array::volume(outer) * x.shape.last(),
        array::line(x, 0, 0, r * x.shape.last() + c) == Seq::new(
            l,
            |k: int|
                positions::cell(x, true, (k * array::volume(outer) + r) as nat, c),
        ),
{
    let w = x.shape.last();
    let n = array::volume(outer);
    locality::lemma_stack_volume(l, outer, w);
    assert(x.shape =~= locality::stack_axes(l, outer).push(w));
    assert(x.shape.skip(1) =~= seq![outer[0], outer[1], w]);
    let a = array::line(x, 0, 0, r * w + c);
    let b = Seq::new(l, |k: int| positions::cell(x, true, (k * n + r) as nat, c));
    assert forall|k: int| 0 <= k < l implies #[trigger] a[k] == b[k] by {
        locality::lemma_layer(l, n, w, k as nat, r, c);
        assert((0 * l + k) * (n * w) + (r * w + c) == (k * n + r) * w + c);
    }
    assert(a =~= b);
}

/// Depth attention, at every position.
pub proof fn lemma_weighted_sum(query: Array, history: Seq<Array>, outer: Seq<nat>, d: nat)
    requires
        history.len() > 0,
        d > 0,
        sources_on(query, history, outer, d),
    ensures
        ({
            let z = depth::weighted_sum(history, query);
            let a = codes(query.element, depth::depth_weights(history, query).tape != 0, d);
            &&& positions::rows_on(z, outer)
            &&& z.shape.last() == d
            &&& forall|m: nat|
                m < array::volume(outer) ==> #[trigger] row(z, m) == formula::weighted_sum(
                    a,
                    query.data,
                    rows_at(history, m),
                )
        }),
{
    let l = history.len();
    let n = array::volume(outer);
    let axes = locality::stack_axes(l, outer);
    let e = query.element;
    let shape = history[0].shape;
    assert(positions::rows_on(history[0], outer));
    assert(shape =~= outer.push(d));
    assert(shape[2] == d);
    assert(outer =~= seq![outer[0], outer[1]]);
    locality::lemma_stack_volume(l, outer, d);
    locality::lemma_stack_volume(1, outer, d);
    locality::lemma_stack_elements(history, outer, d);
    let h = depth::stacked(history);
    let flat = array::reshaped(query, seq![1, 1, 1, d]);
    array::lemma_leading_ones(1, 1, d);
    assert(flat.shape.drop_last() =~= array::unit_shape(3));
    let s = score::scores_array(flat, h);
    let recording = s.tape != 0;
    let a = codes(e, recording, d);
    assert(h.element == e) by {
        assert(history[0].element == e);
    }
    lemma_scores(flat, h, axes, recording);
    let w = array::softmax(s, 0);
    assert(s.shape =~= axes.push(1));
    assert(positions::rows_on(w, axes));
    assert(axes[0] == l);
    let y = array::times(h, w);
    lemma_binary(h, true, w, true, axes);
    let total = array::sum(y, 0);
    let z = depth::weighted_sum(history, query);
    assert(y.shape =~= axes.push(d));
    assert(total.shape =~= locality::stack_axes(1, outer).push(d));
    assert(array::volume(total.shape) == n * d) by {
        positions::lemma_place_count(locality::stack_axes(1, outer), d);
    }
    assert(array::volume(shape) == n * d);
    assert forall|m: nat| m < n implies #[trigger] row(z, m) == formula::weighted_sum(
        a,
        query.data,
        rows_at(history, m),
    ) by {
        let rows = rows_at(history, m);
        let scores = Seq::new(rows.len(), |k: int| formula::score(a, query.data, rows[k]));
        let weights = formula::weights(a, query.data, rows);
        lemma_line(s, l, outer, m, 0);
        assert forall|k: int| 0 <= k < l implies #[trigger] scores[k] == positions::cell(
            s,
            true,
            (k * n + m) as nat,
            0,
        ) by {
            lemma_stack_row(history, outer, d, k as nat, m);
        }
        assert(m * 1 + 0 == m);
        assert(array::line(s, 0, 0, m) =~= scores);
        assert forall|k: int, c: nat| 0 <= k < l implies #[trigger] positions::cell(
            w,
            true,
            (k * n + m) as nat,
            c,
        ) == weights[k] by {
            locality::lemma_layer(l, n, 1, k as nat, m, 0);
            positions::lemma_place(axes, 1, (k * n + m) as nat, 0);
            let i = (k * n + m) as nat;
            assert(n * 1 == n);
            assert(w.data[i as int] == array::softmax_codes(e, recording, array::line(s, 0, 0, m))[k]);
        }
        let f = formula::weighted_sum(a, query.data, rows);
        assert(query.data.len() == d) by {
            array::lemma_volumes(d, 1, 1, 1);
        }
        assert forall|c: int| 0 <= c < d implies #[trigger] row(z, m)[c] == f[c] by {
            lemma_line(y, l, outer, m, c as nat);
            let at = m * d + c;
            let terms = Seq::new(rows.len(), |k: int| (a.times)(rows[k][c], weights[k]));
            assert forall|k: int| 0 <= k < l implies #[trigger] terms[k] == positions::cell(
                y,
                true,
                (k * n + m) as nat,
                c as nat,
            ) by {
                lemma_stack_row(history, outer, d, k as nat, m);
                assert(row(h, (k * n + m) as nat)[c] == rows[k][c]);
                assert(positions::cell(w, true, (k * n + m) as nat, c as nat) == weights[k]);
            }
            assert(array::line(y, 0, 0, at as nat) =~= terms);
            locality::lemma_layer(l, n, d, 0, m, c as nat);
            assert(0 * n + m == m && 0 * (n * d) == 0);
            assert(at < n * d);
            assert(total.data[at] == array::sum_code(e, false, array::line(y, 0, 0, at as nat)));
            if d == 1 {
                assert(c == 0);
            }
        }
        assert(row(z, m) =~= f);
    }
}

/// The rows of a stack are those of its layers.
proof fn lemma_stack_row(history: Seq<Array>, outer: Seq<nat>, d: nat, k: nat, m: nat)
    requires
        history.len() > 0,
        outer.len() == 2,
        forall|i: int|
            0 <= i < history.len() ==> positions::rows_on(#[trigger] history[i], outer)
                && history[i].shape.last() == d,
        k < history.len(),
        m < array::volume(outer),
    ensures
        k * array::volume(outer) + m < array::volume(
            locality::stack_axes(history.len(), outer),
        ),
        row(depth::stacked(history), k * array::volume(outer) + m) == row(history[k as int], m),
{
    let n = array::volume(outer);
    let h = depth::stacked(history);
    locality::lemma_stack_elements(history, outer, d);
    locality::lemma_stack_volume(history.len(), outer, d);
    locality::lemma_layer(history.len(), n, 1, k, m, 0);
    let (a, b) = (row(h, k * n + m), row(history[k as int], m));
    assert(positions::rows_on(history[k as int], outer));
    assert forall|c: int| 0 <= c < d implies #[trigger] a[c] == b[c] by {
        assert(h.data[((k * n + m) * d + c as nat) as int] == history[k as int].data[(m * d
            + c as nat) as int]);
    }
    assert(a =~= b);
}

// ---- chunks ----

/// Rows of `d` columns per position, in one element type.
pub open spec fn typed_on(s: Seq<Array>, outer: Seq<nat>, d: nat, element: nat) -> bool {
    forall|i: int|
        0 <= i < s.len() ==> positions::rows_on(#[trigger] s[i], outer) && s[i].shape.last() == d
            && s[i].element == element
}

/// The scores of the rows of a chunk at a position.
pub open spec fn cells_at(scores: Seq<Array>, m: nat) -> Seq<nat> {
    Seq::new(scores.len(), |i: int| positions::cell(scores[i], true, m, 0))
}

proof fn lemma_typed_prefix(s: Seq<Array>, outer: Seq<nat>, d: nat, element: nat)
    requires
        typed_on(s, outer, d, element),
        s.len() > 0,
    ensures
        typed_on(s.drop_last(), outer, d, element),
        positions::rows_on(s.last(), outer),
        s.last().shape.last() == d,
        s.last().element == element,
{
    let before = s.drop_last();
    assert forall|i: int| 0 <= i < before.len() implies positions::rows_on(
        #[trigger] before[i],
        outer,
    ) && before[i].shape.last() == d && before[i].element == element by {
        assert(before[i] == s[i]);
    }
    assert(s[s.len() - 1] == s.last());
}

/// Attention over nothing, at every position.
proof fn lemma_unstarted(like: Array, outer: Seq<nat>, recording: bool)
    requires
        outer.len() == 2,
        positions::rows_on(like, outer),
    ensures
        ({
            let d = like.shape.last();
            let a = codes(like.element, recording, d);
            let o = fused::unstarted(like);
            &&& online_of(o, outer, d, like.element)
            &&& forall|m: nat|
                m < array::volume(outer) ==> #[trigger] state(o, m) == formula::unstarted(a, d)
        }),
{
    let d = like.shape.last();
    let a = codes(like.element, recording, d);
    let o = fused::unstarted(like);
    let zero = array::zeros(online::column(like.shape), like);
    let full = array::zeros(like.shape, like);
    assert(like.shape.drop_last()[0] == like.shape[0]);
    assert(like.shape.drop_last()[1] == like.shape[1]);
    assert(zero.shape =~= outer.push(1));
    assert(zero.shape.drop_last() =~= outer);
    assert(full.shape =~= outer.push(d));
    let floor = score::constant_array(fused::FLOOR as nat, 3, like);
    lemma_constant_value(fused::FLOOR as nat, 2, like);
    lemma_binary(zero, true, floor, false, outer);
    assert forall|m: nat| m < array::volume(outer) implies #[trigger] state(o, m)
        == formula::unstarted(a, d) by {
        positions::lemma_place(outer, 1, m, 0);
        assert(positions::cell(zero, true, m, 0) == 0);
        assert(positions::cell(floor, false, m, 0) == a.floor);
        assert forall|c: int| 0 <= c < d implies #[trigger] row(full, m)[c] == 0nat by {
            positions::lemma_place(outer, d, m, c as nat);
        }
        assert(row(full, m) =~= Seq::new(d, |c: int| a.zero));
    }
}

/// The largest score, the sum of the exponentials and the weighted sum of a chunk, at
/// every position.
pub proof fn lemma_chunk(
    rows: Seq<Array>,
    scores: Seq<Array>,
    top: Array,
    like: Array,
    outer: Seq<nat>,
    recording: bool,
)
    requires
        outer.len() == 2,
        rows.len() == scores.len(),
        positions::rows_on(like, outer),
        typed_on(rows, outer, like.shape.last(), like.element),
        typed_on(scores, outer, 1, like.element),
        positions::rows_on(top, outer),
        top.shape.last() == 1,
    ensures
        ({
            let d = like.shape.last();
            let a = codes(like.element, recording, d);
            let best = fused::peak(scores, like);
            let total = fused::exp_total(scores, top, like);
            let mix = fused::mixture(rows, scores, top, like);
            &&& positions::rows_on(best, outer)
            &&& best.shape.last() == 1
            &&& best.element == like.element
            &&& positions::rows_on(total, outer)
            &&& total.shape.last() == 1
            &&& total.element == like.element
            &&& positions::rows_on(mix, outer)
            &&& mix.shape.last() == d
            &&& mix.element == like.element
            &&& forall|m: nat, c: nat|
                m < array::volume(outer) ==> #[trigger] positions::cell(best, true, m, c)
                    == formula::peak(a, cells_at(scores, m))
            &&& forall|m: nat, c: nat|
                m < array::volume(outer) ==> #[trigger] positions::cell(total, true, m, c)
                    == formula::exp_total(
                    a,
                    cells_at(scores, m),
                    positions::cell(top, true, m, 0),
                )
            &&& forall|m: nat, c: nat|
                m < array::volume(outer) && c < d ==> #[trigger] positions::cell(mix, true, m, c)
                    == formula::mixture(
                    a,
                    rows_at(rows, m),
                    cells_at(scores, m),
                    positions::cell(top, true, m, 0),
                    c as int,
                )
        }),
    decreases rows.len(),
{
    let d = like.shape.last();
    let a = codes(like.element, recording, d);
    let best = fused::peak(scores, like);
    let total = fused::exp_total(scores, top, like);
    let mix = fused::mixture(rows, scores, top, like);
    if rows.len() == 0 {
        lemma_unstarted(like, outer, recording);
        let o = fused::unstarted(like);
        assert(best == o.max_score && total == o.sum_exp && mix == o.acc);
        assert forall|m: nat, c: nat| m < array::volume(outer) implies #[trigger] positions::cell(
            best,
            true,
            m,
            c,
        ) == formula::peak(a, cells_at(scores, m)) by {
            assert(state(o, m) == formula::unstarted(a, d));
            assert(positions::cell(best, true, m, c) == positions::cell(best, true, m, 0));
        }
        assert forall|m: nat, c: nat| m < array::volume(outer) implies #[trigger] positions::cell(
            total,
            true,
            m,
            c,
        ) == formula::exp_total(a, cells_at(scores, m), positions::cell(top, true, m, 0)) by {
            assert(state(o, m) == formula::unstarted(a, d));
            assert(positions::cell(total, true, m, c) == positions::cell(total, true, m, 0));
        }
        assert forall|m: nat, c: nat|
            m < array::volume(outer) && c < d implies #[trigger] positions::cell(mix, true, m, c)
            == formula::mixture(
            a,
            rows_at(rows, m),
            cells_at(scores, m),
            positions::cell(top, true, m, 0),
            c as int,
        ) by {
            assert(state(o, m) == formula::unstarted(a, d));
            assert(state(o, m).acc[c as int] == positions::cell(mix, true, m, c));
        }
    } else {
        let s = scores.last();
        let h = rows.last();
        let (fore, ahead) = (rows.drop_last(), scores.drop_last());
        lemma_typed_prefix(rows, outer, d, like.element);
        lemma_typed_prefix(scores, outer, 1, like.element);
        lemma_chunk(fore, ahead, top, like, outer, recording);
        let best0 = fused::peak(ahead, like);
        lemma_binary(best0, true, s, true, outer);
        let gap = array::minus(s, top);
        lemma_binary(s, true, top, true, outer);
        let w = array::exp(gap);
        lemma_unary(gap, outer);
        let total0 = fused::exp_total(ahead, top, like);
        lemma_binary(total0, true, w, true, outer);
        let part = array::times(w, h);
        lemma_binary(w, true, h, true, outer);
        let mix0 = fused::mixture(fore, ahead, top, like);
        lemma_binary(mix0, true, part, true, outer);
        assert forall|m: nat| m < array::volume(outer) implies #[trigger] cells_at(
            scores,
            m,
        ).drop_last() == cells_at(ahead, m) && cells_at(scores, m).last() == positions::cell(
            s,
            true,
            m,
            0,
        ) by {
            assert(cells_at(scores, m).drop_last() =~= cells_at(ahead, m));
        }
        assert forall|m: nat| m < array::volume(outer) implies #[trigger] rows_at(
            rows,
            m,
        ).drop_last() == rows_at(fore, m) && rows_at(rows, m).last() == row(h, m) by {
            assert(rows_at(rows, m).drop_last() =~= rows_at(fore, m));
        }
        assert forall|m: nat, c: nat| m < array::volume(outer) implies #[trigger] positions::cell(
            best,
            true,
            m,
            c,
        ) == formula::peak(a, cells_at(scores, m)) by {
            assert(positions::cell(s, true, m, c) == positions::cell(s, true, m, 0));
        }
        assert forall|m: nat, c: nat| m < array::volume(outer) implies #[trigger] positions::cell(
            total,
            true,
            m,
            c,
        ) == formula::exp_total(a, cells_at(scores, m), positions::cell(top, true, m, 0)) by {
            assert(positions::cell(w, true, m, c) == (a.exp)(
                (a.minus)(positions::cell(s, true, m, c), positions::cell(top, true, m, c)),
            ));
        }
        assert forall|m: nat, c: nat|
            m < array::volume(outer) && c < d implies #[trigger] positions::cell(mix, true, m, c)
            == formula::mixture(
            a,
            rows_at(rows, m),
            cells_at(scores, m),
            positions::cell(top, true, m, 0),
            c as int,
        ) by {
            assert(positions::cell(w, true, m, c) == (a.exp)(
                (a.minus)(positions::cell(s, true, m, c), positions::cell(top, true, m, c)),
            ));
            assert(positions::cell(part, true, m, c) == (a.times)(
                positions::cell(w, true, m, c),
                row(h, m)[c as int],
            ));
        }
    }
}

/// Attention with one chunk more, at every position.
pub proof fn lemma_folded(
    o: Online,
    rows: Seq<Array>,
    scores: Seq<Array>,
    first: bool,
    like: Array,
    outer: Seq<nat>,
    recording: bool,
)
    requires
        outer.len() == 2,
        rows.len() == scores.len(),
        positions::rows_on(like, outer),
        online_of(o, outer, like.shape.last(), like.element),
        typed_on(rows, outer, like.shape.last(), like.element),
        typed_on(scores, outer, 1, like.element),
    ensures
        ({
            let d = like.shape.last();
            let a = codes(like.element, recording, d);
            let r = fused::folded(o, rows, scores, first, like);
            &&& online_of(r, outer, d, like.element)
            &&& forall|m: nat|
                m < array::volume(outer) ==> #[trigger] state(r, m) == formula::folded(
                    a,
                    state(o, m),
                    rows_at(rows, m),
                    cells_at(scores, m),
                    first,
                )
        }),
{
    let d = like.shape.last();
    let a = codes(like.element, recording, d);
    let r = fused::folded(o, rows, scores, first, like);
    lemma_chunk(rows, scores, o.max_score, like, outer, recording);
    let top = fused::peak(scores, like);
    lemma_chunk(rows, scores, top, like, outer, recording);
    let best = array::larger(o.max_score, top);
    lemma_binary(o.max_score, true, top, true, outer);
    lemma_chunk(rows, scores, best, like, outer, recording);
    let gap = array::minus(o.max_score, best);
    lemma_binary(o.max_score, true, best, true, outer);
    let rescale = array::exp(gap);
    lemma_unary(gap, outer);
    let fall = array::minus(top, best);
    lemma_binary(top, true, best, true, outer);
    let shift = array::exp(fall);
    lemma_unary(fall, outer);
    let total = fused::exp_total(scores, top, like);
    let (kept, new) = (array::times(o.sum_exp, rescale), array::times(total, shift));
    lemma_binary(o.sum_exp, true, rescale, true, outer);
    lemma_binary(total, true, shift, true, outer);
    lemma_binary(kept, true, new, true, outer);
    let mix = fused::mixture(rows, scores, best, like);
    let carried = array::times(o.acc, rescale);
    lemma_binary(o.acc, true, rescale, true, outer);
    lemma_binary(carried, true, mix, true, outer);
    assert forall|m: nat| m < array::volume(outer) implies #[trigger] state(r, m)
        == formula::folded(a, state(o, m), rows_at(rows, m), cells_at(scores, m), first) by {
        let f = formula::folded(a, state(o, m), rows_at(rows, m), cells_at(scores, m), first);
        assert(positions::cell(best, true, m, 0) == f.max);
        assert(positions::cell(rescale, true, m, 0) == (a.exp)(
            (a.minus)(state(o, m).max, f.max),
        ));
        assert(positions::cell(shift, true, m, 0) == (a.exp)(
            (a.minus)(positions::cell(top, true, m, 0), f.max),
        ));
        assert(positions::cell(r.sum_exp, true, m, 0) == f.sum);
        assert forall|k: int| 0 <= k < d implies #[trigger] row(r.acc, m)[k] == f.acc[k] by {
            let c = k as nat;
            assert(positions::cell(r.acc, true, m, c) == row(r.acc, m)[k]);
            assert(positions::cell(rescale, true, m, c) == positions::cell(rescale, true, m, 0));
            assert(positions::cell(mix, true, m, c) == formula::mixture(
                a,
                rows_at(rows, m),
                cells_at(scores, m),
                f.max,
                k,
            ));
            if !first {
                assert(positions::cell(carried, true, m, c) == (a.times)(
                    state(o, m).acc[k],
                    positions::cell(rescale, true, m, 0),
                ));
            }
        }
        assert(row(r.acc, m) =~= f.acc);
    }
}

/// The rows of the first `n` chunks at a position.
pub open spec fn chunks_at(history: Seq<Array>, n: nat, m: nat) -> Seq<Seq<Seq<nat>>> {
    Seq::new(n, |c: int| rows_at(fused::chunk_rows(history, c as nat), m))
}

/// Attention over the first `n` chunks, at every position.
pub proof fn lemma_over_chunks(
    query: Array,
    history: Seq<Array>,
    n: nat,
    outer: Seq<nat>,
    d: nat,
    recording: bool,
)
    requires
        history.len() > 0,
        history.len() <= usize::MAX,
        n <= launch::chunk_count(history.len()),
        sources_on(query, history, outer, d),
    ensures
        ({
            let o = fused::over_chunks(query, history, n);
            let a = codes(query.element, recording, d);
            &&& online_of(o, outer, d, query.element)
            &&& forall|m: nat|
                m < array::volume(outer) ==> #[trigger] state(o, m) == formula::over_chunks(
                    a,
                    query.data,
                    chunks_at(history, n, m),
                )
        }),
    decreases n,
{
    let like = history[0];
    assert(positions::rows_on(like, outer));
    let a = codes(query.element, recording, d);
    let o = fused::over_chunks(query, history, n);
    assert(query.data.len() == d) by {
        array::lemma_volumes(d, 1, 1, 1);
    }
    if n == 0 {
        lemma_unstarted(like, outer, recording);
    } else {
        let c = (n - 1) as nat;
        lemma_over_chunks(query, history, c, outer, d, recording);
        let p = fused::over_chunks(query, history, c);
        launch::lemma_chunks_in_order(history.len(), c);
        let k = launch::chunk(history.len(), c);
        let rows = fused::chunk_rows(history, c);
        let scores = fused::fused_scores(query, rows);
        assert forall|j: int| 0 <= j < rows.len() implies positions::rows_on(
            #[trigger] rows[j],
            outer,
        ) && rows[j].shape.last() == d && rows[j].element == query.element by {
            assert(rows[j] == history[k.start + j]);
        }
        assert forall|j: int| 0 <= j < rows.len() implies positions::rows_on(
            #[trigger] scores[j],
            outer,
        ) && scores[j].shape.last() == 1 && scores[j].element == query.element && (forall|m: nat|
            m < array::volume(outer) ==> #[trigger] positions::cell(scores[j], true, m, 0)
                == formula::fused_score(a, query.data, row(rows[j], m))) by {
            assert(positions::rows_on(rows[j], outer));
            assert(rows[j].shape[2] == d);
            lemma_fused_score(query, rows[j], outer, recording);
        }
        lemma_folded(p, rows, scores, c == 0, like, outer, recording);
        assert forall|m: nat| m < array::volume(outer) implies #[trigger] state(o, m)
            == formula::over_chunks(a, query.data, chunks_at(history, n, m)) by {
            let all = chunks_at(history, n, m);
            let here = all.last();
            assert(all.drop_last() =~= chunks_at(history, c, m));
            assert(here == rows_at(rows, m));
            let f = Seq::new(here.len(), |k: int| formula::fused_score(a, query.data, here[k]));
            assert forall|j: int| 0 <= j < rows.len() implies #[trigger] f[j] == cells_at(
                scores,
                m,
            )[j] by {
                assert(positions::rows_on(scores[j], outer));
                assert(positions::cell(scores[j], true, m, 0) == formula::fused_score(
                    a,
                    query.data,
                    row(rows[j], m),
                ));
            }
            assert(f =~= cells_at(scores, m));
            assert(state(p, m) == formula::over_chunks(a, query.data, chunks_at(history, c, m)));
        }
    }
}

proof fn lemma_joined_rows(history: Seq<Array>, n: nat, m: nat)
    requires
        0 < history.len() <= usize::MAX,
        n <= launch::chunk_count(history.len()),
    ensures
        ({
            let l = history.len();
            let upto = if n == 0 {
                0
            } else {
                launch::chunk(l, (n - 1) as nat).start + launch::chunk(l, (n - 1) as nat).rows
            };
            &&& upto <= l
            &&& formula::joined(chunks_at(history, n, m)) == rows_at(history, m).take(upto)
            &&& 0 < n < launch::chunk_count(l) ==> launch::chunk(l, n).start == upto
        }),
    decreases n,
{
    let l = history.len();
    let all = chunks_at(history, n, m);
    if n > 0 {
        let c = (n - 1) as nat;
        lemma_joined_rows(history, c, m);
        launch::lemma_chunks_in_order(l, c);
        assert(all.drop_last() =~= chunks_at(history, c, m));
        let k = launch::chunk(l, c);
        if c == 0 {
            assert(k.first);
        }
        let part = rows_at(history, m).subrange(k.start as int, k.start + k.rows);
        assert(all.last() =~= part);
        assert(rows_at(history, m).take(k.start as int) + part =~= rows_at(history, m).take(
            k.start + k.rows,
        ));
    } else {
        assert(formula::joined(all) =~= rows_at(history, m).take(0));
    }
}

/// The chunks hold all layers, each of them once, in their order.
pub proof fn lemma_chunks_cover(history: Seq<Array>, m: nat)
    requires
        0 < history.len() <= usize::MAX,
    ensures
        formula::joined(chunks_at(history, launch::chunk_count(history.len()), m)) == rows_at(
            history,
            m,
        ),
{
    let l = history.len();
    let n = launch::chunk_count(l);
    launch::lemma_chunk_count(l);
    lemma_joined_rows(history, n, m);
    launch::lemma_chunks_in_order(l, (n - 1) as nat);
    assert(rows_at(history, m).take(l as int) =~= rows_at(history, m));
}

// ---- blocks ----

/// The plain sum of a block, at every position.
pub proof fn lemma_block_sum(
    layers: Seq<Array>,
    outer: Seq<nat>,
    d: nat,
    element: nat,
    recording: bool,
)
    requires
        layers.len() > 0,
        typed_on(layers, outer, d, element),
    ensures
        ({
            let z = laws::block_sum(layers);
            &&& positions::rows_on(z, outer)
            &&& z.shape.last() == d
            &&& z.element == element
            &&& forall|m: nat|
                m < array::volume(outer) ==> #[trigger] row(z, m) == formula::block_sum(
                    codes(element, recording, d),
                    rows_at(layers, m),
                )
        }),
    decreases layers.len(),
{
    let a = codes(element, recording, d);
    let z = laws::block_sum(layers);
    let h = layers.last();
    lemma_typed_prefix(layers, outer, d, element);
    if layers.len() > 1 {
        let before = layers.drop_last();
        lemma_block_sum(before, outer, d, element, recording);
        let sum = laws::block_sum(before);
        lemma_binary(sum, true, h, true, outer);
        assert forall|m: nat| m < array::volume(outer) implies #[trigger] row(z, m)
            == formula::block_sum(a, rows_at(layers, m)) by {
            assert(rows_at(layers, m).drop_last() =~= rows_at(before, m));
            assert(rows_at(layers, m).last() == row(h, m));
            assert(row(sum, m) == formula::block_sum(a, rows_at(before, m)));
            let f = formula::block_sum(a, rows_at(layers, m));
            assert forall|k: int| 0 <= k < d implies #[trigger] row(z, m)[k] == f[k] by {
                assert(positions::cell(z, true, m, k as nat) == row(z, m)[k]);
                assert(row(sum, m)[k] == positions::cell(sum, true, m, k as nat));
            }
            assert(row(z, m) =~= f);
        }
    } else {
        assert forall|m: nat| m < array::volume(outer) implies #[trigger] row(z, m)
            == formula::block_sum(a, rows_at(layers, m)) by {
            assert(rows_at(layers, m).last() == row(h, m));
        }
    }
}

// ---- the running maximum ----

/// The larger of two elements is one of them, and neither that is a number is above it,
/// where the first is a number.
pub proof fn lemma_larger_code(element: nat, x: nat, y: nat)
    requires
        array::is_ordered(element, x),
    ensures
        ({
            let z = array::larger_code(element, x, y);
            &&& z == x || z == y
            &&& array::is_ordered(element, z)
            &&& array::rank(element, z) >= array::rank(element, x)
            &&& array::is_ordered(element, y) ==> array::rank(element, z) >= array::rank(element, y)
        }),
{
}

/// The running maximum of a chunk. Where its start is a number, it is the largest of the
/// start and the scores: it is one of them, and no score that is a number is above it.
/// Where its start is not a number, it stays what it was.
pub proof fn lemma_running_maximum(
    element: nat,
    recording: bool,
    d: nat,
    scores: Seq<nat>,
)
    ensures
        ({
            let a = codes(element, recording, d);
            let start = formula::peak(a, seq![]);
            let z = formula::peak(a, scores);
            if array::is_ordered(element, start) {
                &&& array::is_ordered(element, z)
                &&& z == start || scores.contains(z)
                &&& array::rank(element, z) >= array::rank(element, start)
                &&& forall|i: int|
                    0 <= i < scores.len() && array::is_ordered(element, #[trigger] scores[i])
                        ==> array::rank(element, z) >= array::rank(element, scores[i])
            } else {
                z == start
            }
        }),
    decreases scores.len(),
{
    let a = codes(element, recording, d);
    let z = formula::peak(a, scores);
    if scores.len() > 0 {
        let before = scores.drop_last();
        let y = formula::peak(a, before);
        lemma_running_maximum(element, recording, d, before);
        if array::is_ordered(element, y) {
            lemma_larger_code(element, y, scores.last());
        }
        if before.contains(y) {
            let i = choose|i: int| 0 <= i < before.len() && before[i] == y;
            assert(scores[i] == y);
        }
        assert(scores[scores.len() - 1] == scores.last());
        assert forall|i: int|
            0 <= i < scores.len() && array::is_ordered(element, #[trigger] scores[i])
                && array::is_ordered(element, y) implies array::rank(element, z) >= array::rank(
            element,
            scores[i],
        ) by {
            if i < before.len() {
                assert(before[i] == scores[i]);
            }
        }
    } else {
        assert(scores =~= seq![]);
    }
}

/// The running maximum of the fused merges, from the first score on: it is the score of
/// one of the sources and, where the first score is a number, no score that is a number
/// is above it.
pub proof fn lemma_running_maximum_over_sources(
    element: nat,
    recording: bool,
    d: nat,
    q: Seq<nat>,
    rows: Seq<Seq<nat>>,
)
    requires
        rows.len() > 0,
    ensures
        ({
            let a = codes(element, recording, d);
            let z = formula::fused_over_sources(a, q, rows).max;
            &&& exists|i: int|
                0 <= i < rows.len() && z == formula::fused_score(a, q, #[trigger] rows[i])
            &&& array::is_ordered(element, formula::fused_score(a, q, rows[0])) ==> {
                &&& array::is_ordered(element, z)
                &&& forall|i: int|
                    0 <= i < rows.len() && array::is_ordered(
                        element,
                        formula::fused_score(a, q, #[trigger] rows[i]),
                    ) ==> array::rank(element, z) >= array::rank(
                        element,
                        formula::fused_score(a, q, rows[i]),
                    )
            }
        }),
    decreases rows.len(),
{
    let a = codes(element, recording, d);
    let z = formula::fused_over_sources(a, q, rows).max;
    let s = formula::fused_score(a, q, rows.last());
    let n = rows.len();
    assert(rows[n - 1] == rows.last());
    if n > 1 {
        let before = rows.drop_last();
        lemma_running_maximum_over_sources(element, recording, d, q, before);
        let y = formula::fused_over_sources(a, q, before).max;
        let j = choose|j: int|
            0 <= j < before.len() && y == formula::fused_score(a, q, #[trigger] before[j]);
        assert(rows[j] == before[j]);
        assert(before[0] == rows[0]);
        assert(z == array::larger_code(element, y, s));
        if array::is_ordered(element, y) {
            lemma_larger_code(element, y, s);
        }
        assert forall|i: int|
            array::is_ordered(element, formula::fused_score(a, q, rows[0])) && 0 <= i < n
                && array::is_ordered(
                element,
                formula::fused_score(a, q, #[trigger] rows[i]),
            ) implies array::rank(element, z) >= array::rank(
            element,
            formula::fused_score(a, q, rows[i]),
        ) by {
            if i < before.len() {
                assert(before[i] == rows[i]);
            }
        }
    }
}

/// The running maximum over chunks, from the first chunk on: where it is a number after
/// the first chunk, no score that is a number and comes later is above it.
pub proof fn lemma_running_maximum_over_chunks(
    element: nat,
    recording: bool,
    d: nat,
    q: Seq<nat>,
    chunks: Seq<Seq<Seq<nat>>>,
)
    requires
        chunks.len() > 0,
    ensures
        ({
            let a = codes(element, recording, d);
            let z = formula::over_chunks(a, q, chunks).max;
            array::is_ordered(element, formula::over_chunks(a, q, chunks.take(1)).max) ==> {
                &&& array::is_ordered(element, z)
                &&& array::rank(element, z) >= array::rank(
                    element,
                    formula::over_chunks(a, q, chunks.take(1)).max,
                )
                &&& forall|i: int, k: int|
                    #![trigger chunks[i][k]]
                    0 <= i < chunks.len() && 0 <= k < chunks[i].len() && array::is_ordered(
                        element,
                        formula::fused_score(a, q, chunks[i][k]),
                    ) ==> array::rank(element, z) >= array::rank(
                        element,
                        formula::fused_score(a, q, chunks[i][k]),
                    )
            }
        }),
    decreases chunks.len(),
{
    let a = codes(element, recording, d);
    let z = formula::over_chunks(a, q, chunks).max;
    let rows = chunks.last();
    let scores = Seq::new(rows.len(), |k: int| formula::fused_score(a, q, rows[k]));
    let start = formula::peak(a, seq![]);
    let top = formula::peak(a, scores);
    let before = chunks.drop_last();
    let y = formula::over_chunks(a, q, before).max;
    lemma_running_maximum(element, recording, d, scores);
    assert(start == (a.plus)(a.zero, a.floor));
    assert(z == array::larger_code(element, y, top));
    if chunks.len() == 1 {
        assert(chunks.take(1) =~= chunks);
        assert(y == start);
        if array::is_ordered(element, y) {
            lemma_larger_code(element, y, top);
        }
    } else {
        assert(chunks.take(1) =~= before.take(1));
        lemma_running_maximum_over_chunks(element, recording, d, q, before);
        if array::is_ordered(element, formula::over_chunks(a, q, chunks.take(1)).max) {
            lemma_larger_code(element, y, top);
            lemma_start(element, recording, d, q, chunks.take(1));
        }
    }
    assert forall|i: int, k: int|
        #![trigger chunks[i][k]]
        array::is_ordered(element, formula::over_chunks(a, q, chunks.take(1)).max) && 0 <= i
            < chunks.len() && 0 <= k < chunks[i].len() && array::is_ordered(
            element,
            formula::fused_score(a, q, chunks[i][k]),
        ) implies array::rank(element, z) >= array::rank(
        element,
        formula::fused_score(a, q, chunks[i][k]),
    ) by {
        if i < before.len() {
            assert(before[i][k] == chunks[i][k]);
        } else {
            assert(scores[k] == formula::fused_score(a, q, chunks[i][k]));
        }
    }
}

/// Where the maximum is a number after the first chunk, its start was one.
proof fn lemma_start(
    element: nat,
    recording: bool,
    d: nat,
    q: Seq<nat>,
    first: Seq<Seq<Seq<nat>>>,
)
    requires
        first.len() == 1,
        ({
            let a = codes(element, recording, d);
            array::is_ordered(element, formula::over_chunks(a, q, first).max)
        }),
    ensures
        array::is_ordered(element, formula::peak(codes(element, recording, d), seq![])),
{
    let a = codes(element, recording, d);
    let rows = first.last();
    let scores = Seq::new(rows.len(), |k: int| formula::fused_score(a, q, rows[k]));
    lemma_running_maximum(element, recording, d, scores);
    assert(formula::over_chunks(a, q, first.drop_last()).max == formula::peak(a, seq![]));
}

} // verus!
