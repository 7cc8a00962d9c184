//! The gradient of depth attention, at every position.
use vstd::prelude::*;

use crate::array;
use crate::array::Array;
use crate::backward;
use crate::depth;
use crate::formula;
use crate::locality;
use crate::positions;
use crate::rowwise;
use crate::score;

verus! {

/// The row of the position `m` of the layer `k` in a stack.
pub open spec fn stack_row(x: Array, outer: Seq<nat>, k: nat, m: nat) -> Seq<nat> {
    rowwise::row(x, k * array::volume(outer) + m)
}

/// A position of a stack that the layers share is the position within the layer.
proof fn lemma_origin_layers(l: nat, b: nat, t: nat, k: nat, r: nat)
    requires
        k < l,
        r < b * t,
    ensures
        array::origin(seq![1, b, t], seq![l, b, t], k * (b * t) + r) == r,
{
    let i = k * (b * t) + r;
    assert(t > 0 && b > 0) by (nonlinear_arith)
        requires
            r < b * t,
    ;
    let (q, c) = (r / t, r % t);
    vstd::arithmetic::div_mod::lemma_fundamental_div_mod(r as int, t as int);
    assert(t * q == q * t) by (nonlinear_arith);
    assert(q < b) by (nonlinear_arith)
        requires
            r == q * t + c,
            r < b * t,
            c >= 0,
    ;
    assert(i == (k * b + q) * t + c) by (nonlinear_arith)
        requires
            i == k * (b * t) + r,
            r == q * t + c,
    ;
    vstd::arithmetic::div_mod::lemma_fundamental_div_mod_converse(
        i as int,
        t as int,
        (k * b + q) as int,
        c as int,
    );
    vstd::arithmetic::div_mod::lemma_fundamental_div_mod_converse(
        (k * b + q) as int,
        b as int,
        k as int,
        q as int,
    );
    let (s, o) = (seq![1, b, t], seq![l, b, t]);
    assert(s.drop_last() =~= seq![1, b]);
    assert(o.drop_last() =~= seq![l, b]);
    assert(seq![1, b].drop_last() =~= seq![1nat]);
    assert(seq![l, b].drop_last() =~= seq![l]);
    assert(seq![1nat].drop_last() =~= Seq::<nat>::empty());
    assert(array::origin(seq![1nat], seq![l], k) == 0) by {
        reveal_with_fuel(array::origin, 2);
        assert(0 * 1 == 0);
    }
    let mid = array::origin(seq![1, b], seq![l, b], k * b + q);
    assert(mid == q) by {
        assert(0 * b == 0);
    }
    assert(array::origin(s, o, i) == mid * t + (if t == 1 {
        0
    } else {
        c
    }));
}

/// The element of an operand that the layers share.
spec fn shared_cell(x: Array, m: nat, c: nat) -> nat {
    positions::cell(array::reshaped(x, x.shape.skip(1)), true, m, c)
}

/// An array `[1, b, t, w]`.
spec fn shared_on(x: Array, outer: Seq<nat>) -> bool {
    x.shape =~= seq![1, outer[0], outer[1], x.shape.last()]
}

proof fn lemma_shared_operand(x: Array, l: nat, outer: Seq<nat>, w: nat, k: nat, m: nat, c: nat)
    requires
        outer.len() == 2,
        shared_on(x, outer),
        k < l,
        m < array::volume(outer),
        c < w,
        x.shape.last() == w || x.shape.last() == 1,
    ensures
        array::operand(
            x,
            locality::stack_axes(l, outer).push(w),
            ((k * array::volume(outer) + m) * w + c) as int,
        ) == shared_cell(x, m, c),
{
    let axes = locality::stack_axes(l, outer);
    let out = axes.push(w);
    let n = array::volume(outer);
    let i = k * n + m;
    locality::lemma_stack_volume(l, outer, w);
    locality::lemma_layer(l, n, w, k, m, c);
    positions::lemma_place(axes, w, i, c);
    assert(out.drop_last() =~= axes);
    assert(x.shape.drop_last() =~= seq![1, outer[0], outer[1]]);
    assert(n == outer[0] * outer[1]) by {
        assert(outer =~= seq![outer[0], outer[1]]);
        locality::lemma_stack_volume(1, outer, 1);
        array::lemma_volumes(outer[0], outer[1], 1, 1);
        assert(outer[0] * outer[1] * 1 == outer[0] * outer[1]);
        assert(n * 1 == n);
    }
    lemma_origin_layers(l, outer[0], outer[1], k, m);
    assert(x.shape.skip(1).last() == x.shape.last());
}

/// The elements of a product of an operand that the layers share and one with rows of
/// its own.
proof fn lemma_shared_times(x: Array, y: Array, first: bool, l: nat, outer: Seq<nat>)
    requires
        outer.len() == 2,
        shared_on(if first { x } else { y }, outer),
        positions::rows_on(if first { y } else { x }, locality::stack_axes(l, outer)),
        x.shape.last() == y.shape.last() || (!first && x.shape.last() == 1),
    ensures
        ({
            let z = array::times(x, y);
            let w = y.shape.last();
            &&& positions::rows_on(z, locality::stack_axes(l, outer))
            &&& z.shape.last() == w
            &&& z.element == x.element
            &&& forall|k: nat, m: nat, c: nat|
                k < l && m < array::volume(outer) && c < w ==> #[trigger] stack_row(
                    z,
                    outer,
                    k,
                    m,
                )[c as int] == array::mul_code(
                    x.element,
                    if first {
                        shared_cell(x, m, c)
                    } else {
                        positions::cell(x, true, k * array::volume(outer) + m, c)
                    },
                    if first {
                        positions::cell(y, true, k * array::volume(outer) + m, c)
                    } else {
                        shared_cell(y, m, c)
                    },
                )
        }),
{
    let axes = locality::stack_axes(l, outer);
    let w = y.shape.last();
    let n = array::volume(outer);
    let z = array::times(x, y);
    let own = if first {
        y
    } else {
        x
    };
    assert(own.shape =~= axes.push(own.shape.last()));
    assert(z.shape =~= axes.push(w));
    assert(z.shape.drop_last() =~= axes);
    assert forall|k: nat, m: nat, c: nat| k < l && m < n && c < w implies #[trigger] stack_row(
        z,
        outer,
        k,
        m,
    )[c as int] == array::mul_code(
        x.element,
        if first {
            shared_cell(x, m, c)
        } else {
            positions::cell(x, true, k * n + m, c)
        },
        if first {
            positions::cell(y, true, k * n + m, c)
        } else {
            shared_cell(y, m, c)
        },
    ) by {
        locality::lemma_stack_volume(l, outer, w);
        locality::lemma_layer(l, n, w, k, m, c);
        positions::lemma_place(axes, w, k * n + m, c);
        lemma_shared_operand(if first { x } else { y }, l, outer, w, k, m, c);
        positions::lemma_operand(own, true, axes, w, k * n + m, c);
        assert(w == 1 ==> c == 0);
    }
}

/// The layers of a stack `[l, b, t]`, at a position.
pub open spec fn column_at(x: Array, l: nat, outer: Seq<nat>, m: nat) -> Seq<nat> {
    Seq::new(l, |k: int| x.data[k * array::volume(outer) + m])
}

/// An array `[l, b, t]`.
pub open spec fn columns_on(x: Array, l: nat, outer: Seq<nat>) -> bool {
    &&& x.shape == locality::stack_axes(l, outer)
    &&& x.data.len() == l * array::volume(outer)
}

proof fn lemma_column_line(x: Array, l: nat, outer: Seq<nat>, m: nat)
    requires
        outer.len() == 2,
        columns_on(x, l, outer),
        m < array::volume(outer),
    ensures
        array::width_after(x.shape, 0) == array::volume(outer),
        array::line(x, 0, 0, m) == column_at(x, l, outer, m),
{
    assert(x.shape.skip(1) =~= outer);
    let n = array::volume(outer);
    assert forall|k: int| 0 <= k < l implies #[trigger] array::line(x, 0, 0, m)[k] == column_at(
        x,
        l,
        outer,
        m,
    )[k] by {
        assert((0 * l + k) * n + m == k * n + m);
    }
    assert(array::line(x, 0, 0, m) =~= column_at(x, l, outer, m));
}

/// Softmax over the layers, at a position.
proof fn lemma_column_softmax(x: Array, l: nat, outer: Seq<nat>, k: nat, m: nat)
    requires
        outer.len() == 2,
        columns_on(x, l, outer),
        k < l,
        m < array::volume(outer),
    ensures
        columns_on(array::softmax(x, 0), l, outer),
        array::softmax(x, 0).data[(k * array::volume(outer) + m) as int] == array::softmax_codes(
            x.element,
            x.tape != 0,
            column_at(x, l, outer, m),
        )[k as int],
{
    let n = array::volume(outer);
    locality::lemma_stack_volume(l, outer, 1);
    locality::lemma_layer(l, n, 1, k, m, 0);
    lemma_column_line(x, l, outer, m);
    assert(n * 1 == n);
    let i = k * n + m;
    assert(i / n / l == 0 && i / n % l == k && i % n == m);
}

/// The sum over the layers, at a position.
proof fn lemma_column_sum(x: Array, l: nat, outer: Seq<nat>, m: nat)
    requires
        outer.len() == 2,
        columns_on(x, l, outer),
        m < array::volume(outer),
    ensures
        columns_on(array::sum(x, 0), 1, outer),
        array::sum(x, 0).data[m as int] == array::sum_code(
            x.element,
            false,
            column_at(x, l, outer, m),
        ),
{
    let n = array::volume(outer);
    let z = array::sum(x, 0);
    locality::lemma_stack_volume(1, outer, 1);
    lemma_column_line(x, l, outer, m);
    assert(z.shape =~= locality::stack_axes(1, outer));
    assert(1 * n == n);
    locality::lemma_layer(1, n, 1, 0, m, 0);
    assert(0 * n + m == m);
}

/// The norms of the rows and their products with the query, at every position.
proof fn lemma_norms(q: Array, h: Array, axes: Seq<nat>, recording: bool)
    requires
        axes.len() == 3,
        positions::rows_on(h, axes),
        positions::same_row(q, 3),
        q.shape.last() == h.shape.last(),
        q.element == h.element,
    ensures
        ({
            let a = rowwise::codes(h.element, recording, h.shape.last());
            let total = backward::norm_square(h);
            let inverse = backward::inverse_norm(h);
            let cube = backward::raised(total, backward::MINUS_THREE_HALVES);
            let dots = backward::dots(q, h);
            &&& positions::rows_on(inverse, axes)
            &&& inverse.shape.last() == 1
            &&& positions::rows_on(cube, axes)
            &&& cube.shape.last() == 1
            &&& positions::rows_on(dots, axes)
            &&& dots.shape.last() == 1
            &&& dots.element == h.element
            &&& forall|i: nat, c: nat|
                i < array::volume(axes) ==> #[trigger] positions::cell(inverse, true, i, c)
                    == (a.inverse_root)(formula::norm_square(a, rowwise::row(h, i)))
            &&& forall|i: nat, c: nat|
                i < array::volume(axes) ==> #[trigger] positions::cell(cube, true, i, c)
                    == (a.inverse_cube)(formula::norm_square(a, rowwise::row(h, i)))
            &&& forall|i: nat, c: nat|
                i < array::volume(axes) ==> #[trigger] positions::cell(dots, true, i, c)
                    == formula::dot(a, q.data, rowwise::row(h, i))
        }),
{
    let e = h.element;
    let d = h.shape.last();
    let a = rowwise::codes(e, recording, d);
    let square = array::power_int(h, 2);
    rowwise::lemma_unary(h, axes);
    let sum = array::sum(square, 3);
    rowwise::lemma_sum_value(square, axes);
    let eps = score::constant_array(score::EPSILON as nat, 4, sum);
    rowwise::lemma_constant_value(score::EPSILON as nat, 3, sum);
    let total = array::plus(sum, eps);
    rowwise::lemma_binary(sum, true, eps, false, axes);
    assert(total == backward::norm_square(h));
    assert forall|i: nat, c: nat| i < array::volume(axes) implies #[trigger] positions::cell(
        total,
        true,
        i,
        c,
    ) == formula::norm_square(a, rowwise::row(h, i)) by {
        let r = rowwise::row(h, i);
        assert(rowwise::row(square, i) =~= Seq::new(r.len(), |c: int| (a.square)(r[c])));
        assert(positions::cell(eps, false, i, c) == a.epsilon);
    }
    let f = |u: nat, v: nat| array::powf_code(e, u, v);
    let low = score::constant_array(score::MINUS_HALF as nat, 4, total);
    rowwise::lemma_constant_value(score::MINUS_HALF as nat, 3, total);
    rowwise::lemma_computes(total, true, low, false, f, axes);
    assert(array::power(total, low).data =~= array::zipped(total, low, f));
    let inverse = array::power(total, low);
    assert(inverse == backward::inverse_norm(h));
    let high = score::constant_array(backward::MINUS_THREE_HALVES as nat, 4, total);
    rowwise::lemma_constant_value(backward::MINUS_THREE_HALVES as nat, 3, total);
    rowwise::lemma_computes(total, true, high, false, f, axes);
    assert(array::power(total, high).data =~= array::zipped(total, high, f));
    let cube = array::power(total, high);
    assert(cube == backward::raised(total, backward::MINUS_THREE_HALVES));
    assert forall|i: nat, c: nat| i < array::volume(axes) implies #[trigger] positions::cell(
        inverse,
        true,
        i,
        c,
    ) == (a.inverse_root)(formula::norm_square(a, rowwise::row(h, i))) by {
        assert(positions::cell(total, true, i, c) == formula::norm_square(a, rowwise::row(h, i)));
    }
    assert forall|i: nat, c: nat| i < array::volume(axes) implies #[trigger] positions::cell(
        cube,
        true,
        i,
        c,
    ) == (a.inverse_cube)(formula::norm_square(a, rowwise::row(h, i))) by {
        assert(positions::cell(total, true, i, c) == formula::norm_square(a, rowwise::row(h, i)));
    }
    let product = array::times(q, h);
    rowwise::lemma_binary(q, false, h, true, axes);
    let dots = array::sum(product, 3);
    rowwise::lemma_sum_value(product, axes);
    assert(q.shape =~= array::unit_shape(3).push(d));
    assert forall|i: nat, c: nat| i < array::volume(axes) implies #[trigger] positions::cell(
        dots,
        true,
        i,
        c,
    ) == formula::dot(a, q.data, rowwise::row(h, i)) by {
        let r = rowwise::row(h, i);
        assert forall|k: int| 0 <= k < d implies #[trigger] rowwise::row(product, i)[k]
            == (a.times)(q.data[k], r[k]) by {
            assert(positions::cell(product, true, i, k as nat) == rowwise::row(product, i)[k]);
        }
        assert(rowwise::row(product, i) =~= Seq::new(
            r.len(),
            |c: int| (a.times)(q.data[c], r[c]),
        ));
    }
}

/// What the gradient is computed from: layers, a query and a gradient of the result, in
/// one element type.
pub open spec fn given(
    query: Array,
    history: Seq<Array>,
    d_out: Array,
    outer: Seq<nat>,
    d: nat,
) -> bool {
    &&& history.len() > 0
    &&& rowwise::sources_on(query, history, outer, d)
    &&& positions::rows_on(d_out, outer)
    &&& d_out.shape.last() == d
    &&& d_out.element == query.element
}

/// The query in the layout of a stack.
pub open spec fn spread(query: Array, d: nat) -> Array {
    array::reshaped(query, seq![1, 1, 1, d])
}

/// The weights of the layers for the gradient.
pub open spec fn weights(query: Array, history: Seq<Array>, d: nat) -> Array {
    backward::weights(spread(query, d), depth::stacked(history))
}

proof fn lemma_given(
    query: Array,
    history: Seq<Array>,
    d_out: Array,
    outer: Seq<nat>,
    d: nat,
)
    requires
        given(query, history, d_out, outer, d),
    ensures
        ({
            let h = depth::stacked(history);
            let q = spread(query, d);
            let axes = locality::stack_axes(history.len(), outer);
            &&& positions::rows_on(h, axes)
            &&& h.shape.last() == d
            &&& h.shape =~= axes.push(d)
            &&& h.element == query.element
            &&& positions::same_row(q, 3)
            &&& q.shape.last() == d
            &&& q.data.len() == d
            &&& history[0].shape[2] == d
        }),
{
    locality::lemma_stack_elements(history, outer, d);
    assert(positions::rows_on(history[0], outer));
    array::lemma_leading_ones(1, 1, d);
    array::lemma_volumes(d, 1, 1, 1);
    assert(spread(query, d).shape.drop_last() =~= array::unit_shape(3));
    assert(history[0].element == query.element);
}

/// The weights, at every position.
pub proof fn lemma_weights(
    query: Array,
    history: Seq<Array>,
    d_out: Array,
    outer: Seq<nat>,
    d: nat,
)
    requires
        given(query, history, d_out, outer, d),
    ensures
        ({
            let w = weights(query, history, d);
            let a = rowwise::codes(query.element, w.tape != 0, d);
            let l = history.len();
            &&& columns_on(w, l, outer)
            &&& w.element == query.element
            &&& forall|m: nat|
                m < array::volume(outer) ==> #[trigger] column_at(w, l, outer, m) =~= Seq::new(
                    l,
                    |k: int|
                        formula::gradient_weights(a, query.data, rowwise::rows_at(history, m))[k],
                )
        }),
{
    let l = history.len();
    let n = array::volume(outer);
    let axes = locality::stack_axes(l, outer);
    let h = depth::stacked(history);
    let q = spread(query, d);
    let e = query.element;
    let w = weights(query, history, d);
    let recording = w.tape != 0;
    let a = rowwise::codes(e, recording, d);
    lemma_given(query, history, d_out, outer, d);
    lemma_norms(q, h, axes, recording);
    let (dots, inverse) = (backward::dots(q, h), backward::inverse_norm(h));
    let near = array::times(dots, inverse);
    rowwise::lemma_binary(dots, true, inverse, true, axes);
    let scale = score::scale_array(d, 4, h);
    rowwise::lemma_scale_value(d, 3, h);
    assert(h.shape[3] == d);
    let s = array::times(near, scale);
    rowwise::lemma_binary(near, true, scale, false, axes);
    let flat = array::without_axis(s, 3);
    assert(s.shape =~= axes.push(1));
    assert(flat.shape =~= axes);
    locality::lemma_stack_volume(l, outer, 1);
    positions::lemma_place_count(axes, 1);
    assert(columns_on(flat, l, outer));
    assert(w == array::softmax(flat, 0));
    assert(columns_on(w, l, outer));
    assert forall|m: nat| m < n implies #[trigger] column_at(w, l, outer, m) =~= Seq::new(
        l,
        |k: int| formula::gradient_weights(a, query.data, rowwise::rows_at(history, m))[k],
    ) by {
        let rows = rowwise::rows_at(history, m);
        let scores = Seq::new(rows.len(), |k: int| formula::gradient_score(a, query.data, rows[k]));
        assert forall|k: int| 0 <= k < l implies #[trigger] column_at(flat, l, outer, m)[k]
            == scores[k] by {
            let i = (k * n + m) as nat;
            rowwise::lemma_stack_row(history, outer, d, k as nat, m);
            assert(positions::cell(scale, false, i, 0) == a.scale);
            assert(positions::cell(s, true, i, 0) == scores[k]);
            assert(s.data[i as int] == positions::cell(s, true, i, 0));
        }
        assert(column_at(flat, l, outer, m) =~= scores);
        let all = formula::gradient_weights(a, query.data, rows);
        assert forall|k: int| 0 <= k < l implies #[trigger] column_at(w, l, outer, m)[k]
            == all[k] by {
            lemma_column_softmax(flat, l, outer, k as nat, m);
        }
    }
}

/// The gradient of the scores, at every position.
pub proof fn lemma_score_gradient(
    query: Array,
    history: Seq<Array>,
    d_out: Array,
    outer: Seq<nat>,
    d: nat,
)
    requires
        given(query, history, d_out, outer, d),
    ensures
        ({
            let w = weights(query, history, d);
            let a = rowwise::codes(query.element, w.tape != 0, d);
            let g = array::with_axis(d_out, 0);
            let ds = backward::score_gradient(
                w,
                backward::weight_gradient(depth::stacked(history), g),
            );
            let n = array::volume(outer);
            &&& positions::rows_on(ds, locality::stack_axes(history.len(), outer))
            &&& ds.shape.last() == 1
            &&& ds.element == query.element
            &&& forall|k: nat, m: nat|
                k < history.len() && m < n ==> #[trigger] ds.data[(k * n + m) as int]
                    == formula::score_gradient(
                    a,
                    query.data,
                    rowwise::rows_at(history, m),
                    rowwise::row(d_out, m),
                    k as int,
                )
        }),
{
    let l = history.len();
    let n = array::volume(outer);
    let axes = locality::stack_axes(l, outer);
    let h = depth::stacked(history);
    let e = query.element;
    let w = weights(query, history, d);
    let a = rowwise::codes(e, w.tape != 0, d);
    lemma_given(query, history, d_out, outer, d);
    lemma_weights(query, history, d_out, outer, d);
    let g = array::with_axis(d_out, 0);
    assert(d_out.shape =~= outer.push(d));
    assert(g.shape =~= seq![1, outer[0], outer[1], d]);
    assert(g.shape.skip(1) =~= d_out.shape);
    let product = array::times(g, h);
    lemma_shared_times(g, h, true, l, outer);
    let sum = array::sum(product, 3);
    rowwise::lemma_sum_value(product, axes);
    let dw = array::without_axis(sum, 3);
    assert(sum.shape =~= axes.push(1));
    assert(dw.shape =~= axes);
    locality::lemma_stack_volume(l, outer, 1);
    positions::lemma_place_count(axes, 1);
    assert(columns_on(dw, l, outer));
    assert(dw == backward::weight_gradient(h, g));
    assert forall|k: nat, m: nat| k < l && m < n implies #[trigger] dw.data[(k * n + m) as int]
        == formula::dot(a, rowwise::row(d_out, m), rowwise::rows_at(history, m)[k as int]) by {
        let i = k * n + m;
        rowwise::lemma_stack_row(history, outer, d, k, m);
        let x = rowwise::rows_at(history, m)[k as int];
        let r = rowwise::row(d_out, m);
        assert forall|c: int| 0 <= c < d implies #[trigger] rowwise::row(product, i)[c]
            == (a.times)(r[c], x[c]) by {
            assert(stack_row(product, outer, k, m)[c as nat as int] == array::mul_code(
                e,
                shared_cell(g, m, c as nat),
                positions::cell(h, true, i, c as nat),
            ));
            assert(array::reshaped(g, g.shape.skip(1)) == d_out);
            assert(rowwise::row(h, i)[c] == x[c]);
        }
        assert(rowwise::row(product, i) =~= Seq::new(x.len(), |c: int| (a.times)(r[c], x[c])));
        assert(positions::cell(sum, true, i, 0) == formula::dot(a, r, x));
        assert(sum.data[i as int] == positions::cell(sum, true, i, 0));
    }
    let terms = array::times(w, dw);
    lemma_alike(w, dw, |u: nat, v: nat| array::mul_code(e, u, v));
    assert(array::volume(axes) == l * n);
    assert(columns_on(terms, l, outer));
    let mean = array::sum(terms, 0);
    let rest = array::minus(dw, mean);
    assert(mean.shape =~= locality::stack_axes(1, outer));
    assert(rest.shape =~= axes);
    let part = array::times(w, rest);
    lemma_alike(w, rest, |u: nat, v: nat| array::mul_code(e, u, v));
    let ds = array::with_axis(part, 3);
    assert(ds.shape =~= axes.push(1));
    assert(ds.shape.drop_last() =~= axes);
    assert forall|k: nat, m: nat| k < l && m < n implies #[trigger] ds.data[(k * n + m) as int]
        == formula::score_gradient(
        a,
        query.data,
        rowwise::rows_at(history, m),
        rowwise::row(d_out, m),
        k as int,
    ) by {
        let i = k * n + m;
        let rows = rowwise::rows_at(history, m);
        let r = rowwise::row(d_out, m);
        let all = formula::gradient_weights(a, query.data, rows);
        locality::lemma_layer(l, n, 1, k, m, 0);
        let f = Seq::new(rows.len(), |j: int| (a.times)(all[j], formula::dot(a, r, rows[j])));
        assert forall|j: int| 0 <= j < l implies #[trigger] column_at(terms, l, outer, m)[j]
            == f[j] by {
            locality::lemma_layer(l, n, 1, j as nat, m, 0);
            let y = (j as nat) * n + m;
            assert(dw.data[y as int] == formula::dot(a, r, rows[j]));
            assert(column_at(w, l, outer, m)[j] == all[j]);
        }
        assert(column_at(terms, l, outer, m) =~= f);
        lemma_column_sum(terms, l, outer, m);
        assert(n == outer[0] * outer[1]) by {
            assert(outer =~= seq![outer[0], outer[1]]);
            locality::lemma_stack_volume(1, outer, 1);
            array::lemma_volumes(outer[0], outer[1], 1, 1);
            assert(outer[0] * outer[1] * 1 == outer[0] * outer[1]);
            assert(n * 1 == n);
        }
        lemma_origin_layers(l, outer[0], outer[1], k, m);
        positions::lemma_origin_same(axes, i);
        assert(mean.shape =~= seq![1, outer[0], outer[1]]);
        assert(rest.data[i as int] == array::sub_code(e, dw.data[i as int], mean.data[m as int]));
        assert(column_at(w, l, outer, m)[k as int] == all[k as int]);
    }
}

/// Two operands of one shape are met element by element.
proof fn lemma_alike(x: Array, y: Array, f: spec_fn(nat, nat) -> nat)
    requires
        x.shape == y.shape,
    ensures
        array::broadcast(x.shape, y.shape) == x.shape,
        array::zipped(x, y, f).len() == array::volume(x.shape),
        forall|i: int|
            0 <= i < array::volume(x.shape) ==> #[trigger] array::zipped(x, y, f)[i] == f(
                x.data[i],
                y.data[i],
            ),
{
    assert(array::broadcast(x.shape, y.shape) =~= x.shape);
    assert forall|i: int| 0 <= i < array::volume(x.shape) implies #[trigger] array::zipped(
        x,
        y,
        f,
    )[i] == f(x.data[i], y.data[i]) by {
        positions::lemma_origin_same(x.shape, i as nat);
    }
}

/// The gradients of the layers and what every layer adds to that of the query, at every
/// position.
pub proof fn lemma_gradients(
    query: Array,
    history: Seq<Array>,
    d_out: Array,
    outer: Seq<nat>,
    d: nat,
)
    requires
        given(query, history, d_out, outer, d),
    ensures
        ({
            let w = weights(query, history, d);
            let a = rowwise::codes(query.element, w.tape != 0, d);
            let h = depth::stacked(history);
            let g = array::with_axis(d_out, 0);
            let ds = backward::score_gradient(w, backward::weight_gradient(h, g));
            let z = backward::gradients(history, query, d_out).0;
            let parts = backward::query_parts(h, ds);
            let axes = locality::stack_axes(history.len(), outer);
            &&& positions::rows_on(z, axes)
            &&& z.shape.last() == d
            &&& positions::rows_on(parts, axes)
            &&& parts.shape.last() == d
            &&& forall|k: nat, m: nat|
                k < history.len() && m < array::volume(outer) ==> #[trigger] stack_row(
                    z,
                    outer,
                    k,
                    m,
                ) == formula::layer_gradient(
                    a,
                    query.data,
                    rowwise::rows_at(history, m),
                    rowwise::row(d_out, m),
                    k as int,
                )
            &&& forall|k: nat, m: nat|
                k < history.len() && m < array::volume(outer) ==> #[trigger] stack_row(
                    parts,
                    outer,
                    k,
                    m,
                ) == formula::query_gradient(
                    a,
                    query.data,
                    rowwise::rows_at(history, m),
                    rowwise::row(d_out, m),
                    k as int,
                )
        }),
{
    let l = history.len();
    let n = array::volume(outer);
    let axes = locality::stack_axes(l, outer);
    let h = depth::stacked(history);
    let q = spread(query, d);
    let e = query.element;
    let w = weights(query, history, d);
    let recording = w.tape != 0;
    let a = rowwise::codes(e, recording, d);
    lemma_given(query, history, d_out, outer, d);
    lemma_weights(query, history, d_out, outer, d);
    lemma_score_gradient(query, history, d_out, outer, d);
    lemma_norms(q, h, axes, recording);
    locality::lemma_stack_volume(l, outer, 1);
    let g = array::with_axis(d_out, 0);
    assert(d_out.shape =~= outer.push(d));
    assert(g.shape =~= seq![1, outer[0], outer[1], d]);
    assert(g.shape.skip(1) =~= d_out.shape);
    assert(array::reshaped(g, g.shape.skip(1)) == d_out);
    let ds = backward::score_gradient(w, backward::weight_gradient(h, g));
    let total = backward::norm_square(h);
    let inverse = backward::inverse_norm(h);
    let cube = backward::raised(total, backward::MINUS_THREE_HALVES);
    let dots = backward::dots(q, h);
    let scale = score::scale_array(d, 4, h);
    rowwise::lemma_scale_value(d, 3, h);
    assert(h.shape[3] == d);
    // The layers.
    let along_query = array::times(q, inverse);
    rowwise::lemma_binary(q, false, inverse, true, axes);
    let near = array::times(h, dots);
    rowwise::lemma_binary(h, true, dots, true, axes);
    let along_layer = array::times(near, cube);
    rowwise::lemma_binary(near, true, cube, true, axes);
    let gap = array::minus(along_query, along_layer);
    rowwise::lemma_binary(along_query, true, along_layer, true, axes);
    let turned = array::times(ds, gap);
    rowwise::lemma_binary(ds, true, gap, true, axes);
    let scaled = array::times(turned, scale);
    rowwise::lemma_binary(turned, true, scale, false, axes);
    let tall = array::with_axis(w, 3);
    assert(tall.shape =~= axes.push(1));
    assert(tall.shape.drop_last() =~= axes);
    positions::lemma_place_count(axes, 1);
    let direct = array::times(tall, g);
    lemma_shared_times(tall, g, false, l, outer);
    let z = array::plus(direct, scaled);
    rowwise::lemma_binary(direct, true, scaled, true, axes);
    assert(z == backward::gradients(history, query, d_out).0);
    assert(q.shape =~= array::unit_shape(3).push(d));
    assert forall|k: nat, m: nat| k < l && m < n implies #[trigger] stack_row(z, outer, k, m)
        == formula::layer_gradient(
        a,
        query.data,
        rowwise::rows_at(history, m),
        rowwise::row(d_out, m),
        k as int,
    ) by {
        let i = k * n + m;
        let rows = rowwise::rows_at(history, m);
        let r = rowwise::row(d_out, m);
        let x = rows[k as int];
        rowwise::lemma_stack_row(history, outer, d, k, m);
        let f = formula::layer_gradient(a, query.data, rows, r, k as int);
        let slope = formula::score_gradient(a, query.data, rows, r, k as int);
        let norm = formula::norm_square(a, x);
        assert(ds.data[i as int] == slope);
        assert(column_at(w, l, outer, m)[k as int] == formula::gradient_weights(
            a,
            query.data,
            rows,
        )[k as int]);
        assert forall|c: int| 0 <= c < d implies #[trigger] stack_row(z, outer, k, m)[c]
            == f[c] by {
            let col = c as nat;
            assert(stack_row(z, outer, k, m)[c] == positions::cell(z, true, i, col));
            assert(positions::cell(h, true, i, col) == rowwise::row(h, i)[c]);
            assert(positions::cell(along_query, true, i, col) == (a.times)(
                query.data[c],
                (a.inverse_root)(norm),
            ));
            assert(positions::cell(near, true, i, col) == (a.times)(
                x[c],
                formula::dot(a, query.data, x),
            ));
            assert(positions::cell(along_layer, true, i, col) == (a.times)(
                positions::cell(near, true, i, col),
                (a.inverse_cube)(norm),
            ));
            assert(positions::cell(ds, true, i, col) == slope);
            assert(positions::cell(turned, true, i, col) == (a.times)(
                slope,
                positions::cell(gap, true, i, col),
            ));
            assert(positions::cell(scale, false, i, col) == a.scale);
            assert(stack_row(direct, outer, k, m)[col as int] == array::mul_code(
                e,
                positions::cell(tall, true, i, col),
                shared_cell(g, m, col),
            ));
            assert(positions::cell(direct, true, i, col) == stack_row(direct, outer, k, m)[c]);
            assert(positions::cell(tall, true, i, col) == w.data[i as int]);
        }
        assert(stack_row(z, outer, k, m) =~= f);
    }
    // The query.
    let felt = array::times(ds, h);
    rowwise::lemma_binary(ds, true, h, true, axes);
    let level = array::times(felt, inverse);
    rowwise::lemma_binary(felt, true, inverse, true, axes);
    let parts = array::times(level, scale);
    rowwise::lemma_binary(level, true, scale, false, axes);
    assert(parts == backward::query_parts(h, ds));
    assert forall|k: nat, m: nat| k < l && m < n implies #[trigger] stack_row(parts, outer, k, m)
        == formula::query_gradient(
        a,
        query.data,
        rowwise::rows_at(history, m),
        rowwise::row(d_out, m),
        k as int,
    ) by {
        let i = k * n + m;
        let rows = rowwise::rows_at(history, m);
        let r = rowwise::row(d_out, m);
        let x = rows[k as int];
        rowwise::lemma_stack_row(history, outer, d, k, m);
        let f = formula::query_gradient(a, query.data, rows, r, k as int);
        assert(ds.data[i as int] == formula::score_gradient(a, query.data, rows, r, k as int));
        assert forall|c: int| 0 <= c < d implies #[trigger] stack_row(parts, outer, k, m)[c]
            == f[c] by {
            let col = c as nat;
            assert(stack_row(parts, outer, k, m)[c] == positions::cell(parts, true, i, col));
            assert(positions::cell(h, true, i, col) == rowwise::row(h, i)[c]);
            assert(positions::cell(ds, true, i, col) == ds.data[i as int]);
            assert(positions::cell(scale, false, i, col) == a.scale);
        }
        assert(stack_row(parts, outer, k, m) =~= f);
    }
}

/// The gradient of a layer, at every position.
pub proof fn lemma_layer_gradient(
    query: Array,
    history: Seq<Array>,
    d_out: Array,
    outer: Seq<nat>,
    d: nat,
    k: nat,
)
    requires
        given(query, history, d_out, outer, d),
        k < history.len(),
    ensures
        ({
            let a = rowwise::codes(
                query.element,
                weights(query, history, d).tape != 0,
                d,
            );
            let z = backward::layer_gradient(history, query, d_out, k);
            &&& positions::rows_on(z, outer)
            &&& z.shape.last() == d
            &&& forall|m: nat|
                m < array::volume(outer) ==> #[trigger] rowwise::row(z, m)
                    == formula::layer_gradient(
                    a,
                    query.data,
                    rowwise::rows_at(history, m),
                    rowwise::row(d_out, m),
                    k as int,
                )
        }),
{
    let l = history.len();
    let n = array::volume(outer);
    let axes = locality::stack_axes(l, outer);
    let all = backward::gradients(history, query, d_out).0;
    let z = backward::layer_gradient(history, query, d_out, k);
    lemma_gradients(query, history, d_out, outer, d);
    assert(positions::rows_on(history[0], outer));
    assert(history[0].shape =~= outer.push(d));
    assert(all.shape =~= axes.push(d));
    assert(all.shape.skip(1) =~= seq![outer[0], outer[1], d]);
    locality::lemma_stack_volume(l, outer, d);
    positions::lemma_place_count(outer, d);
    positions::lemma_place_count(axes, d);
    assert((l * n) * d == l * (n * d)) by (nonlinear_arith);
    assert((k + 1) * (n * d) == k * (n * d) + n * d) by (nonlinear_arith);
    assert((k + 1) * (n * d) <= l * (n * d)) by (nonlinear_arith)
        requires
            k + 1 <= l,
    ;
    assert(z.shape.drop_last() =~= outer);
    assert forall|m: nat| m < n implies #[trigger] rowwise::row(z, m) == stack_row(
        all,
        outer,
        k,
        m,
    ) by {
        assert forall|c: int| 0 <= c < d implies #[trigger] rowwise::row(z, m)[c] == stack_row(
            all,
            outer,
            k,
            m,
        )[c] by {
            locality::lemma_layer(l, n, d, k, m, c as nat);
            assert(z.data[m * d + c] == all.data[k * (n * d) + (m * d + c)]);
            if d == 1 {
                assert(c == 0);
            }
        }
        assert(rowwise::row(z, m) =~= stack_row(all, outer, k, m));
    }
}

/// The sum over the positions of a batch and a sequence of what the layers add to one
/// column.
pub open spec fn over_positions(
    element: nat,
    parts: Array,
    l: nat,
    outer: Seq<nat>,
    c: int,
) -> nat {
    array::sum_code(
        element,
        false,
        Seq::new(
            outer[1],
            |j: int|
                array::sum_code(
                    element,
                    false,
                    Seq::new(
                        outer[0],
                        |i: int|
                            array::sum_code(
                                element,
                                false,
                                Seq::new(
                                    l,
                                    |k: int|
                                        stack_row(
                                            parts,
                                            outer,
                                            k as nat,
                                            (i * outer[1] + j) as nat,
                                        )[c],
                                ),
                            ),
                    ),
                ),
        ),
    )
}

/// A sum along the axis number one of `[1, b, t, d]` or number two of `[1, 1, t, d]`.
proof fn lemma_sum_along(x: Array, axis: nat, b: nat, rest: nat, at: nat)
    requires
        x.shape.len() == 4,
        axis == 1 || axis == 2,
        x.shape[axis as int] == b,
        array::volume(x.shape.skip(axis as int + 1)) == rest,
        array::volume(x.shape.update(axis as int, 1)) == rest,
        at < rest,
    ensures
        array::sum(x, axis).data.len() == rest,
        array::sum(x, axis).data[at as int] == array::sum_code(
            x.element,
            false,
            Seq::new(b, |i: int| x.data[i * rest + at]),
        ),
{
    let z = array::sum(x, axis);
    vstd::arithmetic::div_mod::lemma_fundamental_div_mod_converse(
        at as int,
        rest as int,
        0,
        at as int,
    );
    assert(array::line(x, axis, 0, at) =~= Seq::new(b, |i: int| x.data[i * rest + at])) by {
        assert forall|i: int| 0 <= i < b implies #[trigger] array::line(x, axis, 0, at)[i]
            == x.data[i * rest + at] by {
            assert((0 * b + i) * rest + at == i * rest + at);
        }
    }
}

/// The gradient of the query, column by column: the sum over the positions of what every
/// layer adds to it.
pub proof fn lemma_query_gradient(
    query: Array,
    history: Seq<Array>,
    d_out: Array,
    outer: Seq<nat>,
    d: nat,
    c: int,
)
    requires
        given(query, history, d_out, outer, d),
        0 <= c < d,
    ensures
        ({
            let h = depth::stacked(history);
            let g = array::with_axis(d_out, 0);
            let w = weights(query, history, d);
            let ds = backward::score_gradient(w, backward::weight_gradient(h, g));
            backward::gradients(history, query, d_out).1.data[c] == over_positions(
                query.element,
                backward::query_parts(h, ds),
                history.len(),
                outer,
                c,
            )
        }),
{
    let l = history.len();
    let (b, t) = (outer[0], outer[1]);
    let n = array::volume(outer);
    let e = query.element;
    let axes = locality::stack_axes(l, outer);
    let h = depth::stacked(history);
    let g = array::with_axis(d_out, 0);
    let w = weights(query, history, d);
    let ds = backward::score_gradient(w, backward::weight_gradient(h, g));
    let parts = backward::query_parts(h, ds);
    lemma_given(query, history, d_out, outer, d);
    lemma_gradients(query, history, d_out, outer, d);
    lemma_score_gradient(query, history, d_out, outer, d);
    assert(parts.element == e);
    let first = array::sum(parts, 0);
    let second = array::sum(first, 1);
    let third = array::sum(second, 2);
    assert(parts.shape =~= axes.push(d));
    assert(first.shape =~= seq![1, b, t, d]);
    assert(second.shape =~= seq![1, 1, t, d]);
    assert(third.shape =~= seq![1, 1, 1, d]);
    array::lemma_volumes(1, b, t, d);
    array::lemma_volumes(1, 1, t, d);
    array::lemma_volumes(1, 1, 1, d);
    array::lemma_volumes(b, t, d, 1);
    array::lemma_volumes(d, 1, 1, 1);
    assert(1 * 1 * t * d == t * d && 1 * 1 * 1 * d == d) by (nonlinear_arith);
    assert(first.shape.skip(2) =~= seq![t, d]);
    assert(second.shape.skip(3) =~= seq![d]);
    assert(array::volume(seq![t, d]) == t * d) by {
        reveal_with_fuel(array::volume, 3);
        assert(seq![t, d].drop_last() =~= seq![t]);
        assert(seq![t].drop_last() =~= Seq::<nat>::empty());
    }
    assert(first.shape.update(1, 1) =~= second.shape);
    assert(second.shape.update(2, 1) =~= third.shape);
    assert(n == b * t) by {
        assert(outer =~= seq![b, t]);
        reveal_with_fuel(array::volume, 3);
        assert(seq![b, t].drop_last() =~= seq![b]);
        assert(seq![b].drop_last() =~= Seq::<nat>::empty());
    }
    let col = c as nat;
    lemma_sum_along(second, 2, t, d, col);
    let last = Seq::new(t, |j: int| second.data[j * d + col]);
    let over = Seq::new(
        t,
        |j: int|
            array::sum_code(
                e,
                false,
                Seq::new(
                    b,
                    |i: int|
                        array::sum_code(
                            e,
                            false,
                            Seq::new(
                                l,
                                |k: int|
                                    stack_row(parts, outer, k as nat, (i * t + j) as nat)[c],
                            ),
                        ),
                ),
            ),
    );
    assert forall|j: int| 0 <= j < t implies #[trigger] last[j] == over[j] by {
        let at = j * d + col;
        assert(0 <= at < t * d) by (nonlinear_arith)
            requires
                at == j * d + col,
                0 <= j,
                j + 1 <= t,
                0 <= col < d,
        ;
        lemma_sum_along(first, 1, b, t * d, at as nat);
        let mid = Seq::new(b, |i: int| first.data[i * (t * d) + at]);
        let inner = Seq::new(
            b,
            |i: int|
                array::sum_code(
                    e,
                    false,
                    Seq::new(
                        l,
                        |k: int| stack_row(parts, outer, k as nat, (i * t + j) as nat)[c],
                    ),
                ),
        );
        assert forall|i: int| 0 <= i < b implies #[trigger] mid[i] == inner[i] by {
            let m = (i * t + j) as nat;
            assert(0 <= i * t + j < b * t) by (nonlinear_arith)
                requires
                    0 <= i,
                    i + 1 <= b,
                    0 <= j < t,
            ;
            assert(i * (t * d) + (j * d + col) == (i * t + j) * d + col) by (nonlinear_arith);
            lemma_first_sum(parts, l, outer, m, col);
            let line = Seq::new(
                l,
                |k: int| positions::cell(parts, true, (k * n + m) as nat, col),
            );
            let rows = Seq::new(l, |k: int| stack_row(parts, outer, k as nat, m)[c]);
            assert(line =~= rows);
        }
        assert(mid =~= inner);
    }
    assert(last =~= over);
    assert(backward::gradients(history, query, d_out).1.data == third.data);
}

/// A sum along the first axis of a stack.
proof fn lemma_first_sum(x: Array, l: nat, outer: Seq<nat>, m: nat, c: nat)
    requires
        outer.len() == 2,
        positions::rows_on(x, locality::stack_axes(l, outer)),
        m < array::volume(outer),
        c < x.shape.last(),
    ensures
        array::sum(x, 0).data[(m * x.shape.last() + c) as int] == array::sum_code(
            x.element,
            false,
            Seq::new(
                l,
                |k: int| positions::cell(x, true, (k * array::volume(outer) + m) as nat, c),
            ),
        ),
{
    let w = x.shape.last();
    let n = array::volume(outer);
    let z = array::sum(x, 0);
    rowwise::lemma_line(x, l, outer, m, c);
    assert(x.shape =~= locality::stack_axes(l, outer).push(w));
    assert(z.shape =~= locality::stack_axes(1, outer).push(w));
    locality::lemma_stack_volume(1, outer, w);
    positions::lemma_place_count(locality::stack_axes(1, outer), w);
    assert(1 * n == n);
    locality::lemma_layer(1, n, w, 0, m, c);
    assert(0 * n + m == m && 0 * (n * w) == 0);
}

} // verus!
