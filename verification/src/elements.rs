//! Every element of a result, from the elements of the inputs.
//!
//! The laws here name no formula but the one they state: each says which elements of the
//! inputs an element of a result is made of, and by what operations on single elements
//! and single lines. A constant stands there as its bit pattern.
use vstd::prelude::*;

use crate::array;
use crate::array::Array;
use crate::backward;
use crate::chunks;
use crate::depth;
use crate::formula;
use crate::fused;
use crate::launch;
use crate::locality;
use crate::online;
use crate::online::Online;
use crate::positions;
use crate::rowwise;
use crate::rowwise::gradient;
use crate::score;

verus! {

/// An array `[b, t, w]` has one row of `w` columns per position.
pub proof fn lemma_layout(x: Array, b: nat, t: nat, w: nat)
    requires
        x.shape == seq![b, t, w],
        x.data.len() == b * t * w,
    ensures
        positions::rows_on(x, seq![b, t]),
        array::volume(seq![b, t]) == b * t,
        x.shape.last() == w,
        x.shape[2] == w,
{
    array::lemma_volumes(b, t, w, 1);
    assert(x.shape.drop_last() =~= seq![b, t]);
    reveal_with_fuel(array::volume, 3);
    assert(seq![b, t].drop_last() =~= seq![b]);
    assert(seq![b].drop_last() =~= Seq::<nat>::empty());
}

/// A vector has as many elements as its extent says.
proof fn lemma_vector(q: Array, d: nat)
    requires
        q.shape == seq![d],
        q.data.len() == d,
    ensures
        positions::sized(q),
{
    array::lemma_volumes(d, 1, 1, 1);
}

/// A row that lies in an array of one row per position.
pub proof fn lemma_row(x: Array, outer: Seq<nat>, m: nat)
    requires
        positions::rows_on(x, outer),
        m < array::volume(outer),
    ensures
        rowwise::row(x, m) =~= Seq::new(
            x.shape.last(),
            |c: int| x.data[m * x.shape.last() + c],
        ),
        x.shape.last() == 1 ==> positions::cell(x, true, m, 0) == x.data[m as int],
{
    let w = x.shape.last();
    if w == 1 {
        assert(m * 1 == m);
    }
}

/// The score of a source: at every position the product of the query with the source over
/// its norm, scaled. The norm is the root of the sum of the squares and 1e-5, the scale is
/// the number of columns to the power -1/2.
pub proof fn lemma_score(query: Array, src: Array, b: nat, t: nat, d: nat, m: nat)
    requires
        src.shape == seq![b, t, d],
        src.data.len() == b * t * d,
        query.shape == seq![d],
        query.data.len() == d,
        query.element == src.element,
        m < b * t,
    ensures
        ({
            let e = src.element;
            let typed = |bits: nat|
                if e == 16 || e == 17 {
                    array::cast_code(32, e, array::cast_code(64, 32, bits))
                } else {
                    array::cast_code(64, e, bits)
                };
            let squares = array::sum_code(
                e,
                true,
                Seq::new(d, |c: int| array::powf_scalar_code(e, src.data[m * d + c], 2)),
            );
            let norm = array::sqrt_code(
                e,
                array::add_code(e, squares, typed(0x3EE4_F8B5_88E3_68F1nat)),
            );
            score::score(query, src).data[m as int] == array::mul_code(
                e,
                array::sum_code(
                    e,
                    true,
                    Seq::new(
                        d,
                        |c: int|
                            array::mul_code(
                                e,
                                query.data[c],
                                array::div_code(e, src.data[m * d + c], norm),
                            ),
                    ),
                ),
                typed(array::powf_code(64, array::full_code(d), 0xBFE0_0000_0000_0000nat)),
            )
        }),
{
    let e = src.element;
    let outer = seq![b, t];
    let a = rowwise::codes(e, false, d);
    let r = rowwise::row(src, m);
    lemma_layout(src, b, t, d);
    lemma_vector(query, d);
    rowwise::lemma_score(query, src, outer, false);
    lemma_row(src, outer, m);
    lemma_row(score::score(query, src), outer, m);
    assert(positions::cell(score::score(query, src), true, m, 0) == formula::score(
        a,
        query.data,
        r,
    ));
    assert(Seq::new(r.len(), |c: int| (a.square)(r[c])) =~= Seq::new(
        d,
        |c: int| array::powf_scalar_code(e, src.data[m * d + c], 2),
    ));
    let norm = formula::norm(a, r);
    assert(Seq::new(r.len(), |c: int| (a.times)(query.data[c], (a.over)(r[c], norm))) =~= Seq::new(
        d,
        |c: int|
            array::mul_code(
                e,
                query.data[c],
                array::div_code(e, src.data[m * d + c], norm),
            ),
    ));
}

/// The score of a source on the fused path: at every position the scaled product of the
/// query with the source, over the norm of the source.
pub proof fn lemma_fused_score(query: Array, src: Array, b: nat, t: nat, d: nat, m: nat)
    requires
        src.shape == seq![b, t, d],
        src.data.len() == b * t * d,
        query.shape == seq![d],
        query.data.len() == d,
        query.element == src.element,
        m < b * t,
    ensures
        ({
            let e = src.element;
            let typed = |bits: nat|
                if e == 16 || e == 17 {
                    array::cast_code(32, e, array::cast_code(64, 32, bits))
                } else {
                    array::cast_code(64, e, bits)
                };
            let squares = array::sum_code(
                e,
                true,
                Seq::new(
                    d,
                    |c: int| array::mul_code(e, src.data[m * d + c], src.data[m * d + c]),
                ),
            );
            let product = array::sum_code(
                e,
                true,
                Seq::new(d, |c: int| array::mul_code(e, query.data[c], src.data[m * d + c])),
            );
            fused::fused_score(query, src).data[m as int] == array::div_code(
                e,
                array::mul_code(
                    e,
                    product,
                    typed(array::powf_code(64, array::full_code(d), 0xBFE0_0000_0000_0000nat)),
                ),
                array::sqrt_code(e, array::add_code(e, squares, typed(0x3EE4_F8B5_88E3_68F1nat))),
            )
        }),
{
    let e = src.element;
    let outer = seq![b, t];
    let a = rowwise::codes(e, false, d);
    let r = rowwise::row(src, m);
    lemma_layout(src, b, t, d);
    lemma_vector(query, d);
    rowwise::lemma_fused_score(query, src, outer, false);
    lemma_row(src, outer, m);
    let z = fused::fused_score(query, src);
    lemma_row(z, outer, m);
    assert(positions::cell(z, true, m, 0) == formula::fused_score(a, query.data, r));
    assert(Seq::new(r.len(), |c: int| (a.times)(r[c], r[c])) =~= Seq::new(
        d,
        |c: int| array::mul_code(e, src.data[m * d + c], src.data[m * d + c]),
    ));
    assert(Seq::new(r.len(), |c: int| (a.times)(query.data[c], r[c])) =~= Seq::new(
        d,
        |c: int| array::mul_code(e, query.data[c], src.data[m * d + c]),
    ));
}

// ---- attention over sources ----

/// The divisor of the attended output is the larger of the sum of the weights and 1e-12:
/// it is one of the two, and it is the sum of the weights wherever 1e-12 is not above that.
/// In half precision without recording the two are compared in single precision.
pub proof fn lemma_divisor(x: Array, b: nat, t: nat, m: nat)
    requires
        x.shape == seq![b, t, 1],
        x.data.len() == b * t,
        m < b * t,
    ensures
        ({
            let e = x.element;
            let least = 0x3D71_9799_812D_EA11nat;
            let sum = x.data[m as int];
            let z = online::at_least(x).data[m as int];
            if (e == 16 || e == 17) && x.tape == 0 {
                let (a, b) = (array::cast_code(e, 32, sum), array::cast_code(64, 32, least));
                &&& !array::below(32, a, b) ==> z == array::cast_code(32, e, a)
                &&& array::below(32, a, b) ==> z == array::cast_code(32, e, b)
            } else {
                let b = array::cast_code(64, e, least);
                &&& z == sum || z == b
                &&& !array::below(e, sum, b) ==> z == sum
                &&& array::below(e, sum, b) ==> z == b
            }
        }),
{
    let outer = seq![b, t];
    assert(b * t * 1 == b * t);
    lemma_layout(x, b, t, 1);
    rowwise::lemma_bounded(x, outer);
    lemma_row(x, outer, m);
    lemma_row(online::at_least(x), outer, m);
    assert(positions::cell(online::at_least(x), true, m, 0) == rowwise::bounded_code(
        x.element,
        x.tape != 0,
        positions::cell(x, true, m, 0),
    ));
}

/// The attended output: the weighted sum over the divisor of its position.
pub proof fn lemma_attended(o: Online, b: nat, t: nat, d: nat, m: nat, c: nat)
    requires
        o.acc.shape == seq![b, t, d],
        o.acc.data.len() == b * t * d,
        o.sum_exp.shape == seq![b, t, 1],
        o.sum_exp.data.len() == b * t,
        m < b * t,
        c < d,
    ensures
        online::attended(o).data[(m * d + c) as int] == array::div_code(
            o.acc.element,
            o.acc.data[(m * d + c) as int],
            online::at_least(o.sum_exp).data[m as int],
        ),
        online::attended(o).shape == o.acc.shape,
{
    let outer = seq![b, t];
    assert(b * t * 1 == b * t);
    lemma_layout(o.acc, b, t, d);
    lemma_layout(o.sum_exp, b, t, 1);
    rowwise::lemma_bounded(o.sum_exp, outer);
    let low = online::at_least(o.sum_exp);
    rowwise::lemma_binary(o.acc, true, low, true, outer);
    let z = online::attended(o);
    lemma_row(low, outer, m);
    assert(positions::cell(z, true, m, c) == array::div_code(
        o.acc.element,
        positions::cell(o.acc, true, m, c),
        positions::cell(low, true, m, c),
    ));
    assert(z.shape =~= o.acc.shape) by {
        assert(z.shape =~= outer.push(d));
        assert(o.acc.shape =~= outer.push(d));
    }
    if d == 1 {
        assert(c == 0);
    }
}

/// Attention over one source: its score, a weight of one, and the source.
pub proof fn lemma_first(src: Array, s: Array)
    ensures
        online::first(src, s).max_score == s,
        online::first(src, s).acc == src,
        online::first(src, s).sum_exp.shape == seq![src.shape[0], src.shape[1], 1],
        forall|i: int|
            0 <= i < array::volume(seq![src.shape[0], src.shape[1], 1])
                ==> #[trigger] online::first(src, s).sum_exp.data[i] == (if src.element == 64 {
                0x3FF0_0000_0000_0000nat
            } else if src.element == 32 {
                0x3F80_0000nat
            } else if src.element == 16 {
                0x3C00nat
            } else {
                0x3F80nat
            }),
        online::first(src, s).sum_exp.device == src.device,
        online::first(src, s).sum_exp.element == src.element,
        online::first(src, s).sum_exp.tape == src.tape,
{
}

/// Attention with one source more. The new reference point is half of the sum and the
/// distance of the old one and the score; relative to it the old sums and the source are
/// taken in, every position by itself.
pub proof fn lemma_merge(
    o: Online,
    src: Array,
    s: Array,
    b: nat,
    t: nat,
    d: nat,
    m: nat,
    c: nat,
)
    requires
        o.max_score.shape == seq![b, t, 1],
        o.max_score.data.len() == b * t,
        o.max_score.element == src.element,
        o.acc.shape == seq![b, t, d],
        o.acc.data.len() == b * t * d,
        o.sum_exp.shape == seq![b, t, 1],
        o.sum_exp.data.len() == b * t,
        o.sum_exp.element == src.element,
        o.acc.element == src.element,
        src.shape == seq![b, t, d],
        src.data.len() == b * t * d,
        s.shape == seq![b, t, 1],
        s.data.len() == b * t,
        s.element == src.element,
        m < b * t,
        c < d,
    ensures
        ({
            let e = src.element;
            let i = m as int;
            let j = (m * d + c) as int;
            let r = online::merge(o, src, s);
            let (old_top, score) = (o.max_score.data[i], s.data[i]);
            let top = r.max_score.data[i];
            let rescale = array::exp_code(e, array::sub_code(e, old_top, top));
            let w = array::exp_code(e, array::sub_code(e, score, top));
            &&& top == array::div_scalar_code(
                e,
                array::add_code(
                    e,
                    array::add_code(e, old_top, score),
                    array::magnitude_code(e, array::sub_code(e, old_top, score)),
                ),
                2,
            )
            &&& r.sum_exp.data[i] == array::add_code(
                e,
                array::mul_code(e, o.sum_exp.data[i], rescale),
                w,
            )
            &&& r.acc.data[j] == array::add_code(
                e,
                array::mul_code(e, o.acc.data[j], rescale),
                array::mul_code(e, src.data[j], w),
            )
        }),
{
    let outer = seq![b, t];
    let r = online::merge(o, src, s);
    assert(b * t * 1 == b * t);
    lemma_layout(o.max_score, b, t, 1);
    lemma_layout(o.sum_exp, b, t, 1);
    lemma_layout(o.acc, b, t, d);
    lemma_layout(src, b, t, d);
    lemma_layout(s, b, t, 1);
    rowwise::lemma_merge(o, src, s, outer, false);
    lemma_states(o, src, s, r, outer, m, c);
}

/// Attention with one source more on the fused path. The new reference point is the larger
/// of the old one and the score.
pub proof fn lemma_fused_merge(
    o: Online,
    src: Array,
    s: Array,
    b: nat,
    t: nat,
    d: nat,
    m: nat,
    c: nat,
)
    requires
        o.max_score.shape == seq![b, t, 1],
        o.max_score.data.len() == b * t,
        o.max_score.element == src.element,
        o.acc.shape == seq![b, t, d],
        o.acc.data.len() == b * t * d,
        o.sum_exp.shape == seq![b, t, 1],
        o.sum_exp.data.len() == b * t,
        o.sum_exp.element == src.element,
        o.acc.element == src.element,
        src.shape == seq![b, t, d],
        src.data.len() == b * t * d,
        s.shape == seq![b, t, 1],
        s.data.len() == b * t,
        s.element == src.element,
        m < b * t,
        c < d,
    ensures
        ({
            let e = src.element;
            let i = m as int;
            let j = (m * d + c) as int;
            let r = fused::fused_merge(o, src, s);
            let (old_top, score) = (o.max_score.data[i], s.data[i]);
            let top = r.max_score.data[i];
            let rescale = array::exp_code(e, array::sub_code(e, old_top, top));
            let w = array::exp_code(e, array::sub_code(e, score, top));
            &&& array::below(e, old_top, score) ==> top == score
            &&& !array::below(e, old_top, score) ==> top == old_top
            &&& r.sum_exp.data[i] == array::add_code(
                e,
                array::mul_code(e, o.sum_exp.data[i], rescale),
                w,
            )
            &&& r.acc.data[j] == array::add_code(
                e,
                array::mul_code(e, o.acc.data[j], rescale),
                array::mul_code(e, src.data[j], w),
            )
        }),
{
    let outer = seq![b, t];
    let r = fused::fused_merge(o, src, s);
    assert(b * t * 1 == b * t);
    lemma_layout(o.max_score, b, t, 1);
    lemma_layout(o.sum_exp, b, t, 1);
    lemma_layout(o.acc, b, t, d);
    lemma_layout(src, b, t, d);
    lemma_layout(s, b, t, 1);
    rowwise::lemma_merge(o, src, s, outer, false);
    lemma_states(o, src, s, r, outer, m, c);
}

proof fn lemma_states(
    o: Online,
    src: Array,
    s: Array,
    r: Online,
    outer: Seq<nat>,
    m: nat,
    c: nat,
)
    requires
        rowwise::online_of(o, outer, src.shape.last(), src.element),
        rowwise::online_of(r, outer, src.shape.last(), src.element),
        positions::rows_on(src, outer),
        positions::rows_on(s, outer),
        s.shape.last() == 1,
        m < array::volume(outer),
        c < src.shape.last(),
    ensures
        rowwise::state(o, m).max == o.max_score.data[m as int],
        rowwise::state(o, m).sum == o.sum_exp.data[m as int],
        rowwise::state(o, m).acc[c as int] == o.acc.data[(m * src.shape.last() + c) as int],
        rowwise::state(r, m).max == r.max_score.data[m as int],
        rowwise::state(r, m).sum == r.sum_exp.data[m as int],
        rowwise::state(r, m).acc[c as int] == r.acc.data[(m * src.shape.last() + c) as int],
        rowwise::row(src, m)[c as int] == src.data[(m * src.shape.last() + c) as int],
        rowwise::row(src, m).len() == src.shape.last(),
        positions::cell(s, true, m, 0) == s.data[m as int],
{
    lemma_row(o.max_score, outer, m);
    lemma_row(o.sum_exp, outer, m);
    lemma_row(o.acc, outer, m);
    lemma_row(r.max_score, outer, m);
    lemma_row(r.sum_exp, outer, m);
    lemma_row(r.acc, outer, m);
    lemma_row(src, outer, m);
    lemma_row(s, outer, m);
}

// ---- depth attention ----

/// Several layers `[b, t, d]`, in one element type.
proof fn lemma_layers(query: Array, history: Seq<Array>, b: nat, t: nat, d: nat)
    requires
        query.shape == seq![d],
        query.data.len() == d,
        forall|k: int|
            0 <= k < history.len() ==> (#[trigger] history[k]).shape == seq![b, t, d]
                && history[k].data.len() == b * t * d && history[k].element == query.element,
    ensures
        rowwise::sources_on(query, history, seq![b, t], d),
{
    lemma_vector(query, d);
    assert forall|k: int| 0 <= k < history.len() implies positions::rows_on(
        #[trigger] history[k],
        seq![b, t],
    ) && history[k].shape.last() == d && history[k].element == query.element by {
        lemma_layout(history[k], b, t, d);
    }
}

/// A stack records gradients exactly if one of its layers does.
pub proof fn lemma_stack_tape(history: Seq<Array>)
    ensures
        depth::stacked(history).tape != 0 <==> exists|k: int|
            0 <= k < history.len() && (#[trigger] history[k]).tape != 0,
{
    let parts = Seq::new(history.len(), |i: int| array::with_axis(history[i], 0));
    lemma_joined_tape(parts);
    if depth::stacked(history).tape != 0 {
        let k = choose|k: int| 0 <= k < parts.len() && (#[trigger] parts[k]).tape != 0;
        assert(history[k].tape != 0);
    }
    if exists|k: int| 0 <= k < history.len() && (#[trigger] history[k]).tape != 0 {
        let k = choose|k: int| 0 <= k < history.len() && (#[trigger] history[k]).tape != 0;
        assert(parts[k].tape != 0);
    }
}

proof fn lemma_joined_tape(parts: Seq<Array>)
    ensures
        array::joined_tape(parts) != 0 <==> exists|k: int|
            0 <= k < parts.len() && (#[trigger] parts[k]).tape != 0,
    decreases parts.len(),
{
    if parts.len() > 0 {
        let before = parts.drop_last();
        lemma_joined_tape(before);
        assert(parts[parts.len() - 1] == parts.last());
        if exists|k: int| 0 <= k < before.len() && (#[trigger] before[k]).tape != 0 {
            let k = choose|k: int| 0 <= k < before.len() && (#[trigger] before[k]).tape != 0;
            assert(parts[k].tape != 0);
        }
        if exists|k: int| 0 <= k < parts.len() && (#[trigger] parts[k]).tape != 0 {
            let k = choose|k: int| 0 <= k < parts.len() && (#[trigger] parts[k]).tape != 0;
            if k < before.len() {
                assert(before[k].tape != 0);
            }
        }
    }
}

/// Depth attention over two or more layers, whatever their number: every element is the
/// sum over all layers of the layer's element times the layer's weight at that position,
/// and the weights are the softmax of the scores of all layers at that position. The same
/// holds of the tensor path for a single layer too.
pub proof fn lemma_depth(
    history: Seq<Array>,
    query: Array,
    b: nat,
    t: nat,
    d: nat,
    m: nat,
    c: nat,
)
    requires
        history.len() > 0,
        query.shape == seq![d],
        query.data.len() == d,
        forall|k: int|
            0 <= k < history.len() ==> (#[trigger] history[k]).shape == seq![b, t, d]
                && history[k].data.len() == b * t * d && history[k].element == query.element,
        m < b * t,
        c < d,
    ensures
        ({
            let e = query.element;
            let l = history.len();
            let recording = query.tape != 0 || exists|k: int|
                0 <= k < l && (#[trigger] history[k]).tape != 0;
            let typed = |bits: nat|
                if e == 16 || e == 17 {
                    array::cast_code(32, e, array::cast_code(64, 32, bits))
                } else {
                    array::cast_code(64, e, bits)
                };
            let norm = |k: int|
                array::sqrt_code(
                    e,
                    array::add_code(
                        e,
                        array::sum_code(
                            e,
                            true,
                            Seq::new(
                                d,
                                |i: int| array::powf_scalar_code(e, history[k].data[m * d + i], 2),
                            ),
                        ),
                        typed(0x3EE4_F8B5_88E3_68F1nat),
                    ),
                );
            let scores = Seq::new(
                l,
                |k: int|
                    array::mul_code(
                        e,
                        array::sum_code(
                            e,
                            true,
                            Seq::new(
                                d,
                                |i: int|
                                    array::mul_code(
                                        e,
                                        query.data[i],
                                        array::div_code(e, history[k].data[m * d + i], norm(k)),
                                    ),
                            ),
                        ),
                        typed(array::powf_code(64, array::full_code(d), 0xBFE0_0000_0000_0000nat)),
                    ),
            );
            let weights = array::softmax_codes(e, recording, scores);
            let element = array::sum_code(
                e,
                false,
                Seq::new(
                    l,
                    |k: int|
                        array::mul_code(e, history[k].data[(m * d + c) as int], weights[k]),
                ),
            );
            &&& l >= 2 ==> depth::depth(history, query).data[(m * d + c) as int] == element
            &&& depth::weighted_sum(history, query).data[(m * d + c) as int] == element
        }),
{
    let e = query.element;
    let l = history.len();
    let outer = seq![b, t];
    lemma_layers(query, history, b, t, d);
    assert(history[0].shape == seq![b, t, d]);
    lemma_layout(history[0], b, t, d);
    rowwise::lemma_weighted_sum(query, history, outer, d);
    let z = depth::weighted_sum(history, query);
    let recording = depth::depth_weights(history, query).tape != 0;
    let a = rowwise::codes(e, recording, d);
    lemma_stack_tape(history);
    lemma_row(z, outer, m);
    let rows = rowwise::rows_at(history, m);
    let f = formula::weighted_sum(a, query.data, rows);
    assert(rowwise::row(z, m) == f);
    assert forall|k: int| 0 <= k < l implies (#[trigger] rows[k]) =~= Seq::new(
        d,
        |i: int| history[k].data[m * d + i],
    ) by {
        assert(history[k].shape == seq![b, t, d]);
        lemma_layout(history[k], b, t, d);
        lemma_row(history[k], outer, m);
    }
    let typed = |bits: nat|
        if e == 16 || e == 17 {
            array::cast_code(32, e, array::cast_code(64, 32, bits))
        } else {
            array::cast_code(64, e, bits)
        };
    let norm = |k: int|
        array::sqrt_code(
            e,
            array::add_code(
                e,
                array::sum_code(
                    e,
                    true,
                    Seq::new(
                        d,
                        |i: int| array::powf_scalar_code(e, history[k].data[m * d + i], 2),
                    ),
                ),
                typed(0x3EE4_F8B5_88E3_68F1nat),
            ),
        );
    let scores = Seq::new(
        l,
        |k: int|
            array::mul_code(
                e,
                array::sum_code(
                    e,
                    true,
                    Seq::new(
                        d,
                        |i: int|
                            array::mul_code(
                                e,
                                query.data[i],
                                array::div_code(e, history[k].data[m * d + i], norm(k)),
                            ),
                    ),
                ),
                typed(array::powf_code(64, array::full_code(d), 0xBFE0_0000_0000_0000nat)),
            ),
    );
    let own = Seq::new(rows.len(), |k: int| formula::score(a, query.data, rows[k]));
    assert forall|k: int| 0 <= k < l implies #[trigger] own[k] == scores[k] by {
        let r = rows[k];
        assert(r =~= Seq::new(d, |i: int| history[k].data[m * d + i]));
        assert(Seq::new(r.len(), |i: int| (a.square)(r[i])) =~= Seq::new(
            d,
            |i: int| array::powf_scalar_code(e, history[k].data[m * d + i], 2),
        ));
        let n = formula::norm(a, r);
        assert(n == norm(k));
        assert(Seq::new(r.len(), |i: int| (a.times)(query.data[i], (a.over)(r[i], n))) =~= Seq::new(
            d,
            |i: int|
                array::mul_code(
                    e,
                    query.data[i],
                    array::div_code(e, history[k].data[m * d + i], norm(k)),
                ),
        ));
    }
    assert(own =~= scores);
    let weights = array::softmax_codes(e, recording, scores);
    let col = c as int;
    assert forall|k: int| 0 <= k < l implies (a.times)(#[trigger] rows[k][col], weights[k])
        == array::mul_code(e, history[k].data[(m * d + c) as int], weights[k]) by {
        assert(rows[k] =~= Seq::new(d, |i: int| history[k].data[m * d + i]));
    }
    assert(Seq::new(rows.len(), |k: int| (a.times)(rows[k][col], weights[k])) =~= Seq::new(
        l,
        |k: int| array::mul_code(e, history[k].data[(m * d + c) as int], weights[k]),
    ));
    assert(f[col] == rowwise::row(z, m)[col]);
}

// ---- the gradient ----

/// The gradient of a layer, whatever the number of columns. With the square `s` of a layer's
/// norm, the sum of its squares and 1e-5, it uses `s` to the power -1/2 and to the power
/// -3/2; the weights are the softmax of the scores of all layers.
pub proof fn lemma_layer_gradient(
    history: Seq<Array>,
    query: Array,
    d_out: Array,
    b: nat,
    t: nat,
    d: nat,
    layer: nat,
    m: nat,
    c: nat,
)
    requires
        history.len() > 0,
        query.shape == seq![d],
        query.data.len() == d,
        forall|k: int|
            0 <= k < history.len() ==> (#[trigger] history[k]).shape == seq![b, t, d]
                && history[k].data.len() == b * t * d && history[k].element == query.element,
        d_out.shape == seq![b, t, d],
        d_out.data.len() == b * t * d,
        d_out.element == query.element,
        layer < history.len(),
        m < b * t,
        c < d,
    ensures
        ({
            let e = query.element;
            let l = history.len();
            let recording = query.tape != 0 || exists|k: int|
                0 <= k < l && (#[trigger] history[k]).tape != 0;
            let typed = |bits: nat|
                if e == 16 || e == 17 {
                    array::cast_code(32, e, array::cast_code(64, 32, bits))
                } else {
                    array::cast_code(64, e, bits)
                };
            let scale = typed(array::powf_code(64, array::full_code(d), 0xBFE0_0000_0000_0000nat));
            let square = |k: int|
                array::add_code(
                    e,
                    array::sum_code(
                        e,
                        true,
                        Seq::new(
                            d,
                            |i: int| array::powf_scalar_code(e, history[k].data[m * d + i], 2),
                        ),
                    ),
                    typed(0x3EE4_F8B5_88E3_68F1nat),
                );
            let inverse = |k: int|
                array::powf_code(e, square(k), typed(0xBFE0_0000_0000_0000nat));
            let cube = |k: int| array::powf_code(e, square(k), typed(0xBFF8_0000_0000_0000nat));
            let dot = |k: int|
                array::sum_code(
                    e,
                    true,
                    Seq::new(
                        d,
                        |i: int| array::mul_code(e, query.data[i], history[k].data[m * d + i]),
                    ),
                );
            let w = array::softmax_codes(
                e,
                recording,
                Seq::new(
                    l,
                    |k: int| array::mul_code(e, array::mul_code(e, dot(k), inverse(k)), scale),
                ),
            );
            let reach = |k: int|
                array::sum_code(
                    e,
                    true,
                    Seq::new(
                        d,
                        |i: int|
                            array::mul_code(e, d_out.data[m * d + i], history[k].data[m * d + i]),
                    ),
                );
            let mean = array::sum_code(
                e,
                false,
                Seq::new(l, |j: int| array::mul_code(e, w[j], reach(j))),
            );
            let slope = |k: int|
                array::mul_code(e, w[k], array::sub_code(e, reach(k), mean));
            let (k, at) = (layer as int, (m * d + c) as int);
            backward::layer_gradient(history, query, d_out, layer).data[at] == array::add_code(
                e,
                array::mul_code(e, w[k], d_out.data[at]),
                array::mul_code(
                    e,
                    array::mul_code(
                        e,
                        slope(k),
                        array::sub_code(
                            e,
                            array::mul_code(e, query.data[c as int], inverse(k)),
                            array::mul_code(
                                e,
                                array::mul_code(e, history[k].data[at], dot(k)),
                                cube(k),
                            ),
                        ),
                    ),
                    scale,
                ),
            )
        }),
{
    let e = query.element;
    let l = history.len();
    let recording = query.tape != 0 || exists|k: int|
        0 <= k < l && (#[trigger] history[k]).tape != 0;
    let typed = |bits: nat|
        if e == 16 || e == 17 {
            array::cast_code(32, e, array::cast_code(64, 32, bits))
        } else {
            array::cast_code(64, e, bits)
        };
    let scale = typed(array::powf_code(64, array::full_code(d), 0xBFE0_0000_0000_0000nat));
    let square = |k: int|
        array::add_code(
            e,
            array::sum_code(
                e,
                true,
                Seq::new(
                    d,
                    |i: int| array::powf_scalar_code(e, history[k].data[m * d + i], 2),
                ),
            ),
            typed(0x3EE4_F8B5_88E3_68F1nat),
        );
    let inverse = |k: int|
        array::powf_code(e, square(k), typed(0xBFE0_0000_0000_0000nat));
    let cube = |k: int| array::powf_code(e, square(k), typed(0xBFF8_0000_0000_0000nat));
    let dot = |k: int|
        array::sum_code(
            e,
            true,
            Seq::new(
                d,
                |i: int| array::mul_code(e, query.data[i], history[k].data[m * d + i]),
            ),
        );
    let w = array::softmax_codes(
        e,
        recording,
        Seq::new(
            l,
            |k: int| array::mul_code(e, array::mul_code(e, dot(k), inverse(k)), scale),
        ),
    );
    let reach = |k: int|
        array::sum_code(
            e,
            true,
            Seq::new(
                d,
                |i: int|
                    array::mul_code(e, d_out.data[m * d + i], history[k].data[m * d + i]),
            ),
        );
    let mean = array::sum_code(
        e,
        false,
        Seq::new(l, |j: int| array::mul_code(e, w[j], reach(j))),
    );
    let slope = |k: int|
        array::mul_code(e, w[k], array::sub_code(e, reach(k), mean));
    let outer = seq![b, t];
    let (k, at) = (layer as int, (m * d + c) as int);
    lemma_layers(query, history, b, t, d);
    lemma_layout(d_out, b, t, d);
    assert(history[k].shape == seq![b, t, d]);
    lemma_layout(history[k], b, t, d);
    gradient::lemma_layer_gradient(query, history, d_out, outer, d, layer);
    let z = backward::layer_gradient(history, query, d_out, layer);
    lemma_row(z, outer, m);
    lemma_row(d_out, outer, m);
    lemma_row(history[k], outer, m);
    let taped = gradient::weights(query, history, d).tape != 0;
    lemma_gradient_tape(history, query, d);
    lemma_gradient_parts(history, query, d_out, b, t, d, m, k);
    let a = rowwise::codes(e, taped, d);
    let rows = rowwise::rows_at(history, m);
    let own = formula::layer_gradient(a, query.data, rows, rowwise::row(d_out, m), k);
    assert(rowwise::row(z, m)[c as int] == own[c as int]);
    assert(rows[k][c as int] == history[k].data[at]);
}

/// Weights for the gradient record gradients exactly if the query or a layer does.
proof fn lemma_gradient_tape(history: Seq<Array>, query: Array, d: nat)
    ensures
        gradient::weights(query, history, d).tape != 0 <==> query.tape != 0 || exists|k: int|
            0 <= k < history.len() && (#[trigger] history[k]).tape != 0,
{
    lemma_stack_tape(history);
}

/// What the gradient is made of, at one position.
proof fn lemma_gradient_parts(
    history: Seq<Array>,
    query: Array,
    d_out: Array,
    b: nat,
    t: nat,
    d: nat,
    m: nat,
    layer: int,
)
    requires
        history.len() > 0,
        query.shape == seq![d],
        query.data.len() == d,
        forall|k: int|
            0 <= k < history.len() ==> (#[trigger] history[k]).shape == seq![b, t, d]
                && history[k].data.len() == b * t * d && history[k].element == query.element,
        d_out.shape == seq![b, t, d],
        d_out.data.len() == b * t * d,
        d_out.element == query.element,
        0 <= layer < history.len(),
        m < b * t,
    ensures
        ({
            let e = query.element;
            let l = history.len();
            let recording = query.tape != 0 || exists|k: int|
                0 <= k < l && (#[trigger] history[k]).tape != 0;
            let typed = |bits: nat|
                if e == 16 || e == 17 {
                    array::cast_code(32, e, array::cast_code(64, 32, bits))
                } else {
                    array::cast_code(64, e, bits)
                };
            let scale = typed(array::powf_code(64, array::full_code(d), 0xBFE0_0000_0000_0000nat));
            let square = |k: int|
                array::add_code(
                    e,
                    array::sum_code(
                        e,
                        true,
                        Seq::new(
                            d,
                            |i: int| array::powf_scalar_code(e, history[k].data[m * d + i], 2),
                        ),
                    ),
                    typed(0x3EE4_F8B5_88E3_68F1nat),
                );
            let inverse = |k: int|
                array::powf_code(e, square(k), typed(0xBFE0_0000_0000_0000nat));
            let cube = |k: int| array::powf_code(e, square(k), typed(0xBFF8_0000_0000_0000nat));
            let dot = |k: int|
                array::sum_code(
                    e,
                    true,
                    Seq::new(
                        d,
                        |i: int| array::mul_code(e, query.data[i], history[k].data[m * d + i]),
                    ),
                );
            let w = array::softmax_codes(
                e,
                recording,
                Seq::new(
                    l,
                    |k: int| array::mul_code(e, array::mul_code(e, dot(k), inverse(k)), scale),
                ),
            );
            let reach = |k: int|
                array::sum_code(
                    e,
                    true,
                    Seq::new(
                        d,
                        |i: int|
                            array::mul_code(e, d_out.data[m * d + i], history[k].data[m * d + i]),
                    ),
                );
            let mean = array::sum_code(
                e,
                false,
                Seq::new(l, |j: int| array::mul_code(e, w[j], reach(j))),
            );
            let slope = |k: int|
                array::mul_code(e, w[k], array::sub_code(e, reach(k), mean));
            let a = rowwise::codes(e, recording, d);
            let rows = rowwise::rows_at(history, m);
            let x = rows[layer];
            &&& x =~= Seq::new(d, |i: int| history[layer].data[m * d + i])
            &&& a.scale == scale
            &&& (a.inverse_root)(formula::norm_square(a, x)) == inverse(layer)
            &&& (a.inverse_cube)(formula::norm_square(a, x)) == cube(layer)
            &&& formula::dot(a, query.data, x) == dot(layer)
            &&& formula::gradient_weights(a, query.data, rows) == w
            &&& formula::score_gradient(a, query.data, rows, rowwise::row(d_out, m), layer)
                == slope(layer)
        }),
{
    let e = query.element;
    let l = history.len();
    let recording = query.tape != 0 || exists|k: int|
        0 <= k < l && (#[trigger] history[k]).tape != 0;
    let typed = |bits: nat|
        if e == 16 || e == 17 {
            array::cast_code(32, e, array::cast_code(64, 32, bits))
        } else {
            array::cast_code(64, e, bits)
        };
    let scale = typed(array::powf_code(64, array::full_code(d), 0xBFE0_0000_0000_0000nat));
    let square = |k: int|
        array::add_code(
            e,
            array::sum_code(
                e,
                true,
                Seq::new(
                    d,
                    |i: int| array::powf_scalar_code(e, history[k].data[m * d + i], 2),
                ),
            ),
            typed(0x3EE4_F8B5_88E3_68F1nat),
        );
    let inverse = |k: int|
        array::powf_code(e, square(k), typed(0xBFE0_0000_0000_0000nat));
    let cube = |k: int| array::powf_code(e, square(k), typed(0xBFF8_0000_0000_0000nat));
    let dot = |k: int|
        array::sum_code(
            e,
            true,
            Seq::new(
                d,
                |i: int| array::mul_code(e, query.data[i], history[k].data[m * d + i]),
            ),
        );
    let w = array::softmax_codes(
        e,
        recording,
        Seq::new(
            l,
            |k: int| array::mul_code(e, array::mul_code(e, dot(k), inverse(k)), scale),
        ),
    );
    let reach = |k: int|
        array::sum_code(
            e,
            true,
            Seq::new(
                d,
                |i: int|
                    array::mul_code(e, d_out.data[m * d + i], history[k].data[m * d + i]),
            ),
        );
    let mean = array::sum_code(
        e,
        false,
        Seq::new(l, |j: int| array::mul_code(e, w[j], reach(j))),
    );
    let slope = |k: int|
        array::mul_code(e, w[k], array::sub_code(e, reach(k), mean));
    let outer = seq![b, t];
    let a = rowwise::codes(e, recording, d);
    let rows = rowwise::rows_at(history, m);
    let g = rowwise::row(d_out, m);
    lemma_layout(d_out, b, t, d);
    lemma_row(d_out, outer, m);
    assert forall|k: int| 0 <= k < l implies (#[trigger] rows[k]) =~= Seq::new(
        d,
        |i: int| history[k].data[m * d + i],
    ) && (a.inverse_root)(formula::norm_square(a, rows[k])) == inverse(k) && (a.inverse_cube)(
        formula::norm_square(a, rows[k]),
    ) == cube(k) && formula::dot(a, query.data, rows[k]) == dot(k) && formula::dot(a, g, rows[k])
        == reach(k) by {
        assert(history[k].shape == seq![b, t, d]);
        lemma_layout(history[k], b, t, d);
        lemma_row(history[k], outer, m);
        let r = rows[k];
        assert(r =~= Seq::new(d, |i: int| history[k].data[m * d + i]));
        assert(Seq::new(r.len(), |i: int| (a.square)(r[i])) =~= Seq::new(
            d,
            |i: int| array::powf_scalar_code(e, history[k].data[m * d + i], 2),
        ));
        assert(formula::norm_square(a, r) == square(k));
        assert(Seq::new(r.len(), |i: int| (a.times)(query.data[i], r[i])) =~= Seq::new(
            d,
            |i: int| array::mul_code(e, query.data[i], history[k].data[m * d + i]),
        ));
        assert(Seq::new(r.len(), |i: int| (a.times)(g[i], r[i])) =~= Seq::new(
            d,
            |i: int| array::mul_code(e, d_out.data[m * d + i], history[k].data[m * d + i]),
        ));
    }
    let scores = Seq::new(
        l,
        |k: int| array::mul_code(e, array::mul_code(e, dot(k), inverse(k)), scale),
    );
    let own = Seq::new(rows.len(), |k: int| formula::gradient_score(a, query.data, rows[k]));
    assert forall|k: int| 0 <= k < l implies #[trigger] own[k] == scores[k] by {
        assert(rows[k].len() == d);
        assert(formula::dot(a, query.data, rows[k]) == dot(k));
    }
    assert(own =~= scores);
    let all = formula::gradient_weights(a, query.data, rows);
    assert(all == w);
    let terms = Seq::new(rows.len(), |j: int| (a.times)(all[j], formula::dot(a, g, rows[j])));
    let plain = Seq::new(l, |j: int| array::mul_code(e, w[j], reach(j)));
    assert forall|j: int| 0 <= j < l implies #[trigger] terms[j] == plain[j] by {
        assert(rows[j].len() == d);
        assert(formula::dot(a, g, rows[j]) == reach(j));
    }
    assert(terms =~= plain);
    assert(rows[layer].len() == d);
}

/// What one layer adds to the gradient of the query at one position: the gradient of its
/// score times the layer over its norm, scaled.
proof fn lemma_query_part(
    history: Seq<Array>,
    query: Array,
    d_out: Array,
    b: nat,
    t: nat,
    d: nat,
    layer: nat,
    m: nat,
    c: nat,
)
    requires
        history.len() > 0,
        query.shape == seq![d],
        query.data.len() == d,
        forall|k: int|
            0 <= k < history.len() ==> (#[trigger] history[k]).shape == seq![b, t, d]
                && history[k].data.len() == b * t * d && history[k].element == query.element,
        d_out.shape == seq![b, t, d],
        d_out.data.len() == b * t * d,
        d_out.element == query.element,
        layer < history.len(),
        m < b * t,
        c < d,
    ensures
        ({
            let e = query.element;
            let l = history.len();
            let recording = query.tape != 0 || exists|k: int|
                0 <= k < l && (#[trigger] history[k]).tape != 0;
            let typed = |bits: nat|
                if e == 16 || e == 17 {
                    array::cast_code(32, e, array::cast_code(64, 32, bits))
                } else {
                    array::cast_code(64, e, bits)
                };
            let scale = typed(array::powf_code(64, array::full_code(d), 0xBFE0_0000_0000_0000nat));
            let square = |k: int|
                array::add_code(
                    e,
                    array::sum_code(
                        e,
                        true,
                        Seq::new(
                            d,
                            |i: int| array::powf_scalar_code(e, history[k].data[m * d + i], 2),
                        ),
                    ),
                    typed(0x3EE4_F8B5_88E3_68F1nat),
                );
            let inverse = |k: int|
                array::powf_code(e, square(k), typed(0xBFE0_0000_0000_0000nat));
            let cube = |k: int| array::powf_code(e, square(k), typed(0xBFF8_0000_0000_0000nat));
            let dot = |k: int|
                array::sum_code(
                    e,
                    true,
                    Seq::new(
                        d,
                        |i: int| array::mul_code(e, query.data[i], history[k].data[m * d + i]),
                    ),
                );
            let w = array::softmax_codes(
                e,
                recording,
                Seq::new(
                    l,
                    |k: int| array::mul_code(e, array::mul_code(e, dot(k), inverse(k)), scale),
                ),
            );
            let reach = |k: int|
                array::sum_code(
                    e,
                    true,
                    Seq::new(
                        d,
                        |i: int|
                            array::mul_code(e, d_out.data[m * d + i], history[k].data[m * d + i]),
                    ),
                );
            let mean = array::sum_code(
                e,
                false,
                Seq::new(l, |j: int| array::mul_code(e, w[j], reach(j))),
            );
            let slope = |k: int|
                array::mul_code(e, w[k], array::sub_code(e, reach(k), mean));
            let k = layer as int;
            let h = depth::stacked(history);
            let ds = backward::score_gradient(
                gradient::weights(query, history, d),
                backward::weight_gradient(h, array::with_axis(d_out, 0)),
            );
            backward::query_parts(h, ds).data[((layer * (b * t) + m) * d + c) as int]
                == array::mul_code(
                e,
                array::mul_code(
                    e,
                    array::mul_code(e, slope(k), history[k].data[(m * d + c) as int]),
                    inverse(k),
                ),
                scale,
            )
        }),
{
    let e = query.element;
    let l = history.len();
    let recording = query.tape != 0 || exists|k: int|
        0 <= k < l && (#[trigger] history[k]).tape != 0;
    let typed = |bits: nat|
        if e == 16 || e == 17 {
            array::cast_code(32, e, array::cast_code(64, 32, bits))
        } else {
            array::cast_code(64, e, bits)
        };
    let scale = typed(array::powf_code(64, array::full_code(d), 0xBFE0_0000_0000_0000nat));
    let square = |k: int|
        array::add_code(
            e,
            array::sum_code(
                e,
                true,
                Seq::new(
                    d,
                    |i: int| array::powf_scalar_code(e, history[k].data[m * d + i], 2),
                ),
            ),
            typed(0x3EE4_F8B5_88E3_68F1nat),
        );
    let inverse = |k: int|
        array::powf_code(e, square(k), typed(0xBFE0_0000_0000_0000nat));
    let cube = |k: int| array::powf_code(e, square(k), typed(0xBFF8_0000_0000_0000nat));
    let dot = |k: int|
        array::sum_code(
            e,
            true,
            Seq::new(
                d,
                |i: int| array::mul_code(e, query.data[i], history[k].data[m * d + i]),
            ),
        );
    let w = array::softmax_codes(
        e,
        recording,
        Seq::new(
            l,
            |k: int| array::mul_code(e, array::mul_code(e, dot(k), inverse(k)), scale),
        ),
    );
    let reach = |k: int|
        array::sum_code(
            e,
            true,
            Seq::new(
                d,
                |i: int|
                    array::mul_code(e, d_out.data[m * d + i], history[k].data[m * d + i]),
            ),
        );
    let mean = array::sum_code(
        e,
        false,
        Seq::new(l, |j: int| array::mul_code(e, w[j], reach(j))),
    );
    let slope = |k: int|
        array::mul_code(e, w[k], array::sub_code(e, reach(k), mean));
    let outer = seq![b, t];
    let k = layer as int;
    lemma_layers(query, history, b, t, d);
    lemma_layout(d_out, b, t, d);
    assert(history[k].shape == seq![b, t, d]);
    lemma_layout(history[k], b, t, d);
    gradient::lemma_gradients(query, history, d_out, outer, d);
    let h = depth::stacked(history);
    let ds = backward::score_gradient(
        gradient::weights(query, history, d),
        backward::weight_gradient(h, array::with_axis(d_out, 0)),
    );
    let parts = backward::query_parts(h, ds);
    let axes = locality::stack_axes(l, outer);
    locality::lemma_stack_volume(l, outer, d);
    locality::lemma_layer(l, b * t, d, layer, m, c);
    lemma_row(parts, axes, layer * (b * t) + m);
    let taped = gradient::weights(query, history, d).tape != 0;
    lemma_gradient_tape(history, query, d);
    lemma_gradient_parts(history, query, d_out, b, t, d, m, k);
    let a = rowwise::codes(e, taped, d);
    let rows = rowwise::rows_at(history, m);
    assert(gradient::stack_row(parts, outer, layer, m) == formula::query_gradient(
        a,
        query.data,
        rows,
        rowwise::row(d_out, m),
        k,
    ));
    assert(rows[k][c as int] == history[k].data[(m * d + c) as int]);
    let at = layer * (b * t) + m;
    assert(rowwise::row(parts, at)[c as int] == parts.data[at * d + c as int]);
    assert(gradient::stack_row(parts, outer, layer, m) == rowwise::row(parts, at));
    assert(rows[k].len() == d);
}

/// The gradient of the query, whatever the number of columns: every column is the sum over
/// all positions and all layers of the gradient of the layer's score times the layer's
/// element over the layer's norm, scaled. The sums run over the layers first, then over
/// the first axis of the layers, then over the second.
pub proof fn lemma_query_gradient(
    history: Seq<Array>,
    query: Array,
    d_out: Array,
    b: nat,
    t: nat,
    d: nat,
    c: nat,
)
    requires
        history.len() > 0,
        query.shape == seq![d],
        query.data.len() == d,
        forall|k: int|
            0 <= k < history.len() ==> (#[trigger] history[k]).shape == seq![b, t, d]
                && history[k].data.len() == b * t * d && history[k].element == query.element,
        d_out.shape == seq![b, t, d],
        d_out.data.len() == b * t * d,
        d_out.element == query.element,
        c < d,
    ensures
        ({
            let part = |k: int, m: int|
                {
                    let e = query.element;
                    let l = history.len();
                    let recording = query.tape != 0 || exists|k: int|
                        0 <= k < l && (#[trigger] history[k]).tape != 0;
                    let typed = |bits: nat|
                        if e == 16 || e == 17 {
                            array::cast_code(32, e, array::cast_code(64, 32, bits))
                        } else {
                            array::cast_code(64, e, bits)
                        };
                    let scale = typed(array::powf_code(64, array::full_code(d), 0xBFE0_0000_0000_0000nat));
                    let square = |k: int|
                        array::add_code(
                            e,
                            array::sum_code(
                                e,
                                true,
                                Seq::new(
                                    d,
                                    |i: int| array::powf_scalar_code(e, history[k].data[m * d + i], 2),
                                ),
                            ),
                            typed(0x3EE4_F8B5_88E3_68F1nat),
                        );
                    let inverse = |k: int|
                        array::powf_code(e, square(k), typed(0xBFE0_0000_0000_0000nat));
                    let cube = |k: int| array::powf_code(e, square(k), typed(0xBFF8_0000_0000_0000nat));
                    let dot = |k: int|
                        array::sum_code(
                            e,
                            true,
                            Seq::new(
                                d,
                                |i: int| array::mul_code(e, query.data[i], history[k].data[m * d + i]),
                            ),
                        );
                    let w = array::softmax_codes(
                        e,
                        recording,
                        Seq::new(
                            l,
                            |k: int| array::mul_code(e, array::mul_code(e, dot(k), inverse(k)), scale),
                        ),
                    );
                    let reach = |k: int|
                        array::sum_code(
                            e,
                            true,
                            Seq::new(
                                d,
                                |i: int|
                                    array::mul_code(e, d_out.data[m * d + i], history[k].data[m * d + i]),
                            ),
                        );
                    let mean = array::sum_code(
                        e,
                        false,
                        Seq::new(l, |j: int| array::mul_code(e, w[j], reach(j))),
                    );
                    let slope = |k: int|
                        array::mul_code(e, w[k], array::sub_code(e, reach(k), mean));
                    array::mul_code(
                        e,
                        array::mul_code(
                            e,
                            array::mul_code(e, slope(k), history[k].data[m * d + c]),
                            inverse(k),
                        ),
                        scale,
                    )
                };
            let e = query.element;
            backward::gradients(history, query, d_out).1.data[c as int] == array::sum_code(
                e,
                false,
                Seq::new(
                    t,
                    |j: int|
                        array::sum_code(
                            e,
                            false,
                            Seq::new(
                                b,
                                |i: int|
                                    array::sum_code(
                                        e,
                                        false,
                                        Seq::new(
                                            history.len(),
                                            |k: int| part(k, i * t + j),
                                        ),
                                    ),
                            ),
                        ),
                ),
            )
        }),
{
    let part = |k: int, m: int|
        {
            let e = query.element;
            let l = history.len();
            let recording = query.tape != 0 || exists|k: int|
                0 <= k < l && (#[trigger] history[k]).tape != 0;
            let typed = |bits: nat|
                if e == 16 || e == 17 {
                    array::cast_code(32, e, array::cast_code(64, 32, bits))
                } else {
                    array::cast_code(64, e, bits)
                };
            let scale = typed(array::powf_code(64, array::full_code(d), 0xBFE0_0000_0000_0000nat));
            let square = |k: int|
                array::add_code(
                    e,
                    array::sum_code(
                        e,
                        true,
                        Seq::new(
                            d,
                            |i: int| array::powf_scalar_code(e, history[k].data[m * d + i], 2),
                        ),
                    ),
                    typed(0x3EE4_F8B5_88E3_68F1nat),
                );
            let inverse = |k: int|
                array::powf_code(e, square(k), typed(0xBFE0_0000_0000_0000nat));
            let cube = |k: int| array::powf_code(e, square(k), typed(0xBFF8_0000_0000_0000nat));
            let dot = |k: int|
                array::sum_code(
                    e,
                    true,
                    Seq::new(
                        d,
                        |i: int| array::mul_code(e, query.data[i], history[k].data[m * d + i]),
                    ),
                );
            let w = array::softmax_codes(
                e,
                recording,
                Seq::new(
                    l,
                    |k: int| array::mul_code(e, array::mul_code(e, dot(k), inverse(k)), scale),
                ),
            );
            let reach = |k: int|
                array::sum_code(
                    e,
                    true,
                    Seq::new(
                        d,
                        |i: int|
                            array::mul_code(e, d_out.data[m * d + i], history[k].data[m * d + i]),
                    ),
                );
            let mean = array::sum_code(
                e,
                false,
                Seq::new(l, |j: int| array::mul_code(e, w[j], reach(j))),
            );
            let slope = |k: int|
                array::mul_code(e, w[k], array::sub_code(e, reach(k), mean));
            array::mul_code(
                e,
                array::mul_code(
                    e,
                    array::mul_code(e, slope(k), history[k].data[m * d + c]),
                    inverse(k),
                ),
                scale,
            )
        };
    let e = query.element;
    let l = history.len();
    let outer = seq![b, t];
    lemma_layers(query, history, b, t, d);
    lemma_layout(d_out, b, t, d);
    gradient::lemma_query_gradient(query, history, d_out, outer, d, c as int);
    gradient::lemma_gradients(query, history, d_out, outer, d);
    let h = depth::stacked(history);
    let ds = backward::score_gradient(
        gradient::weights(query, history, d),
        backward::weight_gradient(h, array::with_axis(d_out, 0)),
    );
    let parts = backward::query_parts(h, ds);
    let axes = locality::stack_axes(l, outer);
    locality::lemma_stack_volume(l, outer, d);
    assert forall|k: int, i: int, j: int|
        0 <= k < l && 0 <= i < b && 0 <= j < t implies #[trigger] gradient::stack_row(
        parts,
        outer,
        k as nat,
        (i * t + j) as nat,
    )[c as int] == part(k, i * t + j) by {
        assert(0 <= i * t + j < b * t) by (nonlinear_arith)
            requires
                0 <= i,
                i + 1 <= b,
                0 <= j < t,
        ;
        let m = (i * t + j) as nat;
        locality::lemma_layer(l, b * t, d, k as nat, m, c);
        lemma_row(parts, axes, (k as nat) * (b * t) + m);
        lemma_query_part(history, query, d_out, b, t, d, k as nat, m, c);
    }
    let inner = |i: int, j: int|
        array::sum_code(
            e,
            false,
            Seq::new(
                l,
                |k: int|
                    gradient::stack_row(parts, outer, k as nat, (i * t + j) as nat)[c as int],
            ),
        );
    let sums = |i: int, j: int|
        array::sum_code(e, false, Seq::new(l, |k: int| part(k, i * t + j)));
    assert forall|i: int, j: int| 0 <= i < b && 0 <= j < t implies #[trigger] inner(i, j) == sums(
        i,
        j,
    ) by {
        assert(Seq::new(
            l,
            |k: int| gradient::stack_row(parts, outer, k as nat, (i * t + j) as nat)[c as int],
        ) =~= Seq::new(l, |k: int| part(k, i * t + j)));
    }
    let columns = Seq::new(
        t,
        |j: int|
            array::sum_code(
                e,
                false,
                Seq::new(
                    b,
                    |i: int| array::sum_code(e, false, Seq::new(l, |k: int| part(k, i * t + j))),
                ),
            ),
    );
    let own = Seq::new(
        outer[1],
        |j: int|
            array::sum_code(
                e,
                false,
                Seq::new(
                    outer[0],
                    |i: int|
                        array::sum_code(
                            e,
                            false,
                            Seq::new(
                                l,
                                |k: int|
                                    gradient::stack_row(
                                        parts,
                                        outer,
                                        k as nat,
                                        (i * outer[1] + j) as nat,
                                    )[c as int],
                            ),
                        ),
                ),
            ),
    );
    assert forall|j: int| 0 <= j < t implies #[trigger] own[j] == columns[j] by {
        let x = Seq::new(
            outer[0],
            |i: int|
                array::sum_code(
                    e,
                    false,
                    Seq::new(
                        l,
                        |k: int|
                            gradient::stack_row(
                                parts,
                                outer,
                                k as nat,
                                (i * outer[1] + j) as nat,
                            )[c as int],
                    ),
                ),
        );
        let y = Seq::new(
            b,
            |i: int| array::sum_code(e, false, Seq::new(l, |k: int| part(k, i * t + j))),
        );
        assert forall|i: int| 0 <= i < b implies #[trigger] x[i] == y[i] by {
            assert(inner(i, j) == sums(i, j));
        }
        assert(x =~= y);
    }
    assert(own =~= columns);
}

// ---- the fused path ----

/// The arithmetic of an element type, operation by operation. None of it depends on the
/// number of columns but the scale, and none of it on the recording of gradients but the
/// softmax and, in half precision, the comparison with the least divisor.
pub proof fn lemma_arithmetic(element: nat, recording: bool, d: nat)
    ensures
        ({
            let a = rowwise::codes(element, recording, d);
            let e = element;
            let typed = |bits: nat|
                if e == 16 || e == 17 {
                    array::cast_code(32, e, array::cast_code(64, 32, bits))
                } else {
                    array::cast_code(64, e, bits)
                };
            &&& forall|x: nat, y: nat| #[trigger] (a.plus)(x, y) == array::add_code(e, x, y)
            &&& forall|x: nat, y: nat| #[trigger] (a.minus)(x, y) == array::sub_code(e, x, y)
            &&& forall|x: nat, y: nat| #[trigger] (a.times)(x, y) == array::mul_code(e, x, y)
            &&& forall|x: nat, y: nat| #[trigger] (a.over)(x, y) == array::div_code(e, x, y)
            &&& forall|x: nat, y: nat|
                (#[trigger] (a.larger)(x, y)) == (if array::below(e, x, y) {
                    y
                } else {
                    x
                })
            &&& forall|x: nat| #[trigger] (a.square)(x) == array::powf_scalar_code(e, x, 2)
            &&& forall|x: nat| #[trigger] (a.root)(x) == array::sqrt_code(e, x)
            &&& forall|x: nat| #[trigger]
                (a.inverse_root)(x) == array::powf_code(e, x, typed(0xBFE0_0000_0000_0000nat))
            &&& forall|x: nat| #[trigger]
                (a.inverse_cube)(x) == array::powf_code(e, x, typed(0xBFF8_0000_0000_0000nat))
            &&& forall|x: nat| #[trigger] (a.exp)(x) == array::exp_code(e, x)
            &&& forall|x: nat| #[trigger] (a.magnitude)(x) == array::magnitude_code(e, x)
            &&& forall|x: nat| #[trigger] (a.halved)(x) == array::div_scalar_code(e, x, 2)
            &&& forall|x: nat|
                (#[trigger] (a.bounded)(x)) == (if (e == 16 || e == 17) && !recording {
                    let b = array::cast_code(64, 32, 0x3D71_9799_812D_EA11nat);
                    let s = array::cast_code(e, 32, x);
                    array::cast_code(
                        32,
                        e,
                        if array::below(32, s, b) {
                            b
                        } else {
                            s
                        },
                    )
                } else {
                    let b = array::cast_code(64, e, 0x3D71_9799_812D_EA11nat);
                    if array::below(e, x, b) {
                        b
                    } else {
                        x
                    }
                })
            &&& forall|s: Seq<nat>| #[trigger] (a.sum_columns)(s) == array::sum_code(e, true, s)
            &&& forall|s: Seq<nat>| #[trigger] (a.sum_layers)(s) == array::sum_code(e, false, s)
            &&& forall|s: Seq<nat>| #[trigger]
                (a.softmax)(s) == array::softmax_codes(e, recording, s)
            &&& a.zero == 0
            &&& a.one == (if e == 64 {
                0x3FF0_0000_0000_0000nat
            } else if e == 32 {
                0x3F80_0000nat
            } else if e == 16 {
                0x3C00nat
            } else {
                0x3F80nat
            })
            &&& a.epsilon == typed(0x3EE4_F8B5_88E3_68F1nat)
            &&& a.scale == typed(
                array::powf_code(64, array::full_code(d), 0xBFE0_0000_0000_0000nat),
            )
            &&& a.floor == typed(0xC7EC_363C_C000_0000nat)
        }),
{
}

/// Depth attention in chunks, whatever the number of layers: at every position the result
/// is what attention over chunks gives, for chunks that hold the rows of all layers, each
/// of them once, in the order of the layers.
pub proof fn lemma_fused_depth(
    history: Seq<Array>,
    query: Array,
    b: nat,
    t: nat,
    d: nat,
    m: nat,
)
    requires
        0 < history.len() <= usize::MAX,
        d > 0,
        array::supported(query.element),
        query.shape == seq![d],
        query.data.len() == d,
        query.tape == 0,
        forall|k: int|
            0 <= k < history.len() ==> (#[trigger] history[k]).shape == seq![b, t, d]
                && history[k].data.len() == b * t * d && history[k].element == query.element
                && history[k].device == query.device && history[k].tape == 0,
        m < b * t,
    ensures
        exists|chunks: Seq<Seq<Seq<nat>>>|
            {
                let a = rowwise::codes(query.element, false, d);
                &&& #[trigger] formula::joined(chunks) == Seq::new(
                    history.len(),
                    |k: int| Seq::new(d, |c: int| history[k].data[m * d + c]),
                )
                &&& Seq::new(
                    d,
                    |c: int| fused::fused_depth(query, history).data[m * d + c],
                ) == formula::attended(a, formula::over_chunks(a, query.data, chunks))
                &&& 8 * (chunks.len() - 1) < history.len() <= 8 * chunks.len()
                &&& forall|i: int|
                    0 <= i < chunks.len() - 1 ==> (#[trigger] chunks[i]).len() == 8
            },
{
    let outer = seq![b, t];
    let l = history.len();
    let e = query.element;
    let n = launch::chunk_count(l);
    let a = rowwise::codes(e, false, d);
    lemma_layers(query, history, b, t, d);
    assert(history[0].shape == seq![b, t, d]);
    lemma_layout(history[0], b, t, d);
    let p = array::Place { device: query.device, element: e, tape: 0 };
    assert(depth::aligned(query, history, p)) by {
        assert forall|k: int| 0 <= k < l implies (#[trigger] history[k]).shape == history[0].shape
            && array::kept_at(history[k], p) by {
            assert(history[k].shape == seq![b, t, d]);
        }
    }
    fused::lemma_over_chunks_fits(query, history, n, p);
    rowwise::lemma_over_chunks(query, history, n, outer, d, false);
    let o = fused::over_chunks(query, history, n);
    assert(o.sum_exp.tape == 0);
    rowwise::lemma_attended(o, outer, d, e);
    let z = fused::fused_depth(query, history);
    assert(z == online::attended(o));
    lemma_row(z, outer, m);
    let chunks = rowwise::chunks_at(history, n, m);
    rowwise::lemma_chunks_cover(history, m);
    let rows = rowwise::rows_at(history, m);
    let plain = Seq::new(l, |k: int| Seq::new(d, |c: int| history[k].data[m * d + c]));
    assert forall|k: int| 0 <= k < l implies #[trigger] rows[k] == plain[k] by {
        assert(history[k].shape == seq![b, t, d]);
        lemma_layout(history[k], b, t, d);
        lemma_row(history[k], outer, m);
        assert(rows[k] =~= plain[k]);
    }
    assert(rows =~= plain);
    assert(rowwise::state(o, m) == formula::over_chunks(a, query.data, chunks));
    assert(rowwise::row(z, m) =~= Seq::new(d, |c: int| z.data[m * d + c]));
    assert(formula::joined(chunks) == plain);
    launch::lemma_chunk_count(l);
    assert forall|i: int| 0 <= i < n - 1 implies (#[trigger] chunks[i]).len() == 8 by {
        chunks::lemma_chunk_sizes(l, i as nat);
        launch::lemma_chunks_in_order(l, i as nat);
    }
    chunks::lemma_chunk_sizes(l, 0);
    assert(Seq::new(d, |c: int| z.data[m * d + c]) == formula::attended(
        a,
        formula::over_chunks(a, query.data, chunks),
    ));
}

/// The rows of chunks, one chunk after the other.
pub proof fn lemma_joined<T>(chunks: Seq<Seq<Seq<T>>>, chunk: Seq<Seq<T>>)
    ensures
        formula::joined(Seq::<Seq<Seq<T>>>::empty()) == Seq::<Seq<T>>::empty(),
        formula::joined(chunks.push(chunk)) == formula::joined(chunks) + chunk,
{
    assert(chunks.push(chunk).drop_last() =~= chunks);
}

} // verus!
