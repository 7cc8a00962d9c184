//! Where results are kept: the shape, the device, the element type and the recording of
//! gradients of every result, from those of the operands.
use vstd::prelude::*;

use crate::array;
use crate::array::Array;
use crate::backward;
use crate::depth;
use crate::elements;
use crate::fused;
use crate::launch;
use crate::locality;
use crate::online;
use crate::online::Online;
use crate::positions;
use crate::score;
use crate::tensor;
use crate::tensor::{Precision, Tensor};

verus! {

/// The sum of two arrays of one shape, element by element.
pub proof fn lemma_plus(x: Array, y: Array)
    requires
        x.shape == y.shape,
    ensures
        array::plus(x, y).shape == x.shape,
        array::plus(x, y).device == x.device,
        array::plus(x, y).element == x.element,
        array::plus(x, y).tape == if x.tape == 0 {
            y.tape
        } else {
            x.tape
        },
        array::plus(x, y).data == Seq::new(
            array::volume(x.shape),
            |i: int| array::add_code(x.element, x.data[i], y.data[i]),
        ),
{
    let z = array::plus(x, y);
    assert(z.shape =~= x.shape);
    assert forall|i: int| 0 <= i < array::volume(x.shape) implies #[trigger] z.data[i]
        == array::add_code(x.element, x.data[i], y.data[i]) by {
        positions::lemma_origin_same(x.shape, i as nat);
    }
    assert(z.data =~= Seq::new(
        array::volume(x.shape),
        |i: int| array::add_code(x.element, x.data[i], y.data[i]),
    ));
}

/// A score has one entry for each position, and records gradients exactly if the query or
/// the source does.
pub proof fn lemma_score_keeps(query: Array, src: Array, b: nat, t: nat, d: nat)
    requires
        src.shape == seq![b, t, d],
        query.shape == seq![d],
    ensures
        score::score(query, src).shape == seq![b, t, 1],
        score::score(query, src).device == query.device,
        score::score(query, src).element == query.element,
        score::score(query, src).tape == if query.tape == 0 {
            src.tape
        } else {
            query.tape
        },
        fused::fused_score(query, src).shape == seq![b, t, 1],
        fused::fused_score(query, src).device == query.device,
        fused::fused_score(query, src).element == query.element,
        fused::fused_score(query, src).tape == if query.tape == 0 {
            src.tape
        } else {
            query.tape
        },
{
    assert(score::score(query, src).shape =~= seq![b, t, 1]);
    assert(fused::fused_score(query, src).shape =~= seq![b, t, 1]);
}

/// A merge keeps the shapes and the place, and each part of its result records gradients
/// exactly if something that it is made of does.
pub proof fn lemma_merge_keeps(o: Online, src: Array, s: Array, b: nat, t: nat, d: nat)
    requires
        o.max_score.shape == seq![b, t, 1],
        o.sum_exp.shape == seq![b, t, 1],
        o.acc.shape == seq![b, t, d],
        src.shape == seq![b, t, d],
        s.shape == seq![b, t, 1],
    ensures
        forall|r: Online|
            #![trigger r.acc]
            r == online::merge(o, src, s) || r == fused::fused_merge(o, src, s) ==> {
                &&& r.max_score.shape == seq![b, t, 1]
                &&& r.sum_exp.shape == seq![b, t, 1]
                &&& r.acc.shape == seq![b, t, d]
                &&& r.max_score.device == o.max_score.device
                &&& r.sum_exp.device == o.sum_exp.device
                &&& r.acc.device == o.acc.device
                &&& r.max_score.element == o.max_score.element
                &&& r.sum_exp.element == o.sum_exp.element
                &&& r.acc.element == o.acc.element
                &&& r.max_score.tape != 0 <==> o.max_score.tape != 0 || s.tape != 0
                &&& r.sum_exp.tape != 0 <==> o.sum_exp.tape != 0 || o.max_score.tape != 0 || s.tape
                    != 0
                &&& r.acc.tape != 0 <==> o.acc.tape != 0 || src.tape != 0 || o.max_score.tape != 0
                    || s.tape != 0
            },
{
    let p = online::merge(o, src, s);
    assert(p.max_score.shape =~= seq![b, t, 1]);
    assert(p.sum_exp.shape =~= seq![b, t, 1]);
    assert(p.acc.shape =~= seq![b, t, d]);
    let q = fused::fused_merge(o, src, s);
    assert(q.max_score.shape =~= seq![b, t, 1]);
    assert(q.sum_exp.shape =~= seq![b, t, 1]);
    assert(q.acc.shape =~= seq![b, t, d]);
}

/// The attended output is kept as the weighted sum is, and records gradients exactly if
/// the weighted sum or the sum of the weights does.
pub proof fn lemma_attended_keeps(o: Online, b: nat, t: nat, d: nat)
    requires
        o.sum_exp.shape == seq![b, t, 1],
        o.acc.shape == seq![b, t, d],
    ensures
        online::attended(o).shape == seq![b, t, d],
        online::attended(o).device == o.acc.device,
        online::attended(o).element == o.acc.element,
        online::attended(o).tape == if o.acc.tape == 0 {
            o.sum_exp.tape
        } else {
            o.acc.tape
        },
{
    assert(online::attended(o).shape =~= seq![b, t, d]);
}

/// Depth attention over a single layer is that layer, whatever its shape and the query.
pub proof fn lemma_single_layer(h: Array, query: Array)
    ensures
        depth::depth(seq![h], query) == h,
{
}

/// Depth attention is kept as the first layer is, and records gradients exactly if the
/// query or a layer does.
pub proof fn lemma_depth_keeps(history: Seq<Array>, query: Array)
    requires
        history.len() > 0,
    ensures
        ({
            let r = depth::weighted_sum(history, query);
            &&& r.shape == history[0].shape
            &&& r.device == history[0].device
            &&& r.element == history[0].element
            &&& r.tape != 0 <==> query.tape != 0 || exists|k: int|
                0 <= k < history.len() && (#[trigger] history[k]).tape != 0
        }),
        history.len() >= 2 ==> depth::depth(history, query) == depth::weighted_sum(history, query),
{
    elements::lemma_stack_tape(history);
}

/// The gradients of a layer and of the query have the shapes of a layer and of the query,
/// and record gradients exactly if something that they are made of does.
pub proof fn lemma_gradients_keep(
    history: Seq<Array>,
    query: Array,
    d_out: Array,
    b: nat,
    t: nat,
    d: nat,
    layer: nat,
)
    requires
        history.len() > 0,
        history[0].shape == seq![b, t, d],
        layer < history.len(),
        forall|k: int|
            0 <= k < history.len() ==> (#[trigger] history[k]).device == query.device
                && history[k].element == query.element,
        d_out.device == query.device,
        d_out.element == query.element,
    ensures
        ({
            let recording = query.tape != 0 || d_out.tape != 0 || exists|k: int|
                0 <= k < history.len() && (#[trigger] history[k]).tape != 0;
            let r = backward::layer_gradient(history, query, d_out, layer);
            let q = backward::gradients(history, query, d_out).1;
            &&& r.shape == seq![b, t, d]
            &&& r.device == query.device
            &&& r.element == query.element
            &&& r.tape != 0 <==> recording
            &&& q.shape == seq![d]
            &&& q.device == query.device
            &&& q.element == query.element
            &&& q.tape != 0 <==> recording
        }),
{
    elements::lemma_stack_tape(history);
    assert(depth::stacked(history).shape[3] == d);
}

/// On the fused path nothing records gradients, and depth attention is kept as the first
/// layer is.
pub proof fn lemma_fused_depth_keeps(history: Seq<Array>, query: Array, b: nat, t: nat, d: nat)
    requires
        0 < history.len() <= usize::MAX,
        d > 0,
        array::supported(query.element),
        query.shape == seq![d],
        query.tape == 0,
        forall|k: int|
            0 <= k < history.len() ==> (#[trigger] history[k]).shape == seq![b, t, d]
                && history[k].element == query.element && history[k].device == query.device
                && history[k].tape == 0,
    ensures
        fused::fused_depth(query, history).shape == seq![b, t, d],
        fused::fused_depth(query, history).device == query.device,
        fused::fused_depth(query, history).element == query.element,
        fused::fused_depth(query, history).tape == 0,
{
    let p = array::Place { device: query.device, element: query.element, tape: 0 };
    assert(depth::aligned(query, history, p));
    fused::lemma_over_chunks_fits(query, history, launch::chunk_count(history.len()), p);
    lemma_attended_keeps(
        fused::over_chunks(query, history, launch::chunk_count(history.len())),
        b,
        t,
        d,
    );
}

/// A stack holds every layer, in the order of the layers: the element at a position and a
/// column of the layer `k` of the stack is that element of the layer.
pub proof fn lemma_stacked(
    history: Seq<Array>,
    b: nat,
    t: nat,
    d: nat,
    k: nat,
    m: nat,
    c: nat,
)
    requires
        forall|i: int|
            0 <= i < history.len() ==> (#[trigger] history[i]).shape == seq![b, t, d]
                && history[i].data.len() == b * t * d,
        k < history.len(),
        m < b * t,
        c < d,
    ensures
        depth::stacked(history).shape == seq![history.len(), b, t, d],
        depth::stacked(history).data[((k * (b * t) + m) * d + c) as int]
            == history[k as int].data[(m * d + c) as int],
        depth::stacked(history).device == history[0].device,
        depth::stacked(history).element == history[0].element,
        depth::stacked(history).tape != 0 <==> exists|i: int|
            0 <= i < history.len() && (#[trigger] history[i]).tape != 0,
{
    let outer = seq![b, t];
    elements::lemma_stack_tape(history);
    assert forall|i: int| 0 <= i < history.len() implies positions::rows_on(
        #[trigger] history[i],
        outer,
    ) && history[i].shape.last() == d by {
        elements::lemma_layout(history[i], b, t, d);
    }
    assert(history[k as int].shape == seq![b, t, d]);
    elements::lemma_layout(history[k as int], b, t, d);
    locality::lemma_stack_elements(history, outer, d);
    assert(history[0].shape == seq![b, t, d]);
    assert(depth::stacked(history).shape =~= seq![history.len(), b, t, d]);
}

/// Layers can be stacked exactly if there is one, and all have one shape of three axes,
/// none of them empty.
pub proof fn lemma_layered(history: Seq<Array>)
    ensures
        depth::layered(history) <==> {
            &&& history.len() > 0
            &&& history[0].shape.len() == 3
            &&& history[0].shape[0] > 0
            &&& history[0].shape[1] > 0
            &&& history[0].shape[2] > 0
            &&& forall|i: int|
                0 <= i < history.len() ==> (#[trigger] history[i]).shape == history[0].shape
        },
{
    if history.len() > 0 && history[0].shape.len() == 3 {
        let s = history[0].shape;
        assert(array::positive(s) ==> s[0] > 0 && s[1] > 0 && s[2] > 0);
        if s[0] > 0 && s[1] > 0 && s[2] > 0 {
            assert forall|i: int| 0 <= i < s.len() implies #[trigger] s[i] > 0 by {
                assert(i == 0 || i == 1 || i == 2);
            }
        }
    }
}

/// The views of tensors are as many as the tensors, in their order.
pub proof fn lemma_views<const D: usize>(s: Seq<Tensor<D>>, i: int)
    requires
        0 <= i < s.len(),
    ensures
        tensor::views(s).len() == s.len(),
        tensor::views(s)[i] == s[i]@,
{
}

/// The numbers of the element types.
pub proof fn lemma_precision(p: Precision)
    ensures
        p is Double <==> p.code() == 64,
        p is Single <==> p.code() == 32,
        p is Half <==> p.code() == 16,
        p is Brain <==> p.code() == 17,
{
}

} // verus!
