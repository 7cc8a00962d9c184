//! Attention over depth: the weighted sum of the outputs of all layers so far.
//!
//! ```text
//! scores[i] = query . norm(h_i) / sqrt(d)
//! weights   = softmax(scores)
//! out       = sum_i weights[i] * h_i
//! ```
use vstd::prelude::*;
use burn::tensor::Device;

use crate::array;
use crate::array::{Array, Place};
use crate::place;
use crate::place::Meeting;
use crate::score;
use crate::tensor;
use crate::tensor::Tensor;

verus! {

/// Every array is kept at `p`.
pub open spec fn all_kept(s: Seq<Array>, p: Place) -> bool {
    forall|i: int| 0 <= i < s.len() ==> array::kept_at(#[trigger] s[i], p)
}

/// The arrays are of one `[b, t, d]` shape without an empty axis, and there is at
/// least one of them.
pub open spec fn layered(history: Seq<Array>) -> bool {
    &&& history.len() > 0
    &&& history[0].shape.len() == 3
    &&& array::positive(history[0].shape)
    &&& forall|i: int|
        0 <= i < history.len() ==> (#[trigger] history[i]).shape == history[0].shape
}

/// `[l, b, t, d]`: the layers one after the other along a new first axis.
pub open spec fn stacked(history: Seq<Array>) -> Array {
    array::concatenated(Seq::new(history.len(), |i: int| array::with_axis(history[i], 0)))
}

/// The weight of every layer at every position, as `[l, b, t, 1]`.
pub open spec fn depth_weights(history: Seq<Array>, query: Array) -> Array {
    array::softmax(
        score::scores_array(
            array::reshaped(query, seq![1, 1, 1, history[0].shape[2]]),
            stacked(history),
        ),
        0,
    )
}

/// The sum of the layers under their weights, as `[b, t, d]`.
pub open spec fn weighted_sum(history: Seq<Array>, query: Array) -> Array {
    array::reshaped(
        array::sum(array::times(stacked(history), depth_weights(history, query)), 0),
        history[0].shape,
    )
}

/// Depth attention; a single layer is its own result.
pub open spec fn depth(history: Seq<Array>, query: Array) -> Array {
    if history.len() == 1 {
        history[0]
    } else {
        weighted_sum(history, query)
    }
}

/// The layers and the query meet at `p`: at least one layer, all of one `[b, t, d]`
/// shape with `d` above zero, and a query of shape `[d]`.
pub open spec fn aligned(query: Array, history: Seq<Array>, p: Place) -> bool {
    &&& history.len() > 0
    &&& history[0].shape.len() == 3
    &&& history[0].shape[2] > 0
    &&& query.shape == seq![history[0].shape[2]]
    &&& array::kept_at(query, p)
    &&& forall|i: int|
        0 <= i < history.len() ==> (#[trigger] history[i]).shape == history[0].shape
            && array::kept_at(history[i], p)
}

/// The layers and the query meet at `p`, and no axis of the layers is empty.
pub open spec fn meets(history: Seq<Array>, query: Array, p: Place) -> bool {
    &&& aligned(query, history, p)
    &&& array::positive(history[0].shape)
}

/// Depth attention is defined for these layers and this query.
pub open spec fn attendable(history: Seq<Array>, query: Array) -> bool {
    history.len() == 1 || exists|p: Place| #[trigger] meets(history, query, p)
}

/// Gradient recording of arrays that are all kept at `p`.
pub proof fn lemma_joined_tape(parts: Seq<Array>, p: Place)
    requires
        all_kept(parts, p),
    ensures
        array::joined_tape(parts) == 0 || array::joined_tape(parts) == p.tape,
    decreases parts.len(),
{
    if parts.len() > 0 {
        assert forall|i: int| 0 <= i < parts.drop_last().len() implies array::kept_at(
            #[trigger] parts.drop_last()[i],
            p,
        ) by {
            assert(parts.drop_last()[i] == parts[i]);
        }
        lemma_joined_tape(parts.drop_last(), p);
        assert(array::kept_at(parts[parts.len() - 1], p));
    }
}

/// The stack of layers that are kept at `p` is kept at `p`, with the number of
/// layers as its first extent.
pub proof fn lemma_stacked(history: Seq<Array>, p: Place)
    requires
        layered(history),
        all_kept(history, p),
    ensures
        array::kept_at(stacked(history), p),
        stacked(history).shape == seq![
            history.len(),
            history[0].shape[0],
            history[0].shape[1],
            history[0].shape[2],
        ],
{
    let parts = Seq::new(history.len(), |i: int| array::with_axis(history[i], 0));
    assert forall|i: int| 0 <= i < parts.len() implies array::kept_at(#[trigger] parts[i], p) by {
        assert(array::kept_at(history[i], p));
    }
    lemma_joined_tape(parts, p);
    assert(array::kept_at(parts[0], p));
    assert(parts.len() * 1 == history.len());
    assert(stacked(history).shape =~= seq![
        history.len(),
        history[0].shape[0],
        history[0].shape[1],
        history[0].shape[2],
    ]);
}

/// A single layer attends to itself alone, whatever the query.
pub proof fn lemma_single_layer(h: Array, query: Array)
    ensures
        depth(seq![h], query) == h,
{
}

/// The result of depth attention has the shape of a layer, and the place of the
/// layers and the query; the weights have one entry per layer and position.
pub proof fn lemma_depth_kept(history: Seq<Array>, query: Array, p: Place)
    requires
        meets(history, query, p),
    ensures
        depth(history, query).shape == history[0].shape,
        array::kept_at(depth(history, query), p),
        depth_weights(history, query).shape == seq![
            history.len(),
            history[0].shape[0],
            history[0].shape[1],
            1,
        ],
{
    assert(array::kept_at(history[0], p));
    assert(all_kept(history, p));
    lemma_stacked(history, p);
    let h = stacked(history);
    let q = array::reshaped(query, seq![1, 1, 1, history[0].shape[2]]);
    let norm = score::normalized_array(h, 3);
    assert(norm.shape =~= h.shape);
    assert(array::times(q, norm).shape =~= h.shape);
    assert(depth_weights(history, query).shape =~= seq![
        history.len(),
        history[0].shape[0],
        history[0].shape[1],
        1,
    ]);
}

/// The layers one after the other along a new first axis.
pub fn stack_ad(history: &[Tensor<3>]) -> (r: Tensor<4>)
    requires
        layered(tensor::views(history@)),
        exists|p: Place| all_kept(tensor::views(history@), p),
    ensures
        r@ == stacked(tensor::views(history@)),
{
    let ghost layers = tensor::views(history@);
    let ghost p = choose|p: Place| all_kept(layers, p);
    let mut parts: Vec<Tensor<4>> = Vec::new();
    let n = history.len();
    let mut i: usize = 0;
    while i < n
        invariant
            n == history.len(),
            i <= n,
            parts.len() == i,
            layers == tensor::views(history@),
            layered(layers),
            all_kept(layers, p),
            forall|j: int|
                0 <= j < i ==> (#[trigger] parts[j])@ == array::with_axis(layers[j], 0),
        decreases n - i,
    {
        assert(array::kept_at(layers[i as int], p));
        assert(layers[i as int].shape == layers[0].shape);
        parts.push(history[i].clone().with_axis::<4>(0));
        i += 1;
    }
    assert forall|j: int| 0 <= j < parts.len() implies array::kept_at(
        (#[trigger] parts[j])@,
        p,
    ) by {
        assert(array::kept_at(layers[j], p));
    }
    assert(tensor::views(parts@) =~= Seq::new(
        layers.len(),
        |j: int| array::with_axis(layers[j], 0),
    ));
    Tensor::<4>::concatenate(parts)
}

/// Depth attention by the definition: stack, score, softmax, weighted sum.
pub fn depth_attend_tensor_ad(history: &[Tensor<3>], query: Tensor<1>) -> (r: Tensor<3>)
    requires
        exists|p: Place| meets(tensor::views(history@), query@, p),
    ensures
        r@ == weighted_sum(tensor::views(history@), query@),
        r@.shape == history[0]@.shape,
{
    let ghost layers = tensor::views(history@);
    let ghost p = choose|p: Place| meets(layers, query@, p);
    let dims = history[0].dims();
    let d = dims[2];
    proof {
        assert(layers[0] == history[0]@);
        lemma_stacked(layers, p);
        array::lemma_leading_ones(dims[0] as nat, dims[1] as nat, d as nat);
        assert(array::positive(layers[0].shape));
        assert(layers[0].shape[2] > 0);
    }
    assert(array::sizes(dims@) =~= seq![dims[0] as nat, dims[1] as nat, d as nat]);
    let stack = stack_ad(history);
    let flat = [1usize, 1usize, 1usize, d];
    assert(array::sizes(flat@) =~= seq![1nat, 1nat, 1nat, d as nat]);
    assert(array::unit_shape(3).push(d as nat) =~= seq![1nat, 1nat, 1nat, d as nat]);
    let weights = score::scores(query.reshape(flat), &stack, d).softmax(0);
    let total = stack.times(weights).sum(0);
    assert(total@.shape =~= seq![1nat, dims[0] as nat, dims[1] as nat, d as nat]);
    total.reshape(dims)
}

/// One array more is kept at `p` with the others.
proof fn lemma_all_kept(s: Seq<Array>, i: int, p: Place)
    requires
        0 <= i < s.len(),
    ensures
        all_kept(s.take(i + 1), p) <==> all_kept(s.take(i), p) && array::kept_at(s[i], p),
{
    let (before, upto) = (s.take(i), s.take(i + 1));
    assert(upto =~= before.push(s[i]));
    if all_kept(upto, p) {
        assert(array::kept_at(upto[i], p));
        assert forall|j: int| 0 <= j < i implies array::kept_at(#[trigger] before[j], p) by {
            assert(array::kept_at(upto[j], p));
        }
    }
}

/// The places at which the layers and the query meet, if there are any.
pub(crate) fn align(query: &Tensor<1>, history: &[Tensor<3>]) -> (r: Option<Meeting<1>>)
    ensures
        r is None ==> forall|p: Place| !aligned(query@, tensor::views(history@), p),
        r matches Some(m) ==> place::allows(m.place(), m.place()) && forall|p: Place|
            #![trigger aligned(query@, tensor::views(history@), p)]
            #![trigger place::allows(m.place(), p)]
            place::allows(m.place(), p) <==> aligned(query@, tensor::views(history@), p),
{
    let ghost layers = tensor::views(history@);
    let n = history.len();
    if n == 0 {
        return None;
    }
    assert(layers[0] == history[0]@);
    let dims = history[0].dims();
    assert(layers[0].shape[2] == dims[2]);
    let width = query.dims();
    assert(query@.shape =~= seq![width[0] as nat]);
    if dims[2] == 0 || width[0] != dims[2] {
        assert(query@.shape[0] == width[0]);
        return None;
    }
    let mut all = match Meeting::of(query) {
        Some(m) => m,
        None => {
            return None;
        },
    };
    let mut i: usize = 0;
    while i < n
        invariant
            n == history.len(),
            i <= n,
            layers == tensor::views(history@),
            place::allows(all.place(), all.place()),
            forall|j: int| 0 <= j < i ==> (#[trigger] layers[j]).shape == layers[0].shape,
            forall|p: Place| #[trigger]
                place::allows(all.place(), p) <==> array::kept_at(query@, p) && all_kept(
                    layers.take(i as int),
                    p,
                ),
        decreases n - i,
    {
        let ghost before = all.place();
        assert(layers[i as int] == history[i as int]@);
        if !history[i].same_shape(&history[0]) {
            assert(layers[i as int].shape != layers[0].shape);
            return None;
        }
        let met = all.join(&history[i]);
        proof {
            assert forall|p: Place| #[trigger]
                all_kept(layers.take(i + 1), p) <==> all_kept(layers.take(i as int), p)
                    && array::kept_at(layers[i as int], p) by {
                lemma_all_kept(layers, i as int, p);
            }
            if !met {
                assert forall|p: Place| !aligned(query@, layers, p) by {
                    if aligned(query@, layers, p) {
                        assert(all_kept(layers.take(i as int), p));
                        assert(place::allows(before, p));
                        assert(array::kept_at(layers[i as int], p));
                    }
                }
            }
        }
        if !met {
            return None;
        }
        i += 1;
    }
    assert(layers.take(n as int) =~= layers);
    assert forall|p: Place| place::allows(all.place(), p) <==> aligned(query@, layers, p) by {
        assert(place::allows(all.place(), p) <==> array::kept_at(query@, p) && all_kept(layers, p));
    }
    Some(all)
}

/// Whether the layers and the query meet: at least one layer, all of one `[b, t, d]`
/// shape with `d` above zero, a query of shape `[d]`, and all of them on one device,
/// of one element type, and recording gradients in one way if at all.
pub fn can_align(query: &Tensor<1>, history: &[Tensor<3>]) -> (r: bool)
    ensures
        r == exists|p: Place| #[trigger] aligned(query@, tensor::views(history@), p),
{
    match align(query, history) {
        Some(m) => {
            assert(aligned(query@, tensor::views(history@), m.place()));
            true
        },
        None => false,
    }
}

/// Whether the layers and the query meet, and no axis of the layers is empty.
pub fn can_mix(history: &[Tensor<3>], query: &Tensor<1>) -> (r: bool)
    ensures
        r == exists|p: Place| #[trigger] meets(tensor::views(history@), query@, p),
{
    let ghost layers = tensor::views(history@);
    if !can_align(query, history) {
        assert(forall|p: Place| meets(layers, query@, p) ==> aligned(query@, layers, p));
        return false;
    }
    let ghost p = choose|p: Place| aligned(query@, layers, p);
    let dims = history[0].dims();
    assert(layers[0].shape =~= seq![dims[0] as nat, dims[1] as nat, dims[2] as nat]);
    if dims[0] == 0 || dims[1] == 0 {
        assert(layers[0].shape[0] == 0 || layers[0].shape[1] == 0);
        return false;
    }
    assert(meets(layers, query@, p));
    true
}

/// Whether depth attention is defined for these layers and this query: a single
/// layer, or layers without an empty axis that meet with the query.
pub fn can_attend(history: &[Tensor<3>], query: &Tensor<1>) -> (r: bool)
    ensures
        r == attendable(tensor::views(history@), query@),
{
    history.len() == 1 || can_mix(history, query)
}

/// Attention over depth: softmax over the scores of all layers against the
/// query, then the sum of the layers under these weights. A single layer is
/// returned as it is.
///
/// `history` holds the outputs of the layers, each `[b, t, d]`; `query` is the
/// learned pseudo-query of shape `[d]`.
pub fn depth_attend(history: &[Tensor<3>], query: Tensor<1>) -> (r: Tensor<3>)
    requires
        attendable(tensor::views(history@), query@),
    ensures
        r@ == depth(tensor::views(history@), query@),
        r@.shape == history[0]@.shape,
{
    if history.len() == 1 {
        return history[0].clone();
    }
    depth_attend_tensor_ad(history, query)
}

/// Full attention residuals: a learned pseudo-query attends over all layers.
pub struct AttnRes {
    pub query: Tensor<1>,
}

impl AttnRes {
    /// The query starts at zero, which weighs all layers alike.
    pub fn new(d_model: usize, device: &Device) -> (r: Self)
        ensures
            tensor::zeros_on(r.query@, seq![d_model as nat], *device),
    {
        let shape = [d_model];
        assert(array::sizes(shape@) =~= seq![d_model as nat]);
        AttnRes { query: Tensor::<1>::zeros(shape, device) }
    }

    /// Attends over the outputs of all layers so far.
    pub fn forward(&self, history: &[Tensor<3>]) -> (r: Tensor<3>)
        requires
            attendable(tensor::views(history@), self.query@),
        ensures
            r@ == depth(tensor::views(history@), self.query@),
            r@.shape == history[0]@.shape,
    {
        depth_attend(history, self.query.clone())
    }
}

} // verus!
