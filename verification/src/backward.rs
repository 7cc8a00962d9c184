//! The gradient of depth attention.
//!
//! ```text
//! s_l  = sum(h_l^2) + 1e-5
//! d_w  = sum_d d_out * h_l
//! d_s  = w * (d_w - sum_l w * d_w)
//! d_h  = w * d_out + d_s * (query / sqrt(s_l) - h_l * (query . h_l) / s_l^(3/2)) / sqrt(d)
//! d_q  = sum_l d_s * h_l / sqrt(s_l) / sqrt(d)
//! ```
use vstd::prelude::*;

use crate::array;
use crate::array::{Array, Place};
use crate::depth;
use crate::place;
use crate::score;
use crate::tensor;
use crate::tensor::Tensor;

verus! {

/// -3/2, the exponent of the norm in the gradient.
pub const MINUS_THREE_HALVES: u64 = 0xBFF8_0000_0000_0000;

/// `s_l`, as `[l, b, t, 1]`.
pub open spec fn norm_square(h: Array) -> Array {
    let total = array::sum(array::power_int(h, 2), 3);
    array::plus(total, score::constant_array(score::EPSILON as nat, 4, total))
}

/// Each element to the power of the number with the bit pattern `bits`.
pub open spec fn raised(x: Array, bits: u64) -> Array {
    array::power(x, score::constant_array(bits as nat, 4, x))
}

/// `1 / sqrt(s_l)`.
pub open spec fn inverse_norm(h: Array) -> Array {
    raised(norm_square(h), score::MINUS_HALF)
}

/// `query . h_l`, as `[l, b, t, 1]`.
pub open spec fn dots(q: Array, h: Array) -> Array {
    array::sum(array::times(q, h), 3)
}

/// `1 / sqrt(d)`.
pub open spec fn scaling(h: Array) -> Array {
    score::scale_array(h.shape[3], 4, h)
}

/// `w`, as `[l, b, t]`.
pub open spec fn weights(q: Array, h: Array) -> Array {
    array::softmax(
        array::without_axis(
            array::times(array::times(dots(q, h), inverse_norm(h)), scaling(h)),
            3,
        ),
        0,
    )
}

/// `d_w`, as `[l, b, t]`.
pub open spec fn weight_gradient(h: Array, g: Array) -> Array {
    array::without_axis(array::sum(array::times(g, h), 3), 3)
}

/// `d_s`, as `[l, b, t, 1]`.
pub open spec fn score_gradient(w: Array, dw: Array) -> Array {
    array::with_axis(array::times(w, array::minus(dw, array::sum(array::times(w, dw), 0))), 3)
}

/// `d_h` of all layers, as `[l, b, t, d]`.
pub open spec fn stack_gradient(q: Array, h: Array, g: Array, w: Array, ds: Array) -> Array {
    let along_query = array::times(q, inverse_norm(h));
    let along_layer = array::times(
        array::times(h, dots(q, h)),
        raised(norm_square(h), MINUS_THREE_HALVES),
    );
    array::plus(
        array::times(array::with_axis(w, 3), g),
        array::times(array::times(ds, array::minus(along_query, along_layer)), scaling(h)),
    )
}

/// What every layer adds to `d_q` at every position, as `[l, b, t, d]`.
pub open spec fn query_parts(h: Array, ds: Array) -> Array {
    array::times(array::times(array::times(ds, h), inverse_norm(h)), scaling(h))
}

/// `d_q`, as `[d]`.
pub open spec fn query_gradient(h: Array, ds: Array) -> Array {
    array::reshaped(
        array::sum(array::sum(array::sum(query_parts(h, ds), 0), 1), 2),
        seq![h.shape[3]],
    )
}

/// The gradients of the layers, stacked, and of the query.
pub open spec fn gradients(history: Seq<Array>, query: Array, d_out: Array) -> (Array, Array) {
    let h = depth::stacked(history);
    let q = array::reshaped(query, seq![1, 1, 1, history[0].shape[2]]);
    let g = array::with_axis(d_out, 0);
    let w = weights(q, h);
    let ds = score_gradient(w, weight_gradient(h, g));
    (stack_gradient(q, h, g, w, ds), query_gradient(h, ds))
}

/// The gradient of the layer `i`.
pub open spec fn layer_gradient(
    history: Seq<Array>,
    query: Array,
    d_out: Array,
    i: nat,
) -> Array {
    array::reshaped(
        array::rows(gradients(history, query, d_out).0, i, i + 1),
        history[0].shape,
    )
}

/// The gradient of depth attention is defined: layers without an empty axis that
/// meet with the query, and a gradient of the shape of a layer that meets with them.
pub open spec fn differentiable(history: Seq<Array>, query: Array, d_out: Array) -> bool {
    &&& exists|p: Place| #[trigger]
        depth::meets(history, query, p) && array::kept_at(d_out, p)
    &&& d_out.shape == history[0].shape
}

/// Whether the gradient of depth attention is defined for these layers, this query
/// and this gradient of the result.
pub fn can_differentiate(history: &[Tensor<3>], query: &Tensor<1>, d_out: &Tensor<3>) -> (r: bool)
    ensures
        r == differentiable(tensor::views(history@), query@, d_out@),
{
    let ghost layers = tensor::views(history@);
    let mut all = match depth::align(query, history) {
        Some(m) => m,
        None => {
            assert(forall|p: Place|
                depth::meets(layers, query@, p) ==> depth::aligned(query@, layers, p));
            return false;
        },
    };
    assert(depth::aligned(query@, layers, all.place()));
    assert(layers[0] == history[0]@);
    let dims = history[0].dims();
    assert(layers[0].shape =~= seq![dims[0] as nat, dims[1] as nat, dims[2] as nat]);
    if dims[0] == 0 || dims[1] == 0 {
        assert(layers[0].shape[0] == 0 || layers[0].shape[1] == 0);
        return false;
    }
    if !d_out.same_shape(&history[0]) {
        return false;
    }
    let ghost before = all.place();
    let met = all.join(d_out);
    if met {
        assert(array::kept_at(d_out@, all.place()));
        assert(place::allows(before, all.place()));
        assert(depth::meets(layers, query@, all.place()));
    } else {
        assert forall|p: Place| !(depth::meets(layers, query@, p) && array::kept_at(d_out@, p)) by {
            if depth::meets(layers, query@, p) {
                assert(place::allows(before, p));
            }
        }
    }
    met
}

/// Each element to the power of the number with the bit pattern `bits`.
fn raise(x: &Tensor<4>, bits: u64) -> (r: Tensor<4>)
    requires
        x@.shape.len() == 4,
        array::supported(x@.element),
        array::is_number(bits),
    ensures
        r@ == raised(x@, bits),
        r@.shape == x@.shape,
{
    let r = x.clone().power(score::constant(bits, x));
    assert(r@.shape =~= x@.shape);
    r
}

/// The shape `[l, b, t, d]`.
spec fn full(l: nat, b: nat, t: nat, d: nat) -> Seq<nat> {
    seq![l, b, t, d]
}

/// The gradients of the layers, in their order, and of the query, where `d_out` is
/// the gradient of the result of depth attention.
pub fn depth_attend_backward_tensor(
    history: &[Tensor<3>],
    query: &Tensor<1>,
    d_out: &Tensor<3>,
) -> (r: (Vec<Tensor<3>>, Tensor<1>))
    requires
        differentiable(tensor::views(history@), query@, d_out@),
    ensures
        tensor::views(r.0@) == Seq::new(
            history.len() as nat,
            |i: int|
                layer_gradient(tensor::views(history@), query@, d_out@, i as nat),
        ),
        r.1@ == gradients(tensor::views(history@), query@, d_out@).1,
        forall|i: int| 0 <= i < history.len() ==> (#[trigger] r.0[i])@.shape == history[0]@.shape,
        r.1@.shape == query@.shape,
{
    let ghost layers = tensor::views(history@);
    let ghost p = choose|p: Place|
        #[trigger] depth::meets(layers, query@, p) && array::kept_at(d_out@, p);
    let l = history.len();
    let dims = history[0].dims();
    let d = dims[2];
    let ghost (ln, bn, tn, dn) = (l as nat, dims[0] as nat, dims[1] as nat, d as nat);
    proof {
        assert(layers[0] == history[0]@);
        depth::lemma_stacked(layers, p);
        array::lemma_leading_ones(bn, tn, dn);
        assert(array::positive(layers[0].shape));
        assert(layers[0].shape[0] > 0 && layers[0].shape[1] > 0 && layers[0].shape[2] > 0);
    }
    assert(array::sizes(dims@) =~= seq![bn, tn, dn]);
    assert(depth::all_kept(layers, p));
    let h = depth::stack_ad(history);
    assert(h@.shape == full(ln, bn, tn, dn));
    let flat = [1usize, 1usize, 1usize, d];
    assert(array::sizes(flat@) =~= seq![1nat, 1nat, 1nat, dn]);
    let q = query.clone().reshape(flat);
    let scale = score::scale(d, &h);

    let total = h.clone().power_int(2).sum(3);
    assert(total@.shape =~= full(ln, bn, tn, 1));
    let eps = score::constant(score::EPSILON, &total);
    let s2 = total.plus(eps);
    assert(s2@.shape =~= full(ln, bn, tn, 1));
    let inv = raise(&s2, score::MINUS_HALF);
    let product = q.clone().times(h.clone());
    assert(product@.shape =~= full(ln, bn, tn, dn));
    let qh = product.sum(3);
    assert(qh@.shape =~= full(ln, bn, tn, 1));
    let normed = qh.clone().times(inv.clone());
    assert(normed@.shape =~= full(ln, bn, tn, 1));
    let scores = normed.times(scale.clone());
    assert(scores@.shape =~= full(ln, bn, tn, 1));
    let w = scores.without_axis::<3>(3).softmax(0);
    assert(w@.shape =~= seq![ln, bn, tn]);

    let g = d_out.clone().with_axis::<4>(0);
    assert(g@.shape =~= full(1, bn, tn, dn));
    let reach = g.clone().times(h.clone());
    assert(reach@.shape =~= full(ln, bn, tn, dn));
    let dw = reach.sum(3).without_axis::<3>(3);
    assert(dw@.shape =~= seq![ln, bn, tn]);
    let wdw = w.clone().times(dw.clone());
    assert(wdw@.shape =~= seq![ln, bn, tn]);
    let mean = wdw.sum(0);
    assert(mean@.shape =~= seq![1nat, bn, tn]);
    let centred = dw.minus(mean);
    assert(centred@.shape =~= seq![ln, bn, tn]);
    let ds3 = w.clone().times(centred);
    assert(ds3@.shape =~= seq![ln, bn, tn]);
    let ds = ds3.with_axis::<4>(3);
    assert(ds@.shape =~= full(ln, bn, tn, 1));

    let attn = w.with_axis::<4>(3).times(g);
    assert(attn@.shape =~= full(ln, bn, tn, dn));
    let along_query = q.times(inv.clone());
    assert(along_query@.shape =~= full(ln, bn, tn, dn));
    let hq = h.clone().times(qh);
    assert(hq@.shape =~= full(ln, bn, tn, dn));
    let along_layer = hq.times(raise(&s2, MINUS_THREE_HALVES));
    assert(along_layer@.shape =~= full(ln, bn, tn, dn));
    let along = along_query.minus(along_layer);
    assert(along@.shape =~= full(ln, bn, tn, dn));
    let turned = ds.clone().times(along);
    assert(turned@.shape =~= full(ln, bn, tn, dn));
    let norm_part = turned.times(scale.clone());
    assert(norm_part@.shape =~= full(ln, bn, tn, dn));
    let dh = attn.plus(norm_part);
    assert(dh@.shape =~= full(ln, bn, tn, dn));

    let dsh = ds.times(h);
    assert(dsh@.shape =~= full(ln, bn, tn, dn));
    let dsh_normed = dsh.times(inv);
    assert(dsh_normed@.shape =~= full(ln, bn, tn, dn));
    let parts = dsh_normed.times(scale);
    assert(parts@.shape =~= full(ln, bn, tn, dn));
    let sums = parts.sum(0).sum(1).sum(2);
    assert(sums@.shape =~= seq![1nat, 1nat, 1nat, dn]);
    let vector = [d];
    assert(array::sizes(vector@) =~= seq![dn]);
    let dq = sums.reshape(vector);
    assert((dh@, dq@) == gradients(layers, query@, d_out@));

    let mut dhs: Vec<Tensor<3>> = Vec::new();
    let mut i: usize = 0;
    while i < l
        invariant
            l == history.len(),
            i <= l,
            dhs.len() == i,
            layers == tensor::views(history@),
            layers[0].shape == array::sizes(dims@),
            array::sizes(dims@) == seq![bn, tn, dn],
            array::positive(layers[0].shape),
            array::volume(seq![1nat, bn, tn, dn]) == array::volume(seq![bn, tn, dn]),
            dh@ == gradients(layers, query@, d_out@).0,
            dh@.shape == full(ln, bn, tn, dn),
            ln == l,
            array::supported(dh@.element),
            forall|j: int|
                0 <= j < i ==> (#[trigger] dhs[j])@ == layer_gradient(
                    layers,
                    query@,
                    d_out@,
                    j as nat,
                ),
        decreases l - i,
    {
        let row = dh.clone().rows(i, i + 1);
        assert(row@.shape =~= full(1, bn, tn, dn));
        dhs.push(row.reshape(dims));
        i += 1;
    }
    assert(tensor::views(dhs@) =~= Seq::new(
        l as nat,
        |i: int| layer_gradient(layers, query@, d_out@, i as nat),
    ));
    (dhs, dq)
}

} // verus!
