//! Scores of a source against a pseudo-query.
//!
//! ```text
//! score = query . norm(h) / sqrt(d),    norm(h) = h / sqrt(sum(h^2) + 1e-5)
//! ```
use vstd::prelude::*;

use crate::array;
use crate::array::{Array, Place};
use crate::place;
use crate::place::Meeting;
use crate::tensor::{Precision, Tensor};

verus! {

/// 1e-5, the term that keeps the norm away from zero.
pub const EPSILON: u64 = 0x3EE4_F8B5_88E3_68F1;

/// -1/2, the exponent of the score's scale.
pub const MINUS_HALF: u64 = 0xBFE0_0000_0000_0000;

/// A double precision number in an element type, as burn takes the scalar operand of an
/// operation: half precision is rounded to from single precision.
pub open spec fn narrowed(x: Array, element: nat) -> Array {
    if is_half(element) {
        array::cast(array::cast(x, 32), element)
    } else {
        array::cast(x, element)
    }
}

/// Half precision or bfloat16.
pub open spec fn is_half(element: nat) -> bool {
    element == 16 || element == 17
}

/// The number with the double precision bit pattern `bits`, in the element type
/// of `like`.
pub open spec fn constant_array(bits: nat, rank: nat, like: Array) -> Array {
    narrowed(array::wide(bits, rank, like), like.element)
}

/// `1 / sqrt(d)`, computed in double precision, in the element type of `like`.
pub open spec fn scale_array(d: nat, rank: nat, like: Array) -> Array {
    narrowed(
        array::power(array::whole(d, rank, like), array::wide(MINUS_HALF as nat, rank, like)),
        like.element,
    )
}

/// Each row of `x` along `axis` over its norm.
pub open spec fn normalized_array(x: Array, axis: nat) -> Array {
    let total = array::sum(array::power_int(x, 2), axis);
    array::over(
        x,
        array::sqrt(array::plus(total, constant_array(EPSILON as nat, x.shape.len(), total))),
    )
}

/// The scores of the rows of `x` along its last axis, with `query` laid out to
/// match that axis.
pub open spec fn scores_array(query: Array, x: Array) -> Array {
    let axis = (x.shape.len() - 1) as nat;
    array::times(
        array::sum(array::times(query, normalized_array(x, axis)), axis),
        scale_array(x.shape.last(), x.shape.len(), x),
    )
}

/// The score of every position of a `[b, t, d]` source, as `[b, t, 1]`.
pub open spec fn score(query: Array, src: Array) -> Array {
    scores_array(array::reshaped(query, seq![1, 1, src.shape[2]]), src)
}

/// A `[b, t, d]` source can be scored against a `[d]` query.
pub open spec fn scorable(query: Array, src: Array) -> bool {
    &&& src.shape.len() == 3
    &&& src.shape[2] > 0
    &&& query.shape == seq![src.shape[2]]
    &&& array::can_meet(query, src)
}

/// The score of a source has one entry per position and is kept where the source
/// and the query are.
pub proof fn lemma_score_kept(query: Array, src: Array, p: Place)
    requires
        scorable(query, src),
        array::kept_at(query, p),
        array::kept_at(src, p),
    ensures
        score(query, src).shape == seq![src.shape[0], src.shape[1], 1],
        array::kept_at(score(query, src), p),
{
    let flat = array::reshaped(query, seq![1, 1, src.shape[2]]);
    let norm = normalized_array(src, 2);
    assert(norm.shape =~= src.shape);
    assert(array::times(flat, norm).shape =~= src.shape);
    assert(score(query, src).shape =~= seq![src.shape[0], src.shape[1], 1]);
}

/// A double precision tensor in the element type of `like`.
fn narrow<const D: usize>(x: Tensor<D>, like: &Tensor<D>) -> (r: Tensor<D>)
    requires
        array::supported(x@.element),
        array::supported(like@.element),
    ensures
        r@ == narrowed(x@, like@.element),
{
    match like.precision() {
        Some(Precision::Half) => x.cast(Precision::Single).cast(Precision::Half),
        Some(Precision::Brain) => x.cast(Precision::Single).cast(Precision::Brain),
        Some(p) => x.cast(p),
        None => x,
    }
}

/// The number with the double precision bit pattern `bits`, kept as `like` is.
pub(crate) fn constant<const D: usize>(bits: u64, like: &Tensor<D>) -> (r: Tensor<D>)
    requires
        D > 0,
        array::supported(like@.element),
        array::is_number(bits),
    ensures
        r@ == constant_array(bits as nat, D as nat, like@),
{
    narrow(like.wide(bits), like)
}

/// `1 / sqrt(d)`, kept as `like` is.
pub(crate) fn scale<const D: usize>(d: usize, like: &Tensor<D>) -> (r: Tensor<D>)
    requires
        D > 0,
        array::supported(like@.element),
    ensures
        r@ == scale_array(d as nat, D as nat, like@),
{
    narrow(like.whole(d as u64).power(like.wide(MINUS_HALF)), like)
}

/// Each row of `x` along `axis` over its norm.
pub(crate) fn normalized<const D: usize>(x: &Tensor<D>, axis: usize) -> (r: Tensor<D>)
    requires
        axis < D,
        x@.shape.len() == D,
        array::supported(x@.element),
    ensures
        r@ == normalized_array(x@, axis as nat),
        r@.shape == x@.shape,
{
    let total = x.clone().power_int(2).sum(axis);
    let eps = constant(EPSILON, &total);
    let r = x.clone().over(total.plus(eps).sqrt());
    assert(r@.shape =~= x@.shape);
    r
}

/// The scores of the rows of `x` along its last axis.
pub(crate) fn scores<const D: usize>(query: Tensor<D>, x: &Tensor<D>, d: usize) -> (r: Tensor<D>)
    requires
        D > 0,
        x@.shape.len() == D,
        x@.shape.last() == d,
        query@.shape == array::unit_shape((D - 1) as nat).push(d as nat),
        array::can_meet(query@, x@),
    ensures
        r@ == scores_array(query@, x@),
        r@.shape == x@.shape.update(D - 1, 1),
{
    let norm = normalized(x, D - 1);
    let product = query.times(norm);
    assert(product@.shape =~= x@.shape);
    let r = product.sum(D - 1).times(scale(d, x));
    assert(r@.shape =~= x@.shape.update(D - 1, 1));
    r
}

/// Whether the source can be scored against the query.
pub fn can_score(query: &Tensor<1>, src: &Tensor<3>) -> (r: bool)
    ensures
        r == scorable(query@, src@),
{
    let dims = src.dims();
    let width = query.dims();
    assert(src@.shape[2] == dims[2]);
    assert(query@.shape =~= seq![width[0] as nat]);
    if dims[2] == 0 || width[0] != dims[2] {
        assert(query@.shape[0] == width[0]);
        return false;
    }
    let mut all = match Meeting::of(query) {
        Some(m) => m,
        None => {
            proof {
                assert(!array::kept_at(
                    query@,
                    Place { device: src@.device, element: src@.element, tape: query@.tape },
                ));
            }
            return false;
        },
    };
    let ghost p = Place {
        device: src@.device,
        element: src@.element,
        tape: array::join_tape(query@.tape, src@.tape),
    };
    let ghost before = all.place();
    let met = all.join(src);
    assert(place::allows(before, p) <==> array::kept_at(query@, p));
    if met {
        assert(array::kept_at(src@, all.place()));
        assert(place::allows(before, all.place()));
        assert(array::kept_at(query@, all.place()));
    } else {
        assert(!(place::allows(before, p) && array::kept_at(src@, p)));
    }
    met
}

/// The score of every position of `src` against the query: `query . norm(src) /
/// sqrt(d)` along the last axis, which keeps one entry.
pub fn source_score(query: &Tensor<1>, src: &Tensor<3>) -> (r: Tensor<3>)
    requires
        scorable(query@, src@),
    ensures
        r@ == score(query@, src@),
        r@.shape == seq![src@.shape[0], src@.shape[1], 1],
{
    let dims = src.dims();
    let d = dims[2];
    assert(src@.shape[2] == d);
    let flat = [1usize, 1usize, d];
    assert(array::sizes(flat@) =~= seq![1nat, 1nat, d as nat]);
    assert(array::unit_shape(2).push(d as nat) =~= seq![1nat, 1nat, d as nat]);
    proof {
        array::lemma_leading_ones(1, 1, d as nat);
    }
    let r = scores(query.clone().reshape(flat), src, d);
    assert(r@.shape =~= seq![src@.shape[0], src@.shape[1], 1]);
    r
}

} // verus!
