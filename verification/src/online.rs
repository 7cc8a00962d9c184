//! Softmax attention over sources that arrive one at a time.
//!
//! The state is the largest score so far, the sum of the exponentials of the
//! scores and the sum of the sources under these exponentials, both relative to
//! that score. A new source of score `s` moves the reference point:
//!
//! ```text
//! m'   = max(m, s)
//! acc' = acc * e^(m - m') + src * e^(s - m')
//! sum' = sum * e^(m - m') + e^(s - m')
//! out  = acc' / max(sum', 1e-12)
//! ```
use vstd::prelude::*;

use crate::array;
use crate::array::{Array, Place};
use crate::place;
use crate::place::Meeting;
use crate::score;
use crate::tensor::{Precision, Tensor};

verus! {

/// 1e-12, the least divisor of the attended output.
pub const LEAST_SUM: u64 = 0x3D71_9799_812D_EA11;

/// Attention over the sources so far.
#[verifier::ext_equal]
pub struct Online {
    /// `[b, t, 1]`: the largest score.
    pub max_score: Array,
    /// `[b, t, 1]`: the sum of the exponentials.
    pub sum_exp: Array,
    /// `[b, t, d]`: the sum of the sources under the exponentials.
    pub acc: Array,
}

/// `[b, t, 1]` for `[b, t, d]`.
pub open spec fn column(shape: Seq<nat>) -> Seq<nat> {
    seq![shape[0], shape[1], 1]
}

/// The larger of two scores, as half of their sum and their distance.
pub open spec fn upper(m: Array, s: Array) -> Array {
    array::over_int(array::plus(array::plus(m, s), array::absolute(array::minus(m, s))), 2)
}

/// Attention over one source, in the source's element type.
pub open spec fn first(src: Array, s: Array) -> Online {
    Online { max_score: s, sum_exp: array::ones(column(src.shape), src), acc: src }
}

/// Attention with one source more.
pub open spec fn merge(o: Online, src: Array, s: Array) -> Online {
    let m = upper(o.max_score, s);
    let rescale = array::exp(array::minus(o.max_score, m));
    let w = array::exp(array::minus(s, m));
    Online {
        max_score: m,
        sum_exp: array::plus(array::times(o.sum_exp, rescale), w),
        acc: array::plus(array::times(o.acc, rescale), array::times(src, w)),
    }
}

/// The sum of the weights, or the least divisor where that is larger. In half precision
/// the two are compared in single precision, but where gradients are recorded.
pub open spec fn at_least(x: Array) -> Array {
    let least = array::wide(LEAST_SUM as nat, 3, x);
    if score::is_half(x.element) && x.tape == 0 {
        array::cast(array::larger(array::cast(x, 32), array::cast(least, 32)), x.element)
    } else {
        array::larger(x, array::cast(least, x.element))
    }
}

/// The weighted sum of the sources over the sum of the weights.
pub open spec fn quotient(acc: Array, sum_exp: Array) -> Array {
    array::over(acc, at_least(sum_exp))
}

/// The attended output.
pub open spec fn attended(o: Online) -> Array {
    quotient(o.acc, o.sum_exp)
}

/// Attention over sources of the shape `[b, t, d]`, kept at `p`.
pub open spec fn fits(o: Online, shape: Seq<nat>, p: Place) -> bool {
    &&& shape.len() == 3
    &&& o.acc.shape == shape
    &&& o.max_score.shape == column(shape)
    &&& o.sum_exp.shape == column(shape)
    &&& array::kept_at(o.acc, p)
    &&& array::kept_at(o.max_score, p)
    &&& array::kept_at(o.sum_exp, p)
}

/// A source `src` of score `s` can be taken into the attention at `p`.
pub open spec fn mergeable(o: Online, src: Array, s: Array, p: Place) -> bool {
    &&& fits(o, src.shape, p)
    &&& array::kept_at(src, p)
    &&& s.shape == column(src.shape)
    &&& array::kept_at(s, p)
}

/// Attention over sources in their order, each scored against `query`.
pub open spec fn over_sources(query: Array, sources: Seq<Array>) -> Online
    decreases sources.len(),
{
    let src = sources.last();
    let s = score::score(query, src);
    if sources.len() <= 1 {
        first(src, s)
    } else {
        merge(over_sources(query, sources.drop_last()), src, s)
    }
}

/// Attention over one source fits that source's shape.
pub proof fn lemma_first_fits(src: Array, s: Array, p: Place)
    requires
        src.shape.len() == 3,
        array::kept_at(src, p),
        s.shape == column(src.shape),
        array::kept_at(s, p),
    ensures
        fits(first(src, s), src.shape, p),
{
}

/// One source more keeps the shapes and the place.
pub proof fn lemma_merge_fits(o: Online, src: Array, s: Array, p: Place)
    requires
        mergeable(o, src, s, p),
    ensures
        fits(merge(o, src, s), src.shape, p),
{
    let m = upper(o.max_score, s);
    assert(m.shape =~= column(src.shape));
    let rescale = array::exp(array::minus(o.max_score, m));
    assert(rescale.shape =~= column(src.shape));
    let w = array::exp(array::minus(s, m));
    assert(w.shape =~= column(src.shape));
    assert(merge(o, src, s).sum_exp.shape =~= column(src.shape));
    assert(array::times(o.acc, rescale).shape =~= src.shape);
    assert(array::times(src, w).shape =~= src.shape);
    assert(merge(o, src, s).acc.shape =~= src.shape);
}

/// The attended output has the shape of a source and is kept where they are.
pub proof fn lemma_attended_fits(o: Online, shape: Seq<nat>, p: Place)
    requires
        fits(o, shape, p),
    ensures
        attended(o).shape == shape,
        array::kept_at(attended(o), p),
{
    assert(attended(o).shape =~= shape);
}

/// The sum of the weights, or the least divisor where that is larger.
fn bound(x: &Tensor<3>) -> (r: Tensor<3>)
    requires
        array::supported(x@.element),
    ensures
        r@ == at_least(x@),
        r@.shape == x@.shape,
{
    let least = x.wide(LEAST_SUM);
    let x = x.clone();
    match (x.precision(), x.tape()) {
        (Some(Precision::Half), 0) => {
            let r = x.cast(Precision::Single).larger(least.cast(Precision::Single));
            assert(r@.shape =~= x@.shape);
            r.cast(Precision::Half)
        },
        (Some(Precision::Brain), 0) => {
            let r = x.cast(Precision::Single).larger(least.cast(Precision::Single));
            assert(r@.shape =~= x@.shape);
            r.cast(Precision::Brain)
        },
        (Some(p), _) => {
            let r = x.larger(least.cast(p));
            assert(r@.shape =~= x@.shape);
            r
        },
        (None, _) => x,
    }
}

/// The weighted sum of the sources over the sum of the weights.
pub(crate) fn divide(acc: &Tensor<3>, sum_exp: &Tensor<3>) -> (r: Tensor<3>)
    requires
        sum_exp@.shape == column(acc@.shape),
        array::can_meet(acc@, sum_exp@),
    ensures
        r@ == quotient(acc@, sum_exp@),
        r@.shape == acc@.shape,
{
    let acc = acc.clone();
    let bounded = bound(sum_exp);
    let r = acc.over(bounded);
    assert(r@.shape =~= acc@.shape);
    r
}

/// Whether `s` has one entry for every position of `src`.
pub(crate) fn is_column(s: &Tensor<3>, src: &Tensor<3>) -> (r: bool)
    ensures
        r == (s@.shape == column(src@.shape)),
{
    let a = s.dims();
    let b = src.dims();
    assert(s@.shape =~= seq![a[0] as nat, a[1] as nat, a[2] as nat]);
    assert(src@.shape =~= seq![b[0] as nat, b[1] as nat, b[2] as nat]);
    let r = a[0] == b[0] && a[1] == b[1] && a[2] == 1;
    if r {
        assert(s@.shape =~= column(src@.shape));
    } else {
        assert(s@.shape[0] != src@.shape[0] || s@.shape[1] != src@.shape[1] || s@.shape[2] != 1);
    }
    r
}

/// Whether a source `src` of score `s` can be taken into the attention.
pub fn can_merge(
    acc: &Tensor<3>,
    max_score: &Tensor<3>,
    sum_exp: &Tensor<3>,
    src: &Tensor<3>,
    s: &Tensor<3>,
) -> (r: bool)
    ensures
        r == exists|p: Place|
            #[trigger] mergeable(
                (Online { max_score: max_score@, sum_exp: sum_exp@, acc: acc@ }),
                src@,
                s@,
                p,
            ),
{
    let ghost o = Online { max_score: max_score@, sum_exp: sum_exp@, acc: acc@ };
    if !acc.same_shape(src) || !is_column(max_score, src) || !is_column(sum_exp, src) || !is_column(
        s,
        src,
    ) {
        return false;
    }
    let mut all = match Meeting::of(src) {
        Some(m) => m,
        None => {
            return false;
        },
    };
    let met = all.join(acc) && all.join(max_score) && all.join(sum_exp) && all.join(s);
    if met {
        assert(place::allows(all.place(), all.place()));
        assert(mergeable(o, src@, s@, all.place()));
    } else {
        assert forall|p: Place| !#[trigger] mergeable(o, src@, s@, p) by {
            if mergeable(o, src@, s@, p) {
                assert(array::kept_at(src@, p));
            }
        }
    }
    met
}

} // verus!
