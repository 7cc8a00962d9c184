//! The fused path: depth attention in chunks of layers, and the score and the merge
//! of streaming attention in one pass each.
//!
//! A chunk of layers is folded into a running attention state, so that no more than
//! one chunk of layers is held at a time. The weights are those of the softmax over
//! all layers.
//!
//! ```text
//! m'   = max(m, m_c)                      m_c: the largest score of the chunk
//! acc' = acc * e^(m - m') + sum_g e^(s_g - m') * h_g
//! sum' = sum * e^(m - m') + sum_g e^(s_g - m_c) * e^(m_c - m')
//! out  = acc' / max(sum', 1e-12)          after the last chunk
//! ```
use vstd::prelude::*;

use crate::array;
use crate::array::{Array, Place};
use crate::depth;
use crate::launch;
use crate::online;
use crate::online::Online;
use crate::score;
use crate::tensor;
use crate::tensor::Tensor;

verus! {

/// -3e38, below the scores.
pub const FLOOR: u64 = 0xC7EC_363C_C000_0000;

/// The score of every position of a `[b, t, d]` source, as `[b, t, 1]`: the dot
/// product with the query, scaled, over the norm.
pub open spec fn fused_score(query: Array, src: Array) -> Array {
    let flat = array::reshaped(query, seq![1, 1, src.shape[2]]);
    let total = array::sum(array::times(src, src), 2);
    array::over(
        array::times(
            array::sum(array::times(flat, src), 2),
            score::scale_array(src.shape[2], 3, src),
        ),
        array::sqrt(array::plus(total, score::constant_array(score::EPSILON as nat, 3, total))),
    )
}

/// Attention with one source more.
pub open spec fn fused_merge(o: Online, src: Array, s: Array) -> Online {
    let m = array::larger(o.max_score, s);
    let rescale = array::exp(array::minus(o.max_score, m));
    let w = array::exp(array::minus(s, m));
    Online {
        max_score: m,
        sum_exp: array::plus(array::times(o.sum_exp, rescale), w),
        acc: array::plus(array::times(o.acc, rescale), array::times(src, w)),
    }
}

/// [`FLOOR`] at every position of `like`.
pub open spec fn floor_array(like: Array) -> Array {
    array::plus(
        array::zeros(online::column(like.shape), like),
        score::constant_array(FLOOR as nat, 3, like),
    )
}

/// The largest of the scores.
pub open spec fn peak(scores: Seq<Array>, like: Array) -> Array
    decreases scores.len(),
{
    if scores.len() == 0 {
        floor_array(like)
    } else {
        array::larger(peak(scores.drop_last(), like), scores.last())
    }
}

/// The sum of the exponentials of the scores relative to `m`.
pub open spec fn exp_total(scores: Seq<Array>, m: Array, like: Array) -> Array
    decreases scores.len(),
{
    if scores.len() == 0 {
        array::zeros(online::column(like.shape), like)
    } else {
        array::plus(
            exp_total(scores.drop_last(), m, like),
            array::exp(array::minus(scores.last(), m)),
        )
    }
}

/// The sum of the layers under the exponentials of their scores relative to `m`.
pub open spec fn mixture(rows: Seq<Array>, scores: Seq<Array>, m: Array, like: Array) -> Array
    decreases rows.len(),
{
    if rows.len() == 0 {
        array::zeros(like.shape, like)
    } else {
        array::plus(
            mixture(rows.drop_last(), scores.drop_last(), m, like),
            array::times(array::exp(array::minus(scores.last(), m)), rows.last()),
        )
    }
}

/// The scores of several layers.
pub open spec fn fused_scores(query: Array, rows: Seq<Array>) -> Seq<Array> {
    Seq::new(rows.len(), |i: int| fused_score(query, rows[i]))
}

/// Attention with one chunk of layers more. Nothing is carried over into the first
/// chunk's weighted sum.
pub open spec fn folded(
    o: Online,
    rows: Seq<Array>,
    scores: Seq<Array>,
    first: bool,
    like: Array,
) -> Online {
    let top = peak(scores, like);
    let m = array::larger(o.max_score, top);
    let rescale = array::exp(array::minus(o.max_score, m));
    let mix = mixture(rows, scores, m, like);
    Online {
        max_score: m,
        sum_exp: array::plus(
            array::times(o.sum_exp, rescale),
            array::times(exp_total(scores, top, like), array::exp(array::minus(top, m))),
        ),
        acc: if first {
            mix
        } else {
            array::plus(array::times(o.acc, rescale), mix)
        },
    }
}

/// Attention over nothing.
pub open spec fn unstarted(like: Array) -> Online {
    Online {
        max_score: floor_array(like),
        sum_exp: array::zeros(online::column(like.shape), like),
        acc: array::zeros(like.shape, like),
    }
}

/// The layers of the chunk number `c`.
pub open spec fn chunk_rows(history: Seq<Array>, c: nat) -> Seq<Array> {
    let k = launch::chunk(history.len(), c);
    history.subrange(k.start as int, k.start + k.rows)
}

/// Attention over the first `n` chunks.
pub open spec fn over_chunks(query: Array, history: Seq<Array>, n: nat) -> Online
    decreases n,
{
    if n == 0 {
        unstarted(history[0])
    } else {
        let c = (n - 1) as nat;
        let rows = chunk_rows(history, c);
        folded(over_chunks(query, history, c), rows, fused_scores(query, rows), c == 0, history[0])
    }
}

/// Depth attention, chunk by chunk.
pub open spec fn fused_depth(query: Array, history: Seq<Array>) -> Array {
    online::attended(over_chunks(query, history, launch::chunk_count(history.len())))
}

/// The score of every position of `src`: what one launch of the score computes.
pub fn source_score_kernel(query: &Tensor<1>, src: &Tensor<3>) -> (r: Tensor<3>)
    requires
        score::scorable(query@, src@),
    ensures
        r@ == fused_score(query@, src@),
        r@.shape == online::column(src@.shape),
{
    let dims = src.dims();
    let d = dims[2];
    assert(src@.shape[2] == d);
    let flat = [1usize, 1usize, d];
    assert(array::sizes(flat@) =~= seq![1nat, 1nat, d as nat]);
    proof {
        array::lemma_leading_ones(1, 1, d as nat);
    }
    let product = query.clone().reshape(flat).times(src.clone());
    assert(product@.shape =~= src@.shape);
    let dot = product.sum(2);
    let square = src.clone().times(src.clone());
    assert(square@.shape =~= src@.shape);
    let total = square.sum(2);
    let eps = score::constant(score::EPSILON, &total);
    let r = dot.times(score::scale(d, src)).over(total.plus(eps).sqrt());
    assert(r@.shape =~= online::column(src@.shape));
    r
}

/// Tensors that live bare on CUDA: their device is a CUDA device, and none of them records
/// gradients.
pub open spec fn bare_on_cuda(on_cuda: bool, tensors: Seq<Array>) -> bool {
    &&& on_cuda
    &&& forall|i: int| 0 <= i < tensors.len() ==> (#[trigger] tensors[i]).tape == 0
}

/// The score of every position of `src` against the query, where the two live bare on
/// CUDA; `on_cuda` tells whether their device is a CUDA device. Nothing for tensors that
/// do not, and for rows without a column.
pub fn source_score_cuda(query: &Tensor<1>, src: &Tensor<3>, on_cuda: bool) -> (r: Option<
    Tensor<3>,
>)
    requires
        array::supported(query@.element),
        array::supported(src@.element),
        bare_on_cuda(on_cuda, seq![query@, src@]) && src@.shape[2] > 0 ==> score::scorable(
            query@,
            src@,
        ),
    ensures
        r is None <==> !bare_on_cuda(on_cuda, seq![query@, src@]) || src@.shape[2] == 0,
        r matches Some(s) ==> s@ == fused_score(query@, src@) && s@.shape == online::column(
            src@.shape,
        ),
{
    let dims = src.dims();
    assert(src@.shape[2] == dims[2]);
    let ghost all = seq![query@, src@];
    if !on_cuda || query.tape() != 0 || src.tape() != 0 || dims[2] == 0 {
        assert(all[0] == query@ && all[1] == src@);
        return None;
    }
    Some(source_score_kernel(query, src))
}

/// The attention state of three tensors.
pub open spec fn online_of(acc: Array, max_s: Array, sum_exp: Array) -> Online {
    Online { max_score: max_s, sum_exp, acc }
}

/// One source more keeps the shapes and the place.
pub proof fn lemma_fused_merge_fits(o: Online, src: Array, s: Array, p: Place)
    requires
        online::mergeable(o, src, s, p),
    ensures
        online::fits(fused_merge(o, src, s), src.shape, p),
{
    let m = array::larger(o.max_score, s);
    assert(m.shape =~= online::column(src.shape));
    let rescale = array::exp(array::minus(o.max_score, m));
    assert(rescale.shape =~= online::column(src.shape));
    let w = array::exp(array::minus(s, m));
    assert(w.shape =~= online::column(src.shape));
    assert(fused_merge(o, src, s).sum_exp.shape =~= online::column(src.shape));
    assert(array::times(o.acc, rescale).shape =~= src.shape);
    assert(array::times(src, w).shape =~= src.shape);
    assert(fused_merge(o, src, s).acc.shape =~= src.shape);
}

/// Folds `src` of score `s` into the attention and gives back the attended output:
/// what one launch of the merge computes.
pub fn merge_kernel(
    acc: &mut Tensor<3>,
    max_s: &mut Tensor<3>,
    sum_exp: &mut Tensor<3>,
    src: &Tensor<3>,
    s: &Tensor<3>,
) -> (r: Tensor<3>)
    requires
        exists|p: Place|
            #[trigger] online::mergeable(
                online_of(old(acc)@, old(max_s)@, old(sum_exp)@),
                src@,
                s@,
                p,
            ),
    ensures
        online_of(final(acc)@, final(max_s)@, final(sum_exp)@) == fused_merge(
            online_of(old(acc)@, old(max_s)@, old(sum_exp)@),
            src@,
            s@,
        ),
        r@ == online::attended(
            fused_merge(online_of(old(acc)@, old(max_s)@, old(sum_exp)@), src@, s@),
        ),
        r@.shape == src@.shape,
{
    let ghost o = online_of(acc@, max_s@, sum_exp@);
    let ghost p = choose|p: Place| online::mergeable(o, src@, s@, p);
    proof {
        lemma_fused_merge_fits(o, src@, s@, p);
    }
    let m_new = max_s.clone().larger(s.clone());
    assert(m_new@.shape =~= online::column(src@.shape));
    let rescale = max_s.clone().minus(m_new.clone()).exp();
    assert(rescale@.shape =~= online::column(src@.shape));
    let w = s.clone().minus(m_new.clone()).exp();
    assert(w@.shape =~= online::column(src@.shape));
    let kept = acc.clone().times(rescale.clone());
    assert(kept@.shape =~= src@.shape);
    let added = src.clone().times(w.clone());
    assert(added@.shape =~= src@.shape);
    let weighted = kept.plus(added);
    let total = sum_exp.clone().times(rescale).plus(w);
    let out = online::divide(&weighted, &total);
    *acc = weighted;
    *sum_exp = total;
    *max_s = m_new;
    out
}

/// Folds `src` of score `s` into the attention and gives back the attended output, where
/// all of them live bare on CUDA; `on_cuda` tells whether their device is a CUDA device.
/// Nothing, and the attention as it was, for tensors that do not, and for rows without a
/// column.
pub fn merge_cuda(
    acc: &mut Tensor<3>,
    max_s: &mut Tensor<3>,
    sum_exp: &mut Tensor<3>,
    src: &Tensor<3>,
    s: &Tensor<3>,
    on_cuda: bool,
) -> (r: Option<Tensor<3>>)
    requires
        array::supported(old(acc)@.element),
        array::supported(old(max_s)@.element),
        array::supported(old(sum_exp)@.element),
        array::supported(src@.element),
        array::supported(s@.element),
        bare_on_cuda(on_cuda, seq![old(acc)@, old(max_s)@, old(sum_exp)@, src@, s@])
            && src@.shape[2] > 0 ==> exists|p: Place|
            #[trigger] online::mergeable(
                online_of(old(acc)@, old(max_s)@, old(sum_exp)@),
                src@,
                s@,
                p,
            ),
    ensures
        r is None <==> !bare_on_cuda(
            on_cuda,
            seq![old(acc)@, old(max_s)@, old(sum_exp)@, src@, s@],
        ) || src@.shape[2] == 0,
        r is None ==> online_of(final(acc)@, final(max_s)@, final(sum_exp)@) == online_of(
            old(acc)@,
            old(max_s)@,
            old(sum_exp)@,
        ),
        r matches Some(out) ==> {
            let o = fused_merge(online_of(old(acc)@, old(max_s)@, old(sum_exp)@), src@, s@);
            &&& online_of(final(acc)@, final(max_s)@, final(sum_exp)@) == o
            &&& out@ == online::attended(o)
            &&& out@.shape == src@.shape
        },
{
    let dims = src.dims();
    assert(src@.shape[2] == dims[2]);
    let ghost all = seq![acc@, max_s@, sum_exp@, src@, s@];
    assert(all[0] == acc@ && all[1] == max_s@ && all[2] == sum_exp@ && all[3] == src@ && all[4]
        == s@);
    if !on_cuda || acc.tape() != 0 || max_s.tape() != 0 || sum_exp.tape() != 0 || src.tape() != 0
        || s.tape() != 0 || dims[2] == 0 {
        return None;
    }
    Some(merge_kernel(acc, max_s, sum_exp, src, s))
}

/// The layers of a chunk and their scores.
pub struct ChunkStack {
    pub rows: Vec<Tensor<3>>,
    pub scores: Vec<Tensor<3>>,
}

/// The score of a source is kept where the source and the query are.
pub proof fn lemma_fused_score_kept(query: Array, src: Array, p: Place)
    requires
        score::scorable(query, src),
        array::kept_at(query, p),
        array::kept_at(src, p),
    ensures
        fused_score(query, src).shape == online::column(src.shape),
        array::kept_at(fused_score(query, src), p),
{
    let flat = array::reshaped(query, seq![1, 1, src.shape[2]]);
    assert(array::times(flat, src).shape =~= src.shape);
    assert(array::times(src, src).shape =~= src.shape);
    assert(fused_score(query, src).shape =~= online::column(src.shape));
}

/// The next layer of a chunk: its score, and the layer itself.
pub fn attnres_scores_kernel(query: &Tensor<1>, h: &Tensor<3>, stack: &mut ChunkStack)
    requires
        score::scorable(query@, h@),
    ensures
        tensor::views(final(stack).rows@) == tensor::views(old(stack).rows@).push(h@),
        tensor::views(final(stack).scores@) == tensor::views(old(stack).scores@).push(
            fused_score(query@, h@),
        ),
{
    let s = source_score_kernel(query, h);
    stack.scores.push(s);
    stack.rows.push(h.clone());
    assert(tensor::views(stack.rows@) =~= tensor::views(old(stack).rows@).push(h@));
    assert(tensor::views(stack.scores@) =~= tensor::views(old(stack).scores@).push(
        fused_score(query@, h@),
    ));
}

/// Every array has this shape and is kept at `p`.
pub open spec fn uniform(s: Seq<Array>, shape: Seq<nat>, p: Place) -> bool {
    forall|i: int|
        0 <= i < s.len() ==> (#[trigger] s[i]).shape == shape && array::kept_at(s[i], p)
}

/// The largest score, the sum of the exponentials and the weighted sum of a chunk
/// keep the shapes and the place.
pub proof fn lemma_chunk_kept(
    rows: Seq<Array>,
    scores: Seq<Array>,
    m: Array,
    like: Array,
    p: Place,
)
    requires
        like.shape.len() == 3,
        array::kept_at(like, p),
        rows.len() == scores.len(),
        uniform(rows, like.shape, p),
        uniform(scores, online::column(like.shape), p),
        m.shape == online::column(like.shape),
        array::kept_at(m, p),
    ensures
        peak(scores, like).shape == online::column(like.shape),
        array::kept_at(peak(scores, like), p),
        exp_total(scores, m, like).shape == online::column(like.shape),
        array::kept_at(exp_total(scores, m, like), p),
        mixture(rows, scores, m, like).shape == like.shape,
        array::kept_at(mixture(rows, scores, m, like), p),
    decreases rows.len(),
{
    assert(floor_array(like).shape =~= online::column(like.shape));
    if rows.len() > 0 {
        let n = rows.len() - 1;
        assert forall|i: int| 0 <= i < n implies (#[trigger] rows.drop_last()[i]).shape
            == like.shape && array::kept_at(rows.drop_last()[i], p) by {
            assert(rows.drop_last()[i] == rows[i]);
        }
        assert forall|i: int| 0 <= i < n implies (#[trigger] scores.drop_last()[i]).shape
            == online::column(like.shape) && array::kept_at(scores.drop_last()[i], p) by {
            assert(scores.drop_last()[i] == scores[i]);
        }
        lemma_chunk_kept(rows.drop_last(), scores.drop_last(), m, like, p);
        assert(scores[n].shape == online::column(like.shape));
        assert(rows[n].shape == like.shape);
        assert(peak(scores, like).shape =~= online::column(like.shape));
        let w = array::exp(array::minus(scores.last(), m));
        assert(w.shape =~= online::column(like.shape));
        assert(exp_total(scores, m, like).shape =~= online::column(like.shape));
        assert(array::times(w, rows.last()).shape =~= like.shape);
        assert(mixture(rows, scores, m, like).shape =~= like.shape);
    }
}

/// One chunk more keeps the shapes and the place.
pub proof fn lemma_folded_fits(
    o: Online,
    rows: Seq<Array>,
    scores: Seq<Array>,
    first: bool,
    like: Array,
    p: Place,
)
    requires
        array::kept_at(like, p),
        online::fits(o, like.shape, p),
        rows.len() == scores.len(),
        uniform(rows, like.shape, p),
        uniform(scores, online::column(like.shape), p),
    ensures
        online::fits(folded(o, rows, scores, first, like), like.shape, p),
{
    let col = online::column(like.shape);
    lemma_chunk_kept(rows, scores, o.max_score, like, p);
    let top = peak(scores, like);
    let m = array::larger(o.max_score, top);
    assert(m.shape =~= col);
    lemma_chunk_kept(rows, scores, m, like, p);
    lemma_chunk_kept(rows, scores, top, like, p);
    let rescale = array::exp(array::minus(o.max_score, m));
    assert(rescale.shape =~= col);
    assert(array::times(o.acc, rescale).shape =~= like.shape);
    assert(folded(o, rows, scores, first, like).sum_exp.shape =~= col);
    assert(folded(o, rows, scores, first, like).acc.shape =~= like.shape);
}

/// The running attention of [`depth_attend_cuda`].
pub struct Running {
    pub acc: Tensor<3>,
    pub max_s: Tensor<3>,
    pub sum_e: Tensor<3>,
}

impl View for Running {
    type V = Online;

    open spec fn view(&self) -> Online {
        online_of(self.acc@, self.max_s@, self.sum_e@)
    }
}

/// [`FLOOR`] at every position of `like`.
fn floor(like: &Tensor<3>) -> (r: Tensor<3>)
    requires
        array::supported(like@.element),
    ensures
        r@ == floor_array(like@),
{
    let dims = like.dims();
    let column = [dims[0], dims[1], 1usize];
    assert(array::sizes(column@) =~= online::column(like@.shape));
    like.zeros_like(column).plus(score::constant(FLOOR, like))
}

/// The largest of the scores.
fn largest(scores: &Vec<Tensor<3>>, like: &Tensor<3>, Ghost(p): Ghost<Place>) -> (r: Tensor<3>)
    requires
        like@.shape.len() == 3,
        array::kept_at(like@, p),
        uniform(tensor::views(scores@), online::column(like@.shape), p),
    ensures
        r@ == peak(tensor::views(scores@), like@),
{
    let ghost all = tensor::views(scores@);
    let n = scores.len();
    let mut r = floor(like);
    let mut i: usize = 0;
    assert(all.take(0) =~= Seq::<Array>::empty());
    assert(r@.shape =~= online::column(like@.shape));
    while i < n
        invariant
            i <= n,
            n == scores.len(),
            all == tensor::views(scores@),
            uniform(all, online::column(like@.shape), p),
            r@ == peak(all.take(i as int), like@),
            r@.shape == online::column(like@.shape),
            array::kept_at(r@, p),
        decreases n - i,
    {
        assert(all[i as int].shape == online::column(like@.shape));
        assert(all.take(i + 1).drop_last() =~= all.take(i as int));
        r = r.larger(scores[i].clone());
        assert(r@.shape =~= online::column(like@.shape));
        i += 1;
    }
    assert(all.take(n as int) =~= all);
    r
}

/// The sum of the exponentials of the scores relative to `m`.
fn total_exp(
    scores: &Vec<Tensor<3>>,
    m: &Tensor<3>,
    like: &Tensor<3>,
    Ghost(p): Ghost<Place>,
) -> (r: Tensor<3>)
    requires
        like@.shape.len() == 3,
        array::kept_at(like@, p),
        m@.shape == online::column(like@.shape),
        array::kept_at(m@, p),
        uniform(tensor::views(scores@), online::column(like@.shape), p),
    ensures
        r@ == exp_total(tensor::views(scores@), m@, like@),
{
    let ghost all = tensor::views(scores@);
    let n = scores.len();
    let dims = like.dims();
    let column = [dims[0], dims[1], 1usize];
    assert(array::sizes(column@) =~= online::column(like@.shape));
    let mut r = like.zeros_like(column);
    let mut i: usize = 0;
    assert(all.take(0) =~= Seq::<Array>::empty());
    while i < n
        invariant
            i <= n,
            n == scores.len(),
            all == tensor::views(scores@),
            uniform(all, online::column(like@.shape), p),
            m@.shape == online::column(like@.shape),
            array::kept_at(m@, p),
            r@ == exp_total(all.take(i as int), m@, like@),
            r@.shape == online::column(like@.shape),
            array::kept_at(r@, p),
        decreases n - i,
    {
        assert(all[i as int].shape == online::column(like@.shape));
        assert(all.take(i + 1).drop_last() =~= all.take(i as int));
        let w = scores[i].clone().minus(m.clone()).exp();
        assert(w@.shape =~= online::column(like@.shape));
        r = r.plus(w);
        assert(r@.shape =~= online::column(like@.shape));
        i += 1;
    }
    assert(all.take(n as int) =~= all);
    r
}

/// The sum of the layers under the exponentials of their scores relative to `m`.
fn mix(stack: &ChunkStack, m: &Tensor<3>, like: &Tensor<3>, Ghost(p): Ghost<Place>) -> (r: Tensor<
    3,
>)
    requires
        like@.shape.len() == 3,
        array::kept_at(like@, p),
        m@.shape == online::column(like@.shape),
        array::kept_at(m@, p),
        stack.rows.len() == stack.scores.len(),
        uniform(tensor::views(stack.rows@), like@.shape, p),
        uniform(tensor::views(stack.scores@), online::column(like@.shape), p),
    ensures
        r@ == mixture(tensor::views(stack.rows@), tensor::views(stack.scores@), m@, like@),
{
    let ghost rows = tensor::views(stack.rows@);
    let ghost scores = tensor::views(stack.scores@);
    let n = stack.rows.len();
    let mut r = like.zeros_like(like.dims());
    let mut i: usize = 0;
    assert(rows.take(0) =~= Seq::<Array>::empty());
    while i < n
        invariant
            i <= n,
            n == stack.rows.len(),
            n == stack.scores.len(),
            rows == tensor::views(stack.rows@),
            scores == tensor::views(stack.scores@),
            uniform(rows, like@.shape, p),
            uniform(scores, online::column(like@.shape), p),
            like@.shape.len() == 3,
            m@.shape == online::column(like@.shape),
            array::kept_at(m@, p),
            r@ == mixture(rows.take(i as int), scores.take(i as int), m@, like@),
            r@.shape == like@.shape,
            array::kept_at(r@, p),
        decreases n - i,
    {
        assert(scores[i as int].shape == online::column(like@.shape));
        assert(rows[i as int].shape == like@.shape);
        assert(scores.take(i + 1).drop_last() =~= scores.take(i as int));
        assert(rows.take(i + 1).drop_last() =~= rows.take(i as int));
        let w = stack.scores[i].clone().minus(m.clone()).exp();
        assert(w@.shape =~= online::column(like@.shape));
        let part = w.times(stack.rows[i].clone());
        assert(part@.shape =~= like@.shape);
        r = r.plus(part);
        assert(r@.shape =~= like@.shape);
        i += 1;
    }
    assert(rows.take(n as int) =~= rows);
    assert(scores.take(n as int) =~= scores);
    r
}

/// Folds a chunk into the running attention: what one launch of the chunk computes.
pub fn attnres_chunk_kernel(stack: &ChunkStack, first: bool, like: &Tensor<3>, run: &mut Running)
    requires
        exists|p: Place|
            #[trigger] online::fits(old(run)@, like@.shape, p) && array::kept_at(like@, p)
                && uniform(tensor::views(stack.rows@), like@.shape, p) && uniform(
                tensor::views(stack.scores@),
                online::column(like@.shape),
                p,
            ),
        stack.rows.len() == stack.scores.len(),
    ensures
        final(run)@ == folded(
            old(run)@,
            tensor::views(stack.rows@),
            tensor::views(stack.scores@),
            first,
            like@,
        ),
{
    let ghost o = run@;
    let ghost rows = tensor::views(stack.rows@);
    let ghost scores = tensor::views(stack.scores@);
    let ghost p = choose|p: Place|
        #[trigger] online::fits(o, like@.shape, p) && array::kept_at(like@, p) && uniform(
            rows,
            like@.shape,
            p,
        ) && uniform(scores, online::column(like@.shape), p);
    let ghost col = online::column(like@.shape);
    let top = largest(&stack.scores, like, Ghost(p));
    proof {
        lemma_chunk_kept(rows, scores, o.max_score, like@, p);
    }
    let sum_c = total_exp(&stack.scores, &top, like, Ghost(p));
    proof {
        lemma_chunk_kept(rows, scores, top@, like@, p);
    }
    let m = run.max_s.clone().larger(top.clone());
    assert(m@.shape =~= col);
    let rescale = run.max_s.clone().minus(m.clone()).exp();
    assert(rescale@.shape =~= col);
    let kept = run.sum_e.clone().times(rescale.clone());
    assert(kept@.shape =~= col);
    let shift = top.minus(m.clone()).exp();
    assert(shift@.shape =~= col);
    let part = sum_c.times(shift);
    assert(part@.shape =~= col);
    let mixed = mix(stack, &m, like, Ghost(p));
    proof {
        lemma_chunk_kept(rows, scores, m@, like@, p);
    }
    run.acc = if first {
        mixed
    } else {
        let kept_acc = run.acc.clone().times(rescale);
        assert(kept_acc@.shape =~= like@.shape);
        kept_acc.plus(mixed)
    };
    run.sum_e = kept.plus(part);
    run.max_s = m;
}

/// Attention over the first chunks keeps the shapes and the place.
pub proof fn lemma_over_chunks_fits(query: Array, history: Seq<Array>, n: nat, p: Place)
    requires
        depth::aligned(query, history, p),
        history.len() <= usize::MAX,
        n <= launch::chunk_count(history.len()),
    ensures
        online::fits(over_chunks(query, history, n), history[0].shape, p),
    decreases n,
{
    let like = history[0];
    assert(floor_array(like).shape =~= online::column(like.shape));
    if n > 0 {
        let c = (n - 1) as nat;
        lemma_over_chunks_fits(query, history, c, p);
        lemma_chunk_uniform(query, history, c, p);
        let rows = chunk_rows(history, c);
        lemma_folded_fits(
            over_chunks(query, history, c),
            rows,
            fused_scores(query, rows),
            c == 0,
            like,
            p,
        );
    }
}

/// The layers of a chunk lie in the history, and they and their scores are of one
/// shape and place.
proof fn lemma_chunk_uniform(query: Array, history: Seq<Array>, c: nat, p: Place)
    requires
        depth::aligned(query, history, p),
        history.len() <= usize::MAX,
        c < launch::chunk_count(history.len()),
    ensures
        ({
            let k = launch::chunk(history.len(), c);
            let rows = chunk_rows(history, c);
            &&& k.start + k.rows <= history.len()
            &&& rows.len() == k.rows
            &&& uniform(rows, history[0].shape, p)
            &&& uniform(fused_scores(query, rows), online::column(history[0].shape), p)
        }),
{
    let l = history.len();
    launch::lemma_chunks_in_order(l, c);
    let k = launch::chunk(l, c);
    let rows = chunk_rows(history, c);
    assert forall|i: int| 0 <= i < rows.len() implies (#[trigger] rows[i]).shape == history[0].shape
        && array::kept_at(rows[i], p) by {
        assert(rows[i] == history[k.start + i]);
    }
    let scores = fused_scores(query, rows);
    assert forall|i: int| 0 <= i < scores.len() implies (#[trigger] scores[i]).shape
        == online::column(history[0].shape) && array::kept_at(scores[i], p) by {
        assert(rows[i].shape == history[0].shape);
        lemma_fused_score_kept(query, rows[i], p);
    }
}

/// The query and the layers.
pub open spec fn with_query(query: Array, history: Seq<Array>) -> Seq<Array> {
    seq![query] + history
}

/// Whether none of the tensors records gradients.
fn all_bare(query: &Tensor<1>, history: &[Tensor<3>]) -> (r: bool)
    requires
        array::supported(query@.element),
        forall|i: int| 0 <= i < history.len() ==> array::supported((#[trigger] history[i])@.element),
    ensures
        r == bare_on_cuda(true, with_query(query@, tensor::views(history@))),
{
    let ghost all = with_query(query@, tensor::views(history@));
    assert(all[0] == query@);
    if query.tape() != 0 {
        return false;
    }
    let mut i: usize = 0;
    while i < history.len()
        invariant
            i <= history.len(),
            all == with_query(query@, tensor::views(history@)),
            forall|j: int|
                0 <= j < history.len() ==> array::supported((#[trigger] history[j])@.element),
            forall|j: int| 0 <= j <= i ==> (#[trigger] all[j]).tape == 0,
        decreases history.len() - i,
    {
        assert(all[i + 1] == history[i as int]@);
        if history[i].tape() != 0 {
            return false;
        }
        i += 1;
    }
    true
}

/// Depth attention, chunk by chunk, where all tensors live bare on CUDA; `on_cuda` tells
/// whether their device is a CUDA device. Nothing for tensors that do not, and where there
/// is no layer, or no column.
pub fn depth_attend_cuda(history: &[Tensor<3>], query: &Tensor<1>, on_cuda: bool) -> (r: Option<
    Tensor<3>,
>)
    requires
        array::supported(query@.element),
        forall|i: int| 0 <= i < history.len() ==> array::supported((#[trigger] history[i])@.element),
        bare_on_cuda(on_cuda, with_query(query@, tensor::views(history@))) && history.len() > 0
            && history[0]@.shape[2] > 0 ==> exists|p: Place|
            #[trigger] depth::aligned(query@, tensor::views(history@), p),
    ensures
        r is None <==> !bare_on_cuda(on_cuda, with_query(query@, tensor::views(history@)))
            || history.len() == 0 || history[0]@.shape[2] == 0,
        r matches Some(out) ==> out@ == fused_depth(query@, tensor::views(history@)) && out@.shape
            == history[0]@.shape,
{
    let l = history.len();
    if !on_cuda || l == 0 || !all_bare(query, history) {
        return None;
    }
    let dims = history[0].dims();
    assert(history[0]@.shape[2] == dims[2]);
    if dims[2] == 0 {
        return None;
    }
    let ghost layers = tensor::views(history@);
    let ghost p = choose|p: Place| depth::aligned(query@, layers, p);
    assert(layers[0] == history[0]@);
    assert(array::kept_at(layers[0], p));
    let like = history[0].clone();
    let column = [dims[0], dims[1], 1usize];
    assert(array::sizes(column@) =~= online::column(like@.shape));
    let mut run = Running {
        acc: like.zeros_like(dims),
        max_s: floor(&like),
        sum_e: like.zeros_like(column),
    };
    let plan = launch::chunk_plan(l);
    let chunks = plan.len();
    let mut c: usize = 0;
    while c < chunks
        invariant
            l == history.len(),
            layers == tensor::views(history@),
            depth::aligned(query@, layers, p),
            like@ == layers[0],
            c <= chunks,
            chunks == plan.len(),
            chunks == launch::chunk_count(l as nat),
            plan@ == Seq::new(
                launch::chunk_count(l as nat),
                |c: int| launch::chunk(l as nat, c as nat),
            ),
            run@ == over_chunks(query@, layers, c as nat),
        decreases chunks - c,
    {
        let chunk = plan[c];
        let ghost rows = chunk_rows(layers, c as nat);
        assert(chunk == launch::chunk(l as nat, c as nat));
        proof {
            lemma_over_chunks_fits(query@, layers, c as nat, p);
            lemma_chunk_uniform(query@, layers, c as nat, p);
        }
        let mut stack = ChunkStack { rows: Vec::new(), scores: Vec::new() };
        let mut gi: usize = 0;
        assert(tensor::views(stack.rows@) =~= rows.take(0));
        assert(tensor::views(stack.scores@) =~= fused_scores(query@, rows.take(0)));
        while gi < chunk.rows
            invariant
                gi <= chunk.rows,
                l == history.len(),
                layers == tensor::views(history@),
                depth::aligned(query@, layers, p),
                chunk.start + chunk.rows <= l,
                rows == layers.subrange(chunk.start as int, chunk.start + chunk.rows),
                tensor::views(stack.rows@) == rows.take(gi as int),
                tensor::views(stack.scores@) == fused_scores(query@, rows.take(gi as int)),
            decreases chunk.rows - gi,
        {
            let li = chunk.start + gi;
            assert(layers[li as int].shape == layers[0].shape);
            attnres_scores_kernel(query, &history[li], &mut stack);
            assert(rows.take(gi + 1) =~= rows.take(gi as int).push(layers[li as int]));
            assert(fused_scores(query@, rows.take(gi + 1)) =~= fused_scores(
                query@,
                rows.take(gi as int),
            ).push(fused_score(query@, layers[li as int])));
            gi += 1;
        }
        assert(rows.take(chunk.rows as int) =~= rows);
        assert(stack.rows.len() == tensor::views(stack.rows@).len());
        assert(stack.scores.len() == tensor::views(stack.scores@).len());
        attnres_chunk_kernel(&stack, chunk.first, &like, &mut run);
        c += 1;
    }
    proof {
        lemma_over_chunks_fits(query@, layers, chunks as nat, p);
    }
    Some(online::divide(&run.acc, &run.sum_e))
}

/// The layers of the first `n` chunks, one chunk after the other.
pub open spec fn taken_in(history: Seq<Array>, n: nat) -> Seq<Array>
    decreases n,
{
    if n == 0 {
        Seq::empty()
    } else {
        taken_in(history, (n - 1) as nat) + chunk_rows(history, (n - 1) as nat)
    }
}

/// The chunks take in every layer once, in the order of the layers.
pub proof fn lemma_chunks_take_in_every_layer(history: Seq<Array>)
    requires
        0 < history.len() <= usize::MAX,
    ensures
        taken_in(history, launch::chunk_count(history.len())) == history,
{
    let l = history.len();
    let n = launch::chunk_count(l);
    launch::lemma_chunk_count(l);
    lemma_taken_in_prefix(history, (n - 1) as nat);
    launch::lemma_chunks_in_order(l, (n - 1) as nat);
    assert(taken_in(history, n) =~= history);
}

proof fn lemma_taken_in_prefix(history: Seq<Array>, n: nat)
    requires
        0 < history.len() <= usize::MAX,
        n < launch::chunk_count(history.len()),
    ensures
        taken_in(history, n) == history.take(launch::chunk(history.len(), n).start as int),
    decreases n,
{
    let l = history.len();
    launch::lemma_chunks_in_order(l, n);
    if n > 0 {
        let c = (n - 1) as nat;
        lemma_taken_in_prefix(history, c);
        launch::lemma_chunks_in_order(l, c);
        assert(taken_in(history, n) =~= history.take(launch::chunk(l, n).start as int));
    } else {
        assert(taken_in(history, n) =~= history.take(0));
    }
}

/// The merge of the fused path and that of the streaming state differ only in how
/// they form the larger of two scores.
pub proof fn lemma_merges_agree(o: Online, src: Array, s: Array)
    requires
        array::larger(o.max_score, s) == online::upper(o.max_score, s),
    ensures
        fused_merge(o, src, s) == online::merge(o, src, s),
{
}

} // verus!
