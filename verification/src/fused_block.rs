//! Block attention on the fused path: a step that scores and merges blocks in one pass
//! each, where the tensors live bare on CUDA.
use vstd::prelude::*;

use crate::array;
use crate::array::{Array, Place};
use crate::block;
use crate::block::{BlockAttnRes, BlockAttnState, BlockState, Sources};
use crate::fused;
use crate::online;
use crate::online::Online;
use crate::score;
use crate::tensor::Tensor;

verus! {

/// The score of a source, on the fused path where that is taken.
#[verifier::opaque]
pub open spec fn score_on(query: Array, src: Array, on_cuda: bool) -> Array {
    if fused::bare_on_cuda(on_cuda, seq![query, src]) && src.shape[2] > 0 {
        fused::fused_score(query, src)
    } else {
        score::score(query, src)
    }
}

/// Attention with one source more, on the fused path where that is taken.
#[verifier::opaque]
pub open spec fn merge_on(o: Online, src: Array, s: Array, on_cuda: bool) -> Online {
    if fused::bare_on_cuda(on_cuda, seq![o.acc, o.max_score, o.sum_exp, src, s]) && src.shape[2]
        > 0 {
        fused::fused_merge(o, src, s)
    } else {
        online::merge(o, src, s)
    }
}

/// Attention with the source `src` of score `s`.
pub open spec fn incorporated_on(
    st: BlockState,
    src: Array,
    s: Array,
    on_cuda: bool,
) -> BlockState {
    BlockState {
        online: if st.started {
            merge_on(st.online, src, s, on_cuda)
        } else {
            online::first(src, s)
        },
        started: true,
        ..st
    }
}

/// What a layer with the output `h` reads.
pub open spec fn step_output_on(query: Array, st: BlockState, h: Array, on_cuda: bool) -> Array {
    let a = block::accumulated(st, h);
    match block::sources(a) {
        Sources::Nothing => h,
        Sources::Partial => a.partial,
        Sources::Completed => online::attended(a.online),
        Sources::CompletedAndPartial => online::attended(
            merge_on(a.online, a.partial, score_on(query, a.partial, on_cuda), on_cuda),
        ),
    }
}

/// The state after a layer with the output `h`.
pub open spec fn step_state_on(
    query: Array,
    block_size: nat,
    st: BlockState,
    h: Array,
    on_cuda: bool,
) -> BlockState {
    let a = block::accumulated(st, h);
    if a.partial_count == block_size {
        BlockState {
            partial: array::zeros(h.shape, h),
            partial_count: 0,
            ..incorporated_on(a, a.partial, score_on(query, a.partial, on_cuda), on_cuda)
        }
    } else {
        a
    }
}

/// The state after the layers with the outputs `history`, in their order.
pub open spec fn run_on(
    query: Array,
    block_size: nat,
    st: BlockState,
    history: Seq<Array>,
    on_cuda: bool,
) -> BlockState
    decreases history.len(),
{
    if history.len() == 0 {
        st
    } else {
        step_state_on(
            query,
            block_size,
            run_on(query, block_size, st, history.drop_last(), on_cuda),
            history.last(),
            on_cuda,
        )
    }
}

/// What the last of the layers with the outputs `history` reads.
pub open spec fn recomputed_on(
    query: Array,
    block_size: nat,
    history: Seq<Array>,
    on_cuda: bool,
) -> Array {
    step_output_on(
        query,
        run_on(query, block_size, block::fresh(history[0]), history.drop_last(), on_cuda),
        history.last(),
        on_cuda,
    )
}

/// Attention over sources in their order, each scored against `query`.
pub open spec fn over_sources_on(query: Array, sources: Seq<Array>, on_cuda: bool) -> Online
    decreases sources.len(),
{
    let src = sources.last();
    let s = score_on(query, src, on_cuda);
    if sources.len() <= 1 {
        online::first(src, s)
    } else {
        merge_on(over_sources_on(query, sources.drop_last(), on_cuda), src, s, on_cuda)
    }
}

/// Off CUDA a run and attention over sources are those of [`block`] and [`online`].
pub proof fn lemma_run_off_cuda(
    query: Array,
    block_size: nat,
    st: BlockState,
    history: Seq<Array>,
)
    ensures
        run_on(query, block_size, st, history, false) == block::run(
            query,
            block_size,
            st,
            history,
        ),
        over_sources_on(query, history, false) == online::over_sources(query, history),
    decreases history.len(),
{
    reveal(score_on);
    reveal(merge_on);
    if history.len() > 0 {
        lemma_run_off_cuda(query, block_size, st, history.drop_last());
    }
}

/// Off CUDA a step is the step of [`BlockAttnRes::step`].
pub proof fn lemma_step_off_cuda(query: Array, block_size: nat, st: BlockState, h: Array)
    ensures
        step_output_on(query, st, h, false) == block::step_output(query, st, h),
        step_state_on(query, block_size, st, h, false) == block::step_state(
            query,
            block_size,
            st,
            h,
        ),
{
    reveal(score_on);
    reveal(merge_on);
}

/// A score has one entry per position and is kept where the source and the query are.
proof fn lemma_score_on_kept(query: Array, src: Array, on_cuda: bool, p: Place)
    requires
        score::scorable(query, src),
        array::kept_at(query, p),
        array::kept_at(src, p),
    ensures
        score_on(query, src, on_cuda).shape == online::column(src.shape),
        array::kept_at(score_on(query, src, on_cuda), p),
{
    reveal(score_on);
    score::lemma_score_kept(query, src, p);
    fused::lemma_fused_score_kept(query, src, p);
}

/// One source more keeps the shapes and the place.
proof fn lemma_merge_on_fits(o: Online, src: Array, s: Array, on_cuda: bool, p: Place)
    requires
        online::mergeable(o, src, s, p),
    ensures
        online::fits(merge_on(o, src, s, on_cuda), src.shape, p),
{
    reveal(merge_on);
    online::lemma_merge_fits(o, src, s, p);
    fused::lemma_fused_merge_fits(o, src, s, p);
}

/// A step leaves a state of the same shape and place, and what the layer reads has that
/// shape and place too.
pub proof fn lemma_step_on_fits(
    query: Array,
    block_size: nat,
    st: BlockState,
    h: Array,
    on_cuda: bool,
    p: Place,
)
    requires
        block::steppable(query, block_size, st, h, p),
    ensures
        block::fits(step_state_on(query, block_size, st, h, on_cuda), h.shape, p),
        step_output_on(query, st, h, on_cuda).shape == h.shape,
        array::kept_at(step_output_on(query, st, h, on_cuda), p),
{
    let a = block::accumulated(st, h);
    assert(a.partial.shape =~= h.shape);
    assert(array::kept_at(a.partial, p));
    if a.partial_count >= 2 || a.partial_count == block_size {
        lemma_score_on_kept(query, a.partial, on_cuda, p);
        let s = score_on(query, a.partial, on_cuda);
        online::lemma_first_fits(a.partial, s, p);
        if st.started {
            lemma_merge_on_fits(st.online, a.partial, s, on_cuda, p);
            online::lemma_attended_fits(merge_on(st.online, a.partial, s, on_cuda), h.shape, p);
        }
    }
    if st.started {
        online::lemma_attended_fits(st.online, h.shape, p);
    }
}

/// The score of a source, on the fused path where that is taken.
fn score_where(query: &Tensor<1>, src: &Tensor<3>, on_cuda: bool) -> (r: Tensor<3>)
    requires
        score::scorable(query@, src@),
    ensures
        r@ == score_on(query@, src@, on_cuda),
{
    proof {
        reveal(score_on);
    }
    match fused::source_score_cuda(query, src, on_cuda) {
        Some(s) => s,
        None => score::source_score(query, src),
    }
}

impl BlockAttnState {
    /// Takes the source `src` of score `s` into the attention, on the fused path where
    /// that is taken, and gives back the attended output.
    pub fn merge_source_on(&mut self, src: &Tensor<3>, s: &Tensor<3>, on_cuda: bool) -> (r: Tensor<
        3,
    >)
        requires
            exists|p: Place| #[trigger] online::mergeable(old(self)@.online, src@, s@, p),
        ensures
            final(self)@ == (BlockState {
                online: merge_on(old(self)@.online, src@, s@, on_cuda),
                ..old(self)@
            }),
            r@ == online::attended(merge_on(old(self)@.online, src@, s@, on_cuda)),
            r@.shape == src@.shape,
    {
        let ghost p = choose|p: Place| online::mergeable(self@.online, src@, s@, p);
        let ghost o = self@.online;
        proof {
            reveal(merge_on);
        }
        assert(fused::online_of(self.acc@, self.max_score@, self.sum_exp@) == o);
        let mut acc = self.acc.clone();
        let mut max_score = self.max_score.clone();
        let mut sum_exp = self.sum_exp.clone();
        match fused::merge_cuda(&mut acc, &mut max_score, &mut sum_exp, src, s, on_cuda) {
            Some(out) => {
                self.acc = acc;
                self.max_score = max_score;
                self.sum_exp = sum_exp;
                out
            },
            None => self.merge_source(src, s),
        }
    }
}

impl BlockAttnRes {
    /// Takes in the output `h` of the next layer and gives back what that layer reads, as
    /// [`BlockAttnRes::step`] does, with the score and the merge of a block on the fused
    /// path where the tensors live bare on CUDA; `on_cuda` tells whether their device is a
    /// CUDA device.
    pub fn step_on(&self, h: Tensor<3>, st: &mut BlockAttnState, on_cuda: bool) -> (r: Tensor<3>)
        requires
            old(st).partial_count < usize::MAX,
            exists|p: Place|
                #[trigger] block::steppable(
                    self.query@,
                    self.block_size as nat,
                    old(st)@,
                    h@,
                    p,
                ),
        ensures
            r@ == step_output_on(self.query@, old(st)@, h@, on_cuda),
            ({
                let after = step_state_on(
                    self.query@,
                    self.block_size as nat,
                    old(st)@,
                    h@,
                    on_cuda,
                );
                if after.partial_count == 0 {
                    &&& final(st)@ == block::settled(
                        after,
                        old(st).started,
                        final(st).partial@.element,
                        final(st).sum_exp@.element,
                    )
                    &&& array::supported(final(st).partial@.element)
                    &&& array::supported(final(st).sum_exp@.element)
                } else {
                    final(st)@ == after
                }
            }),
            r@.shape == h@.shape,
    {
        let ghost before = st@;
        let ghost p = choose|p: Place|
            block::steppable(self.query@, self.block_size as nat, before, h@, p);
        proof {
            lemma_step_on_fits(self.query@, self.block_size as nat, before, h@, on_cuda, p);
        }
        let started = st.started;
        st.accumulate(&h);
        assert(st@.partial.shape =~= h@.shape);
        proof {
            if st.partial_count >= 2 || st.partial_count == self.block_size {
                lemma_score_on_kept(self.query@, st@.partial, on_cuda, p);
            }
        }
        let partial = st.partial.clone();
        let out = match st.sources() {
            Sources::Nothing => h.clone(),
            Sources::Partial => partial.clone(),
            Sources::Completed => st.attended(),
            Sources::CompletedAndPartial => {
                let s = score_where(&self.query, &partial, on_cuda);
                let mut ahead = st.clone();
                assert(online::mergeable(ahead@.online, partial@, s@, p));
                ahead.merge_source_on(&partial, &s, on_cuda)
            },
        };
        if st.partial_count == self.block_size {
            let s = score_where(&self.query, &partial, on_cuda);
            if started {
                assert(online::mergeable(st@.online, partial@, s@, p));
                let _ = st.merge_source_on(&partial, &s, on_cuda);
            } else {
                assert(block::takes(st@, partial@, s@, p));
                st.take_in(&partial, &s);
            }
            st.partial = h.zeros_like(h.dims());
            st.partial_count = 0;
            assert(block::fits(st@, h@.shape, p));
            st.settle(started, &h);
        }
        out
    }
}

} // verus!
