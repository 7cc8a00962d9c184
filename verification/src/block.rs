//! Block attention residuals: plain sums within a block of layers, attention
//! between the sums.
//!
//! The outputs of the layers come one at a time. A block is the plain sum of
//! `block_size` of them. What a layer reads is attention over the completed
//! blocks and, from the second layer of a block on, the partial block. Nothing
//! else is kept, however many layers have passed.
use vstd::prelude::*;
use burn::tensor::Device;

use crate::array;
use crate::array::{Array, Place};
use crate::depth;
use crate::online;
use crate::online::Online;
use crate::place;
use crate::place::Meeting;
use crate::score;
use crate::tensor;
use crate::tensor::Tensor;

verus! {

/// The view of a [`BlockAttnState`].
#[verifier::ext_equal]
pub struct BlockState {
    /// The sum of the current block's layers; of no meaning while there are none.
    pub partial: Array,
    /// The number of the current block's layers.
    pub partial_count: nat,
    /// Attention over the completed blocks; of no meaning while there are none.
    pub online: Online,
    /// Some block is complete.
    pub started: bool,
}

/// What a layer reads.
#[derive(PartialEq, Eq, Structural)]
pub enum Sources {
    /// There is nothing to attend to: the layer's own output.
    Nothing,
    /// The partial block alone, which needs no attention.
    Partial,
    /// The completed blocks.
    Completed,
    /// The completed blocks and the partial block.
    CompletedAndPartial,
}

/// The block with the output `h` of one layer more.
pub open spec fn accumulated(st: BlockState, h: Array) -> BlockState {
    BlockState {
        partial: if st.partial_count == 0 {
            h
        } else {
            array::plus(st.partial, h)
        },
        partial_count: st.partial_count + 1,
        ..st
    }
}

/// What the layer that was just accumulated reads.
pub open spec fn sources(st: BlockState) -> Sources {
    if st.partial_count >= 2 {
        if st.started {
            Sources::CompletedAndPartial
        } else {
            Sources::Partial
        }
    } else if st.started {
        Sources::Completed
    } else {
        Sources::Nothing
    }
}

/// Attention with the source `src` of score `s`.
pub open spec fn incorporated(st: BlockState, src: Array, s: Array) -> BlockState {
    BlockState {
        online: if st.started {
            online::merge(st.online, src, s)
        } else {
            online::first(src, s)
        },
        started: true,
        ..st
    }
}

/// The current block, of score `s` and with the last layer `h`, becomes a completed
/// one, and the next block starts.
pub open spec fn closed(st: BlockState, s: Array, h: Array) -> BlockState {
    BlockState {
        partial: array::zeros(h.shape, h),
        partial_count: 0,
        ..incorporated(st, st.partial, s)
    }
}

/// A state whose last block was just completed, `started` telling whether another one was
/// complete before: what was made anew is in the element types `partial` and `sum`.
pub open spec fn settled(st: BlockState, started: bool, partial: nat, sum: nat) -> BlockState {
    BlockState {
        partial: Array { element: partial, ..st.partial },
        online: if started {
            st.online
        } else {
            Online { sum_exp: remade(st.online.sum_exp, sum), ..st.online }
        },
        ..st
    }
}

/// Every element one, in another element type.
pub open spec fn remade(x: Array, element: nat) -> Array {
    array::ones(x.shape, Array { element, ..x })
}

/// Two states that differ at most in what has no meaning.
pub open spec fn alike(a: BlockState, b: BlockState) -> bool {
    &&& a.partial_count == b.partial_count
    &&& a.started == b.started
    &&& a.partial_count > 0 ==> a.partial == b.partial
    &&& a.started ==> a.online == b.online
}

/// What a layer with the output `h` reads.
pub open spec fn step_output(query: Array, st: BlockState, h: Array) -> Array {
    let a = accumulated(st, h);
    match sources(a) {
        Sources::Nothing => h,
        Sources::Partial => a.partial,
        Sources::Completed => online::attended(a.online),
        Sources::CompletedAndPartial => online::attended(
            online::merge(a.online, a.partial, score::score(query, a.partial)),
        ),
    }
}

/// The state after a layer with the output `h`.
pub open spec fn step_state(query: Array, block_size: nat, st: BlockState, h: Array) -> BlockState {
    let a = accumulated(st, h);
    if a.partial_count == block_size {
        closed(a, score::score(query, a.partial), h)
    } else {
        a
    }
}

/// A state of `[b, t, d]` layers, kept at `p`.
pub open spec fn fits(st: BlockState, shape: Seq<nat>, p: Place) -> bool {
    &&& shape.len() == 3
    &&& st.partial_count > 0 ==> st.partial.shape == shape && array::kept_at(st.partial, p)
    &&& st.started ==> online::fits(st.online, shape, p)
}

/// A step is defined. The query matters where a block is scored: from the second
/// layer of a block on, and at a block's last layer.
pub open spec fn steppable(
    query: Array,
    block_size: nat,
    st: BlockState,
    h: Array,
    p: Place,
) -> bool {
    &&& fits(st, h.shape, p)
    &&& array::kept_at(h, p)
    &&& st.partial_count >= 1 || block_size == 1 ==> scores_at(query, h.shape, p)
}

/// Sources of this shape that are kept at `p` can be scored against the query.
pub open spec fn scores_at(query: Array, shape: Seq<nat>, p: Place) -> bool {
    &&& shape[2] > 0
    &&& query.shape == seq![shape[2]]
    &&& array::kept_at(query, p)
}

/// A source `src` of score `s` can be taken in at `p`, as the first one or as one
/// more.
pub open spec fn takes(st: BlockState, src: Array, s: Array, p: Place) -> bool {
    &&& src.shape.len() == 3
    &&& array::kept_at(src, p)
    &&& s.shape == online::column(src.shape)
    &&& array::kept_at(s, p)
    &&& st.started ==> online::fits(st.online, src.shape, p)
}

/// No layer has been seen. The arrays have no meaning yet; here they are zero and kept as
/// `h` is.
pub open spec fn fresh(h: Array) -> BlockState {
    BlockState {
        partial: array::zeros(h.shape, h),
        partial_count: 0,
        online: Online {
            max_score: array::zeros(online::column(h.shape), h),
            sum_exp: array::zeros(online::column(h.shape), h),
            acc: array::zeros(h.shape, h),
        },
        started: false,
    }
}

/// The state after the layers with the outputs `history`, in their order.
pub open spec fn run(
    query: Array,
    block_size: nat,
    st: BlockState,
    history: Seq<Array>,
) -> BlockState
    decreases history.len(),
{
    if history.len() == 0 {
        st
    } else {
        step_state(query, block_size, run(query, block_size, st, history.drop_last()), history.last())
    }
}

/// What the last of the layers with the outputs `history` reads.
pub open spec fn recomputed(query: Array, block_size: nat, history: Seq<Array>) -> Array {
    step_output(
        query,
        run(query, block_size, fresh(history[0]), history.drop_last()),
        history.last(),
    )
}

/// A full recompute is defined for these layers and this query.
pub open spec fn recomputable(query: Array, history: Seq<Array>) -> bool {
    history.len() == 1 || exists|p: Place| #[trigger] depth::aligned(query, history, p)
}

/// A step leaves a state of the same shape and place, and what the layer reads
/// has that shape and place too.
pub proof fn lemma_step_fits(query: Array, block_size: nat, st: BlockState, h: Array, p: Place)
    requires
        steppable(query, block_size, st, h, p),
    ensures
        fits(step_state(query, block_size, st, h), h.shape, p),
        step_output(query, st, h).shape == h.shape,
        array::kept_at(step_output(query, st, h), p),
{
    let a = accumulated(st, h);
    assert(a.partial.shape =~= h.shape);
    assert(array::kept_at(a.partial, p));
    if a.partial_count >= 2 || a.partial_count == block_size {
        score::lemma_score_kept(query, a.partial, p);
        let s = score::score(query, a.partial);
        online::lemma_first_fits(a.partial, s, p);
        if st.started {
            online::lemma_merge_fits(st.online, a.partial, s, p);
            online::lemma_attended_fits(online::merge(st.online, a.partial, s), h.shape, p);
        }
    }
    if st.started {
        online::lemma_attended_fits(st.online, h.shape, p);
    }
}

/// Streaming state: attention over the completed blocks, and the partial block.
pub struct BlockAttnState {
    /// Sum of the current block's layer outputs.
    pub partial: Tensor<3>,
    /// Number of the current block's layer outputs.
    pub partial_count: usize,
    /// Attention over the completed blocks: the largest score.
    pub max_score: Tensor<3>,
    /// Attention over the completed blocks: the sum of the exponentials.
    pub sum_exp: Tensor<3>,
    /// Attention over the completed blocks: their sum under the exponentials.
    pub acc: Tensor<3>,
    /// Whether some block is complete.
    pub started: bool,
}

impl View for BlockAttnState {
    type V = BlockState;

    open spec fn view(&self) -> BlockState {
        BlockState {
            partial: self.partial@,
            partial_count: self.partial_count as nat,
            online: Online {
                max_score: self.max_score@,
                sum_exp: self.sum_exp@,
                acc: self.acc@,
            },
            started: self.started,
        }
    }
}

impl Clone for BlockAttnState {
    fn clone(&self) -> (r: Self)
        ensures
            r@ == self@,
    {
        BlockAttnState {
            partial: self.partial.clone(),
            partial_count: self.partial_count,
            max_score: self.max_score.clone(),
            sum_exp: self.sum_exp.clone(),
            acc: self.acc.clone(),
            started: self.started,
        }
    }
}

impl BlockAttnState {
    /// The attended output of the sources so far.
    pub fn attended(&self) -> (r: Tensor<3>)
        requires
            self.sum_exp@.shape == online::column(self.acc@.shape),
            array::can_meet(self.acc@, self.sum_exp@),
        ensures
            r@ == online::attended(self@.online),
            r@.shape == self.acc@.shape,
    {
        online::divide(&self.acc, &self.sum_exp)
    }

    /// Takes the source `src` of score `s` into the attention, and gives back the
    /// attended output.
    pub fn merge_source(&mut self, src: &Tensor<3>, s: &Tensor<3>) -> (r: Tensor<3>)
        requires
            exists|p: Place| #[trigger] online::mergeable(old(self)@.online, src@, s@, p),
        ensures
            final(self)@ == (BlockState {
                online: online::merge(old(self)@.online, src@, s@),
                ..old(self)@
            }),
            r@ == online::attended(online::merge(old(self)@.online, src@, s@)),
            r@.shape == src@.shape,
    {
        let ghost p = choose|p: Place| online::mergeable(self@.online, src@, s@, p);
        proof {
            online::lemma_merge_fits(self@.online, src@, s@, p);
        }
        let m_new = self.max_score.clone().plus(s.clone()).plus(
            self.max_score.clone().minus(s.clone()).abs(),
        ).over_int(2);
        let rescale = self.max_score.clone().minus(m_new.clone()).exp();
        let w = s.clone().minus(m_new.clone()).exp();
        self.acc = self.acc.clone().times(rescale.clone()).plus(src.clone().times(w.clone()));
        self.sum_exp = self.sum_exp.clone().times(rescale).plus(w);
        self.max_score = m_new;
        assert(online::fits(self@.online, src@.shape, p));
        self.attended()
    }

    /// Adds the output `h` of a layer to the current block.
    pub fn accumulate(&mut self, h: &Tensor<3>)
        requires
            old(self).partial_count < usize::MAX,
            exists|p: Place|
                #[trigger] fits(old(self)@, h@.shape, p) && array::kept_at(h@, p),
        ensures
            final(self)@ == accumulated(old(self)@, h@),
    {
        self.partial = if self.partial_count == 0 {
            h.clone()
        } else {
            self.partial.clone().plus(h.clone())
        };
        self.partial_count += 1;
    }

    /// What the layer that was just accumulated reads.
    pub fn sources(&self) -> (r: Sources)
        ensures
            r == sources(self@),
    {
        if self.partial_count >= 2 {
            if self.started {
                Sources::CompletedAndPartial
            } else {
                Sources::Partial
            }
        } else if self.started {
            Sources::Completed
        } else {
            Sources::Nothing
        }
    }

    /// Takes the source `src` of score `s` into the attention. The first source
    /// makes the state, in the source's element type.
    pub(crate) fn take_in(&mut self, src: &Tensor<3>, s: &Tensor<3>)
        requires
            exists|p: Place| #[trigger] takes(old(self)@, src@, s@, p),
        ensures
            final(self)@ == incorporated(old(self)@, src@, s@),
    {
        if !self.started {
            let dims = src.dims();
            let column = [dims[0], dims[1], 1usize];
            assert(array::sizes(column@) =~= online::column(src@.shape));
            self.max_score = s.clone();
            self.sum_exp = src.ones_like(column);
            self.acc = src.clone();
            self.started = true;
        } else {
            let ghost p = choose|p: Place| takes(self@, src@, s@, p);
            assert(online::mergeable(self@.online, src@, s@, p));
            let _ = self.merge_source(src, s);
        }
    }

    /// Takes the source `src` into the attention. With the first source, the sum of the
    /// exponentials is made in the element type that the source's device is set to use.
    pub fn incorporate(&mut self, query: &Tensor<1>, src: &Tensor<3>)
        requires
            exists|p: Place|
                #[trigger] scores_at(query@, src@.shape, p) && array::kept_at(src@, p) && (old(
                    self,
                ).started ==> online::fits(old(self)@.online, src@.shape, p)),
            src@.shape.len() == 3,
        ensures
            ({
                let st = incorporated(old(self)@, src@, score::score(query@, src@));
                final(self)@ == (BlockState {
                    online: if old(self).started {
                        st.online
                    } else {
                        Online {
                            sum_exp: remade(st.online.sum_exp, final(self).sum_exp@.element),
                            ..st.online
                        }
                    },
                    ..st
                })
            }),
            array::supported(final(self).sum_exp@.element),
    {
        let ghost p = choose|p: Place|
            #[trigger] scores_at(query@, src@.shape, p) && array::kept_at(src@, p) && (
            self.started ==> online::fits(self@.online, src@.shape, p));
        proof {
            score::lemma_score_kept(query@, src@, p);
        }
        let s = score::source_score(query, src);
        assert(takes(self@, src@, s@, p));
        let started = self.started;
        proof {
            if started {
                online::lemma_merge_fits(self@.online, src@, s@, p);
            }
        }
        self.take_in(src, &s);
        if !started {
            let dims = src.dims();
            let column = [dims[0], dims[1], 1usize];
            assert(array::sizes(column@) =~= online::column(src@.shape));
            self.sum_exp = Tensor::<3>::ones(column, &src.device());
        }
    }
}

impl BlockAttnState {
    /// The state before the first layer, for `[b, t, d]` layers.
    pub fn new(b: usize, t: usize, d: usize, device: &Device) -> (r: Self)
        ensures
            r.partial_count == 0,
            !r.started,
            tensor::zeros_on(r.partial@, seq![b as nat, t as nat, d as nat], *device),
            tensor::zeros_on(r.max_score@, seq![b as nat, t as nat, 1], *device),
            tensor::zeros_on(r.sum_exp@, seq![b as nat, t as nat, 1], *device),
            tensor::zeros_on(r.acc@, seq![b as nat, t as nat, d as nat], *device),
    {
        let full = [b, t, d];
        let column = [b, t, 1usize];
        assert(array::sizes(full@) =~= seq![b as nat, t as nat, d as nat]);
        assert(array::sizes(column@) =~= seq![b as nat, t as nat, 1]);
        BlockAttnState {
            partial: Tensor::<3>::zeros(full, device),
            partial_count: 0,
            max_score: Tensor::<3>::zeros(column, device),
            sum_exp: Tensor::<3>::zeros(column, device),
            acc: Tensor::<3>::zeros(full, device),
            started: false,
        }
    }

    /// Takes the current block, of score `s` and with the last layer `h`, into the
    /// attention, and starts the next block. What is made anew is in the element type of
    /// the layer.
    fn finish(&mut self, s: &Tensor<3>, h: &Tensor<3>)
        requires
            exists|p: Place| #[trigger] takes(old(self)@, old(self)@.partial, s@, p),
            array::supported(h@.element),
        ensures
            final(self)@ == closed(old(self)@, s@, h@),
    {
        let completed = self.partial.clone();
        self.take_in(&completed, s);
        self.partial = h.zeros_like(h.dims());
        self.partial_count = 0;
    }

    /// Makes what the closing of a block with the last layer `h` made anew in the element
    /// type that the device is set to use.
    pub(crate) fn settle(&mut self, started: bool, h: &Tensor<3>)
        requires
            array::supported(h@.element),
            array::supported(old(self).acc@.element),
            old(self)@.partial == array::zeros(h@.shape, h@),
            !started ==> old(self)@.online.sum_exp == array::ones(
                online::column(old(self).acc@.shape),
                old(self).acc@,
            ),
        ensures
            final(self)@ == settled(
                old(self)@,
                started,
                final(self).partial@.element,
                final(self).sum_exp@.element,
            ),
            array::supported(final(self).partial@.element),
            !started ==> array::supported(final(self).sum_exp@.element),
    {
        self.partial = Tensor::<3>::zeros(h.dims(), &h.device());
        if !started {
            let dims = self.acc.dims();
            let column = [dims[0], dims[1], 1usize];
            assert(array::sizes(column@) =~= online::column(self.acc@.shape));
            self.sum_exp = Tensor::<3>::ones(column, &self.acc.device());
        }
    }

    /// Takes the current block, of score `s` and with the last layer `h`, into the
    /// attention, and starts the next block. What is made anew is in the element type that
    /// the device is set to use.
    pub fn close(&mut self, s: &Tensor<3>, h: &Tensor<3>)
        requires
            exists|p: Place| #[trigger] takes(old(self)@, old(self)@.partial, s@, p),
            array::supported(h@.element),
        ensures
            final(self)@ == settled(
                closed(old(self)@, s@, h@),
                old(self).started,
                final(self).partial@.element,
                final(self).sum_exp@.element,
            ),
            array::supported(final(self).partial@.element),
            array::supported(final(self).sum_exp@.element),
    {
        let ghost p = choose|p: Place| #[trigger] takes(self@, self@.partial, s@, p);
        let started = self.started;
        proof {
            if started {
                online::lemma_merge_fits(self@.online, self@.partial, s@, p);
            }
        }
        self.finish(s, h);
        self.settle(started, h);
    }

    /// Starts the next block with attention over the completed blocks that the last one,
    /// with the last layer `h`, is already merged into.
    pub fn close_merged(
        &mut self,
        acc: Tensor<3>,
        max_score: Tensor<3>,
        sum_exp: Tensor<3>,
        h: &Tensor<3>,
    )
        requires
            array::supported(h@.element),
        ensures
            final(self)@ == (BlockState {
                partial: Array {
                    element: final(self).partial@.element,
                    ..array::zeros(h@.shape, h@)
                },
                partial_count: 0,
                online: Online { max_score: max_score@, sum_exp: sum_exp@, acc: acc@ },
                started: true,
            }),
            array::supported(final(self).partial@.element),
    {
        self.acc = acc;
        self.max_score = max_score;
        self.sum_exp = sum_exp;
        self.started = true;
        self.partial = Tensor::<3>::zeros(h.dims(), &h.device());
        self.partial_count = 0;
    }
}

/// Block attention residuals: a learned pseudo-query attends over blocks of
/// `block_size` layers.
pub struct BlockAttnRes {
    pub query: Tensor<1>,
    pub block_size: usize,
}

impl BlockAttnRes {
    /// The query starts at zero, which weighs all blocks alike.
    pub fn new(d_model: usize, block_size: usize, device: &Device) -> (r: Self)
        ensures
            tensor::zeros_on(r.query@, seq![d_model as nat], *device),
            r.block_size == block_size,
    {
        let shape = [d_model];
        assert(array::sizes(shape@) =~= seq![d_model as nat]);
        BlockAttnRes { query: Tensor::<1>::zeros(shape, device), block_size }
    }

    /// A state for [`BlockAttnRes::step`] before the first layer.
    pub fn init_state(&self, b: usize, t: usize, d: usize, device: &Device) -> (r: BlockAttnState)
        ensures
            r.partial_count == 0,
            !r.started,
            tensor::zeros_on(r.partial@, seq![b as nat, t as nat, d as nat], *device),
            tensor::zeros_on(r.max_score@, seq![b as nat, t as nat, 1], *device),
            tensor::zeros_on(r.sum_exp@, seq![b as nat, t as nat, 1], *device),
            tensor::zeros_on(r.acc@, seq![b as nat, t as nat, d as nat], *device),
    {
        BlockAttnState::new(b, t, d, device)
    }

    /// Whether a step with the output `h` of the next layer is defined.
    pub fn can_step(&self, h: &Tensor<3>, st: &BlockAttnState) -> (r: bool)
        ensures
            r == (st.partial_count < usize::MAX && exists|p: Place|
                #[trigger] steppable(self.query@, self.block_size as nat, st@, h@, p)),
    {
        let ghost (query, size, state) = (self.query@, self.block_size as nat, st@);
        let dims = h.dims();
        assert(h@.shape =~= seq![dims[0] as nat, dims[1] as nat, dims[2] as nat]);
        if st.partial_count == usize::MAX {
            return false;
        }
        if st.partial_count > 0 && !st.partial.same_shape(h) {
            return false;
        }
        if st.started && (!st.acc.same_shape(h) || !online::is_column(&st.max_score, h)
            || !online::is_column(&st.sum_exp, h)) {
            return false;
        }
        let scored = st.partial_count >= 1 || self.block_size == 1;
        let width = self.query.dims();
        assert(query.shape =~= seq![width[0] as nat]);
        if scored && (dims[2] == 0 || width[0] != dims[2]) {
            assert(query.shape[0] == width[0]);
            assert(forall|p: Place| !scores_at(query, h@.shape, p));
            return false;
        }
        let mut all = match Meeting::of(h) {
            Some(m) => m,
            None => {
                return false;
            },
        };
        let met = (st.partial_count == 0 || all.join(&st.partial)) && (!st.started || (all.join(
            &st.acc,
        ) && all.join(&st.max_score) && all.join(&st.sum_exp))) && (!scored || all.join(
            &self.query,
        ));
        if met {
            assert(place::allows(all.place(), all.place()));
            assert(steppable(query, size, state, h@, all.place()));
        } else {
            assert forall|p: Place| !#[trigger] steppable(query, size, state, h@, p) by {
                if steppable(query, size, state, h@, p) {
                    assert(array::kept_at(h@, p));
                }
            }
        }
        met
    }

    /// Whether a full recompute is defined for these layers.
    pub fn can_forward(&self, history: &[Tensor<3>]) -> (r: bool)
        ensures
            r == recomputable(self.query@, tensor::views(history@)),
    {
        history.len() == 1 || depth::can_align(&self.query, history)
    }

    /// A step that makes what it makes anew in the element type of the layers.
    fn advance(&self, h: Tensor<3>, st: &mut BlockAttnState) -> (r: Tensor<3>)
        requires
            old(st).partial_count < usize::MAX,
            exists|p: Place|
                #[trigger] steppable(self.query@, self.block_size as nat, old(st)@, h@, p),
        ensures
            r@ == step_output(self.query@, old(st)@, h@),
            final(st)@ == step_state(self.query@, self.block_size as nat, old(st)@, h@),
            r@.shape == h@.shape,
    {
        let ghost before = st@;
        let ghost p = choose|p: Place|
            steppable(self.query@, self.block_size as nat, before, h@, p);
        proof {
            lemma_step_fits(self.query@, self.block_size as nat, before, h@, p);
        }
        st.accumulate(&h);
        assert(st@.partial.shape =~= h@.shape);
        proof {
            if st.partial_count >= 2 || st.partial_count == self.block_size {
                score::lemma_score_kept(self.query@, st@.partial, p);
            }
        }
        let out = match st.sources() {
            Sources::Nothing => h.clone(),
            Sources::Partial => st.partial.clone(),
            Sources::Completed => st.attended(),
            Sources::CompletedAndPartial => {
                let s = score::source_score(&self.query, &st.partial);
                let mut ahead = st.clone();
                assert(online::mergeable(ahead@.online, st@.partial, s@, p));
                ahead.merge_source(&st.partial, &s)
            },
        };
        if st.partial_count == self.block_size {
            let s = score::source_score(&self.query, &st.partial);
            assert(takes(st@, st@.partial, s@, p));
            st.finish(&s, &h);
        }
        out
    }

    /// Takes in the output `h` of the next layer and gives back what that layer
    /// reads: attention over the completed blocks and, from the second layer of a
    /// block on, the partial block. The first layer of a block does not read its
    /// own output, but for the very first one, which has nothing else to read. At
    /// the last layer of a block, the block joins the completed ones.
    ///
    /// What is made anew with a completed block, the sum of the next block and, the first
    /// time, the sum of the exponentials, is in the element type that the layer's device is
    /// set to use.
    pub fn step(&self, h: Tensor<3>, st: &mut BlockAttnState) -> (r: Tensor<3>)
        requires
            old(st).partial_count < usize::MAX,
            exists|p: Place|
                #[trigger] steppable(self.query@, self.block_size as nat, old(st)@, h@, p),
        ensures
            r@ == step_output(self.query@, old(st)@, h@),
            ({
                let after = step_state(self.query@, self.block_size as nat, old(st)@, h@);
                if after.partial_count == 0 {
                    &&& final(st)@ == settled(
                        after,
                        old(st).started,
                        final(st).partial@.element,
                        final(st).sum_exp@.element,
                    )
                    &&& array::supported(final(st).partial@.element)
                    &&& array::supported(final(st).sum_exp@.element)
                } else {
                    final(st)@ == after
                }
            }),
            r@.shape == h@.shape,
    {
        let ghost before = st@;
        let ghost p = choose|p: Place|
            steppable(self.query@, self.block_size as nat, before, h@, p);
        proof {
            lemma_step_fits(self.query@, self.block_size as nat, before, h@, p);
        }
        let started = st.started;
        let last = h.clone();
        let out = self.advance(h, st);
        if st.partial_count == 0 {
            assert(fits(st@, last@.shape, p));
            st.settle(started, &last);
        }
        out
    }

    /// What the last of the layers reads, from the outputs of all layers: blocks of
    /// `block_size` layers, the last of them possibly partial, and attention over
    /// their plain sums. A single layer reads its own output.
    pub fn forward(&self, history: &[Tensor<3>]) -> (r: Tensor<3>)
        requires
            recomputable(self.query@, tensor::views(history@)),
        ensures
            r@ == recomputed(self.query@, self.block_size as nat, tensor::views(history@)),
            r@.shape == history[0]@.shape,
    {
        let ghost layers = tensor::views(history@);
        let n = history.len();
        assert(layers[0] == history[0]@);
        if n == 1 {
            return history[0].clone();
        }
        let ghost p = choose|p: Place| depth::aligned(self.query@, layers, p);
        let ghost size = self.block_size as nat;
        assert(array::kept_at(layers[0], p));
        let dims = history[0].dims();
        let mut st = BlockAttnState::new(dims[0], dims[1], dims[2], &history[0].device());
        let mut last = history[0].clone();
        let mut i: usize = 0;
        assert(layers.take(0) =~= Seq::<Array>::empty());
        while i < n
            invariant
                n == history.len(),
                i <= n,
                n > 1,
                size == self.block_size,
                layers == tensor::views(history@),
                depth::aligned(self.query@, layers, p),
                alike(st@, run(self.query@, size, fresh(layers[0]), layers.take(i as int))),
                st.partial_count <= i,
                fits(st@, layers[0].shape, p),
                last@.shape == layers[0].shape,
                i > 0 ==> last@ == recomputed(self.query@, size, layers.take(i as int)),
            decreases n - i,
        {
            let ghost upto = layers.take(i + 1);
            assert(upto.drop_last() =~= layers.take(i as int));
            assert(upto.last() == history[i as int]@);
            assert(upto[0] == layers[0]);
            assert(layers[i as int].shape == layers[0].shape);
            assert(steppable(self.query@, size, st@, layers[i as int], p));
            proof {
                lemma_step_fits(self.query@, size, st@, layers[i as int], p);
            }
            last = self.advance(history[i].clone(), &mut st);
            i += 1;
        }
        assert(layers.take(n as int) =~= layers);
        last
    }
}

} // verus!
