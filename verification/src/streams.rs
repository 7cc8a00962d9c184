//! What a step of block attention reads and leaves, case by case, on every path.
use vstd::prelude::*;

use burn::tensor::Device;

use crate::array;
use crate::array::{Array, Place};
use crate::backward;
use crate::block;
use crate::block::BlockState;
use crate::depth;
use crate::elements;
use crate::fused;
use crate::fused_block;
use crate::graph;
use crate::laws;
use crate::online;
use crate::online::Online;
use crate::positions;
use crate::score;
use crate::tensor;

verus! {

// ---- which path is taken ----

/// The fused path is taken where the device is a CUDA device, no tensor records gradients
/// and there is a column. Everywhere else, and so for tensors that record gradients on a
/// CUDA device too, a score is the score of the tensor path.
pub proof fn lemma_score_path(query: Array, src: Array, on_cuda: bool)
    ensures
        on_cuda && query.tape == 0 && src.tape == 0 && src.shape[2] > 0 ==> fused_block::score_on(
            query,
            src,
            on_cuda,
        ) == fused::fused_score(query, src),
        !(on_cuda && query.tape == 0 && src.tape == 0 && src.shape[2] > 0)
            ==> fused_block::score_on(query, src, on_cuda) == score::score(query, src),
{
    reveal(fused_block::score_on);
    let all = seq![query, src];
    assert(all[0] == query && all[1] == src);
}

/// The fused path is taken where the device is a CUDA device, no tensor records gradients
/// and there is a column. Everywhere else, and so for tensors that record gradients on a
/// CUDA device too, a merge is the merge of the tensor path.
pub proof fn lemma_merge_path(o: Online, src: Array, s: Array, on_cuda: bool)
    ensures
        on_cuda && o.acc.tape == 0 && o.max_score.tape == 0 && o.sum_exp.tape == 0 && src.tape == 0
            && s.tape == 0 && src.shape[2] > 0 ==> fused_block::merge_on(o, src, s, on_cuda)
            == fused::fused_merge(o, src, s),
        !(on_cuda && o.acc.tape == 0 && o.max_score.tape == 0 && o.sum_exp.tape == 0 && src.tape
            == 0 && s.tape == 0 && src.shape[2] > 0) ==> fused_block::merge_on(o, src, s, on_cuda)
            == online::merge(o, src, s),
{
    reveal(fused_block::merge_on);
    let all = seq![o.acc, o.max_score, o.sum_exp, src, s];
    assert(all[0] == o.acc && all[1] == o.max_score && all[2] == o.sum_exp && all[3] == src
        && all[4] == s);
}

/// A merge never lets go of what was attended to before, whichever path is taken and
/// whether or not gradients are recorded: at every position the weighted sum is the one
/// before, brought to the new largest score, and the source under its weight, and the sum
/// of the weights likewise.
pub proof fn lemma_merge_keeps_sources(
    o: Online,
    src: Array,
    s: Array,
    on_cuda: bool,
    b: nat,
    t: nat,
    d: nat,
    m: nat,
    c: nat,
)
    requires
        o.max_score.shape == seq![b, t, 1],
        o.max_score.data.len() == b * t,
        o.max_score.element == src.element,
        o.acc.shape == seq![b, t, d],
        o.acc.data.len() == b * t * d,
        o.acc.element == src.element,
        o.sum_exp.shape == seq![b, t, 1],
        o.sum_exp.data.len() == b * t,
        o.sum_exp.element == src.element,
        src.shape == seq![b, t, d],
        src.data.len() == b * t * d,
        s.shape == seq![b, t, 1],
        s.data.len() == b * t,
        s.element == src.element,
        m < b * t,
        c < d,
    ensures
        ({
            let e = src.element;
            let i = m as int;
            let j = (m * d + c) as int;
            let r = fused_block::merge_on(o, src, s, on_cuda);
            let top = r.max_score.data[i];
            let rescale = array::exp_code(e, array::sub_code(e, o.max_score.data[i], top));
            let w = array::exp_code(e, array::sub_code(e, s.data[i], top));
            &&& r.sum_exp.data[i] == array::add_code(
                e,
                array::mul_code(e, o.sum_exp.data[i], rescale),
                w,
            )
            &&& r.acc.data[j] == array::add_code(
                e,
                array::mul_code(e, o.acc.data[j], rescale),
                array::mul_code(e, src.data[j], w),
            )
        }),
{
    lemma_merge_path(o, src, s, on_cuda);
    elements::lemma_merge(o, src, s, b, t, d, m, c);
    elements::lemma_fused_merge(o, src, s, b, t, d, m, c);
}

/// Sources or a query that record gradients keep all of attention on the tensor path.
pub proof fn lemma_recorded_sources(query: Array, sources: Seq<Array>, on_cuda: bool)
    requires
        sources.len() > 0,
        query.tape != 0 || forall|i: int| 0 <= i < sources.len() ==> (#[trigger] sources[i]).tape
            != 0,
    ensures
        fused_block::over_sources_on(query, sources, on_cuda) == online::over_sources(
            query,
            sources,
        ),
    decreases sources.len(),
{
    let src = sources.last();
    let s = score::score(query, src);
    assert(sources[sources.len() - 1] == src);
    lemma_score_path(query, src, on_cuda);
    if sources.len() > 1 {
        let before = sources.drop_last();
        assert forall|i: int| 0 <= i < before.len() && query.tape == 0 implies (
        #[trigger] before[i]).tape != 0 by {
            assert(before[i] == sources[i]);
        }
        lemma_recorded_sources(query, before, on_cuda);
        lemma_merge_path(online::over_sources(query, before), src, s, on_cuda);
        assert(query.tape != 0 ==> s.tape != 0);
    }
}

proof fn lemma_recorded_block(layers: Seq<Array>)
    requires
        layers.len() > 0,
        forall|i: int| 0 <= i < layers.len() ==> (#[trigger] layers[i]).tape != 0,
    ensures
        laws::block_sum(layers).tape != 0,
    decreases layers.len(),
{
    assert(layers[layers.len() - 1] == layers.last());
    if layers.len() > 1 {
        let before = layers.drop_last();
        assert forall|i: int| 0 <= i < before.len() implies (#[trigger] before[i]).tape != 0 by {
            assert(before[i] == layers[i]);
        }
        lemma_recorded_block(before);
    }
}

/// Where gradients are recorded, what a layer reads does not depend on whether the device
/// is a CUDA device.
pub proof fn lemma_recorded_read(
    query: Array,
    block_size: nat,
    history: Seq<Array>,
    on_cuda: bool,
)
    requires
        block_size > 0,
        history.len() > 0,
        query.tape != 0 || forall|i: int| 0 <= i < history.len() ==> (#[trigger] history[i]).tape
            != 0,
    ensures
        fused_block::recomputed_on(query, block_size, history, on_cuda) == block::recomputed(
            query,
            block_size,
            history,
        ),
{
    laws::lemma_attends_over_blocks_on(query, block_size, history, on_cuda);
    laws::lemma_attends_over_blocks(query, block_size, history);
    let n = history.len();
    if n > block_size {
        let sources = laws::attended_sources(history, block_size);
        let k = ((n - 1) as nat) / block_size;
        vstd::arithmetic::div_mod::lemma_fundamental_div_mod((n - 1) as int, block_size as int);
        assert(block_size * k == k * block_size) by (nonlinear_arith);
        assert forall|i: int| 0 <= i < sources.len() && query.tape == 0 implies (
        #[trigger] sources[i]).tape != 0 by {
            let part = if i < k {
                history.subrange(i * block_size, (i + 1) * block_size)
            } else {
                history.subrange((k * block_size) as int, n as int)
            };
            if i < k {
                assert(0 <= i * block_size < (i + 1) * block_size <= k * block_size)
                    by (nonlinear_arith)
                    requires
                        0 <= i,
                        i + 1 <= k,
                        block_size > 0,
                ;
            }
            assert(sources[i] == laws::block_sum(part));
            assert forall|j: int| 0 <= j < part.len() implies (#[trigger] part[j]).tape != 0 by {
                let from = if i < k {
                    i * block_size
                } else {
                    (k * block_size) as int
                };
                assert(part[j] == history[from + j]);
            }
            lemma_recorded_block(part);
        }
        lemma_recorded_sources(query, sources, on_cuda);
    }
}

// ---- one step ----

/// What a layer reads. The very first one reads its own output; further ones of the first
/// block read the plain sum so far; the first of a later block reads attention over the
/// completed blocks; every other one reads attention over the completed blocks and the
/// plain sum of its own block so far.
pub proof fn lemma_step_reads(query: Array, st: BlockState, h: Array)
    ensures
        ({
            let out = block::step_output(query, st, h);
            let sum = array::plus(st.partial, h);
            &&& st.partial_count == 0 && !st.started ==> out == h
            &&& st.partial_count > 0 && !st.started ==> out == sum
            &&& st.partial_count == 0 && st.started ==> out == online::attended(st.online)
            &&& st.partial_count > 0 && st.started ==> out == online::attended(
                online::merge(st.online, sum, score::score(query, sum)),
            )
        }),
{
}

/// What a layer reads on the fused path, where that is taken.
pub proof fn lemma_step_reads_on(query: Array, st: BlockState, h: Array, on_cuda: bool)
    ensures
        ({
            let out = fused_block::step_output_on(query, st, h, on_cuda);
            let sum = array::plus(st.partial, h);
            &&& st.partial_count == 0 && !st.started ==> out == h
            &&& st.partial_count > 0 && !st.started ==> out == sum
            &&& st.partial_count == 0 && st.started ==> out == online::attended(st.online)
            &&& st.partial_count > 0 && st.started ==> out == online::attended(
                fused_block::merge_on(
                    st.online,
                    sum,
                    fused_block::score_on(query, sum, on_cuda),
                    on_cuda,
                ),
            )
        }),
{
}

/// The state that a step leaves. A layer is added to its block and nothing else changes,
/// but for the last layer of a block: then the sum of the block is taken into the
/// attention, as its first source or as one more, and the next block starts at zero.
pub proof fn lemma_step_leaves(query: Array, block_size: nat, st: BlockState, h: Array)
    ensures
        ({
            let after = block::step_state(query, block_size, st, h);
            let sum = if st.partial_count == 0 {
                h
            } else {
                array::plus(st.partial, h)
            };
            let s = score::score(query, sum);
            if st.partial_count + 1 == block_size {
                &&& after.started
                &&& after.partial_count == 0
                &&& after.partial.shape == h.shape
                &&& after.partial.data == Seq::new(array::volume(h.shape), |i: int| 0nat)
                &&& after.partial.device == h.device
                &&& after.partial.element == h.element
                &&& after.partial.tape == h.tape
                &&& st.started ==> after.online == online::merge(st.online, sum, s)
                &&& !st.started ==> after.online == online::first(sum, s)
            } else {
                &&& after.started == st.started
                &&& after.partial_count == st.partial_count + 1
                &&& after.partial == sum
                &&& after.online == st.online
            }
        }),
{
}

/// The state that a step leaves on the fused path, where that is taken.
pub proof fn lemma_step_leaves_on(
    query: Array,
    block_size: nat,
    st: BlockState,
    h: Array,
    on_cuda: bool,
)
    ensures
        ({
            let after = fused_block::step_state_on(query, block_size, st, h, on_cuda);
            let sum = if st.partial_count == 0 {
                h
            } else {
                array::plus(st.partial, h)
            };
            let s = fused_block::score_on(query, sum, on_cuda);
            if st.partial_count + 1 == block_size {
                &&& after.started
                &&& after.partial_count == 0
                &&& after.partial.shape == h.shape
                &&& after.partial.data == Seq::new(array::volume(h.shape), |i: int| 0nat)
                &&& after.partial.device == h.device
                &&& after.partial.element == h.element
                &&& after.partial.tape == h.tape
                &&& st.started ==> after.online == fused_block::merge_on(
                    st.online,
                    sum,
                    s,
                    on_cuda,
                )
                &&& !st.started ==> after.online == online::first(sum, s)
            } else {
                &&& after.started == st.started
                &&& after.partial_count == st.partial_count + 1
                &&& after.partial == sum
                &&& after.online == st.online
            }
        }),
{
}

/// To give what was made anew another element type changes nothing else.
pub proof fn lemma_settled_parts(st: BlockState, started: bool, partial: nat, sum: nat)
    ensures
        ({
            let r = block::settled(st, started, partial, sum);
            &&& r.partial_count == st.partial_count
            &&& r.started == st.started
            &&& r.partial.shape == st.partial.shape
            &&& r.partial.data == st.partial.data
            &&& r.partial.device == st.partial.device
            &&& r.partial.tape == st.partial.tape
            &&& r.partial.element == partial
            &&& r.online.acc == st.online.acc
            &&& r.online.max_score == st.online.max_score
            &&& started ==> r.online.sum_exp == st.online.sum_exp
            &&& !started ==> {
                &&& r.online.sum_exp.shape == st.online.sum_exp.shape
                &&& r.online.sum_exp.device == st.online.sum_exp.device
                &&& r.online.sum_exp.tape == st.online.sum_exp.tape
                &&& r.online.sum_exp.element == sum
                &&& r.online.sum_exp.data == Seq::new(
                    array::volume(st.online.sum_exp.shape),
                    |i: int|
                        if sum == 64 {
                            0x3FF0_0000_0000_0000nat
                        } else if sum == 32 {
                            0x3F80_0000nat
                        } else if sum == 16 {
                            0x3C00nat
                        } else {
                            0x3F80nat
                        },
                )
            }
        }),
{
    if !started {
        let r = block::settled(st, started, partial, sum);
        assert(r.online.sum_exp.data =~= Seq::new(
            array::volume(st.online.sum_exp.shape),
            |i: int|
                if sum == 64 {
                    0x3FF0_0000_0000_0000nat
                } else if sum == 32 {
                    0x3F80_0000nat
                } else if sum == 16 {
                    0x3C00nat
                } else {
                    0x3F80nat
                },
        ));
    }
}

/// What a layer more does to its block: the first layer of a block is its sum, and every
/// other one is added to it.
pub proof fn lemma_accumulated(st: BlockState, h: Array)
    ensures
        block::accumulated(st, h).partial_count == st.partial_count + 1,
        block::accumulated(st, h).started == st.started,
        block::accumulated(st, h).online == st.online,
        st.partial_count == 0 ==> block::accumulated(st, h).partial == h,
        st.partial_count > 0 ==> block::accumulated(st, h).partial == array::plus(st.partial, h),
{
}

/// What is attended to: the open block counts from its second layer on, the completed
/// blocks as soon as there is one.
pub proof fn lemma_sources(st: BlockState)
    ensures
        block::sources(st) is Nothing <==> st.partial_count < 2 && !st.started,
        block::sources(st) is Partial <==> st.partial_count >= 2 && !st.started,
        block::sources(st) is Completed <==> st.partial_count < 2 && st.started,
        block::sources(st) is CompletedAndPartial <==> st.partial_count >= 2 && st.started,
{
}

/// A source that is taken in is the first one or is merged with those before it; the open
/// block is left as it is.
pub proof fn lemma_incorporated(st: BlockState, src: Array, s: Array, on_cuda: bool)
    ensures
        block::incorporated(st, src, s).started,
        block::incorporated(st, src, s).partial == st.partial,
        block::incorporated(st, src, s).partial_count == st.partial_count,
        st.started ==> block::incorporated(st, src, s).online == online::merge(st.online, src, s),
        !st.started ==> block::incorporated(st, src, s).online == online::first(src, s),
        fused_block::incorporated_on(st, src, s, on_cuda).started,
        fused_block::incorporated_on(st, src, s, on_cuda).partial == st.partial,
        fused_block::incorporated_on(st, src, s, on_cuda).partial_count == st.partial_count,
        st.started ==> fused_block::incorporated_on(st, src, s, on_cuda).online
            == fused_block::merge_on(st.online, src, s, on_cuda),
        !st.started ==> fused_block::incorporated_on(st, src, s, on_cuda).online == online::first(
            src,
            s,
        ),
{
}

/// A block that is closed is taken in with its sum, and the next block starts at zero, in
/// the shape and at the place of the last layer.
pub proof fn lemma_closed(st: BlockState, s: Array, h: Array)
    ensures
        block::closed(st, s, h).started,
        block::closed(st, s, h).partial_count == 0,
        block::closed(st, s, h).partial.shape == h.shape,
        block::closed(st, s, h).partial.data == Seq::new(array::volume(h.shape), |i: int| 0nat),
        block::closed(st, s, h).partial.device == h.device,
        block::closed(st, s, h).partial.element == h.element,
        block::closed(st, s, h).partial.tape == h.tape,
        st.started ==> block::closed(st, s, h).online == online::merge(st.online, st.partial, s),
        !st.started ==> block::closed(st, s, h).online == online::first(st.partial, s),
{
}

// ---- many layers ----

/// The state after many layers is reached one step at a time, and a recompute steps
/// through all layers before the last.
pub proof fn lemma_run(
    query: Array,
    block_size: nat,
    st: BlockState,
    history: Seq<Array>,
    h: Array,
    on_cuda: bool,
)
    ensures
        block::run(query, block_size, st, Seq::empty()) == st,
        block::run(query, block_size, st, history.push(h)) == block::step_state(
            query,
            block_size,
            block::run(query, block_size, st, history),
            h,
        ),
        fused_block::run_on(query, block_size, st, Seq::empty(), on_cuda) == st,
        fused_block::run_on(query, block_size, st, history.push(h), on_cuda)
            == fused_block::step_state_on(
            query,
            block_size,
            fused_block::run_on(query, block_size, st, history, on_cuda),
            h,
            on_cuda,
        ),
{
    assert(history.push(h).drop_last() =~= history);
}

/// Blocks of size zero are never complete: every layer reads the plain sum of all layers
/// so far.
pub proof fn lemma_endless_block(query: Array, history: Seq<Array>, on_cuda: bool)
    requires
        history.len() > 0,
    ensures
        block::recomputed(query, 0, history) == laws::block_sum(history),
        fused_block::recomputed_on(query, 0, history, on_cuda) == laws::block_sum(history),
{
    let before = history.drop_last();
    lemma_endless_run(query, block::fresh(history[0]), before, on_cuda);
    if history.len() == 1 {
        assert(history.last() == history[0]);
    }
}

proof fn lemma_endless_run(query: Array, st: BlockState, history: Seq<Array>, on_cuda: bool)
    requires
        st.partial_count == 0,
        !st.started,
    ensures
        ({
            let r = block::run(query, 0, st, history);
            let f = fused_block::run_on(query, 0, st, history, on_cuda);
            &&& r.partial_count == history.len() && f.partial_count == history.len()
            &&& !r.started && !f.started
            &&& history.len() > 0 ==> r.partial == laws::block_sum(history) && f.partial
                == laws::block_sum(history)
        }),
    decreases history.len(),
{
    if history.len() > 0 {
        lemma_endless_run(query, st, history.drop_last(), on_cuda);
    }
}


/// The plain sum of a block, layer by layer and element by element.
pub proof fn lemma_block_sum(layers: Seq<Array>, h: Array, i: int)
    requires
        layers.len() > 0,
        forall|k: int| 0 <= k < layers.len() ==> (#[trigger] layers[k]).shape == h.shape,
        0 <= i < array::volume(h.shape),
    ensures
        laws::block_sum(seq![h]) == h,
        laws::block_sum(layers).shape == h.shape,
        laws::block_sum(layers.push(h)).shape == h.shape,
        laws::block_sum(layers.push(h)) == array::plus(laws::block_sum(layers), h),
        laws::block_sum(layers.push(h)).data[i] == array::add_code(
            layers[0].element,
            laws::block_sum(layers).data[i],
            h.data[i],
        ),
        laws::block_sum(layers).element == layers[0].element,
    decreases layers.len(),
{
    let all = layers.push(h);
    assert(all.drop_last() =~= layers);
    assert(layers[0].shape == h.shape);
    lemma_block_shape(layers, h);
    let sum = laws::block_sum(layers);
    positions::lemma_origin_same(h.shape, i as nat);
    assert(array::plus(sum, h).shape =~= h.shape);
}

proof fn lemma_block_shape(layers: Seq<Array>, h: Array)
    requires
        layers.len() > 0,
        forall|k: int| 0 <= k < layers.len() ==> (#[trigger] layers[k]).shape == h.shape,
    ensures
        laws::block_sum(layers).shape == h.shape,
        laws::block_sum(layers).element == layers[0].element,
    decreases layers.len(),
{
    assert(layers[layers.len() - 1].shape == h.shape);
    if layers.len() > 1 {
        let before = layers.drop_last();
        assert forall|k: int| 0 <= k < before.len() implies (#[trigger] before[k]).shape
            == h.shape by {
            assert(before[k] == layers[k]);
        }
        lemma_block_shape(before, h);
        assert(before[0] == layers[0]);
        assert(array::plus(laws::block_sum(before), layers.last()).shape =~= h.shape);
    }
}

/// Attention over sources, source by source, on either path.
pub proof fn lemma_over_sources(query: Array, sources: Seq<Array>, src: Array, on_cuda: bool)
    requires
        sources.len() > 0,
    ensures
        online::over_sources(query, seq![src]) == online::first(src, score::score(query, src)),
        online::over_sources(query, sources.push(src)) == online::merge(
            online::over_sources(query, sources),
            src,
            score::score(query, src),
        ),
        fused_block::over_sources_on(query, seq![src], on_cuda) == online::first(
            src,
            fused_block::score_on(query, src, on_cuda),
        ),
        fused_block::over_sources_on(query, sources.push(src), on_cuda) == fused_block::merge_on(
            fused_block::over_sources_on(query, sources, on_cuda),
            src,
            fused_block::score_on(query, src, on_cuda),
            on_cuda,
        ),
{
    assert(sources.push(src).drop_last() =~= sources);
}

/// What the last of any number of layers reads: attention over the sums of all blocks that
/// were complete before it, each of them once, in their order, and over the sum of its own
/// block where that has two layers or more.
pub proof fn lemma_reads_all_blocks(
    query: Array,
    block_size: nat,
    history: Seq<Array>,
    on_cuda: bool,
)
    requires
        block_size > 0,
        history.len() > block_size,
    ensures
        exists|sources: Seq<Array>|
            {
                let n = history.len();
                let k = ((n - 1) as nat) / block_size;
                &&& sources.len() == k + (if n - k * block_size >= 2 {
                    1nat
                } else {
                    0nat
                })
                &&& forall|i: int|
                    0 <= i < k ==> #[trigger] sources[i] == laws::block_sum(
                        history.subrange(i * block_size, (i + 1) * block_size),
                    )
                &&& n - k * block_size >= 2 ==> sources[k as int] == laws::block_sum(
                    history.subrange((k * block_size) as int, n as int),
                )
                &&& fused_block::recomputed_on(query, block_size, history, on_cuda)
                    == online::attended(
                    #[trigger] fused_block::over_sources_on(query, sources, on_cuda),
                )
                &&& block::recomputed(query, block_size, history) == online::attended(
                    online::over_sources(query, sources),
                )
            },
{
    laws::lemma_attends_over_blocks_on(query, block_size, history, on_cuda);
    laws::lemma_attends_over_blocks(query, block_size, history);
    let n = history.len();
    let k = ((n - 1) as nat) / block_size;
    vstd::arithmetic::div_mod::lemma_fundamental_div_mod((n - 1) as int, block_size as int);
    assert(block_size * k == k * block_size) by (nonlinear_arith);
    let sources = laws::attended_sources(history, block_size);
    let whole = laws::block_sums(history, block_size, k);
    assert(history.subrange((k * block_size) as int, n as int).len() == n - k * block_size);
    assert forall|i: int| 0 <= i < k implies #[trigger] sources[i] == laws::block_sum(
        history.subrange(i * block_size, (i + 1) * block_size),
    ) by {
        assert(whole[i] == sources[i]);
    }
    assert(fused_block::recomputed_on(query, block_size, history, on_cuda) == online::attended(
        fused_block::over_sources_on(query, sources, on_cuda),
    ));
}

/// What the first layers read: the very first its own output, the others of the first
/// block the plain sum of the layers so far.
pub proof fn lemma_first_block_reads(
    query: Array,
    block_size: nat,
    history: Seq<Array>,
    on_cuda: bool,
)
    requires
        block_size > 0,
        0 < history.len() <= block_size,
    ensures
        block::recomputed(query, block_size, history) == laws::block_sum(history),
        fused_block::recomputed_on(query, block_size, history, on_cuda) == laws::block_sum(history),
{
    laws::lemma_attends_over_blocks_on(query, block_size, history, on_cuda);
    laws::lemma_attends_over_blocks(query, block_size, history);
    if history.len() == 1 {
        assert(history.last() == history[0]);
    }
}

// ---- what is defined ----

/// Layers and a query meet exactly if there is a layer, all layers have one shape
/// `[b, t, d]` with a column, the query has shape `[d]`, and all are kept at one place.
pub proof fn lemma_aligned(query: Array, history: Seq<Array>, p: Place)
    ensures
        depth::aligned(query, history, p) <==> {
            &&& history.len() > 0
            &&& history[0].shape.len() == 3
            &&& history[0].shape[2] > 0
            &&& query.shape == seq![history[0].shape[2]]
            &&& array::kept_at(query, p)
            &&& forall|i: int|
                0 <= i < history.len() ==> (#[trigger] history[i]).shape == history[0].shape
                    && array::kept_at(history[i], p)
        },
        depth::meets(history, query, p) <==> depth::aligned(query, history, p)
            && history[0].shape[0] > 0 && history[0].shape[1] > 0,
        depth::attendable(history, query) <==> history.len() == 1 || exists|q: Place| #[trigger]
            depth::meets(history, query, q),
        block::recomputable(query, history) <==> history.len() == 1 || exists|q: Place| #[trigger]
            depth::aligned(query, history, q),
{
    if history.len() > 0 && history[0].shape.len() == 3 {
        let s = history[0].shape;
        assert(array::positive(s) ==> s[0] > 0 && s[1] > 0 && s[2] > 0);
        if s[0] > 0 && s[1] > 0 && s[2] > 0 {
            assert forall|i: int| 0 <= i < s.len() implies #[trigger] s[i] > 0 by {
                assert(i == 0 || i == 1 || i == 2);
            }
        }
    }
}

/// An array is kept at a place exactly if it has its device and its element type, one that
/// the operations compute with, and records gradients in its way or not at all.
pub proof fn lemma_kept(x: Array, p: Place)
    ensures
        array::kept_at(x, p) <==> {
            &&& p.element == 64 || p.element == 32 || p.element == 16 || p.element == 17
            &&& x.device == p.device
            &&& x.element == p.element
            &&& x.tape == 0 || x.tape == p.tape
        },
{
}

/// A step is defined exactly if the layer, what the state holds and, where a block is to be
/// scored, the query fit together and are kept at one place.
pub proof fn lemma_steppable(query: Array, block_size: nat, st: BlockState, h: Array, p: Place)
    ensures
        block::steppable(query, block_size, st, h, p) <==> {
            &&& h.shape.len() == 3
            &&& array::kept_at(h, p)
            &&& st.partial_count > 0 ==> st.partial.shape == h.shape && array::kept_at(
                st.partial,
                p,
            )
            &&& st.started ==> {
                &&& st.online.acc.shape == h.shape
                &&& st.online.max_score.shape == seq![h.shape[0], h.shape[1], 1]
                &&& st.online.sum_exp.shape == seq![h.shape[0], h.shape[1], 1]
                &&& array::kept_at(st.online.acc, p)
                &&& array::kept_at(st.online.max_score, p)
                &&& array::kept_at(st.online.sum_exp, p)
            }
            &&& st.partial_count >= 1 || block_size == 1 ==> {
                &&& h.shape[2] > 0
                &&& query.shape == seq![h.shape[2]]
                &&& array::kept_at(query, p)
            }
        },
{
}

/// A source can be merged exactly if it, its score and the attention fit together and are
/// kept at one place.
pub proof fn lemma_mergeable(o: Online, src: Array, s: Array, p: Place)
    ensures
        online::mergeable(o, src, s, p) <==> {
            &&& src.shape.len() == 3
            &&& o.acc.shape == src.shape
            &&& o.max_score.shape == seq![src.shape[0], src.shape[1], 1]
            &&& o.sum_exp.shape == seq![src.shape[0], src.shape[1], 1]
            &&& s.shape == seq![src.shape[0], src.shape[1], 1]
            &&& array::kept_at(o.acc, p)
            &&& array::kept_at(o.max_score, p)
            &&& array::kept_at(o.sum_exp, p)
            &&& array::kept_at(src, p)
            &&& array::kept_at(s, p)
        },
{
}

/// The gradient is defined exactly if the layers and the query meet, without an empty axis,
/// and the gradient of the result has the shape of a layer and meets with them.
pub proof fn lemma_differentiable(history: Seq<Array>, query: Array, d_out: Array)
    ensures
        backward::differentiable(history, query, d_out) <==> d_out.shape == history[0].shape
            && exists|p: Place| #[trigger]
            depth::meets(history, query, p) && array::kept_at(d_out, p),
{
}

/// A node is recorded exactly if the query and every layer record gradients, without
/// checkpointing of activations; it holds their values without the recording.
pub proof fn lemma_recorded(history: Seq<Array>, query: Array)
    ensures
        graph::recorded(history, query) <==> query.tape == 1 && forall|i: int|
            0 <= i < history.len() ==> (#[trigger] history[i]).tape == 1,
        graph::all_bare(history).len() == history.len(),
        forall|i: int|
            0 <= i < history.len() ==> {
                let x = #[trigger] graph::all_bare(history)[i];
                &&& x.shape == history[i].shape
                &&& x.data == history[i].data
                &&& x.device == history[i].device
                &&& x.element == history[i].element
                &&& x.tape == 0
            },
{
}

/// Tensors live bare on CUDA exactly if their device is a CUDA device and none of them
/// records gradients.
pub proof fn lemma_bare_on_cuda(on_cuda: bool, tensors: Seq<Array>)
    ensures
        fused::bare_on_cuda(on_cuda, tensors) <==> on_cuda && forall|i: int|
            0 <= i < tensors.len() ==> (#[trigger] tensors[i]).tape == 0,
{
}

/// A query and layers live bare on CUDA exactly if the query does and every layer does.
pub proof fn lemma_all_bare_on_cuda(on_cuda: bool, query: Array, history: Seq<Array>)
    ensures
        fused::bare_on_cuda(on_cuda, fused::with_query(query, history)) <==> on_cuda && query.tape
            == 0 && forall|i: int|
            0 <= i < history.len() ==> (#[trigger] history[i]).tape == 0,
{
    let all = fused::with_query(query, history);
    assert(all[0] == query);
    assert forall|i: int| 0 <= i < history.len() implies all[i + 1] == #[trigger] history[i] by {}
    if on_cuda && query.tape == 0 && forall|i: int|
        0 <= i < history.len() ==> (#[trigger] history[i]).tape == 0 {
        assert forall|j: int| 0 <= j < all.len() implies (#[trigger] all[j]).tape == 0 by {
            if j > 0 {
                assert(all[j] == history[j - 1]);
            }
        }
    }
}

/// A source can be scored exactly if it has shape `[b, t, d]` with a column, the query has
/// shape `[d]`, and the two are on one device, in one element type that the operations
/// compute with, and do not record gradients in two ways.
pub proof fn lemma_scorable(query: Array, src: Array)
    ensures
        score::scorable(query, src) <==> {
            &&& src.shape.len() == 3
            &&& src.shape[2] > 0
            &&& query.shape == seq![src.shape[2]]
            &&& query.device == src.device
            &&& query.element == src.element
            &&& query.element == 64 || query.element == 32 || query.element == 16 || query.element
                == 17
            &&& query.tape == 0 || src.tape == 0 || query.tape == src.tape
        },
{
}

/// A source can be taken in exactly if it has three axes, its score has one entry for each
/// position, both are kept at one place and, where there is attention already, that fits.
pub proof fn lemma_takes(st: BlockState, src: Array, s: Array, p: Place)
    ensures
        block::takes(st, src, s, p) <==> {
            &&& src.shape.len() == 3
            &&& s.shape == seq![src.shape[0], src.shape[1], 1]
            &&& array::kept_at(src, p)
            &&& array::kept_at(s, p)
            &&& st.started ==> {
                &&& st.online.acc.shape == src.shape
                &&& st.online.max_score.shape == seq![src.shape[0], src.shape[1], 1]
                &&& st.online.sum_exp.shape == seq![src.shape[0], src.shape[1], 1]
                &&& array::kept_at(st.online.acc, p)
                &&& array::kept_at(st.online.max_score, p)
                &&& array::kept_at(st.online.sum_exp, p)
            }
        },
{
}

/// A state fits layers of a shape exactly if that has three axes, and what has a meaning
/// in the state has that shape, or one entry for each position, and is kept at the place.
pub proof fn lemma_fits(st: BlockState, shape: Seq<nat>, p: Place)
    ensures
        block::fits(st, shape, p) <==> {
            &&& shape.len() == 3
            &&& st.partial_count > 0 ==> st.partial.shape == shape && array::kept_at(
                st.partial,
                p,
            )
            &&& st.started ==> {
                &&& st.online.acc.shape == shape
                &&& st.online.max_score.shape == seq![shape[0], shape[1], 1]
                &&& st.online.sum_exp.shape == seq![shape[0], shape[1], 1]
                &&& array::kept_at(st.online.acc, p)
                &&& array::kept_at(st.online.max_score, p)
                &&& array::kept_at(st.online.sum_exp, p)
            }
        },
{
}

/// A new tensor of zeros holds zeros, in the shape that was asked for, on the device that
/// was asked for.
pub proof fn lemma_zeros_on(x: Array, shape: Seq<nat>, device: Device)
    ensures
        tensor::zeros_on(x, shape, device) <==> {
            &&& x.shape == shape
            &&& x.data.len() == array::volume(shape)
            &&& forall|i: int| 0 <= i < x.data.len() ==> #[trigger] x.data[i] == 0
            &&& x.element == 64 || x.element == 32 || x.element == 16 || x.element == 17
            &&& x.device == tensor::hardware(device)
            &&& x.tape == tensor::taping(device)
        },
{
    if x.data.len() == array::volume(shape) && forall|i: int|
        0 <= i < x.data.len() ==> #[trigger] x.data[i] == 0 {
        assert(x.data =~= Seq::new(array::volume(shape), |i: int| 0nat));
    }
}

/// The three tensors of the attention, each in its place.
pub proof fn lemma_online_of(acc: Array, max_score: Array, sum_exp: Array)
    ensures
        fused::online_of(acc, max_score, sum_exp).acc == acc,
        fused::online_of(acc, max_score, sum_exp).max_score == max_score,
        fused::online_of(acc, max_score, sum_exp).sum_exp == sum_exp,
{
}

} // verus!
