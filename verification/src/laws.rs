//! What holds of block attention over any number of layers.
use vstd::prelude::*;

use crate::array;
use crate::array::{Array, Place};
use crate::block;
use crate::block::BlockState;
use crate::depth;
use crate::fused_block;
use crate::online;
use crate::score;

verus! {

/// The plain sum of the layers of a block.
pub open spec fn block_sum(layers: Seq<Array>) -> Array
    decreases layers.len(),
{
    if layers.len() <= 1 {
        layers.last()
    } else {
        array::plus(block_sum(layers.drop_last()), layers.last())
    }
}

/// The sums of the first `n` blocks of `block_size` layers.
pub open spec fn block_sums(history: Seq<Array>, block_size: nat, n: nat) -> Seq<Array> {
    Seq::new(
        n,
        |k: int| block_sum(history.subrange(k * block_size, (k + 1) * block_size)),
    )
}

/// No layer has been seen.
pub open spec fn unseen(st: BlockState) -> bool {
    st.partial_count == 0 && !st.started
}

proof fn lemma_alike(
    query: Array,
    block_size: nat,
    a: BlockState,
    b: BlockState,
    history: Seq<Array>,
)
    requires
        block::alike(a, b),
    ensures
        block::alike(
            block::run(query, block_size, a, history),
            block::run(query, block_size, b, history),
        ),
    decreases history.len(),
{
    if history.len() > 0 {
        lemma_alike(query, block_size, a, b, history.drop_last());
    }
}

/// Streaming reproduces the full recompute at every step: what a layer reads when
/// the layers before it went through the state one at a time is what it reads
/// when the outputs of all layers are at hand.
pub proof fn lemma_streaming_is_recompute(
    query: Array,
    block_size: nat,
    st: BlockState,
    history: Seq<Array>,
)
    requires
        unseen(st),
        history.len() > 0,
    ensures
        block::step_output(
            query,
            block::run(query, block_size, st, history.drop_last()),
            history.last(),
        ) == block::recomputed(query, block_size, history),
{
    lemma_alike(query, block_size, st, block::fresh(history[0]), history.drop_last());
}

/// Where the device makes tensors in the layers' element type, a step makes its state.
pub proof fn lemma_settled(query: Array, block_size: nat, st: BlockState, h: Array, p: Place)
    requires
        block::steppable(query, block_size, st, h, p),
        block::step_state(query, block_size, st, h).partial_count == 0,
    ensures
        ({
            let after = block::step_state(query, block_size, st, h);
            block::settled(after, st.started, p.element, p.element) == after
        }),
{
    let a = block::accumulated(st, h);
    assert(array::kept_at(a.partial, p));
    let after = block::step_state(query, block_size, st, h);
    if !st.started {
        assert(after.online.sum_exp == array::ones(online::column(a.partial.shape), a.partial));
        assert(block::remade(after.online.sum_exp, p.element) =~= after.online.sum_exp);
    }
}

/// Where the device makes tensors in another element type than that of the layers, no
/// step is defined once the first block is complete.
pub proof fn lemma_no_step_in_another_type(
    query: Array,
    block_size: nat,
    st: BlockState,
    h: Array,
    p: Place,
    partial: nat,
    sum: nat,
    next: Array,
    q: Place,
)
    requires
        block::steppable(query, block_size, st, h, p),
        block::step_state(query, block_size, st, h).partial_count == 0,
        !st.started,
        sum != p.element,
    ensures
        !block::steppable(
            query,
            block_size,
            block::settled(
                block::step_state(query, block_size, st, h),
                st.started,
                partial,
                sum,
            ),
            next,
            q,
        ),
{
    let a = block::accumulated(st, h);
    assert(array::kept_at(a.partial, p));
}

/// Sums of blocks that lie in the first layers are sums of those layers.
proof fn lemma_block_sums_prefix(history: Seq<Array>, block_size: nat, n: nat, m: nat)
    requires
        n * block_size <= m <= history.len(),
    ensures
        block_sums(history.take(m as int), block_size, n) == block_sums(history, block_size, n),
{
    let prefix = history.take(m as int);
    assert forall|k: int| 0 <= k < n implies block_sums(prefix, block_size, n)[k] == block_sums(
        history,
        block_size,
        n,
    )[k] by {
        assert(0 <= k * block_size <= (k + 1) * block_size <= n * block_size) by (nonlinear_arith)
            requires
                0 <= k < n,
        ;
        assert(prefix.subrange(k * block_size, (k + 1) * block_size) =~= history.subrange(
            k * block_size,
            (k + 1) * block_size,
        ));
    }
    assert(block_sums(prefix, block_size, n) =~= block_sums(history, block_size, n));
}

/// The state after any number of layers, on either path. The count of the current block is the
/// number of layers modulo the block size; its sum is the plain sum of the layers
/// since the last block was complete; and the attention is over the plain sums of
/// the completed blocks, each of them once, in their order.
pub proof fn lemma_state_after_layers_on(
    query: Array,
    block_size: nat,
    st: BlockState,
    history: Seq<Array>,
    on_cuda: bool,
)
    requires
        unseen(st),
        block_size > 0,
    ensures
        ({
            let after = fused_block::run_on(query, block_size, st, history, on_cuda);
            let n = history.len();
            let open = n % block_size;
            &&& after.partial_count == open
            &&& after.started == (n >= block_size)
            &&& open > 0 ==> after.partial == block_sum(history.subrange(n - open, n as int))
            &&& after.started ==> after.online == fused_block::over_sources_on(
                query,
                block_sums(history, block_size, n / block_size),
                on_cuda,
            )
        }),
    decreases history.len(),
{
    let n = history.len();
    if n == 0 {
        assert(0nat % block_size == 0) by (nonlinear_arith)
            requires
                block_size > 0,
        ;
    } else {
        let before = history.drop_last();
        let m = (n - 1) as nat;
        let k = m / block_size;
        let c = m % block_size;
        lemma_state_after_layers_on(query, block_size, st, before, on_cuda);
        vstd::arithmetic::div_mod::lemma_fundamental_div_mod(m as int, block_size as int);
        assert(block_size * k == k * block_size) by (nonlinear_arith);
        assert(before =~= history.take(m as int));
        lemma_block_sums_prefix(history, block_size, k, m);
        let layers = history.subrange(m - c, n as int);
        if c > 0 {
            assert(layers.drop_last() =~= before.subrange(m - c, m as int));
        }
        assert(block_sum(layers) == block::accumulated(
            fused_block::run_on(query, block_size, st, before, on_cuda),
            history.last(),
        ).partial);
        if c + 1 == block_size {
            assert(n == (k + 1) * block_size + 0) by (nonlinear_arith)
                requires
                    n == k * block_size + block_size,
            ;
            vstd::arithmetic::div_mod::lemma_fundamental_div_mod_converse(
                n as int,
                block_size as int,
                (k + 1) as int,
                0,
            );
            let sums = block_sums(history, block_size, k + 1);
            assert((k + 1) * block_size == n);
            assert(sums.last() == block_sum(layers));
            assert(sums.drop_last() =~= block_sums(history, block_size, k));
            assert(k > 0 ==> m >= block_size) by (nonlinear_arith)
                requires
                    m >= k * block_size,
                    block_size > 0,
            ;
            assert(m >= block_size ==> k > 0) by (nonlinear_arith)
                requires
                    m == k * block_size + c,
                    c < block_size,
            ;
        } else {
            vstd::arithmetic::div_mod::lemma_fundamental_div_mod_converse(
                n as int,
                block_size as int,
                k as int,
                (c + 1) as int,
            );
            assert(layers =~= history.subrange(n - (c + 1), n as int));
            assert(n >= block_size ==> m >= block_size) by (nonlinear_arith)
                requires
                    m == k * block_size + c,
                    c + 1 < block_size,
                    n == m + 1,
            ;
        }
    }
}

/// The state after any number of layers. The count of the current block is the
/// number of layers modulo the block size; its sum is the plain sum of the layers
/// since the last block was complete; and the attention is over the plain sums of
/// the completed blocks, each of them once, in their order.
pub proof fn lemma_state_after_layers(
    query: Array,
    block_size: nat,
    st: BlockState,
    history: Seq<Array>,
)
    requires
        unseen(st),
        block_size > 0,
    ensures
        ({
            let after = block::run(query, block_size, st, history);
            let n = history.len();
            let open = n % block_size;
            &&& after.partial_count == open
            &&& after.started == (n >= block_size)
            &&& open > 0 ==> after.partial == block_sum(history.subrange(n - open, n as int))
            &&& after.started ==> after.online == online::over_sources(
                query,
                block_sums(history, block_size, n / block_size),
            )
        }),
{
    fused_block::lemma_run_off_cuda(query, block_size, st, history);
    lemma_state_after_layers_on(query, block_size, st, history, false);
    fused_block::lemma_run_off_cuda(
        query,
        block_size,
        st,
        block_sums(history, block_size, history.len() / block_size),
    );
}

/// What the last of `history` attends to: the sums of the blocks that were complete
/// before it, and the sum of its own block if it is not that block's first layer.
pub open spec fn attended_sources(history: Seq<Array>, block_size: nat) -> Seq<Array> {
    let n = history.len();
    let k = ((n - 1) as nat) / block_size;
    let whole = block_sums(history, block_size, k);
    let open = history.subrange((k * block_size) as int, n as int);
    if open.len() >= 2 {
        whole.push(block_sum(open))
    } else {
        whole
    }
}

/// A layer reads attention over the sums of the blocks so far, on either path. With no block to
/// attend to it reads its own output, and in the first block it reads the plain sum
/// of the layers so far.
pub proof fn lemma_attends_over_blocks_on(
    query: Array,
    block_size: nat,
    history: Seq<Array>,
    on_cuda: bool,
)
    requires
        block_size > 0,
        history.len() > 0,
    ensures
        ({
            let n = history.len();
            let sources = attended_sources(history, block_size);
            let out = fused_block::recomputed_on(query, block_size, history, on_cuda);
            &&& n == 1 ==> sources.len() == 0 && out == history[0]
            &&& 1 < n <= block_size ==> sources =~= seq![block_sum(history)] && out == block_sum(
                history,
            )
            &&& n > block_size ==> sources.len() > 0 && out == online::attended(
                fused_block::over_sources_on(query, sources, on_cuda),
            )
        }),
{
    let n = history.len();
    let m = (n - 1) as nat;
    let k = m / block_size;
    let c = m % block_size;
    let before = history.drop_last();
    let st = block::fresh(history[0]);
    lemma_state_after_layers_on(query, block_size, st, before, on_cuda);
    vstd::arithmetic::div_mod::lemma_fundamental_div_mod(m as int, block_size as int);
    assert(block_size * k == k * block_size) by (nonlinear_arith);
    assert(before =~= history.take(m as int));
    lemma_block_sums_prefix(history, block_size, k, m);
    let open = history.subrange((k * block_size) as int, n as int);
    if c > 0 {
        assert(open.drop_last() =~= before.subrange(m - c, m as int));
    }
    let whole = block_sums(history, block_size, k);
    if m < block_size {
        assert(k == 0) by (nonlinear_arith)
            requires
                m == k * block_size + c,
                m < block_size,
                block_size > 0,
        ;
        assert(k * block_size == 0) by (nonlinear_arith)
            requires
                k == 0,
        ;
        assert(open =~= history);
        assert(whole =~= Seq::<Array>::empty());
    } else {
        assert(k > 0) by (nonlinear_arith)
            requires
                m == k * block_size + c,
                c < block_size,
                m >= block_size,
        ;
        assert(whole.push(block_sum(open)).drop_last() =~= whole);
    }
}

/// A layer reads attention over the sums of the blocks so far. With no block to
/// attend to it reads its own output, and in the first block it reads the plain sum
/// of the layers so far.
pub proof fn lemma_attends_over_blocks(query: Array, block_size: nat, history: Seq<Array>)
    requires
        block_size > 0,
        history.len() > 0,
    ensures
        ({
            let n = history.len();
            let sources = attended_sources(history, block_size);
            let out = block::recomputed(query, block_size, history);
            &&& n == 1 ==> sources.len() == 0 && out == history[0]
            &&& 1 < n <= block_size ==> sources =~= seq![block_sum(history)] && out == block_sum(
                history,
            )
            &&& n > block_size ==> sources.len() > 0 && out == online::attended(
                online::over_sources(query, sources),
            )
        }),
{
    lemma_attends_over_blocks_on(query, block_size, history, false);
    let st = block::fresh(history[0]);
    fused_block::lemma_run_off_cuda(query, block_size, st, history.drop_last());
    fused_block::lemma_step_off_cuda(
        query,
        block_size,
        block::run(query, block_size, st, history.drop_last()),
        history.last(),
    );
    fused_block::lemma_run_off_cuda(
        query,
        block_size,
        st,
        attended_sources(history, block_size),
    );
}

/// The state after sources were taken into the attention one after the other.
pub open spec fn taken_in(query: Array, st: BlockState, sources: Seq<Array>) -> BlockState
    decreases sources.len(),
{
    if sources.len() == 0 {
        st
    } else {
        let src = sources.last();
        block::incorporated(
            taken_in(query, st, sources.drop_last()),
            src,
            score::score(query, src),
        )
    }
}

/// To take in sources one after the other, into a state without any, is attention over
/// them in their order.
pub proof fn lemma_repeated_incorporation(query: Array, st: BlockState, sources: Seq<Array>)
    requires
        !st.started,
        sources.len() > 0,
    ensures
        taken_in(query, st, sources).started,
        taken_in(query, st, sources).online == online::over_sources(query, sources),
    decreases sources.len(),
{
    let before = sources.drop_last();
    if sources.len() > 1 {
        lemma_repeated_incorporation(query, st, before);
    } else {
        assert(taken_in(query, st, before) == st);
    }
}

/// With blocks of one layer every layer reads attention over the layers before it.
pub proof fn lemma_blocks_of_one(query: Array, history: Seq<Array>)
    requires
        history.len() > 1,
    ensures
        attended_sources(history, 1) == history.drop_last(),
        block::recomputed(query, 1, history) == online::attended(
            online::over_sources(query, history.drop_last()),
        ),
{
    let n = history.len();
    let k = (n - 1) as nat;
    assert(k / 1 == k && k * 1 == k);
    let whole = block_sums(history, 1, k);
    assert forall|i: int| 0 <= i < k implies #[trigger] whole[i] == history[i] by {
        assert(i * 1 == i && (i + 1) * 1 == i + 1);
        assert(history.subrange(i, i + 1) =~= seq![history[i]]);
    }
    assert(whole =~= history.drop_last());
    assert(history.subrange(k as int, n as int).len() == 1);
    lemma_attends_over_blocks(query, 1, history);
}

/// The number of blocks of `history`, the last of them possibly partial, is the number
/// of layers over the block size, rounded up.
pub proof fn lemma_blocks_begun(history: Seq<Array>, block_size: nat)
    requires
        block_size > 0,
        history.len() > 0,
    ensures
        ((history.len() - 1) as nat) / block_size + 1 == (history.len() + block_size - 1) as nat
            / block_size,
{
    let m = (history.len() - 1) as nat;
    let k = m / block_size;
    let c = m % block_size;
    vstd::arithmetic::div_mod::lemma_fundamental_div_mod(m as int, block_size as int);
    assert(m + block_size == (k + 1) * block_size + c) by (nonlinear_arith)
        requires
            m == block_size * k + c,
    ;
    vstd::arithmetic::div_mod::lemma_fundamental_div_mod_converse(
        (m + block_size) as int,
        block_size as int,
        (k + 1) as int,
        c as int,
    );
}

/// Without a block size no block is ever complete, and a layer reads the plain sum
/// of all layers.
pub proof fn lemma_no_block_size(query: Array, st: BlockState, history: Seq<Array>)
    requires
        unseen(st),
    ensures
        ({
            let after = block::run(query, 0, st, history);
            &&& after.partial_count == history.len()
            &&& !after.started
            &&& history.len() > 0 ==> after.partial == block_sum(history)
        }),
    decreases history.len(),
{
    if history.len() > 0 {
        lemma_no_block_size(query, st, history.drop_last());
    }
}

/// The first layer of a block does not read its own output once a block is
/// complete: whatever it is, the layer reads the same.
pub proof fn lemma_first_layer_excludes_itself(query: Array, st: BlockState, h1: Array, h2: Array)
    requires
        st.started,
        st.partial_count == 0,
    ensures
        block::step_output(query, st, h1) == block::step_output(query, st, h2),
        block::step_output(query, st, h1) == online::attended(st.online),
{
}

/// With nothing to attend to, a layer reads its own output.
pub proof fn lemma_first_layer_is_identity(query: Array, st: BlockState, h: Array)
    requires
        unseen(st),
    ensures
        block::step_output(query, st, h) == h,
{
}

/// A layer that does not complete its block leaves the attention over the completed
/// blocks as it was.
pub proof fn lemma_partial_block_is_not_kept(
    query: Array,
    block_size: nat,
    st: BlockState,
    h: Array,
)
    requires
        st.partial_count + 1 != block_size,
    ensures
        ({
            let after = block::step_state(query, block_size, st, h);
            &&& after.online == st.online
            &&& after.started == st.started
            &&& after.partial_count == st.partial_count + 1
        }),
{
}

/// A layer that completes its block adds that block's sum to the attention, once,
/// and starts the next block. Where it attends to other blocks too, it reads the
/// attention that is kept from then on.
pub proof fn lemma_completed_block_is_kept(query: Array, block_size: nat, st: BlockState, h: Array)
    requires
        st.partial_count + 1 == block_size,
    ensures
        ({
            let sum = block::accumulated(st, h).partial;
            let s = score::score(query, sum);
            let after = block::step_state(query, block_size, st, h);
            &&& after.started
            &&& after.partial_count == 0
            &&& !st.started ==> after.online == online::first(sum, s)
            &&& st.started ==> after.online == online::merge(st.online, sum, s)
            &&& st.started && block_size >= 2 ==> block::step_output(query, st, h)
                == online::attended(after.online)
        }),
{
}

/// The state stays as large as one layer, however many layers pass: every array in
/// it keeps the shape `[b, t, d]` or `[b, t, 1]`, and its place.
pub proof fn lemma_state_keeps_its_shape(
    query: Array,
    block_size: nat,
    st: BlockState,
    history: Seq<Array>,
    p: Place,
)
    requires
        unseen(st),
        depth::aligned(query, history, p),
    ensures
        block::fits(block::run(query, block_size, st, history), history[0].shape, p),
        block::recomputed(query, block_size, history).shape == history[0].shape,
        array::kept_at(block::recomputed(query, block_size, history), p),
    decreases history.len(),
{
    let before = history.drop_last();
    let last = history.last();
    assert(history[history.len() - 1].shape == history[0].shape);
    if before.len() > 0 {
        assert forall|i: int| 0 <= i < before.len() implies (#[trigger] before[i]).shape
            == before[0].shape && array::kept_at(before[i], p) by {
            assert(before[i] == history[i]);
        }
        lemma_state_keeps_its_shape(query, block_size, st, before, p);
        lemma_state_keeps_its_shape(query, block_size, block::fresh(history[0]), before, p);
    }
    block::lemma_step_fits(
        query,
        block_size,
        block::run(query, block_size, st, before),
        last,
        p,
    );
    block::lemma_step_fits(
        query,
        block_size,
        block::run(query, block_size, block::fresh(history[0]), before),
        last,
        p,
    );
}

} // verus!
