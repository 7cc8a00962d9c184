//! No position of a result depends on another position of the layers: attention
//! commutes with [`positions::gather`].
use vstd::prelude::*;

use crate::array;
use crate::array::{Array, Place};
use crate::block;
use crate::block::BlockState;
use crate::depth;
use crate::fused;
use crate::launch;
use crate::laws;
use crate::online;
use crate::online::Online;
use crate::positions;
use crate::score;

verus! {

/// Axes of one entry hold one element.
pub proof fn lemma_unit_volume(rank: nat)
    ensures
        array::volume(array::unit_shape(rank)) == 1,
    decreases rank,
{
    if rank > 0 {
        let s = array::unit_shape(rank);
        assert(s.drop_last() =~= array::unit_shape((rank - 1) as nat));
        lemma_unit_volume((rank - 1) as nat);
        assert(s.last() == 1);
    }
}

/// A constant is the same for every position.
proof fn lemma_constant(
    bits: nat,
    rank: nat,
    like: Array,
    to: Seq<nat>,
    from: spec_fn(nat) -> nat,
)
    ensures
        ({
            let c = score::constant_array(bits, rank + 1, like);
            &&& positions::same_row(c, rank)
            &&& c.shape.last() == 1
            &&& score::constant_array(bits, rank + 1, positions::gather(like, to, from)) == c
        }),
{
    let s = array::unit_shape(rank + 1);
    assert(s.drop_last() =~= array::unit_shape(rank));
    lemma_unit_volume(rank + 1);
    assert(array::wide(bits, rank + 1, positions::gather(like, to, from)) == array::wide(
        bits,
        rank + 1,
        like,
    ));
}

/// The scale is the same for every position.
proof fn lemma_scale(d: nat, rank: nat, like: Array, to: Seq<nat>, from: spec_fn(nat) -> nat)
    ensures
        ({
            let c = score::scale_array(d, rank + 1, like);
            &&& positions::same_row(c, rank)
            &&& c.shape.last() == 1
            &&& score::scale_array(d, rank + 1, positions::gather(like, to, from)) == c
        }),
{
    let s = array::unit_shape(rank + 1);
    assert(s.drop_last() =~= array::unit_shape(rank));
    lemma_unit_volume(rank + 1);
    let near = positions::gather(like, to, from);
    let x = array::whole(d, rank + 1, like);
    let y = array::wide(score::MINUS_HALF as nat, rank + 1, like);
    assert(array::whole(d, rank + 1, near) == x);
    assert(array::wide(score::MINUS_HALF as nat, rank + 1, near) == y);
    assert(array::power(x, y).shape =~= s);
}

/// The scores of gathered rows are the gathered scores of all rows.
pub proof fn lemma_scores(
    query: Array,
    x: Array,
    outer: Seq<nat>,
    to: Seq<nat>,
    from: spec_fn(nat) -> nat,
)
    requires
        positions::rows_on(x, outer),
        positions::same_row(query, outer.len()),
        query.shape.last() == x.shape.last(),
        positions::selects(from, outer, to),
    ensures
        positions::rows_on(score::scores_array(query, x), outer),
        score::scores_array(query, x).shape.last() == 1,
        positions::gather(score::scores_array(query, x), to, from) == score::scores_array(
            query,
            positions::gather(x, to, from),
        ),
{
    let a = outer.len();
    let d = x.shape.last();
    let p = positions::gather(x, to, from);
    positions::lemma_gather(x, to, from);
    let square = array::power_int(x, 2);
    positions::lemma_single_elements(x, 2, outer, to, from);
    let total = array::sum(square, a);
    positions::lemma_sum_columns(square, outer, to, from);
    let eps = score::constant_array(score::EPSILON as nat, a + 1, total);
    lemma_constant(score::EPSILON as nat, a, total, to, from);
    let raised = array::plus(total, eps);
    positions::lemma_plus(total, true, eps, false, outer, to, from);
    let root = array::sqrt(raised);
    positions::lemma_single_elements(raised, 0, outer, to, from);
    let norm = array::over(x, root);
    positions::lemma_over(x, true, root, true, outer, to, from);
    assert(norm == score::normalized_array(x, a));
    assert(positions::gather(norm, to, from) == score::normalized_array(p, a));
    let product = array::times(query, norm);
    positions::lemma_times(query, false, norm, true, outer, to, from);
    let dot = array::sum(product, a);
    positions::lemma_sum_columns(product, outer, to, from);
    let scale = score::scale_array(d, a + 1, x);
    lemma_scale(d, a, x, to, from);
    positions::lemma_times(dot, true, scale, false, outer, to, from);
}

// ---- one layer at a time ----

/// The score of gathered positions of a source is the gathered score of the source.
pub proof fn lemma_score_by_position(
    query: Array,
    src: Array,
    outer: Seq<nat>,
    to: Seq<nat>,
    from: spec_fn(nat) -> nat,
)
    requires
        outer.len() == 2,
        src.shape.len() == 3,
        query.shape == seq![src.shape[2]],
        positions::sized(query),
        positions::rows_on(src, outer),
        positions::selects(from, outer, to),
    ensures
        positions::rows_on(score::score(query, src), outer),
        score::score(query, src).shape.last() == 1,
        positions::gather(score::score(query, src), to, from) == score::score(
            query,
            positions::gather(src, to, from),
        ),
{
    let d = src.shape[2];
    let flat = array::reshaped(query, seq![1, 1, d]);
    array::lemma_leading_ones(1, 1, d);
    assert(flat.shape.drop_last() =~= array::unit_shape(2));
    lemma_scores(flat, src, outer, to, from);
    positions::lemma_gather(src, to, from);
    assert(positions::gather(src, to, from).shape[2] == d);
}

/// The positions of an attention state.
pub open spec fn gather_online(o: Online, to: Seq<nat>, from: spec_fn(nat) -> nat) -> Online {
    Online {
        max_score: positions::gather(o.max_score, to, from),
        sum_exp: positions::gather(o.sum_exp, to, from),
        acc: positions::gather(o.acc, to, from),
    }
}

/// An attention state with one row of `d` columns per position.
pub open spec fn online_on(o: Online, outer: Seq<nat>, d: nat) -> bool {
    &&& positions::rows_on(o.max_score, outer)
    &&& positions::rows_on(o.sum_exp, outer)
    &&& positions::rows_on(o.acc, outer)
    &&& o.max_score.shape.last() == 1
    &&& o.sum_exp.shape.last() == 1
    &&& o.acc.shape.last() == d
}

/// A merge of gathered positions is the gathered merge.
pub proof fn lemma_merge_by_position(
    o: Online,
    src: Array,
    s: Array,
    outer: Seq<nat>,
    to: Seq<nat>,
    from: spec_fn(nat) -> nat,
)
    requires
        online_on(o, outer, src.shape.last()),
        positions::rows_on(src, outer),
        positions::rows_on(s, outer),
        s.shape.last() == 1,
        positions::selects(from, outer, to),
    ensures
        online_on(online::merge(o, src, s), outer, src.shape.last()),
        gather_online(online::merge(o, src, s), to, from) == online::merge(
            gather_online(o, to, from),
            positions::gather(src, to, from),
            positions::gather(s, to, from),
        ),
{
    let m = o.max_score;
    positions::lemma_plus(m, true, s, true, outer, to, from);
    positions::lemma_minus(m, true, s, true, outer, to, from);
    positions::lemma_single_elements(array::minus(m, s), 0, outer, to, from);
    let (both, apart) = (array::plus(m, s), array::absolute(array::minus(m, s)));
    positions::lemma_plus(both, true, apart, true, outer, to, from);
    positions::lemma_single_elements(array::plus(both, apart), 2, outer, to, from);
    let top = online::upper(m, s);
    positions::lemma_minus(m, true, top, true, outer, to, from);
    positions::lemma_single_elements(array::minus(m, top), 0, outer, to, from);
    let rescale = array::exp(array::minus(m, top));
    positions::lemma_minus(s, true, top, true, outer, to, from);
    positions::lemma_single_elements(array::minus(s, top), 0, outer, to, from);
    let w = array::exp(array::minus(s, top));
    positions::lemma_times(o.sum_exp, true, rescale, true, outer, to, from);
    let kept = array::times(o.sum_exp, rescale);
    positions::lemma_plus(kept, true, w, true, outer, to, from);
    positions::lemma_times(o.acc, true, rescale, true, outer, to, from);
    positions::lemma_times(src, true, w, true, outer, to, from);
    let (held, new) = (array::times(o.acc, rescale), array::times(src, w));
    positions::lemma_plus(held, true, new, true, outer, to, from);
}

/// The least divisor is the same for every position.
proof fn lemma_at_least(x: Array, outer: Seq<nat>, to: Seq<nat>, from: spec_fn(nat) -> nat)
    requires
        outer.len() == 2,
        positions::rows_on(x, outer),
        x.shape.last() == 1,
        positions::selects(from, outer, to),
    ensures
        positions::rows_on(online::at_least(x), outer),
        online::at_least(x).shape.last() == 1,
        positions::gather(online::at_least(x), to, from) == online::at_least(
            positions::gather(x, to, from),
        ),
{
    let s = array::unit_shape(3);
    assert(s.drop_last() =~= array::unit_shape(2));
    lemma_unit_volume(3);
    let least = array::wide(online::LEAST_SUM as nat, 3, x);
    assert(array::wide(online::LEAST_SUM as nat, 3, positions::gather(x, to, from)) == least);
    if score::is_half(x.element) && x.tape == 0 {
        let (w, c) = (array::cast(x, 32), array::cast(least, 32));
        positions::lemma_cast(x, 32, outer, to, from);
        positions::lemma_larger(w, true, c, false, outer, to, from);
        positions::lemma_cast(array::larger(w, c), x.element, outer, to, from);
    } else {
        let c = array::cast(least, x.element);
        positions::lemma_larger(x, true, c, false, outer, to, from);
    }
}

/// The attended output of gathered positions is the gathered attended output.
pub proof fn lemma_attended_by_position(
    o: Online,
    outer: Seq<nat>,
    d: nat,
    to: Seq<nat>,
    from: spec_fn(nat) -> nat,
)
    requires
        outer.len() == 2,
        online_on(o, outer, d),
        positions::selects(from, outer, to),
    ensures
        positions::rows_on(online::attended(o), outer),
        online::attended(o).shape.last() == d,
        positions::gather(online::attended(o), to, from) == online::attended(
            gather_online(o, to, from),
        ),
{
    lemma_at_least(o.sum_exp, outer, to, from);
    positions::lemma_over(o.acc, true, online::at_least(o.sum_exp), true, outer, to, from);
}

/// Arrays of one value throughout.
proof fn lemma_filled(
    x: Array,
    value: nat,
    outer: Seq<nat>,
    to: Seq<nat>,
    from: spec_fn(nat) -> nat,
)
    requires
        x.shape.len() == outer.len() + 1,
        x.shape.drop_last() == outer,
        x.data == Seq::new(array::volume(x.shape), |i: int| value),
        positions::selects(from, outer, to),
    ensures
        positions::rows_on(x, outer),
        positions::gather(x, to, from).data == Seq::new(
            array::volume(to.push(x.shape.last())),
            |i: int| value,
        ),
{
    let w = x.shape.last();
    let g = positions::gather(x, to, from);
    assert(x.shape =~= outer.push(w));
    assert forall|j: int| 0 <= j < g.data.len() implies #[trigger] g.data[j] == value by {
        positions::lemma_selected(outer, to, from, w, j as nat);
    }
    assert(g.data =~= Seq::new(array::volume(to.push(w)), |i: int| value));
}

/// Attention over gathered positions of one source is the gathered attention.
pub proof fn lemma_first_by_position(
    src: Array,
    s: Array,
    outer: Seq<nat>,
    to: Seq<nat>,
    from: spec_fn(nat) -> nat,
)
    requires
        outer.len() == 2,
        positions::rows_on(src, outer),
        positions::rows_on(s, outer),
        s.shape.last() == 1,
        positions::selects(from, outer, to),
    ensures
        online_on(online::first(src, s), outer, src.shape.last()),
        gather_online(online::first(src, s), to, from) == online::first(
            positions::gather(src, to, from),
            positions::gather(s, to, from),
        ),
{
    let ones = array::ones(online::column(src.shape), src);
    let near = positions::gather(src, to, from);
    assert(src.shape.drop_last()[0] == src.shape[0] && src.shape.drop_last()[1] == src.shape[1]);
    assert(ones.shape.drop_last() =~= outer);
    assert(online::column(near.shape) =~= to.push(1));
    lemma_filled(ones, array::one_code(src.element), outer, to, from);
    assert(positions::gather(ones, to, from) =~= array::ones(online::column(near.shape), near));
}

/// The positions of a streaming state.
pub open spec fn gather_state(st: BlockState, to: Seq<nat>, from: spec_fn(nat) -> nat) -> BlockState {
    BlockState {
        partial: positions::gather(st.partial, to, from),
        online: gather_online(st.online, to, from),
        ..st
    }
}

/// A streaming state with one row of `d` columns per position.
pub open spec fn state_on(st: BlockState, outer: Seq<nat>, d: nat) -> bool {
    &&& positions::rows_on(st.partial, outer)
    &&& st.partial.shape.last() == d
    &&& online_on(st.online, outer, d)
}

/// A step of gathered positions gives the gathered result and the gathered state:
/// neither what a layer reads at a position nor what is kept for it depends on
/// another position.
pub proof fn lemma_step_by_position(
    query: Array,
    block_size: nat,
    st: BlockState,
    h: Array,
    p: Place,
    to: Seq<nat>,
    from: spec_fn(nat) -> nat,
)
    requires
        block::steppable(query, block_size, st, h, p),
        positions::sized(query),
        positions::sized(h),
        state_on(st, h.shape.drop_last(), h.shape.last()),
        positions::selects(from, h.shape.drop_last(), to),
    ensures
        state_on(
            block::step_state(query, block_size, st, h),
            h.shape.drop_last(),
            h.shape.last(),
        ),
        gather_state(block::step_state(query, block_size, st, h), to, from) == block::step_state(
            query,
            block_size,
            gather_state(st, to, from),
            positions::gather(h, to, from),
        ),
        positions::gather(block::step_output(query, st, h), to, from) == block::step_output(
            query,
            gather_state(st, to, from),
            positions::gather(h, to, from),
        ),
{
    let outer = h.shape.drop_last();
    let d = h.shape.last();
    let a = block::accumulated(st, h);
    let (near, h1) = (gather_state(st, to, from), positions::gather(h, to, from));
    positions::lemma_gather(h, to, from);
    if st.partial_count > 0 {
        positions::lemma_plus(st.partial, true, h, true, outer, to, from);
    }
    assert(block::accumulated(near, h1) == gather_state(a, to, from));
    assert(state_on(a, outer, d));
    assert(a.partial.shape =~= h.shape);
    lemma_attended_by_position(st.online, outer, d, to, from);
    if a.partial_count >= 2 || a.partial_count == block_size {
        lemma_score_by_position(query, a.partial, outer, to, from);
        let s = score::score(query, a.partial);
        lemma_first_by_position(a.partial, s, outer, to, from);
        lemma_merge_by_position(st.online, a.partial, s, outer, to, from);
        let merged = online::merge(st.online, a.partial, s);
        lemma_attended_by_position(merged, outer, d, to, from);
        let zeros = array::zeros(h.shape, h);
        lemma_filled(zeros, 0, outer, to, from);
        assert(positions::gather(zeros, to, from) =~= array::zeros(h1.shape, h1));
    }
}

/// The positions of every layer.
pub open spec fn gather_all(
    history: Seq<Array>,
    to: Seq<nat>,
    from: spec_fn(nat) -> nat,
) -> Seq<Array> {
    Seq::new(history.len(), |k: int| positions::gather(history[k], to, from))
}

/// Layers of one shape, kept at one place, with as many elements as the shape says.
pub open spec fn uniform(history: Seq<Array>, shape: Seq<nat>, p: Place) -> bool {
    forall|k: int|
        0 <= k < history.len() ==> (#[trigger] history[k]).shape == shape && positions::sized(
            history[k],
        ) && array::kept_at(history[k], p)
}

/// The state after several layers, for gathered positions, is the gathered state.
pub proof fn lemma_run_by_position(
    query: Array,
    block_size: nat,
    st: BlockState,
    history: Seq<Array>,
    shape: Seq<nat>,
    p: Place,
    to: Seq<nat>,
    from: spec_fn(nat) -> nat,
)
    requires
        laws::unseen(st),
        shape.len() == 3,
        positions::sized(query),
        block::scores_at(query, shape, p),
        state_on(st, shape.drop_last(), shape.last()),
        uniform(history, shape, p),
        positions::selects(from, shape.drop_last(), to),
    ensures
        state_on(
            block::run(query, block_size, st, history),
            shape.drop_last(),
            shape.last(),
        ),
        block::fits(block::run(query, block_size, st, history), shape, p),
        gather_state(block::run(query, block_size, st, history), to, from) == block::run(
            query,
            block_size,
            gather_state(st, to, from),
            gather_all(history, to, from),
        ),
    decreases history.len(),
{
    if history.len() > 0 {
        let before = history.drop_last();
        let h = history.last();
        assert forall|k: int| 0 <= k < before.len() implies (#[trigger] before[k]).shape == shape
            && positions::sized(before[k]) && array::kept_at(before[k], p) by {
            assert(before[k] == history[k]);
        }
        lemma_run_by_position(query, block_size, st, before, shape, p, to, from);
        assert(history[history.len() - 1] == h);
        let mid = block::run(query, block_size, st, before);
        lemma_step_by_position(query, block_size, mid, h, p, to, from);
        block::lemma_step_fits(query, block_size, mid, h, p);
        assert(gather_all(history, to, from).drop_last() =~= gather_all(before, to, from));
    }
}

/// Block attention over gathered positions of the layers is gathered block attention.
pub proof fn lemma_block_attention_by_position(
    query: Array,
    block_size: nat,
    history: Seq<Array>,
    p: Place,
    to: Seq<nat>,
    from: spec_fn(nat) -> nat,
)
    requires
        depth::aligned(query, history, p),
        positions::sized(query),
        uniform(history, history[0].shape, p),
        positions::selects(from, history[0].shape.drop_last(), to),
    ensures
        positions::gather(block::recomputed(query, block_size, history), to, from)
            == block::recomputed(query, block_size, gather_all(history, to, from)),
{
    let shape = history[0].shape;
    let outer = shape.drop_last();
    let before = history.drop_last();
    let h = history.last();
    let st = block::fresh(history[0]);
    let near = positions::gather(history[0], to, from);
    assert(history[history.len() - 1] == h);
    assert(outer[0] == shape[0] && outer[1] == shape[1]);
    assert(online::column(shape).drop_last() =~= outer);
    assert(online::column(near.shape) =~= to.push(1));
    lemma_filled(st.partial, 0, outer, to, from);
    lemma_filled(st.online.sum_exp, 0, outer, to, from);
    assert(gather_state(st, to, from) =~= block::fresh(near));
    assert forall|k: int| 0 <= k < before.len() implies (#[trigger] before[k]).shape == shape
        && positions::sized(before[k]) && array::kept_at(before[k], p) by {
        assert(before[k] == history[k]);
    }
    lemma_run_by_position(query, block_size, st, before, shape, p, to, from);
    let mid = block::run(query, block_size, st, before);
    lemma_step_by_position(query, block_size, mid, h, p, to, from);
    assert(gather_all(history, to, from).drop_last() =~= gather_all(before, to, from));
}

// ---- all layers at once ----

/// The positions of every layer of a stack: within each layer, those that `from`
/// tells.
pub open spec fn in_each(from: spec_fn(nat) -> nat, to: nat, outer: nat) -> spec_fn(nat) -> nat {
    |m: nat| (m / to) * outer + from(m % to)
}

/// The axes of a stack of `l` layers.
pub open spec fn stack_axes(l: nat, outer: Seq<nat>) -> Seq<nat> {
    seq![l, outer[0], outer[1]]
}

/// A place in a stack, as a layer, a position and a column.
pub proof fn lemma_layer(l: nat, n: nat, w: nat, k: nat, r: nat, c: nat)
    requires
        k < l,
        r < n,
        c < w,
    ensures
        ({
            let i = (k * n + r) * w + c;
            &&& i == k * (n * w) + (r * w + c)
            &&& r * w + c < n * w
            &&& i / (n * w) == k
            &&& i % (n * w) == r * w + c
            &&& i / (n * w) / l == 0
            &&& i / (n * w) % l == k
            &&& (k * n + r) / n == k
            &&& (k * n + r) % n == r
            &&& k * n + r < l * n
        }),
{
    let i = (k * n + r) * w + c;
    assert(i == k * (n * w) + (r * w + c)) by (nonlinear_arith)
        requires
            i == (k * n + r) * w + c,
    ;
    assert(r * w + c < n * w) by (nonlinear_arith)
        requires
            r + 1 <= n,
            c < w,
    ;
    vstd::arithmetic::div_mod::lemma_fundamental_div_mod_converse(
        i as int,
        (n * w) as int,
        k as int,
        (r * w + c) as int,
    );
    vstd::arithmetic::div_mod::lemma_fundamental_div_mod_converse(
        k as int,
        l as int,
        0,
        k as int,
    );
    vstd::arithmetic::div_mod::lemma_fundamental_div_mod_converse(
        (k * n + r) as int,
        n as int,
        k as int,
        r as int,
    );
    assert(k * n + r < l * n) by (nonlinear_arith)
        requires
            k + 1 <= l,
            r < n,
    ;
}

/// The number of positions of a stack.
pub proof fn lemma_stack_volume(l: nat, outer: Seq<nat>, w: nat)
    requires
        outer.len() == 2,
    ensures
        array::volume(stack_axes(l, outer)) == l * array::volume(outer),
        array::volume(seq![outer[0], outer[1], w]) == array::volume(outer) * w,
{
    let (b, t) = (outer[0], outer[1]);
    array::lemma_volumes(l, b, t, 1);
    array::lemma_volumes(b, t, w, 1);
    assert(outer =~= seq![b, t]);
    assert(seq![b, t, w].drop_last() =~= seq![b, t]);
    assert(l * b * t == l * (b * t)) by (nonlinear_arith);
    assert(array::volume(seq![b, t]) == b * t) by {
        reveal_with_fuel(array::volume, 3);
        assert(seq![b, t].drop_last() =~= seq![b]);
        assert(seq![b].drop_last() =~= Seq::<nat>::empty());
    }
}

/// A layer and a position within it, of a position of a stack.
proof fn lemma_stack_position(l: nat, n: nat, m: nat)
    requires
        m < l * n,
    ensures
        n > 0,
        m / n < l,
        m % n < n,
        m == (m / n) * n + m % n,
{
    assert(n > 0) by (nonlinear_arith)
        requires
            m < l * n,
    ;
    vstd::arithmetic::div_mod::lemma_fundamental_div_mod(m as int, n as int);
    assert(n * (m / n) == (m / n) * n) by (nonlinear_arith);
    assert(m / n < l) by (nonlinear_arith)
        requires
            m == (m / n) * n + m % n,
            m < l * n,
            0 <= m % n,
    ;
}

/// Positions selected in each layer are positions of the stack.
proof fn lemma_in_each(
    l: nat,
    outer: Seq<nat>,
    to: Seq<nat>,
    from: spec_fn(nat) -> nat,
)
    requires
        outer.len() == 2,
        positions::selects(from, outer, to),
    ensures
        positions::selects(
            in_each(from, array::volume(to), array::volume(outer)),
            stack_axes(l, outer),
            stack_axes(l, to),
        ),
{
    let (n, n2) = (array::volume(outer), array::volume(to));
    lemma_stack_volume(l, outer, 1);
    lemma_stack_volume(l, to, 1);
    let each = in_each(from, n2, n);
    assert forall|m: nat| m < array::volume(stack_axes(l, to)) implies #[trigger] each(m)
        < array::volume(stack_axes(l, outer)) by {
        lemma_stack_position(l, n2, m);
        lemma_layer(l, n, 1, m / n2, from(m % n2), 0);
    }
}

/// The line through the layers at a place of gathered positions is the line through
/// the layers at the place it comes from.
proof fn lemma_depth_line(
    x: Array,
    l: nat,
    outer: Seq<nat>,
    to: Seq<nat>,
    from: spec_fn(nat) -> nat,
    r: nat,
    c: nat,
)
    requires
        outer.len() == 2,
        positions::rows_on(x, stack_axes(l, outer)),
        positions::selects(from, outer, to),
        r < array::volume(to),
        c < x.shape.last(),
    ensures
        ({
            let w = x.shape.last();
            let each = in_each(from, array::volume(to), array::volume(outer));
            let g = positions::gather(x, stack_axes(l, to), each);
            &&& array::width_after(x.shape, 0) == array::volume(outer) * w
            &&& array::width_after(g.shape, 0) == array::volume(to) * w
            &&& array::line(g, 0, 0, r * w + c) == array::line(x, 0, 0, from(r) * w + c)
        }),
{
    let w = x.shape.last();
    let (n, n2) = (array::volume(outer), array::volume(to));
    let each = in_each(from, n2, n);
    let g = positions::gather(x, stack_axes(l, to), each);
    lemma_stack_volume(l, outer, w);
    lemma_stack_volume(l, to, w);
    assert(x.shape =~= stack_axes(l, outer).push(w));
    assert(x.shape.skip(1) =~= seq![outer[0], outer[1], w]);
    assert(g.shape.skip(1) =~= seq![to[0], to[1], w]);
    let (a, b) = (array::line(g, 0, 0, r * w + c), array::line(x, 0, 0, from(r) * w + c));
    assert forall|k: int| 0 <= k < l implies #[trigger] a[k] == b[k] by {
        let layer = k as nat;
        lemma_layer(l, n2, w, layer, r, c);
        lemma_layer(l, n, w, layer, from(r), c);
        let m = layer * n2 + r;
        positions::lemma_place(stack_axes(l, to), w, m, c);
        assert(each(m) == layer * n + from(r));
        assert((0 * l + k) * (n2 * w) + (r * w + c) == m * w + c);
        assert((0 * l + k) * (n * w) + (from(r) * w + c) == each(m) * w + c);
    }
    assert(a =~= b);
}

/// Softmax over the layers keeps the positions apart.
pub proof fn lemma_softmax_layers(
    x: Array,
    l: nat,
    outer: Seq<nat>,
    to: Seq<nat>,
    from: spec_fn(nat) -> nat,
)
    requires
        outer.len() == 2,
        positions::rows_on(x, stack_axes(l, outer)),
        positions::selects(from, outer, to),
    ensures
        ({
            let each = in_each(from, array::volume(to), array::volume(outer));
            &&& positions::rows_on(array::softmax(x, 0), stack_axes(l, outer))
            &&& positions::gather(array::softmax(x, 0), stack_axes(l, to), each) == array::softmax(
                positions::gather(x, stack_axes(l, to), each),
                0,
            )
        }),
{
    let w = x.shape.last();
    let (n, n2) = (array::volume(outer), array::volume(to));
    let each = in_each(from, n2, n);
    let axes = stack_axes(l, to);
    let g = positions::gather(x, axes, each);
    let z = array::softmax(x, 0);
    let r = array::softmax(g, 0);
    lemma_in_each(l, outer, to, from);
    lemma_stack_volume(l, to, w);
    assert(x.shape =~= stack_axes(l, outer).push(w));
    assert forall|j: int| 0 <= j < r.data.len() implies #[trigger] positions::gather(
        z,
        axes,
        each,
    ).data[j] == r.data[j] by {
        let i = j as nat;
        positions::lemma_selected(stack_axes(l, outer), axes, each, w, i);
        positions::lemma_row_and_column(axes, w, i);
        let (m, c) = (i / w, i % w);
        lemma_stack_position(l, n2, m);
        let (k, q) = (m / n2, m % n2);
        lemma_layer(l, n2, w, k, q, c);
        lemma_layer(l, n, w, k, from(q), c);
        lemma_depth_line(x, l, outer, to, from, q, c);
        assert(each(m) == k * n + from(q));
        assert(z.data[(each(m) * w + c) as int] == array::softmax_codes(
            x.element,
            x.tape != 0,
            array::line(x, 0, 0, from(q) * w + c),
        )[k as int]);
        assert(r.data[j] == array::softmax_codes(
            x.element,
            x.tape != 0,
            array::line(g, 0, 0, q * w + c),
        )[k as int]);
    }
    assert(positions::gather(z, axes, each).data =~= r.data);
}

/// The sum over the layers keeps the positions apart.
pub proof fn lemma_sum_layers(
    x: Array,
    l: nat,
    outer: Seq<nat>,
    to: Seq<nat>,
    from: spec_fn(nat) -> nat,
)
    requires
        outer.len() == 2,
        positions::rows_on(x, stack_axes(l, outer)),
        positions::selects(from, outer, to),
    ensures
        ({
            let each = in_each(from, array::volume(to), array::volume(outer));
            &&& positions::rows_on(array::sum(x, 0), stack_axes(1, outer))
            &&& array::sum(x, 0).shape.last() == x.shape.last()
            &&& positions::gather(array::sum(x, 0), stack_axes(1, to), each) == array::sum(
                positions::gather(x, stack_axes(l, to), each),
                0,
            )
        }),
{
    let w = x.shape.last();
    let (n, n2) = (array::volume(outer), array::volume(to));
    let each = in_each(from, n2, n);
    let axes = stack_axes(1, to);
    let g = positions::gather(x, stack_axes(l, to), each);
    let z = array::sum(x, 0);
    let r = array::sum(g, 0);
    lemma_in_each(1, outer, to, from);
    lemma_stack_volume(1, to, w);
    assert(x.shape =~= stack_axes(l, outer).push(w));
    assert(z.shape =~= stack_axes(1, outer).push(w));
    assert(z.shape.drop_last() =~= stack_axes(1, outer));
    assert(r.shape =~= axes.push(w));
    assert forall|j: int| 0 <= j < r.data.len() implies #[trigger] positions::gather(
        z,
        axes,
        each,
    ).data[j] == r.data[j] by {
        let i = j as nat;
        positions::lemma_selected(stack_axes(1, outer), axes, each, w, i);
        positions::lemma_row_and_column(axes, w, i);
        let (m, c) = (i / w, i % w);
        lemma_stack_position(1, n2, m);
        assert(m / n2 == 0 && m % n2 == m) by {
            assert((m / n2) * n2 == 0) by (nonlinear_arith)
                requires
                    m / n2 == 0,
            ;
        }
        lemma_layer(1, n2, w, 0, m, c);
        lemma_layer(1, n, w, 0, from(m), c);
        lemma_depth_line(x, l, outer, to, from, m, c);
        assert(0 * n == 0);
        assert(each(m) == from(m));
        let at = from(m) * w + c;
        assert(z.data[at as int] == array::sum_code(x.element, false, array::line(x, 0, 0, at)));
        assert(r.data[j] == array::sum_code(
            x.element,
            false,
            array::line(g, 0, 0, m * w + c),
        ));
    }
    assert(positions::gather(z, axes, each).data =~= r.data);
}

/// Where the elements of a part are among the elements of all parts.
proof fn lemma_joined(parts: Seq<Array>, size: nat)
    requires
        forall|k: int| 0 <= k < parts.len() ==> (#[trigger] parts[k]).data.len() == size,
    ensures
        array::joined_data(parts).len() == parts.len() * size,
        forall|k: nat, e: nat|
            k < parts.len() && e < size ==> #[trigger] array::joined_data(parts)[(k * size
                + e) as int] == parts[k as int].data[e as int],
    decreases parts.len(),
{
    if parts.len() > 0 {
        let before = parts.drop_last();
        let n = before.len();
        assert forall|k: int| 0 <= k < before.len() implies (#[trigger] before[k]).data.len()
            == size by {
            assert(before[k] == parts[k]);
        }
        lemma_joined(before, size);
        assert(parts[n as int].data.len() == size);
        assert((n + 1) * size == n * size + size) by (nonlinear_arith);
        assert forall|k: nat, e: nat|
            k < parts.len() && e < size implies #[trigger] array::joined_data(parts)[(k * size
            + e) as int] == parts[k as int].data[e as int] by {
            if k < n {
                assert(k * size + e < n * size) by (nonlinear_arith)
                    requires
                        k + 1 <= n,
                        e < size,
                ;
                assert(array::joined_data(before)[(k * size + e) as int]
                    == before[k as int].data[e as int]);
            }
        }
    } else {
        assert(0 * size == 0);
    }
}

proof fn lemma_same_tape(a: Seq<Array>, b: Seq<Array>)
    requires
        a.len() == b.len(),
        forall|k: int| 0 <= k < a.len() ==> (#[trigger] a[k]).tape == (#[trigger] b[k]).tape,
    ensures
        array::joined_tape(a) == array::joined_tape(b),
    decreases a.len(),
{
    if a.len() > 0 {
        assert forall|k: int| 0 <= k < a.drop_last().len() implies (#[trigger] a.drop_last()[k]).tape
            == (#[trigger] b.drop_last()[k]).tape by {
            assert(a[k].tape == b[k].tape);
        }
        lemma_same_tape(a.drop_last(), b.drop_last());
        assert(a[a.len() - 1].tape == b[b.len() - 1].tape);
    }
}

/// The layers of a stack, each with a new first axis.
spec fn raised(history: Seq<Array>) -> Seq<Array> {
    Seq::new(history.len(), |k: int| array::with_axis(history[k], 0))
}

/// The elements of a stack.
pub proof fn lemma_stack_elements(history: Seq<Array>, outer: Seq<nat>, d: nat)
    requires
        history.len() > 0,
        outer.len() == 2,
        forall|k: int|
            0 <= k < history.len() ==> positions::rows_on(#[trigger] history[k], outer)
                && history[k].shape.last() == d,
    ensures
        positions::rows_on(depth::stacked(history), stack_axes(history.len(), outer)),
        depth::stacked(history).shape.last() == d,
        forall|k: nat, r: nat, c: nat|
            k < history.len() && r < array::volume(outer) && c < d ==> #[trigger] depth::stacked(
                history,
            ).data[((k * array::volume(outer) + r) * d + c) as int] == history[k as int].data[(r * d
                + c) as int],
{
    let l = history.len();
    let n = array::volume(outer);
    let parts = raised(history);
    let h = depth::stacked(history);
    assert(positions::rows_on(history[0], outer));
    assert(history[0].shape =~= seq![outer[0], outer[1], d]);
    lemma_stack_volume(l, outer, d);
    assert forall|k: int| 0 <= k < parts.len() implies (#[trigger] parts[k]).data.len() == n * d by {
        assert(positions::rows_on(history[k], outer));
        assert(history[k].shape =~= seq![outer[0], outer[1], d]);
    }
    lemma_joined(parts, n * d);
    assert(h == array::concatenated(parts));
    assert(parts[0].shape =~= seq![1, outer[0], outer[1], d]);
    assert(l * 1 == l);
    assert(h.shape =~= stack_axes(l, outer).push(d));
    assert(h.shape.drop_last() =~= stack_axes(l, outer));
    assert(l * (n * d) == (l * n) * d) by (nonlinear_arith);
    assert forall|k: nat, r: nat, c: nat| k < l && r < n && c < d implies #[trigger] h.data[((k * n
        + r) * d + c) as int] == history[k as int].data[(r * d + c) as int] by {
        lemma_layer(l, n, d, k, r, c);
        assert(array::joined_data(parts)[(k * (n * d) + (r * d + c)) as int]
            == parts[k as int].data[(r * d + c) as int]);
    }
}

/// The stack of gathered positions is the gathered stack.
pub proof fn lemma_stack_by_position(
    history: Seq<Array>,
    shape: Seq<nat>,
    p: Place,
    to: Seq<nat>,
    from: spec_fn(nat) -> nat,
)
    requires
        history.len() > 0,
        shape.len() == 3,
        uniform(history, shape, p),
        positions::selects(from, shape.drop_last(), to),
    ensures
        ({
            let outer = shape.drop_last();
            let each = in_each(from, array::volume(to), array::volume(outer));
            &&& positions::rows_on(depth::stacked(history), stack_axes(history.len(), outer))
            &&& depth::stacked(history).shape.last() == shape.last()
            &&& positions::gather(
                depth::stacked(history),
                stack_axes(history.len(), to),
                each,
            ) == depth::stacked(gather_all(history, to, from))
        }),
{
    let l = history.len();
    let outer = shape.drop_last();
    let d = shape.last();
    let (n, n2) = (array::volume(outer), array::volume(to));
    let each = in_each(from, n2, n);
    let near = gather_all(history, to, from);
    assert forall|k: int| 0 <= k < l implies positions::rows_on(#[trigger] history[k], outer)
        && history[k].shape.last() == d by {
        assert(history[k].shape == shape);
    }
    assert forall|k: int| 0 <= k < l implies positions::rows_on(#[trigger] near[k], to)
        && near[k].shape.last() == d by {
        assert(history[k].shape == shape);
        positions::lemma_gather(history[k], to, from);
    }
    lemma_stack_elements(history, outer, d);
    lemma_stack_elements(near, to, d);
    lemma_in_each(l, outer, to, from);
    lemma_stack_volume(l, to, d);
    let axes = stack_axes(l, to);
    let z = positions::gather(depth::stacked(history), axes, each);
    let r = depth::stacked(near);
    assert(r.shape =~= axes.push(d));
    assert forall|j: int| 0 <= j < z.data.len() implies #[trigger] z.data[j] == r.data[j] by {
        let i = j as nat;
        positions::lemma_row_and_column(axes, d, i);
        let (m, c) = (i / d, i % d);
        lemma_stack_position(l, n2, m);
        let (k, q) = (m / n2, m % n2);
        assert(each(m) == k * n + from(q));
        positions::lemma_place(to, d, q, c);
        assert(depth::stacked(history).data[((k * n + from(q)) * d + c) as int]
            == history[k as int].data[(from(q) * d + c) as int]);
        assert(r.data[((k * n2 + q) * d + c) as int] == near[k as int].data[(q * d + c) as int]);
    }
    assert(z.data =~= r.data);
    assert(history[0].shape == shape);
    lemma_same_tape(raised(history), raised(near));
}

/// Depth attention over gathered positions of the layers is gathered depth attention.
pub proof fn lemma_depth_attention_by_position(
    history: Seq<Array>,
    query: Array,
    p: Place,
    to: Seq<nat>,
    from: spec_fn(nat) -> nat,
)
    requires
        depth::aligned(query, history, p),
        positions::sized(query),
        uniform(history, history[0].shape, p),
        positions::selects(from, history[0].shape.drop_last(), to),
    ensures
        positions::gather(depth::depth(history, query), to, from) == depth::depth(
            gather_all(history, to, from),
            query,
        ),
{
    let shape = history[0].shape;
    let outer = shape.drop_last();
    let d = shape.last();
    let l = history.len();
    let (n, n2) = (array::volume(outer), array::volume(to));
    let each = in_each(from, n2, n);
    let axes = stack_axes(l, to);
    let near = gather_all(history, to, from);
    let q = array::reshaped(query, seq![1, 1, 1, d]);
    array::lemma_leading_ones(1, 1, d);
    assert(q.shape.drop_last() =~= array::unit_shape(3));
    lemma_stack_by_position(history, shape, p, to, from);
    lemma_in_each(l, outer, to, from);
    let h = depth::stacked(history);
    lemma_scores(q, h, stack_axes(l, outer), axes, each);
    let scores = score::scores_array(q, h);
    lemma_softmax_layers(scores, l, outer, to, from);
    let weights = array::softmax(scores, 0);
    assert(weights == depth::depth_weights(history, query));
    assert(weights.shape.last() == 1);
    positions::lemma_times(h, true, weights, true, stack_axes(l, outer), axes, each);
    let product = array::times(h, weights);
    lemma_sum_layers(product, l, outer, to, from);
    let total = array::sum(product, 0);
    let out = array::reshaped(total, shape);
    assert(near[0].shape == to.push(d));
    assert(near[0].shape[2] == d);
    let r = depth::weighted_sum(near, query);
    assert(r == array::reshaped(
        positions::gather(total, stack_axes(1, to), each),
        to.push(d),
    ));
    lemma_stack_volume(1, to, d);
    assert(stack_axes(1, to).push(d) =~= seq![1, to[0], to[1], d]);
    array::lemma_leading_ones(to[0], to[1], d);
    assert(to.push(d) =~= seq![to[0], to[1], d]);
    let z = positions::gather(out, to, from);
    assert forall|j: int| 0 <= j < z.data.len() implies #[trigger] z.data[j] == r.data[j] by {
        let i = j as nat;
        positions::lemma_row_and_column(to, d, i);
        let m = i / d;
        assert(m / n2 == 0 && m % n2 == m) by {
            vstd::arithmetic::div_mod::lemma_fundamental_div_mod_converse(
                m as int,
                n2 as int,
                0,
                m as int,
            );
        }
        assert(0 * n == 0);
        assert(each(m) == from(m));
    }
    assert(z.data =~= r.data);
}

// ---- the fused path ----

/// The fused score of gathered positions of a source is the gathered score.
pub proof fn lemma_fused_score_by_position(
    query: Array,
    src: Array,
    outer: Seq<nat>,
    to: Seq<nat>,
    from: spec_fn(nat) -> nat,
)
    requires
        outer.len() == 2,
        src.shape.len() == 3,
        query.shape == seq![src.shape[2]],
        positions::sized(query),
        positions::rows_on(src, outer),
        positions::selects(from, outer, to),
    ensures
        positions::rows_on(fused::fused_score(query, src), outer),
        fused::fused_score(query, src).shape.last() == 1,
        positions::gather(fused::fused_score(query, src), to, from) == fused::fused_score(
            query,
            positions::gather(src, to, from),
        ),
{
    let d = src.shape[2];
    let flat = array::reshaped(query, seq![1, 1, d]);
    array::lemma_leading_ones(1, 1, d);
    assert(flat.shape.drop_last() =~= array::unit_shape(2));
    positions::lemma_gather(src, to, from);
    let square = array::times(src, src);
    positions::lemma_times(src, true, src, true, outer, to, from);
    let total = array::sum(square, 2);
    positions::lemma_sum_columns(square, outer, to, from);
    let eps = score::constant_array(score::EPSILON as nat, 3, total);
    lemma_constant(score::EPSILON as nat, 2, total, to, from);
    let raised = array::plus(total, eps);
    positions::lemma_plus(total, true, eps, false, outer, to, from);
    positions::lemma_single_elements(raised, 0, outer, to, from);
    let product = array::times(flat, src);
    positions::lemma_times(flat, false, src, true, outer, to, from);
    let dot = array::sum(product, 2);
    positions::lemma_sum_columns(product, outer, to, from);
    let scale = score::scale_array(d, 3, src);
    lemma_scale(d, 2, src, to, from);
    let scaled = array::times(dot, scale);
    positions::lemma_times(dot, true, scale, false, outer, to, from);
    positions::lemma_over(scaled, true, array::sqrt(raised), true, outer, to, from);
}

/// One row of `d` columns per position, for all of several arrays.
pub open spec fn all_on(s: Seq<Array>, outer: Seq<nat>, d: nat) -> bool {
    forall|k: int|
        0 <= k < s.len() ==> positions::rows_on(#[trigger] s[k], outer) && s[k].shape.last() == d
}

proof fn lemma_all_on_prefix(s: Seq<Array>, outer: Seq<nat>, d: nat)
    requires
        all_on(s, outer, d),
        s.len() > 0,
    ensures
        all_on(s.drop_last(), outer, d),
        positions::rows_on(s.last(), outer),
        s.last().shape.last() == d,
{
    let before = s.drop_last();
    assert forall|k: int| 0 <= k < before.len() implies positions::rows_on(
        #[trigger] before[k],
        outer,
    ) && before[k].shape.last() == d by {
        assert(before[k] == s[k]);
    }
    assert(s[s.len() - 1] == s.last());
}

/// The largest score, the sum of the exponentials and the weighted sum of a chunk keep
/// the positions apart.
proof fn lemma_chunk_by_position(
    rows: Seq<Array>,
    scores: Seq<Array>,
    m: Array,
    like: Array,
    outer: Seq<nat>,
    to: Seq<nat>,
    from: spec_fn(nat) -> nat,
)
    requires
        outer.len() == 2,
        rows.len() == scores.len(),
        positions::rows_on(like, outer),
        all_on(rows, outer, like.shape.last()),
        all_on(scores, outer, 1),
        positions::rows_on(m, outer),
        m.shape.last() == 1,
        positions::selects(from, outer, to),
    ensures
        ({
            let (near_rows, near_scores) = (
                gather_all(rows, to, from),
                gather_all(scores, to, from),
            );
            let (near_m, near) = (
                positions::gather(m, to, from),
                positions::gather(like, to, from),
            );
            let top = fused::peak(scores, like);
            let total = fused::exp_total(scores, m, like);
            let mix = fused::mixture(rows, scores, m, like);
            &&& positions::rows_on(top, outer)
            &&& top.shape.last() == 1
            &&& positions::gather(top, to, from) == fused::peak(near_scores, near)
            &&& positions::rows_on(total, outer)
            &&& total.shape.last() == 1
            &&& positions::gather(total, to, from) == fused::exp_total(near_scores, near_m, near)
            &&& positions::rows_on(mix, outer)
            &&& mix.shape.last() == like.shape.last()
            &&& positions::gather(mix, to, from) == fused::mixture(
                near_rows,
                near_scores,
                near_m,
                near,
            )
        }),
    decreases rows.len(),
{
    let near = positions::gather(like, to, from);
    let (near_rows, near_scores) = (gather_all(rows, to, from), gather_all(scores, to, from));
    if rows.len() == 0 {
        let col = array::zeros(online::column(like.shape), like);
        let full = array::zeros(like.shape, like);
        assert(like.shape.drop_last()[0] == like.shape[0]);
        assert(like.shape.drop_last()[1] == like.shape[1]);
        assert(col.shape.drop_last() =~= outer);
        assert(online::column(near.shape) =~= to.push(1));
        lemma_filled(col, 0, outer, to, from);
        lemma_filled(full, 0, outer, to, from);
        assert(positions::gather(col, to, from) =~= array::zeros(online::column(near.shape), near));
        assert(positions::gather(full, to, from) =~= array::zeros(near.shape, near));
        let floor = score::constant_array(fused::FLOOR as nat, 3, like);
        lemma_constant(fused::FLOOR as nat, 2, like, to, from);
        positions::lemma_plus(col, true, floor, false, outer, to, from);
    } else {
        let s = scores.last();
        let h = rows.last();
        lemma_all_on_prefix(rows, outer, like.shape.last());
        lemma_all_on_prefix(scores, outer, 1);
        lemma_chunk_by_position(
            rows.drop_last(),
            scores.drop_last(),
            m,
            like,
            outer,
            to,
            from,
        );
        assert(near_rows.drop_last() =~= gather_all(rows.drop_last(), to, from));
        assert(near_scores.drop_last() =~= gather_all(scores.drop_last(), to, from));
        let top = fused::peak(scores.drop_last(), like);
        positions::lemma_larger(top, true, s, true, outer, to, from);
        positions::lemma_minus(s, true, m, true, outer, to, from);
        positions::lemma_single_elements(array::minus(s, m), 0, outer, to, from);
        let w = array::exp(array::minus(s, m));
        let total = fused::exp_total(scores.drop_last(), m, like);
        positions::lemma_plus(total, true, w, true, outer, to, from);
        positions::lemma_times(w, true, h, true, outer, to, from);
        let mix = fused::mixture(rows.drop_last(), scores.drop_last(), m, like);
        positions::lemma_plus(mix, true, array::times(w, h), true, outer, to, from);
    }
}

/// Folding in gathered positions of a chunk gives the gathered state.
pub proof fn lemma_folded_by_position(
    o: Online,
    rows: Seq<Array>,
    scores: Seq<Array>,
    first: bool,
    like: Array,
    outer: Seq<nat>,
    to: Seq<nat>,
    from: spec_fn(nat) -> nat,
)
    requires
        outer.len() == 2,
        rows.len() == scores.len(),
        positions::rows_on(like, outer),
        online_on(o, outer, like.shape.last()),
        all_on(rows, outer, like.shape.last()),
        all_on(scores, outer, 1),
        positions::selects(from, outer, to),
    ensures
        online_on(fused::folded(o, rows, scores, first, like), outer, like.shape.last()),
        gather_online(fused::folded(o, rows, scores, first, like), to, from) == fused::folded(
            gather_online(o, to, from),
            gather_all(rows, to, from),
            gather_all(scores, to, from),
            first,
            positions::gather(like, to, from),
        ),
{
    lemma_chunk_by_position(rows, scores, o.max_score, like, outer, to, from);
    let top = fused::peak(scores, like);
    lemma_chunk_by_position(rows, scores, top, like, outer, to, from);
    positions::lemma_larger(o.max_score, true, top, true, outer, to, from);
    let m = array::larger(o.max_score, top);
    lemma_chunk_by_position(rows, scores, m, like, outer, to, from);
    positions::lemma_minus(o.max_score, true, m, true, outer, to, from);
    positions::lemma_single_elements(array::minus(o.max_score, m), 0, outer, to, from);
    let rescale = array::exp(array::minus(o.max_score, m));
    positions::lemma_times(o.sum_exp, true, rescale, true, outer, to, from);
    positions::lemma_minus(top, true, m, true, outer, to, from);
    positions::lemma_single_elements(array::minus(top, m), 0, outer, to, from);
    let shift = array::exp(array::minus(top, m));
    let total = fused::exp_total(scores, top, like);
    positions::lemma_times(total, true, shift, true, outer, to, from);
    let (kept, new) = (array::times(o.sum_exp, rescale), array::times(total, shift));
    positions::lemma_plus(kept, true, new, true, outer, to, from);
    positions::lemma_times(o.acc, true, rescale, true, outer, to, from);
    let mix = fused::mixture(rows, scores, m, like);
    positions::lemma_plus(array::times(o.acc, rescale), true, mix, true, outer, to, from);
}

/// Attention over nothing is the same for every position.
proof fn lemma_unstarted_by_position(
    like: Array,
    outer: Seq<nat>,
    to: Seq<nat>,
    from: spec_fn(nat) -> nat,
)
    requires
        outer.len() == 2,
        positions::rows_on(like, outer),
        positions::selects(from, outer, to),
    ensures
        online_on(fused::unstarted(like), outer, like.shape.last()),
        gather_online(fused::unstarted(like), to, from) == fused::unstarted(
            positions::gather(like, to, from),
        ),
{
    let none = Seq::<Array>::empty();
    let near = positions::gather(like, to, from);
    let zero = array::zeros(online::column(like.shape), like);
    let full = array::zeros(like.shape, like);
    assert(like.shape.drop_last()[0] == like.shape[0]);
    assert(like.shape.drop_last()[1] == like.shape[1]);
    assert(zero.shape.drop_last() =~= outer);
    assert(online::column(near.shape) =~= to.push(1));
    lemma_filled(zero, 0, outer, to, from);
    lemma_filled(full, 0, outer, to, from);
    lemma_chunk_by_position(none, none, zero, like, outer, to, from);
    assert(gather_all(none, to, from) =~= none);
    assert(positions::gather(zero, to, from) =~= array::zeros(online::column(near.shape), near));
    assert(positions::gather(full, to, from) =~= array::zeros(near.shape, near));
}

proof fn lemma_chunks_by_position(
    query: Array,
    history: Seq<Array>,
    p: Place,
    n: nat,
    to: Seq<nat>,
    from: spec_fn(nat) -> nat,
)
    requires
        depth::aligned(query, history, p),
        positions::sized(query),
        uniform(history, history[0].shape, p),
        history.len() <= usize::MAX,
        n <= launch::chunk_count(history.len()),
        positions::selects(from, history[0].shape.drop_last(), to),
    ensures
        online_on(
            fused::over_chunks(query, history, n),
            history[0].shape.drop_last(),
            history[0].shape.last(),
        ),
        gather_online(fused::over_chunks(query, history, n), to, from) == fused::over_chunks(
            query,
            gather_all(history, to, from),
            n,
        ),
    decreases n,
{
    let shape = history[0].shape;
    let outer = shape.drop_last();
    let like = history[0];
    let near = gather_all(history, to, from);
    assert(positions::rows_on(like, outer));
    if n == 0 {
        assert(near[0] == positions::gather(like, to, from));
        lemma_unstarted_by_position(like, outer, to, from);
    } else {
        let c = (n - 1) as nat;
        lemma_chunks_by_position(query, history, p, c, to, from);
        launch::lemma_chunks_in_order(history.len(), c);
        let k = launch::chunk(history.len(), c);
        let rows = fused::chunk_rows(history, c);
        let scores = fused::fused_scores(query, rows);
        assert forall|j: int| 0 <= j < rows.len() implies positions::rows_on(
            #[trigger] rows[j],
            outer,
        ) && rows[j].shape.last() == shape.last() by {
            assert(rows[j] == history[k.start + j]);
        }
        assert forall|j: int| 0 <= j < rows.len() implies positions::rows_on(
            #[trigger] scores[j],
            outer,
        ) && scores[j].shape.last() == 1 && positions::gather(scores[j], to, from)
            == fused::fused_score(query, positions::gather(rows[j], to, from)) by {
            assert(rows[j] == history[k.start + j]);
            lemma_fused_score_by_position(query, rows[j], outer, to, from);
        }
        assert(gather_all(rows, to, from) =~= fused::chunk_rows(near, c));
        assert(gather_all(scores, to, from) =~= fused::fused_scores(
            query,
            gather_all(rows, to, from),
        ));
        lemma_folded_by_position(
            fused::over_chunks(query, history, c),
            rows,
            scores,
            c == 0,
            like,
            outer,
            to,
            from,
        );
    }
}

/// The fused path over gathered positions of the layers is the gathered fused path.
pub proof fn lemma_fused_attention_by_position(
    query: Array,
    history: Seq<Array>,
    p: Place,
    to: Seq<nat>,
    from: spec_fn(nat) -> nat,
)
    requires
        depth::aligned(query, history, p),
        positions::sized(query),
        uniform(history, history[0].shape, p),
        history.len() <= usize::MAX,
        positions::selects(from, history[0].shape.drop_last(), to),
    ensures
        positions::gather(fused::fused_depth(query, history), to, from) == fused::fused_depth(
            query,
            gather_all(history, to, from),
        ),
{
    let n = launch::chunk_count(history.len());
    lemma_chunks_by_position(query, history, p, n, to, from);
    lemma_attended_by_position(
        fused::over_chunks(query, history, n),
        history[0].shape.drop_last(),
        history[0].shape.last(),
        to,
        from,
    );
}

} // verus!
