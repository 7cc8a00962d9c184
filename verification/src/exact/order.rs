//! Orders that do not matter in exact arithmetic.
use vstd::prelude::*;

use crate::exact;
use crate::exact::{Choice, Row};
use crate::exact::depth;
use crate::formula;

verus! {

proof fn lemma_folds(rows: Seq<Row>, g: spec_fn(Row) -> real, b: real)
    ensures
        rows.fold_right(|r: Row, v: real| v + g(r), b) == b + exact::over_rows(rows, g),
    decreases rows.len(),
{
    if rows.len() > 0 {
        lemma_folds(rows.drop_last(), g, b + g(rows.last()));
    }
}

/// A sum over rows does not depend on their order.
proof fn lemma_reordered(rows: Seq<Row>, other: Seq<Row>, g: spec_fn(Row) -> real)
    requires
        rows.to_multiset() == other.to_multiset(),
    ensures
        exact::over_rows(rows, g) == exact::over_rows(other, g),
{
    let f = |r: Row, v: real| v + g(r);
    lemma_folds(rows, g, 0real);
    lemma_folds(other, g, 0real);
    vstd::seq_lib::lemma_fold_right_permutation(rows, other, f, 0real);
}

/// The order of the layers does not matter to depth attention.
pub proof fn lemma_layer_order(x: Choice, q: Row, rows: Seq<Row>, other: Seq<Row>)
    requires
        exact::sound(x),
        rows.len() > 0,
        rows.to_multiset() == other.to_multiset(),
    ensures
        formula::weighted_sum(exact::reals(x), q, rows) == formula::weighted_sum(exact::reals(x), q, other),
{
    let s = exact::scorer(x, q);
    rows.to_multiset_ensures();
    other.to_multiset_ensures();
    depth::lemma_depth(x, q, rows);
    depth::lemma_depth(x, q, other);
    lemma_reordered(rows, other, |r: Row| (x.e)(s(r) - 0real));
    assert forall|c: int| 0 <= c < q.len() implies #[trigger] exact::mixed(x.e, s, rows, q.len())[c]
        == exact::mixed(x.e, s, other, q.len())[c] by {
        lemma_reordered(rows, other, |r: Row| (x.e)(s(r) - 0real) * r[c]);
    }
    assert(exact::mixed(x.e, s, rows, q.len()) =~= exact::mixed(x.e, s, other, q.len()));
}

/// The plain sum of a block, column by column.
pub proof fn lemma_block_sum(x: Choice, q: Row, rows: Seq<Row>)
    requires
        rows.len() > 0,
        exact::fitting(q, rows),
    ensures
        formula::block_sum(exact::reals(x), rows) == Seq::new(
            q.len(),
            |c: int| exact::over_rows(rows, |r: Row| r[c]),
        ),
    decreases rows.len(),
{
    let a = exact::reals(x);
    let sum = formula::block_sum(a, rows);
    let before = rows.drop_last();
    assert(rows[rows.len() - 1].len() == q.len());
    if rows.len() > 1 {
        assert forall|k: int| 0 <= k < before.len() implies (#[trigger] before[k]).len()
            == q.len() by {
            assert(before[k] == rows[k]);
        }
        lemma_block_sum(x, q, before);
    }
    assert forall|c: int| 0 <= c < q.len() implies #[trigger] sum[c] == exact::over_rows(
        rows,
        |r: Row| r[c],
    ) by {
        if rows.len() == 1 {
            assert(exact::over_rows(before, |r: Row| r[c]) == 0real);
        }
    }
    assert(sum =~= Seq::new(q.len(), |c: int| exact::over_rows(rows, |r: Row| r[c])));
}

/// The order of the layers of a block does not matter to its sum.
pub proof fn lemma_block_order(x: Choice, q: Row, rows: Seq<Row>, other: Seq<Row>)
    requires
        rows.len() > 0,
        exact::fitting(q, rows),
        rows.to_multiset() == other.to_multiset(),
    ensures
        formula::block_sum(exact::reals(x), rows) == formula::block_sum(exact::reals(x), other),
{
    rows.to_multiset_ensures();
    other.to_multiset_ensures();
    assert forall|k: int| 0 <= k < other.len() implies (#[trigger] other[k]).len() == q.len() by {
        assert(other.contains(other[k]));
        assert(other.to_multiset().count(other[k]) > 0);
        assert(rows.contains(other[k]));
    }
    lemma_block_sum(x, q, rows);
    lemma_block_sum(x, q, other);
    let (s, t) = (formula::block_sum(exact::reals(x), rows), formula::block_sum(exact::reals(x), other));
    assert forall|c: int| 0 <= c < q.len() implies #[trigger] s[c] == t[c] by {
        lemma_reordered(rows, other, |r: Row| r[c]);
    }
    assert(s =~= t);
}

/// The sums of blocks, in their order.
pub open spec fn block_sums(x: Choice, blocks: Seq<Seq<Row>>) -> Seq<Row> {
    Seq::new(blocks.len(), |i: int| formula::block_sum(exact::reals(x), blocks[i]))
}

/// The order of the layers within complete blocks does not matter to what attention over
/// the blocks gives.
pub proof fn lemma_order_within_blocks(
    x: Choice,
    q: Row,
    blocks: Seq<Seq<Row>>,
    others: Seq<Seq<Row>>,
)
    requires
        others.len() == blocks.len(),
        forall|i: int|
            0 <= i < blocks.len() ==> (#[trigger] blocks[i]).len() > 0 && exact::fitting(
                q,
                blocks[i],
            ) && blocks[i].to_multiset() == others[i].to_multiset(),
    ensures
        ({
            let a = exact::reals(x);
            formula::attended(a, formula::over_sources(a, q, block_sums(x, blocks)))
                == formula::attended(a, formula::over_sources(a, q, block_sums(x, others)))
        }),
{
    assert forall|i: int| 0 <= i < blocks.len() implies #[trigger] block_sums(x, blocks)[i]
        == block_sums(x, others)[i] by {
        assert(blocks[i].len() > 0);
        lemma_block_order(x, q, blocks[i], others[i]);
    }
    assert(block_sums(x, blocks) =~= block_sums(x, others));
}

} // verus!
