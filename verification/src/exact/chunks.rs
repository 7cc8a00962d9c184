//! Attention over chunks in exact arithmetic.
use vstd::prelude::*;

use crate::exact;
use crate::exact::{Choice, Row};
use crate::exact::depth;
use crate::formula;

verus! {

/// The largest of the scores and `floor`.
spec fn crest(s: spec_fn(Row) -> real, rows: Seq<Row>, floor: real) -> real
    decreases rows.len(),
{
    if rows.len() == 0 {
        floor
    } else {
        exact::top(crest(s, rows.drop_last(), floor), s(rows.last()))
    }
}

proof fn lemma_over_joined(a: Seq<Row>, b: Seq<Row>, g: spec_fn(Row) -> real)
    ensures
        exact::over_rows(a + b, g) == exact::over_rows(a, g) + exact::over_rows(b, g),
    decreases b.len(),
{
    if b.len() == 0 {
        assert(a + b =~= a);
    } else {
        assert((a + b).drop_last() =~= a + b.drop_last());
        lemma_over_joined(a, b.drop_last(), g);
    }
}

proof fn lemma_crest_joined(s: spec_fn(Row) -> real, a: Seq<Row>, b: Seq<Row>, floor: real)
    ensures
        crest(s, a, floor) >= floor,
        crest(s, a + b, floor) == exact::top(crest(s, a, floor), crest(s, b, floor)),
    decreases a.len(), b.len(),
{
    if a.len() > 0 {
        lemma_crest_joined(s, a.drop_last(), seq![], floor);
    }
    if b.len() == 0 {
        assert(a + b =~= a);
    } else {
        assert((a + b).drop_last() =~= a + b.drop_last());
        lemma_crest_joined(s, a, b.drop_last(), floor);
    }
}

proof fn lemma_crest(s: spec_fn(Row) -> real, rows: Seq<Row>, floor: real)
    requires
        rows.len() > 0,
    ensures
        crest(s, rows, floor) == exact::top(floor, exact::highest(s, rows)),
    decreases rows.len(),
{
    if rows.len() > 1 {
        lemma_crest(s, rows.drop_last(), floor);
    } else {
        assert(crest(s, rows.drop_last(), floor) == floor);
    }
}

/// The scores of a chunk, as the fused path computes them.
spec fn chunk_scores(x: Choice, q: Row, rows: Seq<Row>) -> Seq<real> {
    Seq::new(rows.len(), |k: int| formula::fused_score(exact::reals(x), q, rows[k]))
}

proof fn lemma_chunk(x: Choice, q: Row, rows: Seq<Row>, m: real, c: int)
    requires
        exact::sound(x),
    ensures
        ({
            let a = exact::reals(x);
            let s = exact::scorer(x, q);
            let scores = chunk_scores(x, q, rows);
            &&& formula::peak(a, scores) == crest(s, rows, x.floor)
            &&& formula::exp_total(a, scores, m) == exact::mass(x.e, s, rows, m)
            &&& formula::mixture(a, rows, scores, m, c) == exact::pull(x.e, s, rows, m, c)
        }),
    decreases rows.len(),
{
    let scores = chunk_scores(x, q, rows);
    if rows.len() > 0 {
        let before = rows.drop_last();
        lemma_chunk(x, q, before, m, c);
        assert(scores.drop_last() =~= chunk_scores(x, q, before));
        exact::lemma_fused_score(x, q, rows.last());
    }
}

/// What attention over chunks holds: relative to the largest score so far the sum of the
/// exponentials and the sum of the rows under them, of all the rows so far.
proof fn lemma_chunks_state(x: Choice, q: Row, chunks: Seq<Seq<Row>>)
    requires
        exact::sound(x),
    ensures
        ({
            let o = formula::over_chunks(exact::reals(x), q, chunks);
            let s = exact::scorer(x, q);
            let all = formula::joined(chunks);
            &&& o.max == crest(s, all, x.floor)
            &&& o.sum == exact::mass(x.e, s, all, o.max)
            &&& o.acc.len() == q.len()
            &&& forall|c: int|
                0 <= c < q.len() ==> #[trigger] o.acc[c] == exact::pull(x.e, s, all, o.max, c)
        }),
    decreases chunks.len(),
{
    let a = exact::reals(x);
    let s = exact::scorer(x, q);
    let all = formula::joined(chunks);
    let o = formula::over_chunks(a, q, chunks);
    if chunks.len() > 0 {
        let before = chunks.drop_last();
        let rows = chunks.last();
        let p = formula::over_chunks(a, q, before);
        let scores = Seq::new(rows.len(), |k: int| formula::fused_score(a, q, rows[k]));
        assert(scores =~= chunk_scores(x, q, rows));
        lemma_chunks_state(x, q, before);
        let top = formula::peak(a, scores);
        lemma_chunk(x, q, rows, top, 0);
        lemma_crest_joined(s, formula::joined(before), rows, x.floor);
        exact::lemma_shift(x.e, s, formula::joined(before), p.max, o.max, 0);
        exact::lemma_shift(x.e, s, rows, top, o.max, 0);
        lemma_over_joined(formula::joined(before), rows, |r: Row| (x.e)(s(r) - o.max));
        assert forall|c: int| 0 <= c < q.len() implies #[trigger] o.acc[c] == exact::pull(
            x.e,
            s,
            all,
            o.max,
            c,
        ) by {
            lemma_chunk(x, q, rows, o.max, c);
            exact::lemma_shift(x.e, s, formula::joined(before), p.max, o.max, c);
            lemma_over_joined(formula::joined(before), rows, |r: Row| (x.e)(s(r) - o.max) * r[c]);
            assert(p.acc[c] == exact::pull(x.e, s, formula::joined(before), p.max, c));
            if chunks.len() == 1 {
                assert(formula::joined(before).len() == 0);
                assert(exact::pull(x.e, s, formula::joined(before), o.max, c) == 0real);
            }
        }
    }
}

/// However the rows are cut into chunks, attention over the chunks is depth attention
/// over all rows, where some score is not below the floor.
pub proof fn lemma_chunks_are_depth(x: Choice, q: Row, chunks: Seq<Seq<Row>>)
    requires
        exact::sound(x),
        formula::joined(chunks).len() > 0,
        exact::highest(exact::scorer(x, q), formula::joined(chunks)) >= x.floor,
    ensures
        formula::attended(exact::reals(x), formula::over_chunks(exact::reals(x), q, chunks))
            == formula::weighted_sum(exact::reals(x), q, formula::joined(chunks)),
{
    let s = exact::scorer(x, q);
    let all = formula::joined(chunks);
    let o = formula::over_chunks(exact::reals(x), q, chunks);
    let r = formula::attended(exact::reals(x), o);
    lemma_chunks_state(x, q, chunks);
    lemma_crest(s, all, x.floor);
    exact::lemma_mass(x.e, s, all, o.max);
    depth::lemma_depth(x, q, all);
    assert forall|c: int| 0 <= c < q.len() implies #[trigger] r[c] == exact::mixed(
        x.e,
        s,
        all,
        q.len(),
    )[c] by {
        exact::lemma_quotient(x.e, s, all, o.max, c);
        assert(o.acc[c] == exact::pull(x.e, s, all, o.max, c));
    }
    assert(r =~= exact::mixed(x.e, s, all, q.len()));
}

} // verus!
