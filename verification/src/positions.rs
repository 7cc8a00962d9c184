//! Every position is on its own.
//!
//! An array `[.., d]` is a list of rows of `d` columns, one row per position of the
//! axes before the last. [`gather`] makes an array of some of the rows of another, in
//! any order and as often as wanted. What attention makes of gathered rows is what it
//! makes of all rows, gathered in the same way: no row of a result depends on any
//! other position.
use vstd::prelude::*;

use crate::array;
use crate::array::Array;

verus! {

/// The number of elements is that of the shape.
pub open spec fn sized(x: Array) -> bool {
    x.data.len() == array::volume(x.shape)
}

/// One row per position of the axes `outer`.
pub open spec fn rows_on(x: Array, outer: Seq<nat>) -> bool {
    &&& sized(x)
    &&& x.shape.len() == outer.len() + 1
    &&& x.shape.drop_last() == outer
}

/// The same row for every position of `rank` axes.
pub open spec fn same_row(x: Array, rank: nat) -> bool {
    rows_on(x, array::unit_shape(rank))
}

/// The rows of `x` that `from` tells, as the positions of the axes `outer`.
pub open spec fn gather(x: Array, outer: Seq<nat>, from: spec_fn(nat) -> nat) -> Array {
    let w = x.shape.last();
    Array {
        shape: outer.push(w),
        data: Seq::new(
            array::volume(outer.push(w)),
            |j: int| x.data[(from(j as nat / w) * w + j as nat % w) as int],
        ),
        ..x
    }
}

/// `from` tells a row of the axes `outer` for every position of the axes `to`.
pub open spec fn selects(from: spec_fn(nat) -> nat, outer: Seq<nat>, to: Seq<nat>) -> bool {
    &&& to.len() == outer.len()
    &&& forall|m: nat| m < array::volume(to) ==> #[trigger] from(m) < array::volume(outer)
}

// ---- where elements come from ----

/// The number of elements of rows of `w` columns.
pub proof fn lemma_place_count(s: Seq<nat>, w: nat)
    ensures
        array::volume(s.push(w)) == array::volume(s) * w,
{
    assert(s.push(w).drop_last() =~= s);
}

/// A place in an array, as a row and a column.
pub proof fn lemma_row_and_column(outer: Seq<nat>, w: nat, j: nat)
    requires
        j < array::volume(outer.push(w)),
    ensures
        w > 0,
        j / w < array::volume(outer),
        j % w < w,
        j == (j / w) * w + j % w,
{
    lemma_place_count(outer, w);
    assert(w > 0) by (nonlinear_arith)
        requires
            j < array::volume(outer) * w,
    ;
    vstd::arithmetic::div_mod::lemma_fundamental_div_mod(j as int, w as int);
    assert(w * (j / w) == (j / w) * w) by (nonlinear_arith);
    assert(j / w < array::volume(outer)) by (nonlinear_arith)
        requires
            j == (j / w) * w + j % w,
            j < array::volume(outer) * w,
            0 <= j % w,
            w > 0,
    ;
}

/// A row and a column, as a place in an array.
pub proof fn lemma_place(outer: Seq<nat>, w: nat, m: nat, c: nat)
    requires
        m < array::volume(outer),
        c < w,
    ensures
        m * w + c < array::volume(outer.push(w)),
        (m * w + c) / w == m,
        (m * w + c) % w == c,
{
    lemma_place_count(outer, w);
    assert(m * w + c < array::volume(outer) * w) by (nonlinear_arith)
        requires
            m + 1 <= array::volume(outer),
            c < w,
    ;
    vstd::arithmetic::div_mod::lemma_fundamental_div_mod_converse(
        (m * w + c) as int,
        w as int,
        m as int,
        c as int,
    );
}

/// An operand of the shape of the result is read element by element.
pub proof fn lemma_origin_same(s: Seq<nat>, m: nat)
    requires
        m < array::volume(s),
    ensures
        array::origin(s, s, m) == m,
    decreases s.len(),
{
    if s.len() > 0 {
        assert(s.drop_last().push(s.last()) =~= s);
        lemma_row_and_column(s.drop_last(), s.last(), m);
        lemma_origin_same(s.drop_last(), m / s.last());
    }
}

proof fn lemma_origin_ones(s: Seq<nat>, m: nat)
    requires
        m < array::volume(s),
    ensures
        array::origin(array::unit_shape(s.len()), s, m) == 0,
    decreases s.len(),
{
    let ones = array::unit_shape(s.len());
    if s.len() > 0 {
        assert(s.drop_last().push(s.last()) =~= s);
        lemma_row_and_column(s.drop_last(), s.last(), m);
        assert(ones.drop_last() =~= array::unit_shape(s.drop_last().len()));
        lemma_origin_ones(s.drop_last(), m / s.last());
    }
}

/// `x` has one row per position, or else the same row for every position.
pub open spec fn laid_out(x: Array, own: bool, outer: Seq<nat>) -> bool {
    if own {
        rows_on(x, outer)
    } else {
        same_row(x, outer.len())
    }
}

/// The element of an operand that goes into the column `c` of the row `m`.
pub open spec fn cell(x: Array, own: bool, m: nat, c: nat) -> nat {
    let w = x.shape.last();
    x.data[(if own {
        m * w
    } else {
        0
    }) + (if w == 1 {
        0
    } else {
        c as int
    })]
}

/// The element of an operand that an element of the result is made of.
pub proof fn lemma_operand(x: Array, own: bool, outer: Seq<nat>, w: nat, m: nat, c: nat)
    requires
        laid_out(x, own, outer),
        m < array::volume(outer),
        c < w,
        x.shape.last() == w || x.shape.last() == 1,
    ensures
        array::operand(x, outer.push(w), (m * w + c) as int) == cell(x, own, m, c),
{
    let out = outer.push(w);
    lemma_place(outer, w, m, c);
    assert(out.drop_last() =~= outer);
    if own {
        lemma_origin_same(outer, m);
    } else {
        lemma_origin_ones(outer, m);
        assert(0 * x.shape.last() == 0);
    }
}

/// Two operands of an elementwise operation, at least one of them with a row of its
/// own for every position.
pub open spec fn pairs(x: Array, ox: bool, y: Array, oy: bool, outer: Seq<nat>) -> bool {
    &&& laid_out(x, ox, outer)
    &&& laid_out(y, oy, outer)
    &&& ox || oy
    &&& x.shape.last() == y.shape.last() || x.shape.last() == 1 || y.shape.last() == 1
}

/// The number of columns of an elementwise result.
pub open spec fn wider(x: Array, y: Array) -> nat {
    if x.shape.last() == 1 {
        y.shape.last()
    } else {
        x.shape.last()
    }
}

/// The elements of an elementwise result.
pub proof fn lemma_zip_element(
    x: Array,
    ox: bool,
    y: Array,
    oy: bool,
    f: spec_fn(nat, nat) -> nat,
    outer: Seq<nat>,
)
    requires
        pairs(x, ox, y, oy, outer),
    ensures
        array::broadcast(x.shape, y.shape) == outer.push(wider(x, y)),
        forall|m: nat, c: nat|
            m < array::volume(outer) && c < wider(x, y) ==> #[trigger] array::zipped(x, y, f)[(m
                * wider(x, y) + c) as int] == f(cell(x, ox, m, c), cell(y, oy, m, c)),
{
    let w = wider(x, y);
    let out = array::broadcast(x.shape, y.shape);
    assert forall|k: int| 0 <= k < outer.len() implies out[k] == #[trigger] outer[k] by {
        assert(x.shape.drop_last()[k] == x.shape[k]);
        assert(y.shape.drop_last()[k] == y.shape[k]);
    }
    assert(out =~= outer.push(w));
    assert forall|m: nat, c: nat| m < array::volume(outer) && c < w implies #[trigger] array::zipped(
        x,
        y,
        f,
    )[(m * w + c) as int] == f(cell(x, ox, m, c), cell(y, oy, m, c)) by {
        lemma_place(outer, w, m, c);
        lemma_operand(x, ox, outer, w, m, c);
        lemma_operand(y, oy, outer, w, m, c);
    }
}

/// An operand of an operation on gathered rows: an array with the same row for every
/// position is taken as it is.
pub open spec fn taken(x: Array, own: bool, to: Seq<nat>, from: spec_fn(nat) -> nat) -> Array {
    if own {
        gather(x, to, from)
    } else {
        x
    }
}

/// Gathered rows lie on their axes.
pub proof fn lemma_gather(x: Array, to: Seq<nat>, from: spec_fn(nat) -> nat)
    ensures
        rows_on(gather(x, to, from), to),
        gather(x, to, from).shape.last() == x.shape.last(),
{
    let w = x.shape.last();
    assert(to.push(w).drop_last() =~= to);
}

/// An elementwise operation keeps the positions apart.
pub proof fn lemma_zip(
    x: Array,
    ox: bool,
    y: Array,
    oy: bool,
    f: spec_fn(nat, nat) -> nat,
    outer: Seq<nat>,
    to: Seq<nat>,
    from: spec_fn(nat) -> nat,
)
    requires
        pairs(x, ox, y, oy, outer),
        selects(from, outer, to),
    ensures
        ({
            let z = array::elementwise(x, y, array::zipped(x, y, f));
            let (p, q) = (taken(x, ox, to, from), taken(y, oy, to, from));
            &&& rows_on(z, outer)
            &&& z.shape.last() == wider(x, y)
            &&& gather(z, to, from) == array::elementwise(p, q, array::zipped(p, q, f))
        }),
{
    let w = wider(x, y);
    let z = array::elementwise(x, y, array::zipped(x, y, f));
    let (p, q) = (taken(x, ox, to, from), taken(y, oy, to, from));
    let r = array::elementwise(p, q, array::zipped(p, q, f));
    lemma_gather(x, to, from);
    lemma_gather(y, to, from);
    lemma_zip_element(x, ox, y, oy, f, outer);
    lemma_zip_element(p, ox, q, oy, f, to);
    assert(outer.push(w).drop_last() =~= outer);
    assert forall|j: int| 0 <= j < gather(z, to, from).data.len() implies #[trigger] gather(
        z,
        to,
        from,
    ).data[j] == r.data[j] by {
        lemma_row_and_column(to, w, j as nat);
        let (m, c) = (j as nat / w, j as nat % w);
        let n = from(m);
        assert(array::zipped(x, y, f)[(n * w + c) as int] == f(cell(x, ox, n, c), cell(y, oy, n, c)));
        assert(array::zipped(p, q, f)[(m * w + c) as int] == f(cell(p, ox, m, c), cell(q, oy, m, c)));
        lemma_cell(x, ox, to, from, m, c, w);
        lemma_cell(y, oy, to, from, m, c, w);
    }
    assert(gather(z, to, from).data =~= r.data);
}

proof fn lemma_cell(
    x: Array,
    own: bool,
    to: Seq<nat>,
    from: spec_fn(nat) -> nat,
    m: nat,
    c: nat,
    w: nat,
)
    requires
        m < array::volume(to),
        c < w,
        x.shape.last() == w || x.shape.last() == 1,
    ensures
        cell(taken(x, own, to, from), own, m, c) == cell(x, own, from(m), c),
{
    if own {
        let ws = x.shape.last();
        let col = if ws == 1 {
            0
        } else {
            c
        };
        lemma_place(to, ws, m, col);
    }
}

/// The place that an element of gathered rows comes from.
pub proof fn lemma_selected(
    outer: Seq<nat>,
    to: Seq<nat>,
    from: spec_fn(nat) -> nat,
    w: nat,
    j: nat,
)
    requires
        selects(from, outer, to),
        j < array::volume(to.push(w)),
    ensures
        w > 0,
        j / w < array::volume(to),
        j % w < w,
        from(j / w) * w + j % w < array::volume(outer.push(w)),
{
    lemma_row_and_column(to, w, j);
    lemma_place(outer, w, from(j / w), j % w);
}

/// An operation on each element keeps the positions apart.
pub proof fn lemma_map(
    x: Array,
    f: spec_fn(nat) -> nat,
    outer: Seq<nat>,
    to: Seq<nat>,
    from: spec_fn(nat) -> nat,
)
    requires
        rows_on(x, outer),
        selects(from, outer, to),
    ensures
        rows_on(Array { data: array::mapped(x, f), ..x }, outer),
        gather(Array { data: array::mapped(x, f), ..x }, to, from).data == array::mapped(
            gather(x, to, from),
            f,
        ),
{
    let w = x.shape.last();
    let z = Array { data: array::mapped(x, f), ..x };
    let r = array::mapped(gather(x, to, from), f);
    assert(outer.push(w) =~= x.shape);
    assert forall|j: int| 0 <= j < r.len() implies #[trigger] gather(z, to, from).data[j]
        == r[j] by {
        lemma_selected(outer, to, from, w, j as nat);
    }
    assert(gather(z, to, from).data =~= r);
}

// ---- the operations ----

/// [`array::plus`] keeps the positions apart.
pub proof fn lemma_plus(
    x: Array,
    ox: bool,
    y: Array,
    oy: bool,
    outer: Seq<nat>,
    to: Seq<nat>,
    from: spec_fn(nat) -> nat,
)
    requires
        pairs(x, ox, y, oy, outer),
        selects(from, outer, to),
    ensures
        rows_on(array::plus(x, y), outer),
        array::plus(x, y).shape.last() == wider(x, y),
        gather(array::plus(x, y), to, from) == array::plus(
            taken(x, ox, to, from),
            taken(y, oy, to, from),
        ),
{
    let f = |u: nat, v: nat| array::add_code(x.element, u, v);
    lemma_zip(x, ox, y, oy, f, outer, to, from);
    let (p, q) = (taken(x, ox, to, from), taken(y, oy, to, from));
    assert(array::plus(x, y).data =~= array::zipped(x, y, f));
    assert(array::plus(p, q).data =~= array::zipped(p, q, f));
}

/// [`array::minus`] keeps the positions apart.
pub proof fn lemma_minus(
    x: Array,
    ox: bool,
    y: Array,
    oy: bool,
    outer: Seq<nat>,
    to: Seq<nat>,
    from: spec_fn(nat) -> nat,
)
    requires
        pairs(x, ox, y, oy, outer),
        selects(from, outer, to),
    ensures
        rows_on(array::minus(x, y), outer),
        array::minus(x, y).shape.last() == wider(x, y),
        gather(array::minus(x, y), to, from) == array::minus(
            taken(x, ox, to, from),
            taken(y, oy, to, from),
        ),
{
    let f = |u: nat, v: nat| array::sub_code(x.element, u, v);
    lemma_zip(x, ox, y, oy, f, outer, to, from);
    let (p, q) = (taken(x, ox, to, from), taken(y, oy, to, from));
    assert(array::minus(x, y).data =~= array::zipped(x, y, f));
    assert(array::minus(p, q).data =~= array::zipped(p, q, f));
}

/// [`array::times`] keeps the positions apart.
pub proof fn lemma_times(
    x: Array,
    ox: bool,
    y: Array,
    oy: bool,
    outer: Seq<nat>,
    to: Seq<nat>,
    from: spec_fn(nat) -> nat,
)
    requires
        pairs(x, ox, y, oy, outer),
        selects(from, outer, to),
    ensures
        rows_on(array::times(x, y), outer),
        array::times(x, y).shape.last() == wider(x, y),
        gather(array::times(x, y), to, from) == array::times(
            taken(x, ox, to, from),
            taken(y, oy, to, from),
        ),
{
    let f = |u: nat, v: nat| array::mul_code(x.element, u, v);
    lemma_zip(x, ox, y, oy, f, outer, to, from);
    let (p, q) = (taken(x, ox, to, from), taken(y, oy, to, from));
    assert(array::times(x, y).data =~= array::zipped(x, y, f));
    assert(array::times(p, q).data =~= array::zipped(p, q, f));
}

/// [`array::over`] keeps the positions apart.
pub proof fn lemma_over(
    x: Array,
    ox: bool,
    y: Array,
    oy: bool,
    outer: Seq<nat>,
    to: Seq<nat>,
    from: spec_fn(nat) -> nat,
)
    requires
        pairs(x, ox, y, oy, outer),
        selects(from, outer, to),
    ensures
        rows_on(array::over(x, y), outer),
        array::over(x, y).shape.last() == wider(x, y),
        gather(array::over(x, y), to, from) == array::over(
            taken(x, ox, to, from),
            taken(y, oy, to, from),
        ),
{
    let f = |u: nat, v: nat| array::div_code(x.element, u, v);
    lemma_zip(x, ox, y, oy, f, outer, to, from);
    let (p, q) = (taken(x, ox, to, from), taken(y, oy, to, from));
    assert(array::over(x, y).data =~= array::zipped(x, y, f));
    assert(array::over(p, q).data =~= array::zipped(p, q, f));
}

/// [`array::larger`] keeps the positions apart.
pub proof fn lemma_larger(
    x: Array,
    ox: bool,
    y: Array,
    oy: bool,
    outer: Seq<nat>,
    to: Seq<nat>,
    from: spec_fn(nat) -> nat,
)
    requires
        pairs(x, ox, y, oy, outer),
        selects(from, outer, to),
    ensures
        rows_on(array::larger(x, y), outer),
        array::larger(x, y).shape.last() == wider(x, y),
        gather(array::larger(x, y), to, from) == array::larger(
            taken(x, ox, to, from),
            taken(y, oy, to, from),
        ),
{
    let f = |u: nat, v: nat| array::larger_code(x.element, u, v);
    lemma_zip(x, ox, y, oy, f, outer, to, from);
    let (p, q) = (taken(x, ox, to, from), taken(y, oy, to, from));
    assert(array::larger(x, y).data =~= array::zipped(x, y, f));
    assert(array::larger(p, q).data =~= array::zipped(p, q, f));
}

/// The operations on single elements keep the positions apart.
pub proof fn lemma_single_elements(
    x: Array,
    n: int,
    outer: Seq<nat>,
    to: Seq<nat>,
    from: spec_fn(nat) -> nat,
)
    requires
        rows_on(x, outer),
        selects(from, outer, to),
    ensures
        rows_on(array::exp(x), outer),
        rows_on(array::sqrt(x), outer),
        rows_on(array::absolute(x), outer),
        rows_on(array::power_int(x, n), outer),
        rows_on(array::over_int(x, n), outer),
        gather(array::exp(x), to, from) == array::exp(gather(x, to, from)),
        gather(array::sqrt(x), to, from) == array::sqrt(gather(x, to, from)),
        gather(array::absolute(x), to, from) == array::absolute(gather(x, to, from)),
        gather(array::power_int(x, n), to, from) == array::power_int(gather(x, to, from), n),
        gather(array::over_int(x, n), to, from) == array::over_int(gather(x, to, from), n),
{
    let p = gather(x, to, from);
    let f = |c: nat| array::exp_code(x.element, c);
    lemma_map(x, f, outer, to, from);
    assert(array::exp(x).data =~= array::mapped(x, f));
    assert(array::exp(p).data =~= array::mapped(p, f));
    let f = |c: nat| array::sqrt_code(x.element, c);
    lemma_map(x, f, outer, to, from);
    assert(array::sqrt(x).data =~= array::mapped(x, f));
    assert(array::sqrt(p).data =~= array::mapped(p, f));
    let f = |c: nat| array::magnitude_code(x.element, c);
    lemma_map(x, f, outer, to, from);
    assert(array::absolute(x).data =~= array::mapped(x, f));
    assert(array::absolute(p).data =~= array::mapped(p, f));
    let f = |c: nat| array::powf_scalar_code(x.element, c, n);
    lemma_map(x, f, outer, to, from);
    assert(array::power_int(x, n).data =~= array::mapped(x, f));
    assert(array::power_int(p, n).data =~= array::mapped(p, f));
    let f = |c: nat| array::div_scalar_code(x.element, c, n);
    lemma_map(x, f, outer, to, from);
    assert(array::over_int(x, n).data =~= array::mapped(x, f));
    assert(array::over_int(p, n).data =~= array::mapped(p, f));
}

/// [`array::cast`] keeps the positions apart.
pub proof fn lemma_cast(
    x: Array,
    element: nat,
    outer: Seq<nat>,
    to: Seq<nat>,
    from: spec_fn(nat) -> nat,
)
    requires
        rows_on(x, outer),
        selects(from, outer, to),
    ensures
        rows_on(array::cast(x, element), outer),
        gather(array::cast(x, element), to, from) == array::cast(gather(x, to, from), element),
{
    let p = gather(x, to, from);
    let f = |c: nat| array::cast_code(x.element, element, c);
    lemma_map(x, f, outer, to, from);
    assert(array::cast(x, element).data =~= array::mapped(x, f));
    assert(array::cast(p, element).data =~= array::mapped(p, f));
}

/// The sum along the columns keeps the positions apart.
pub proof fn lemma_sum_columns(
    x: Array,
    outer: Seq<nat>,
    to: Seq<nat>,
    from: spec_fn(nat) -> nat,
)
    requires
        rows_on(x, outer),
        selects(from, outer, to),
    ensures
        rows_on(array::sum(x, outer.len()), outer),
        array::sum(x, outer.len()).shape.last() == 1,
        gather(array::sum(x, outer.len()), to, from) == array::sum(
            gather(x, to, from),
            outer.len(),
        ),
{
    let a = outer.len();
    let d = x.shape.last();
    let p = gather(x, to, from);
    let z = array::sum(x, a);
    let r = array::sum(p, a);
    assert(x.shape =~= outer.push(d));
    assert(z.shape =~= outer.push(1));
    assert(z.shape.drop_last() =~= outer);
    assert(r.shape =~= to.push(1));
    assert(x.shape.skip(a as int + 1) =~= Seq::<nat>::empty());
    assert(p.shape.skip(a as int + 1) =~= Seq::<nat>::empty());
    assert(array::width_after(x.shape, a) == 1);
    assert(array::width_after(p.shape, a) == 1);
    assert forall|j: int| 0 <= j < r.data.len() implies #[trigger] gather(z, to, from).data[j]
        == r.data[j] by {
        let m = j as nat;
        lemma_row_and_column(to, 1, m);
        let n = from(m);
        lemma_place(outer, 1, n, 0);
        assert forall|k: int| 0 <= k < d implies #[trigger] array::line(x, a, n, 0)[k]
            == array::line(p, a, m, 0)[k] by {
            lemma_place(to, d, m, k as nat);
        }
        assert(array::line(x, a, n, 0) =~= array::line(p, a, m, 0));
        assert(z.data[n as int] == array::sum_code(x.element, true, array::line(x, a, n, 0)));
        assert(r.data[j] == array::sum_code(x.element, true, array::line(p, a, m, 0)));
    }
    assert(gather(z, to, from).data =~= r.data);
}

} // verus!
