//! Arrays: what the contracts of this library say of a tensor.
//!
//! A tensor of burn is opaque to the verifier. Its view is an [`Array`]: the
//! extents, the elements in row-major order, and where and how they are kept.
//! The functions here are the operations on arrays that the contracts are
//! written with. What they say of extents and placement is defined in this
//! file. What they say of the elements is defined here as far as the names go that
//! stand for floating point: `exp_code` and the like for what burn makes of one
//! element, or of the elements of one line.
use vstd::prelude::*;

verus! {

/// The view of a tensor.
#[verifier::ext_equal]
pub struct Array {
    /// Extent of each axis, outermost first.
    pub shape: Seq<nat>,
    /// Code of each element, in row-major order: its bit pattern, with one code, positive
    /// in sign, for everything that is not a number.
    pub data: Seq<nat>,
    /// The device that holds the elements; two tensors have the same number here
    /// exactly if burn calls their devices equal.
    pub device: nat,
    /// The element type: 64 and 32 for IEEE double and single precision, 16 for
    /// half precision, 17 for bfloat16, 0 for every other type.
    pub element: nat,
    /// Gradient recording: 0 where it is off, 1 where it is on, 2 where it is on
    /// with activation checkpointing.
    pub tape: nat,
}

/// Where operands that meet in one operation are kept.
pub struct Place {
    pub device: nat,
    pub element: nat,
    pub tape: nat,
}

/// The element types that the operations compute with.
pub open spec fn supported(element: nat) -> bool {
    element == 64 || element == 32 || element == 16 || element == 17
}

/// `x` is kept at `p`: on that device, with that element type, and recording
/// gradients either not at all or in the way of `p`.
pub open spec fn kept_at(x: Array, p: Place) -> bool {
    &&& supported(p.element)
    &&& x.device == p.device
    &&& x.element == p.element
    &&& x.tape == 0 || x.tape == p.tape
}

/// Two operands can meet: same device, same supported element type, and not two
/// different ways of recording gradients.
pub open spec fn can_meet(x: Array, y: Array) -> bool {
    &&& supported(x.element)
    &&& x.device == y.device
    &&& x.element == y.element
    &&& x.tape == 0 || y.tape == 0 || x.tape == y.tape
}

/// Gradient recording of a result of two operands.
pub open spec fn join_tape(a: nat, b: nat) -> nat {
    if a == 0 {
        b
    } else {
        a
    }
}

// ---- shapes ----

/// Extents given as machine integers.
pub open spec fn sizes(s: Seq<usize>) -> Seq<nat> {
    Seq::new(s.len(), |i: int| s[i] as nat)
}

/// The number of elements of a shape.
pub open spec fn volume(s: Seq<nat>) -> nat
    decreases s.len(),
{
    if s.len() == 0 {
        1
    } else {
        volume(s.drop_last()) * s.last()
    }
}

/// No axis is empty.
pub open spec fn positive(s: Seq<nat>) -> bool {
    forall|i: int| 0 <= i < s.len() ==> #[trigger] s[i] > 0
}

/// An elementwise operation can take these two shapes: on every axis the extents
/// are the same or one of them is one.
pub open spec fn broadcasts(a: Seq<nat>, b: Seq<nat>) -> bool {
    &&& a.len() == b.len()
    &&& forall|i: int|
        0 <= i < a.len() ==> #[trigger] a[i] == #[trigger] b[i] || a[i] == 1 || b[i] == 1
}

/// The shape of an elementwise operation's result.
pub open spec fn broadcast(a: Seq<nat>, b: Seq<nat>) -> Seq<nat> {
    Seq::new(
        a.len(),
        |i: int|
            if a[i] == 1 {
                b[i]
            } else {
                a[i]
            },
    )
}

/// The shape of a single element with `rank` axes.
pub open spec fn unit_shape(rank: nat) -> Seq<nat> {
    Seq::new(rank, |i: int| 1nat)
}


// ---- what burn computes with one element, or with the elements of one line ----

/// The code of the sign: that of negative zero.
pub open spec fn sign_code(element: nat) -> nat {
    if element == 64 {
        0x8000_0000_0000_0000
    } else if element == 32 {
        0x8000_0000
    } else {
        0x8000
    }
}

/// The code of what is infinite and positive; above it, without the sign, is what is not
/// a number.
pub open spec fn infinity_code(element: nat) -> nat {
    if element == 64 {
        0x7FF0_0000_0000_0000
    } else if element == 32 {
        0x7F80_0000
    } else if element == 16 {
        0x7C00
    } else {
        0x7F80
    }
}

/// The code of the absolute value of an element: the sign cleared.
pub open spec fn magnitude_code(element: nat, x: nat) -> nat {
    x % sign_code(element)
}

/// The element is a number, or infinite.
pub open spec fn is_ordered(element: nat, x: nat) -> bool {
    magnitude_code(element, x) <= infinity_code(element)
}

/// A number that orders elements as their values do; the two zeros have the same.
pub open spec fn rank(element: nat, x: nat) -> int {
    if x < sign_code(element) {
        magnitude_code(element, x) as int
    } else {
        -magnitude_code(element, x)
    }
}

/// One element is below another.
pub open spec fn below(element: nat, x: nat, y: nat) -> bool {
    is_ordered(element, x) && is_ordered(element, y) && rank(element, x) < rank(element, y)
}

/// The code of the larger of two elements; the first one where neither is below the other.
pub open spec fn larger_code(element: nat, x: nat, y: nat) -> nat {
    if below(element, x, y) {
        y
    } else {
        x
    }
}

/// The code of `e` to the power of an element.
pub uninterp spec fn exp_code(element: nat, x: nat) -> nat;

/// The code of the square root of an element.
pub uninterp spec fn sqrt_code(element: nat, x: nat) -> nat;

/// The code of the sum of two elements.
pub uninterp spec fn add_code(element: nat, x: nat, y: nat) -> nat;

/// The code of the difference of two elements.
pub uninterp spec fn sub_code(element: nat, x: nat, y: nat) -> nat;

/// The code of the product of two elements.
pub uninterp spec fn mul_code(element: nat, x: nat, y: nat) -> nat;

/// The code of the quotient of two elements.
pub uninterp spec fn div_code(element: nat, x: nat, y: nat) -> nat;

/// The code of an element to the power of another.
pub uninterp spec fn powf_code(element: nat, x: nat, y: nat) -> nat;

/// The code of an element to the power of a whole number.
pub uninterp spec fn powf_scalar_code(element: nat, x: nat, n: int) -> nat;

/// The code of an element divided by a whole number.
pub uninterp spec fn div_scalar_code(element: nat, x: nat, n: int) -> nat;

/// The code of the sum of the elements of a line, along the last axis or along
/// another one. The two may differ in the sign of a zero.
pub uninterp spec fn sum_code(element: nat, last: bool, line: Seq<nat>) -> nat;

/// The codes of the softmax of the elements of a line, in a tensor that records gradients
/// or in one that does not.
pub uninterp spec fn softmax_codes(element: nat, recording: bool, line: Seq<nat>) -> Seq<nat>;

/// The code in the element type `to` of an element of the type `from`. Where the build
/// uses the processor's own conversion to half precision, double precision is rounded to
/// single precision on the way there; the function is that of one build.
pub uninterp spec fn cast_code(from: nat, to: nat, x: nat) -> nat;

/// The double precision code of a whole number.
pub uninterp spec fn full_code(n: nat) -> nat;

// ---- operations on arrays ----

/// Where the element number `i` of an elementwise result of shape `out` comes from
/// in an operand of shape `s`: an axis of one entry is read over and over.
pub open spec fn origin(s: Seq<nat>, out: Seq<nat>, i: nat) -> nat
    decreases s.len(),
{
    if s.len() == 0 {
        0
    } else {
        let n = out.last();
        let rest = origin(s.drop_last(), out.drop_last(), i / n);
        rest * s.last() + (if s.last() == 1 {
            0
        } else {
            i % n
        })
    }
}

/// The element of the operand `x` that the element number `i` of an elementwise
/// result of shape `out` is made of.
pub open spec fn operand(x: Array, out: Seq<nat>, i: int) -> nat {
    x.data[origin(x.shape, out, i as nat) as int]
}

/// The elements of a result of one operand.
pub open spec fn mapped(x: Array, f: spec_fn(nat) -> nat) -> Seq<nat> {
    Seq::new(x.data.len(), |i: int| f(x.data[i]))
}

/// The elements of a result of two operands.
pub open spec fn zipped(x: Array, y: Array, f: spec_fn(nat, nat) -> nat) -> Seq<nat> {
    let out = broadcast(x.shape, y.shape);
    Seq::new(volume(out), |i: int| f(operand(x, out, i), operand(y, out, i)))
}

/// The number of elements of the axes after `axis`.
pub open spec fn width_after(s: Seq<nat>, axis: nat) -> nat {
    volume(s.skip(axis as int + 1))
}

/// The line of `x` along `axis` that goes through the position `inner` of the axes
/// after it and `outer` of those before it.
pub open spec fn line(x: Array, axis: nat, outer: nat, inner: nat) -> Seq<nat> {
    let n = x.shape[axis as int];
    let width = width_after(x.shape, axis);
    Seq::new(n, |k: int| x.data[(outer * n + k) * width + inner])
}

/// An elementwise result of two operands that has the elements `data`.
pub open spec fn elementwise(x: Array, y: Array, data: Seq<nat>) -> Array {
    Array {
        shape: broadcast(x.shape, y.shape),
        data,
        device: x.device,
        element: x.element,
        tape: join_tape(x.tape, y.tape),
    }
}

/// A reduction along `axis`, where `f` makes one element of a line: the axis stays,
/// with one entry.
pub open spec fn reduced(x: Array, axis: nat, f: spec_fn(Seq<nat>) -> nat) -> Array {
    let shape = x.shape.update(axis as int, 1);
    let width = width_after(x.shape, axis);
    Array {
        shape,
        data: Seq::new(
            volume(shape),
            |i: int| f(line(x, axis, i as nat / width, i as nat % width)),
        ),
        ..x
    }
}

/// The same shape, where `f` makes a new line of each line along `axis`.
pub open spec fn relined(x: Array, axis: nat, f: spec_fn(Seq<nat>) -> Seq<nat>) -> Array {
    let n = x.shape[axis as int];
    let width = width_after(x.shape, axis);
    Array {
        data: Seq::new(
            volume(x.shape),
            |i: int|
                f(line(x, axis, i as nat / width / n, i as nat % width))[(i as nat / width % n) as int],
        ),
        ..x
    }
}

/// `e` to the power of each element.
pub open spec fn exp(x: Array) -> Array {
    Array { data: mapped(x, |c: nat| exp_code(x.element, c)), ..x }
}

/// Square root of each element.
pub open spec fn sqrt(x: Array) -> Array {
    Array { data: mapped(x, |c: nat| sqrt_code(x.element, c)), ..x }
}

/// Absolute value of each element.
pub open spec fn absolute(x: Array) -> Array {
    Array { data: mapped(x, |c: nat| magnitude_code(x.element, c)), ..x }
}

/// Sum of two arrays.
pub open spec fn plus(x: Array, y: Array) -> Array {
    elementwise(x, y, zipped(x, y, |a: nat, b: nat| add_code(x.element, a, b)))
}

/// Difference of two arrays.
pub open spec fn minus(x: Array, y: Array) -> Array {
    elementwise(x, y, zipped(x, y, |a: nat, b: nat| sub_code(x.element, a, b)))
}

/// Product of two arrays, element by element.
pub open spec fn times(x: Array, y: Array) -> Array {
    elementwise(x, y, zipped(x, y, |a: nat, b: nat| mul_code(x.element, a, b)))
}

/// Quotient of two arrays, element by element.
pub open spec fn over(x: Array, y: Array) -> Array {
    elementwise(x, y, zipped(x, y, |a: nat, b: nat| div_code(x.element, a, b)))
}

/// Each element of `x` to the power of an element of `y`.
pub open spec fn power(x: Array, y: Array) -> Array {
    elementwise(x, y, zipped(x, y, |a: nat, b: nat| powf_code(x.element, a, b)))
}

/// The larger of two elements.
pub open spec fn larger(x: Array, y: Array) -> Array {
    elementwise(x, y, zipped(x, y, |a: nat, b: nat| larger_code(x.element, a, b)))
}

/// Each element to the power `n`.
pub open spec fn power_int(x: Array, n: int) -> Array {
    Array { data: mapped(x, |c: nat| powf_scalar_code(x.element, c, n)), ..x }
}

/// Each element divided by `n`.
pub open spec fn over_int(x: Array, n: int) -> Array {
    Array { data: mapped(x, |c: nat| div_scalar_code(x.element, c, n)), ..x }
}

/// Sum along an axis.
pub open spec fn sum(x: Array, axis: nat) -> Array {
    reduced(x, axis, |l: Seq<nat>| sum_code(x.element, axis + 1 == x.shape.len(), l))
}

/// Softmax along an axis.
pub open spec fn softmax(x: Array, axis: nat) -> Array {
    relined(x, axis, |l: Seq<nat>| softmax_codes(x.element, x.tape != 0, l))
}

/// The same elements in another element type.
pub open spec fn cast(x: Array, element: nat) -> Array {
    Array { data: mapped(x, |c: nat| cast_code(x.element, element, c)), element, ..x }
}

/// The same elements under another shape.
pub open spec fn reshaped(x: Array, shape: Seq<nat>) -> Array {
    Array { shape, ..x }
}

/// The same elements with a new axis of one entry at `axis`.
pub open spec fn with_axis(x: Array, axis: nat) -> Array {
    reshaped(x, x.shape.insert(axis as int, 1))
}

/// The same elements without the axis `axis`.
pub open spec fn without_axis(x: Array, axis: nat) -> Array {
    reshaped(x, x.shape.remove(axis as int))
}

/// The entries `from..to` of the first axis.
pub open spec fn rows(x: Array, from: nat, to: nat) -> Array {
    let cell = volume(x.shape.skip(1));
    Array {
        shape: x.shape.update(0, (to - from) as nat),
        data: x.data.subrange((from * cell) as int, (to * cell) as int),
        ..x
    }
}

/// The elements of several arrays, one array after the other.
pub open spec fn joined_data(parts: Seq<Array>) -> Seq<nat>
    decreases parts.len(),
{
    if parts.len() == 0 {
        Seq::empty()
    } else {
        joined_data(parts.drop_last()) + parts.last().data
    }
}

/// Gradient recording of a result of several operands.
pub open spec fn joined_tape(parts: Seq<Array>) -> nat
    decreases parts.len(),
{
    if parts.len() == 0 {
        0
    } else {
        join_tape(joined_tape(parts.drop_last()), parts.last().tape)
    }
}

/// Arrays of one shape, one after the other along the first axis.
pub open spec fn concatenated(parts: Seq<Array>) -> Array {
    Array {
        shape: parts[0].shape.update(0, parts.len() * parts[0].shape[0]),
        data: joined_data(parts),
        device: parts[0].device,
        element: parts[0].element,
        tape: joined_tape(parts),
    }
}

/// The bit pattern of the number one.
pub open spec fn one_code(element: nat) -> nat {
    if element == 64 {
        0x3FF0_0000_0000_0000
    } else if element == 32 {
        0x3F80_0000
    } else if element == 16 {
        0x3C00
    } else {
        0x3F80
    }
}

/// The same array without the recording of gradients.
pub open spec fn bare(x: Array) -> Array {
    Array { tape: 0, ..x }
}

/// Every element zero, kept as `like` is.
pub open spec fn zeros(shape: Seq<nat>, like: Array) -> Array {
    Array { shape, data: Seq::new(volume(shape), |i: int| 0nat), ..like }
}

/// Every element one, kept as `like` is.
pub open spec fn ones(shape: Seq<nat>, like: Array) -> Array {
    Array { shape, data: Seq::new(volume(shape), |i: int| one_code(like.element)), ..like }
}

/// A double precision bit pattern that is a number, or infinite.
pub open spec fn is_number(bits: u64) -> bool {
    bits % 0x8000_0000_0000_0000 <= 0x7FF0_0000_0000_0000
}

/// One element in double precision with the bit pattern `bits`, on the device of
/// `like`.
pub open spec fn wide(bits: nat, rank: nat, like: Array) -> Array {
    Array { shape: unit_shape(rank), data: seq![bits], element: 64, ..like }
}

/// The whole number `n` in double precision, on the device of `like`.
pub open spec fn whole(n: nat, rank: nat, like: Array) -> Array {
    Array { shape: unit_shape(rank), data: seq![full_code(n)], element: 64, ..like }
}

// ---- facts about shapes ----

/// The number of elements of a vector, of a rank three and of a rank four shape.
pub proof fn lemma_volumes(a: nat, b: nat, c: nat, d: nat)
    ensures
        volume(seq![a]) == a,
        volume(seq![a, b, c]) == a * b * c,
        volume(seq![a, b, c, d]) == a * b * c * d,
{
    reveal_with_fuel(volume, 5);
    assert(seq![a].drop_last() =~= Seq::<nat>::empty());
    assert(seq![a, b].drop_last() =~= seq![a]);
    assert(seq![a, b, c].drop_last() =~= seq![a, b]);
    assert(seq![a, b, c, d].drop_last() =~= seq![a, b, c]);
    assert(volume(seq![a]) == 1 * a);
    assert(volume(seq![a, b]) == a * b);
}

/// Leading axes of one entry do not change the number of elements.
pub proof fn lemma_leading_ones(a: nat, b: nat, c: nat)
    ensures
        volume(seq![1, 1, c]) == volume(seq![c]),
        volume(seq![1, 1, 1, c]) == volume(seq![c]),
        volume(seq![1, a, b, c]) == volume(seq![a, b, c]),
{
    lemma_volumes(c, 1, 1, 1);
    lemma_volumes(1, 1, c, 1);
    lemma_volumes(1, 1, 1, c);
    lemma_volumes(a, b, c, 1);
    lemma_volumes(1, a, b, c);
    assert(1nat * 1nat * c == c) by (nonlinear_arith);
    assert(1nat * 1nat * 1nat * c == c) by (nonlinear_arith);
    assert(1nat * a * b * c == a * b * c) by (nonlinear_arith);
}

} // verus!
