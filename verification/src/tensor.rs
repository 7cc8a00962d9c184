//! Tensors of burn, and the operations on them that this library calls.
//!
//! [`Tensor`] holds a tensor of burn. The functions marked `external_body` hand
//! their arguments to burn and its answer back. Their contracts are what the rest of
//! the library rests on: each says what the call does to extents and placement and
//! which elements a new element is made of, and names what burn computes of them.
//!
//! The crate is built with burn's CPU backend alone, without std, threads and vector
//! instructions. There an operation treats all elements alike, visits them in one
//! fixed order, and takes `exp` and `powf` from the crate libm. Running out of memory
//! is not modelled.
use vstd::prelude::*;
use burn::tensor::kind::BridgeTensor;
use burn::tensor::{DType, Device, GradientCheckpointingStrategy, TensorData};

use crate::array;
use crate::array::Array;
use crate::positions;

verus! {

/// burn's tensor with the number of axes taken out of its type.
#[verifier::external_type_specification]
#[verifier::external_body]
pub struct ExBridgeTensor(BridgeTensor);

/// burn's handle of a device.
#[verifier::external_type_specification]
#[verifier::external_body]
pub struct ExDevice(Device);

/// The extents of a tensor, outermost axis first.
pub uninterp spec fn extents(t: BridgeTensor) -> Seq<nat>;

/// The codes of a tensor's elements, in row-major order.
pub uninterp spec fn contents(t: BridgeTensor) -> Seq<nat>;

/// A number for the device of a tensor: the same for two tensors exactly if burn
/// calls their devices equal.
pub uninterp spec fn device_of(t: BridgeTensor) -> nat;

/// The element type of a tensor, numbered as [`Array`] says.
pub uninterp spec fn element_of(t: BridgeTensor) -> nat;

/// How a tensor records gradients, numbered as [`Array`] says.
pub uninterp spec fn tape_of(t: BridgeTensor) -> nat;

/// The number that [`device_of`] has for tensors on this device.
pub uninterp spec fn hardware(d: Device) -> nat;

/// The number that [`tape_of`] has for tensors created on this device.
pub uninterp spec fn taping(d: Device) -> nat;

/// The view of one of burn's tensors.
pub open spec fn view_of(t: BridgeTensor) -> Array {
    Array {
        shape: extents(t),
        data: contents(t),
        device: device_of(t),
        element: element_of(t),
        tape: tape_of(t),
    }
}

/// The views of a sequence of tensors.
pub open spec fn views<const D: usize>(s: Seq<Tensor<D>>) -> Seq<Array> {
    Seq::new(s.len(), |i: int| s[i]@)
}

/// Every element is zero, and the tensor was created on `device`, in an element type that
/// the operations compute with.
pub open spec fn zeros_on(x: Array, shape: Seq<nat>, device: Device) -> bool {
    &&& x.shape == shape
    &&& array::supported(x.element)
    &&& x.data == Seq::new(array::volume(shape), |i: int| 0nat)
    &&& x.device == hardware(device)
    &&& x.tape == taping(device)
}

/// `BridgeTensor::clone` gives a tensor with the same view.
pub assume_specification [<BridgeTensor as Clone>::clone](t: &BridgeTensor) -> (r: BridgeTensor)
    ensures
        extents(r) == extents(*t),
        contents(r) == contents(*t),
        device_of(r) == device_of(*t),
        element_of(r) == element_of(*t),
        tape_of(r) == tape_of(*t),
;

/// `BridgeTensor::rank` is the number of axes.
#[verifier::external_body]
fn rank_of(t: &BridgeTensor) -> (r: usize)
    ensures
        r == extents(*t).len(),
{
    t.rank()
}

/// `BridgeTensor::is_float` and `BridgeTensor::dtype` tell the element type.
#[verifier::external_body]
fn element_code(t: &BridgeTensor) -> (r: u8)
    ensures
        r == element_of(*t),
{
    match (t.is_float(), t.dtype()) {
        (true, DType::F64) => 64,
        (true, DType::F32) => 32,
        (true, DType::F16) => 16,
        (true, DType::BF16) => 17,
        _ => 0,
    }
}

/// `BridgeTensor::shape` and `Shape::dims` give the extents, and a tensor holds as many
/// elements as they say.
#[verifier::external_body]
fn dims_of<const D: usize>(t: &BridgeTensor) -> (r: [usize; D])
    requires
        extents(*t).len() == D,
    ensures
        array::sizes(r@) == extents(*t),
        array::volume(array::sizes(r@)) == contents(*t).len(),
{
    t.shape().dims()
}

/// An element type that the operations compute with.
#[derive(Clone, Copy, PartialEq, Eq, Structural)]
pub enum Precision {
    /// IEEE double precision.
    Double,
    /// IEEE single precision.
    Single,
    /// IEEE half precision.
    Half,
    /// bfloat16.
    Brain,
}

impl Precision {
    /// The number that [`Array`] has for the element type.
    pub open spec fn code(self) -> nat {
        match self {
            Precision::Double => 64,
            Precision::Single => 32,
            Precision::Half => 16,
            Precision::Brain => 17,
        }
    }
}

/// A tensor of `D` axes.
pub struct Tensor<const D: usize> {
    bridge: BridgeTensor,
}

impl<const D: usize> View for Tensor<D> {
    type V = Array;

    closed spec fn view(&self) -> Array {
        view_of(self.bridge)
    }
}

impl<const D: usize> Clone for Tensor<D> {
    fn clone(&self) -> (r: Self)
        ensures
            r@ == self@,
            r@.shape.len() == D,
    {
        proof {
            use_type_invariant(self);
        }
        Tensor { bridge: self.bridge.clone() }
    }
}

impl<const D: usize> Tensor<D> {
    /// The number of axes is the one in the type.
    #[verifier::type_invariant]
    spec fn ranked(self) -> bool {
        extents(self.bridge).len() == D
    }

    /// Takes over a tensor of burn, if it has `D` axes and an element type that
    /// the operations compute with.
    pub fn from_bridge(bridge: BridgeTensor) -> (r: Option<Self>)
        ensures
            r is Some <==> extents(bridge).len() == D && array::supported(element_of(bridge)),
            r matches Some(t) ==> t@ == view_of(bridge),
    {
        let code = element_code(&bridge);
        if rank_of(&bridge) == D && (code == 64 || code == 32 || code == 16 || code == 17) {
            Some(Tensor { bridge })
        } else {
            None
        }
    }

    /// Hands the tensor back to burn.
    pub fn into_bridge(self) -> (r: BridgeTensor)
        ensures
            view_of(r) == self@,
            extents(r).len() == D,
    {
        proof {
            use_type_invariant(&self);
        }
        self.bridge
    }

    /// The element type, numbered as [`Array`] says.
    pub fn element(&self) -> (r: u8)
        ensures
            r == self@.element,
    {
        element_code(&self.bridge)
    }

    /// The element type, where the operations compute with it.
    pub fn precision(&self) -> (r: Option<Precision>)
        ensures
            r is Some <==> array::supported(self@.element),
            r matches Some(p) ==> p.code() == self@.element,
    {
        match self.element() {
            64 => Some(Precision::Double),
            32 => Some(Precision::Single),
            16 => Some(Precision::Half),
            17 => Some(Precision::Brain),
            _ => None,
        }
    }

    /// The extents, outermost axis first. The tensor holds as many elements as they say.
    pub fn dims(&self) -> (r: [usize; D])
        ensures
            array::sizes(r@) == self@.shape,
            self@.shape.len() == D,
            positions::sized(self@),
    {
        proof {
            use_type_invariant(self);
        }
        dims_of::<D>(&self.bridge)
    }

    /// Whether two tensors have the same extents.
    pub fn same_shape(&self, other: &Self) -> (r: bool)
        ensures
            r == (self@.shape == other@.shape),
            self@.shape.len() == D,
    {
        let a = self.dims();
        let b = other.dims();
        let mut i: usize = 0;
        while i < D
            invariant
                i <= D,
                array::sizes(a@) == self@.shape,
                array::sizes(b@) == other@.shape,
                forall|j: int| 0 <= j < i ==> self@.shape[j] == other@.shape[j],
            decreases D - i,
        {
            assert(self@.shape[i as int] == a[i as int]);
            assert(other@.shape[i as int] == b[i as int]);
            if a[i] != b[i] {
                return false;
            }
            i += 1;
        }
        assert(self@.shape =~= other@.shape);
        true
    }

    /// Whether two tensors are on one device.
    pub fn shares_device<const E: usize>(&self, other: &Tensor<E>) -> (r: bool)
        requires
            array::supported(self@.element),
            array::supported(other@.element),
        ensures
            r == (self@.device == other@.device),
    {
        same_device(self, other)
    }

    /// How the tensor records gradients, numbered as [`Array`] says.
    pub fn tape(&self) -> (r: u8)
        requires
            array::supported(self@.element),
        ensures
            r == self@.tape,
    {
        self.tape_code()
    }
}

/// `Tensor::device` and the equality of devices tell whether two tensors are on
/// one device.
#[verifier::external_body]
fn same_device<const D: usize, const E: usize>(a: &Tensor<D>, b: &Tensor<E>) -> (r: bool)
    requires
        array::supported(a@.element),
        array::supported(b@.element),
    ensures
        r == (a@.device == b@.device),
{
    burn::tensor::Tensor::<D>::from_bridge(a.bridge.clone()).device()
        == burn::tensor::Tensor::<E>::from_bridge(b.bridge.clone()).device()
}

// What burn computes.
impl<const D: usize> Tensor<D> {
    /// `Device::gradient_checkpointing_strategy` of `Tensor::device` tells how
    /// gradients are recorded.
    #[verifier::external_body]
    fn tape_code(&self) -> (r: u8)
        requires
            array::supported(self@.element),
        ensures
            r == self@.tape,
    {
        let device = burn::tensor::Tensor::<D>::from_bridge(self.bridge.clone()).device();
        match device.gradient_checkpointing_strategy() {
            None => 0,
            Some(GradientCheckpointingStrategy::Disabled) => 1,
            Some(GradientCheckpointingStrategy::Balanced) => 2,
        }
    }

    /// `Tensor::exp` computes each element from the one in its place, and keeps the
    /// shape and the placement.
    #[verifier::external_body]
    pub(crate) fn exp(self) -> (r: Self)
        requires
            array::supported(self@.element),
        ensures
            r@ == (Array {
                data: array::mapped(self@, |c: nat| array::exp_code(self@.element, c)),
                ..self@
            }),
    {
        Tensor { bridge: burn::tensor::Tensor::<D>::from_bridge(self.bridge).exp().into_bridge() }
    }

    /// `Tensor::sqrt` computes each element from the one in its place, and keeps the
    /// shape and the placement.
    #[verifier::external_body]
    pub(crate) fn sqrt(self) -> (r: Self)
        requires
            array::supported(self@.element),
        ensures
            r@ == (Array {
                data: array::mapped(self@, |c: nat| array::sqrt_code(self@.element, c)),
                ..self@
            }),
    {
        Tensor { bridge: burn::tensor::Tensor::<D>::from_bridge(self.bridge).sqrt().into_bridge() }
    }

    /// `Tensor::abs` clears the sign of each element, and keeps the shape and the
    /// placement.
    #[verifier::external_body]
    pub(crate) fn abs(self) -> (r: Self)
        requires
            array::supported(self@.element),
        ensures
            r@ == (Array {
                data: array::mapped(self@, |c: nat| array::magnitude_code(self@.element, c)),
                ..self@
            }),
    {
        Tensor { bridge: burn::tensor::Tensor::<D>::from_bridge(self.bridge).abs().into_bridge() }
    }

    /// `Tensor::add` computes each element from one element of either operand, which
    /// is read over and over along an axis of one entry. It panics where the operands
    /// cannot meet.
    #[verifier::external_body]
    pub(crate) fn plus(self, other: Self) -> (r: Self)
        requires
            array::can_meet(self@, other@),
            array::broadcasts(self@.shape, other@.shape),
        ensures
            r@ == array::elementwise(
                self@,
                other@,
                array::zipped(
                    self@,
                    other@,
                    |a: nat, b: nat| array::add_code(self@.element, a, b),
                ),
            ),
    {
        let lhs = burn::tensor::Tensor::<D>::from_bridge(self.bridge);
        let rhs = burn::tensor::Tensor::<D>::from_bridge(other.bridge);
        Tensor { bridge: lhs.add(rhs).into_bridge() }
    }

    /// `Tensor::sub` computes each element from one element of either operand, which
    /// is read over and over along an axis of one entry. It panics where the operands
    /// cannot meet.
    #[verifier::external_body]
    pub(crate) fn minus(self, other: Self) -> (r: Self)
        requires
            array::can_meet(self@, other@),
            array::broadcasts(self@.shape, other@.shape),
        ensures
            r@ == array::elementwise(
                self@,
                other@,
                array::zipped(
                    self@,
                    other@,
                    |a: nat, b: nat| array::sub_code(self@.element, a, b),
                ),
            ),
    {
        let lhs = burn::tensor::Tensor::<D>::from_bridge(self.bridge);
        let rhs = burn::tensor::Tensor::<D>::from_bridge(other.bridge);
        Tensor { bridge: lhs.sub(rhs).into_bridge() }
    }

    /// `Tensor::mul` computes each element from one element of either operand, which
    /// is read over and over along an axis of one entry. It panics where the operands
    /// cannot meet.
    #[verifier::external_body]
    pub(crate) fn times(self, other: Self) -> (r: Self)
        requires
            array::can_meet(self@, other@),
            array::broadcasts(self@.shape, other@.shape),
        ensures
            r@ == array::elementwise(
                self@,
                other@,
                array::zipped(
                    self@,
                    other@,
                    |a: nat, b: nat| array::mul_code(self@.element, a, b),
                ),
            ),
    {
        let lhs = burn::tensor::Tensor::<D>::from_bridge(self.bridge);
        let rhs = burn::tensor::Tensor::<D>::from_bridge(other.bridge);
        Tensor { bridge: lhs.mul(rhs).into_bridge() }
    }

    /// `Tensor::div` computes each element from one element of either operand, which
    /// is read over and over along an axis of one entry. It panics where the operands
    /// cannot meet.
    #[verifier::external_body]
    pub(crate) fn over(self, other: Self) -> (r: Self)
        requires
            array::can_meet(self@, other@),
            array::broadcasts(self@.shape, other@.shape),
        ensures
            r@ == array::elementwise(
                self@,
                other@,
                array::zipped(
                    self@,
                    other@,
                    |a: nat, b: nat| array::div_code(self@.element, a, b),
                ),
            ),
    {
        let lhs = burn::tensor::Tensor::<D>::from_bridge(self.bridge);
        let rhs = burn::tensor::Tensor::<D>::from_bridge(other.bridge);
        Tensor { bridge: lhs.div(rhs).into_bridge() }
    }

    /// `Tensor::powf` computes each element from one element of either operand, which
    /// is read over and over along an axis of one entry. It panics where the operands
    /// cannot meet.
    #[verifier::external_body]
    pub(crate) fn power(self, other: Self) -> (r: Self)
        requires
            array::can_meet(self@, other@),
            array::broadcasts(self@.shape, other@.shape),
        ensures
            r@ == array::elementwise(
                self@,
                other@,
                array::zipped(
                    self@,
                    other@,
                    |a: nat, b: nat| array::powf_code(self@.element, a, b),
                ),
            ),
    {
        let lhs = burn::tensor::Tensor::<D>::from_bridge(self.bridge);
        let rhs = burn::tensor::Tensor::<D>::from_bridge(other.bridge);
        Tensor { bridge: lhs.powf(rhs).into_bridge() }
    }

    /// `Tensor::max_pair` takes the element of the second operand where that of the first
    /// is below it, and that of the first elsewhere. An operand is read over and over
    /// along an axis of one entry. It panics where the operands cannot meet.
    #[verifier::external_body]
    pub(crate) fn larger(self, other: Self) -> (r: Self)
        requires
            array::can_meet(self@, other@),
            array::broadcasts(self@.shape, other@.shape),
        ensures
            r@ == array::elementwise(
                self@,
                other@,
                array::zipped(
                    self@,
                    other@,
                    |a: nat, b: nat| array::larger_code(self@.element, a, b),
                ),
            ),
    {
        let lhs = burn::tensor::Tensor::<D>::from_bridge(self.bridge);
        let rhs = burn::tensor::Tensor::<D>::from_bridge(other.bridge);
        Tensor { bridge: lhs.max_pair(rhs).into_bridge() }
    }

    /// `Tensor::powf_scalar` with a whole exponent computes each element from the one
    /// in its place, and keeps the shape and the placement.
    #[verifier::external_body]
    pub(crate) fn power_int(self, n: i32) -> (r: Self)
        requires
            array::supported(self@.element),
        ensures
            r@ == (Array {
                data: array::mapped(
                    self@,
                    |c: nat| array::powf_scalar_code(self@.element, c, n as int),
                ),
                ..self@
            }),
    {
        let t = burn::tensor::Tensor::<D>::from_bridge(self.bridge);
        Tensor { bridge: t.powf_scalar(n).into_bridge() }
    }

    /// `Tensor::div_scalar` with a whole divisor computes each element from the one in
    /// its place, and keeps the shape and the placement.
    #[verifier::external_body]
    pub(crate) fn over_int(self, n: i32) -> (r: Self)
        requires
            array::supported(self@.element),
        ensures
            r@ == (Array {
                data: array::mapped(
                    self@,
                    |c: nat| array::div_scalar_code(self@.element, c, n as int),
                ),
                ..self@
            }),
    {
        let t = burn::tensor::Tensor::<D>::from_bridge(self.bridge);
        Tensor { bridge: t.div_scalar(n).into_bridge() }
    }

    /// `Tensor::sum_dim` makes one element of each line along the axis, and panics on an
    /// axis that the tensor does not have. How it starts a sum depends on how the tensor
    /// is laid out in memory, which shows in the sign of a zero; `Tensor::reshape` to the
    /// tensor's own extents lays it out in row-major order first.
    #[verifier::external_body]
    pub(crate) fn sum(self, axis: usize) -> (r: Self)
        requires
            array::supported(self@.element),
            axis < D,
        ensures
            r@ == array::reduced(
                self@,
                axis as nat,
                |l: Seq<nat>|
                    array::sum_code(self@.element, axis as nat + 1 == self@.shape.len(), l),
            ),
    {
        let t = burn::tensor::Tensor::<D>::from_bridge(self.bridge);
        let own: [usize; D] = t.dims();
        Tensor { bridge: t.reshape(own).sum_dim(axis).into_bridge() }
    }

    /// `burn::tensor::activation::softmax` makes a new line of each line along the axis.
    /// A tensor that records gradients takes another route through burn, which rounds
    /// otherwise. It panics on an axis that the tensor does not have and, where
    /// gradients are recorded, on an empty one.
    #[verifier::external_body]
    pub(crate) fn softmax(self, axis: usize) -> (r: Self)
        requires
            array::supported(self@.element),
            axis < D,
            self@.shape[axis as int] > 0,
        ensures
            r@ == array::relined(
                self@,
                axis as nat,
                |l: Seq<nat>| array::softmax_codes(self@.element, self@.tape != 0, l),
            ),
    {
        let t = burn::tensor::Tensor::<D>::from_bridge(self.bridge);
        Tensor { bridge: burn::tensor::activation::softmax(t, axis).into_bridge() }
    }

    /// `Tensor::cast` converts each element in its place, and keeps the shape, the device
    /// and the recording.
    #[verifier::external_body]
    pub(crate) fn cast(self, to: Precision) -> (r: Self)
        requires
            array::supported(self@.element),
        ensures
            r@ == (Array {
                data: array::mapped(
                    self@,
                    |c: nat| array::cast_code(self@.element, to.code(), c),
                ),
                element: to.code(),
                ..self@
            }),
    {
        let t = burn::tensor::Tensor::<D>::from_bridge(self.bridge);
        let dtype = match to {
            Precision::Double => DType::F64,
            Precision::Single => DType::F32,
            Precision::Half => DType::F16,
            Precision::Brain => DType::BF16,
        };
        Tensor { bridge: t.cast(dtype).into_bridge() }
    }

    /// `Tensor::from_data`: one element in double precision, given by its bit
    /// pattern, on the device of the tensor.
    #[verifier::external_body]
    pub(crate) fn wide(&self, bits: u64) -> (r: Self)
        requires
            array::supported(self@.element),
            D > 0,
            array::is_number(bits),
        ensures
            r@ == array::wide(bits as nat, D as nat, self@),
    {
        let device = burn::tensor::Tensor::<D>::from_bridge(self.bridge.clone()).device();
        let data = TensorData::from_bytes_vec(bits.to_ne_bytes().to_vec(), [1usize; D], DType::F64);
        let t = burn::tensor::Tensor::<D>::from_data(data, (&device, DType::F64));
        Tensor { bridge: t.into_bridge() }
    }

    /// `Tensor::full`: one element in double precision, a whole number, on the
    /// device of the tensor.
    #[verifier::external_body]
    pub(crate) fn whole(&self, n: u64) -> (r: Self)
        requires
            array::supported(self@.element),
            D > 0,
        ensures
            r@ == (Array {
                shape: array::unit_shape(D as nat),
                data: seq![array::full_code(n as nat)],
                element: 64,
                ..self@
            }),
    {
        let device = burn::tensor::Tensor::<D>::from_bridge(self.bridge.clone()).device();
        let t = burn::tensor::Tensor::<D>::full([1usize; D], n, (&device, DType::F64));
        Tensor { bridge: t.into_bridge() }
    }

    /// `Tensor::zeros` on the device and in the element type of the tensor: every
    /// element is zero, and gradients are recorded as that device is set to.
    #[verifier::external_body]
    pub(crate) fn zeros_like(&self, shape: [usize; D]) -> (r: Self)
        requires
            array::supported(self@.element),
            D > 0,
        ensures
            r@ == array::zeros(array::sizes(shape@), self@),
    {
        let t = burn::tensor::Tensor::<D>::from_bridge(self.bridge.clone());
        let zeros = burn::tensor::Tensor::<D>::zeros(shape, (&t.device(), t.dtype()));
        Tensor { bridge: zeros.into_bridge() }
    }

    /// `Tensor::ones` on the device and in the element type of the tensor: every element
    /// is one, and gradients are recorded as that device is set to.
    #[verifier::external_body]
    pub(crate) fn ones_like(&self, shape: [usize; D]) -> (r: Self)
        requires
            array::supported(self@.element),
            D > 0,
        ensures
            r@ == array::ones(array::sizes(shape@), self@),
    {
        let t = burn::tensor::Tensor::<D>::from_bridge(self.bridge.clone());
        let ones = burn::tensor::Tensor::<D>::ones(shape, (&t.device(), t.dtype()));
        Tensor { bridge: ones.into_bridge() }
    }

    /// `Tensor::zeros` on a device, in the element type that the device is set to use,
    /// which is one that the operations compute with. Which one of them is not stated: it
    /// is a setting of the process.
    #[verifier::external_body]
    pub(crate) fn zeros(shape: [usize; D], device: &Device) -> (r: Self)
        requires
            D > 0,
        ensures
            r@.shape == array::sizes(shape@),
            r@.data == Seq::new(array::volume(array::sizes(shape@)), |i: int| 0nat),
            r@.device == hardware(*device),
            r@.tape == taping(*device),
            array::supported(r@.element),
    {
        Tensor { bridge: burn::tensor::Tensor::<D>::zeros(shape, device).into_bridge() }
    }

    /// `Tensor::ones` on a device, in the element type that the device is set to use, which
    /// is one that the operations compute with. Which one of them is not stated: it is a
    /// setting of the process.
    #[verifier::external_body]
    pub(crate) fn ones(shape: [usize; D], device: &Device) -> (r: Self)
        requires
            D > 0,
        ensures
            r@.shape == array::sizes(shape@),
            r@.data == Seq::new(
                array::volume(array::sizes(shape@)),
                |i: int| array::one_code(r@.element),
            ),
            r@.device == hardware(*device),
            r@.tape == taping(*device),
            array::supported(r@.element),
    {
        Tensor { bridge: burn::tensor::Tensor::<D>::ones(shape, device).into_bridge() }
    }

    /// `Tensor::device` is the device that the tensor is on and, for tensors created there,
    /// records gradients as the tensor does.
    #[verifier::external_body]
    pub(crate) fn device(&self) -> (r: Device)
        requires
            array::supported(self@.element),
        ensures
            hardware(r) == self@.device,
            taping(r) == self@.tape,
    {
        burn::tensor::Tensor::<D>::from_bridge(self.bridge.clone()).device()
    }

    /// `Tensor::inner` is the same tensor without the recording of gradients.
    #[verifier::external_body]
    pub(crate) fn inner(self) -> (r: Self)
        requires
            array::supported(self@.element),
        ensures
            r@ == array::bare(self@),
    {
        let t = burn::tensor::Tensor::<D>::from_bridge(self.bridge);
        Tensor { bridge: t.inner().into_bridge() }
    }

    /// `Tensor::reshape` keeps the elements in their row-major order. It panics where
    /// the number of elements differs, and gives a zero among the new extents a meaning
    /// of its own.
    #[verifier::external_body]
    pub(crate) fn reshape<const E: usize>(self, shape: [usize; E]) -> (r: Tensor<E>)
        requires
            array::supported(self@.element),
            array::positive(array::sizes(shape@)),
            array::volume(array::sizes(shape@)) == array::volume(self@.shape),
        ensures
            r@ == array::reshaped(self@, array::sizes(shape@)),
    {
        let t = burn::tensor::Tensor::<D>::from_bridge(self.bridge);
        Tensor { bridge: t.reshape(shape).into_bridge() }
    }

    /// `Tensor::unsqueeze_dim` puts in an axis of one entry and keeps the elements. It
    /// panics on a tensor with an empty axis.
    #[verifier::external_body]
    pub(crate) fn with_axis<const E: usize>(self, axis: usize) -> (r: Tensor<E>)
        requires
            array::supported(self@.element),
            array::positive(self@.shape),
            E == D + 1,
            axis <= D,
        ensures
            r@ == array::with_axis(self@, axis as nat),
    {
        let t = burn::tensor::Tensor::<D>::from_bridge(self.bridge);
        Tensor { bridge: t.unsqueeze_dim::<E>(axis).into_bridge() }
    }

    /// `Tensor::squeeze_dim` takes out an axis of one entry and keeps the elements. It
    /// panics where the axis has not one entry.
    #[verifier::external_body]
    pub(crate) fn without_axis<const E: usize>(self, axis: usize) -> (r: Tensor<E>)
        requires
            array::supported(self@.element),
            E > 0,
            E + 1 == D,
            axis < D,
            self@.shape[axis as int] == 1,
        ensures
            r@ == array::without_axis(self@, axis as nat),
    {
        let t = burn::tensor::Tensor::<D>::from_bridge(self.bridge);
        Tensor { bridge: t.squeeze_dim::<E>(axis).into_bridge() }
    }

    /// `Tensor::slice` of the first axis keeps the elements of the entries `from..to`.
    /// It panics beyond the extent of the axis.
    #[verifier::external_body]
    pub(crate) fn rows(self, from: usize, to: usize) -> (r: Self)
        requires
            array::supported(self@.element),
            D > 0,
            from < to <= self@.shape[0],
        ensures
            r@ == array::rows(self@, from as nat, to as nat),
    {
        let t = burn::tensor::Tensor::<D>::from_bridge(self.bridge);
        Tensor { bridge: t.slice([from..to]).into_bridge() }
    }

    /// `Tensor::cat` along the first axis puts the elements of the tensors one after the
    /// other. It panics on an empty list and where the tensors differ in shape, element
    /// type or kind of recording, and takes no part in account that has no entry.
    #[verifier::external_body]
    pub(crate) fn concatenate(parts: Vec<Self>) -> (r: Self)
        requires
            D > 0,
            parts.len() > 0,
            parts[0]@.shape[0] > 0,
            forall|i: int|
                0 <= i < parts.len() ==> (#[trigger] parts[i])@.shape == parts[0]@.shape,
            forall|i: int, j: int|
                0 <= i < parts.len() && 0 <= j < parts.len() ==> array::can_meet(
                    (#[trigger] parts[i])@,
                    (#[trigger] parts[j])@,
                ),
        ensures
            r@ == array::concatenated(views(parts@)),
    {
        let parts = parts.into_iter().map(|t| burn::tensor::Tensor::<D>::from_bridge(t.bridge));
        Tensor { bridge: burn::tensor::Tensor::<D>::cat(parts.collect(), 0).into_bridge() }
    }
}

} // verus!
