//! Finding out whether tensors can meet in one operation.
use vstd::prelude::*;

use crate::array;
use crate::array::Place;
use crate::tensor::Tensor;

verus! {

/// `p` is one of the places that `m` leaves open: same device, same element type,
/// and the same gradient recording if `m` has any.
pub open spec fn allows(m: Place, p: Place) -> bool {
    &&& array::supported(p.element)
    &&& p.device == m.device
    &&& p.element == m.element
    &&& m.tape == 0 || p.tape == m.tape
}

/// The places at which all tensors so far are kept.
pub(crate) struct Meeting<const D: usize> {
    anchor: Tensor<D>,
    tape: u8,
}

impl<const D: usize> Meeting<D> {
    /// The place that is sure so far.
    pub closed spec fn place(&self) -> Place {
        Place {
            device: self.anchor@.device,
            element: self.anchor@.element,
            tape: self.tape as nat,
        }
    }

    #[verifier::type_invariant]
    spec fn settled(self) -> bool {
        array::supported(self.anchor@.element)
    }

    /// The places at which one tensor is kept; nothing if there is none.
    pub(crate) fn of(t: &Tensor<D>) -> (r: Option<Self>)
        ensures
            r is None ==> forall|p: Place| !array::kept_at(t@, p),
            r matches Some(m) ==> allows(m.place(), m.place()) && forall|p: Place|
                #![trigger allows(m.place(), p)]
                #![trigger array::kept_at(t@, p)]
                allows(m.place(), p) <==> array::kept_at(t@, p),
    {
        let code = t.element();
        if code == 64 || code == 32 || code == 16 || code == 17 {
            Some(Meeting { anchor: t.clone(), tape: t.tape() })
        } else {
            None
        }
    }

    /// Keeps the places at which `t` is kept too, and tells whether there are any.
    pub(crate) fn join<const E: usize>(&mut self, t: &Tensor<E>) -> (r: bool)
        ensures
            !r ==> forall|p: Place| !(allows(old(self).place(), p) && array::kept_at(t@, p)),
            r ==> allows(final(self).place(), final(self).place()) && forall|p: Place|
                #![trigger allows(final(self).place(), p)]
                #![trigger array::kept_at(t@, p)]
                allows(final(self).place(), p) <==> allows(old(self).place(), p)
                    && array::kept_at(t@, p),
    {
        proof {
            use_type_invariant(&*self);
        }
        if t.element() != self.anchor.element() {
            return false;
        }
        if !self.anchor.shares_device(t) {
            return false;
        }
        let tape = t.tape();
        if tape != 0 {
            if self.tape == 0 {
                self.tape = tape;
            } else if self.tape != tape {
                return false;
            }
        }
        true
    }
}

} // verus!
