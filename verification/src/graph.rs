//! The place of depth attention in the graph of recorded operations.
//!
//! The operation is one node with a fixed number of parents. Its inputs are the
//! layers, numbered from zero, and the query, numbered after the last of them.
use vstd::prelude::*;

use crate::array;
use crate::array::{Array, Place};
use crate::depth;
use crate::tensor;
use crate::tensor::Tensor;

verus! {

/// The input that is the parent number `i` of a node for `l` layers: the layers,
/// then the query, which also fills the slots that are left.
pub open spec fn parent(l: nat, i: nat) -> nat {
    if i < l {
        i
    } else {
        l
    }
}

/// The inputs that are the `n` parents of a node for `l` layers; nothing where the
/// layers and the query do not find room.
pub fn parent_slots(l: usize, n: usize) -> (r: Option<Vec<usize>>)
    ensures
        r is None <==> l + 1 > n,
        r matches Some(slots) ==> slots.len() == n && forall|i: int|
            0 <= i < n ==> #[trigger] slots[i] == parent(l as nat, i as nat),
{
    if l >= n {
        return None;
    }
    let mut slots: Vec<usize> = Vec::new();
    let mut i: usize = 0;
    while i < n
        invariant
            i <= n,
            slots.len() == i,
            forall|j: int| 0 <= j < i ==> #[trigger] slots[j] == parent(l as nat, j as nat),
        decreases n - i,
    {
        slots.push(
            if i < l {
                i
            } else {
                l
            },
        );
        i += 1;
    }
    Some(slots)
}

/// The input `i` is the parent number `i`, for every layer and for the query, so the
/// gradient of an input belongs to the parent of the same number. The further
/// parents are the query again.
pub proof fn lemma_inputs_come_first(l: nat, n: nat, i: nat)
    requires
        l + 1 <= n,
        i < n,
    ensures
        i <= l ==> parent(l, i) == i,
        i > l ==> parent(l, i) == l,
        forall|j: nat| j <= l && i <= l && #[trigger] parent(l, j) == parent(l, i) ==> j == i,
{
}

/// What a node of depth attention holds when it is recorded.
pub struct Node {
    /// The result of the operation.
    pub out: Tensor<3>,
    /// The input that each of the parents is.
    pub parents: Vec<usize>,
}

/// The arrays without the recording of gradients.
pub open spec fn all_bare(s: Seq<Array>) -> Seq<Array> {
    Seq::new(s.len(), |i: int| array::bare(s[i]))
}

/// The layers and the query all record gradients, without checkpointing of activations.
pub open spec fn recorded(history: Seq<Array>, query: Array) -> bool {
    &&& query.tape == 1
    &&& forall|i: int| 0 <= i < history.len() ==> (#[trigger] history[i]).tape == 1
}

/// Whether the layers and the query all record gradients, without checkpointing of
/// activations.
pub fn is_recorded(history: &[Tensor<3>], query: &Tensor<1>) -> (r: bool)
    requires
        array::supported(query@.element),
        forall|i: int| 0 <= i < history.len() ==> array::supported((#[trigger] history[i])@.element),
    ensures
        r == recorded(tensor::views(history@), query@),
{
    let ghost layers = tensor::views(history@);
    if query.tape() != 1 {
        return false;
    }
    let mut i: usize = 0;
    while i < history.len()
        invariant
            i <= history.len(),
            layers == tensor::views(history@),
            query@.tape == 1,
            forall|j: int|
                0 <= j < history.len() ==> array::supported((#[trigger] history[j])@.element),
            forall|j: int| 0 <= j < i ==> (#[trigger] layers[j]).tape == 1,
        decreases history.len() - i,
    {
        assert(layers[i as int] == history[i as int]@);
        if history[i].tape() != 1 {
            return false;
        }
        i += 1;
    }
    true
}

/// Depth attention as a node with `N` parents, computed on the tensors without their
/// recording; nothing where the layers and the query do not find room among the parents,
/// or do not all record gradients.
pub fn depth_attend_autodiff<const N: usize>(history: &[Tensor<3>], query: Tensor<1>) -> (r: Option<
    Node,
>)
    requires
        array::supported(query@.element),
        forall|i: int| 0 <= i < history.len() ==> array::supported((#[trigger] history[i])@.element),
        history.len() + 1 <= N && recorded(tensor::views(history@), query@) ==> exists|p: Place|
            #[trigger] depth::meets(tensor::views(history@), query@, p),
    ensures
        r is None <==> history.len() + 1 > N || !recorded(tensor::views(history@), query@),
        r matches Some(node) ==> {
            &&& node.out@ == depth::weighted_sum(
                all_bare(tensor::views(history@)),
                array::bare(query@),
            )
            &&& node.out@.shape == history[0]@.shape
            &&& node.parents.len() == N
            &&& forall|i: int|
                0 <= i < N ==> #[trigger] node.parents[i] == parent(history.len() as nat, i as nat)
        },
{
    let parents = parent_slots(history.len(), N)?;
    if !is_recorded(history, &query) {
        return None;
    }
    let ghost layers = tensor::views(history@);
    let ghost p = choose|p: Place| depth::meets(layers, query@, p);
    let mut bare: Vec<Tensor<3>> = Vec::new();
    let mut i: usize = 0;
    while i < history.len()
        invariant
            i <= history.len(),
            layers == tensor::views(history@),
            forall|j: int|
                0 <= j < history.len() ==> array::supported((#[trigger] history[j])@.element),
            tensor::views(bare@) == all_bare(layers).take(i as int),
        decreases history.len() - i,
    {
        let t = history[i].clone().inner();
        assert(layers[i as int] == history[i as int]@);
        let ghost before = bare@;
        bare.push(t);
        assert(tensor::views(bare@) =~= tensor::views(before).push(t@));
        assert(all_bare(layers).take(i + 1) =~= all_bare(layers).take(i as int).push(
            array::bare(layers[i as int]),
        ));
        i += 1;
    }
    assert(all_bare(layers).take(i as int) =~= all_bare(layers));
    let query = query.inner();
    assert(layers[0] == history[0]@);
    proof {
        let all = all_bare(layers);
        assert forall|j: int| 0 <= j < all.len() implies (#[trigger] all[j]).shape == all[0].shape
            && array::kept_at(all[j], p) by {
            assert(layers[j].shape == layers[0].shape && array::kept_at(layers[j], p));
        }
        assert(depth::meets(all, query@, p));
    }
    Some(Node { out: depth::depth_attend_tensor_ad(bare.as_slice(), query), parents })
}

} // verus!
