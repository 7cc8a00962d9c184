use attnres::backward::can_differentiate;
use attnres::graph::{is_recorded, parent_slots};
use attnres::{depth_attend, depth_attend_autodiff, depth_attend_backward_tensor, Tensor};
use burn::tensor::{Device, Distribution};

type Wide<const D: usize> = burn::tensor::Tensor<D>;

fn own<const D: usize>(t: Wide<D>) -> Tensor<D> {
    Tensor::from_bridge(t.into_bridge()).unwrap()
}

fn outer<const D: usize>(t: Tensor<D>) -> Wide<D> {
    Wide::from_bridge(t.into_bridge())
}

fn to_host<const D: usize>(t: Wide<D>) -> Vec<f32> {
    t.into_data()
        .bytes()
        .chunks_exact(4)
        .map(|b| f32::from_le_bytes(b.try_into().unwrap()))
        .collect()
}

fn maxdiff(a: &[f32], b: &[f32]) -> f32 {
    a.iter()
        .zip(b)
        .map(|(x, y)| (x - y).abs())
        .fold(0.0_f32, f32::max)
}

#[test]
fn depth_attend_fused_backward_matches_tensor() {
    let dev = Device::default();
    let ad = Device::default().autodiff();
    let (l, b, t, d) = (4usize, 2usize, 3usize, 16usize);
    let hist: Vec<Wide<3>> = (0..l)
        .map(|_| Wide::<3>::random([b, t, d], Distribution::Normal(0.0, 1.0), &dev))
        .collect();
    let q = Wide::<1>::random([d], Distribution::Normal(0.0, 1.0), &dev);

    // the gradient of the loss sum(out^2) by the library
    let hf: Vec<Tensor<3>> = hist.iter().map(|h| own(h.clone())).collect();
    let qf = own(q.clone());
    let ha: Vec<Tensor<3>> = hist
        .iter()
        .map(|h| own(Wide::<3>::from_data(h.clone().into_data(), &ad).require_grad()))
        .collect();
    let qa = own(Wide::<1>::from_data(q.clone().into_data(), &ad).require_grad());
    let node = depth_attend_autodiff::<64>(&ha, qa).unwrap();
    assert_eq!(node.parents.len(), 64);
    let d_out = own(outer(node.out).mul_scalar(2.0));
    assert!(can_differentiate(&hf, &qf, &d_out));
    let (dhf, dqf) = depth_attend_backward_tensor(&hf, &qf, &d_out);

    // the same by the graph of the single operations
    let ht: Vec<Wide<3>> = hist
        .iter()
        .map(|h| Wide::<3>::from_data(h.clone().into_data(), &ad).require_grad())
        .collect();
    let qt = Wide::<1>::from_data(q.into_data(), &ad).require_grad();
    let own_ht: Vec<Tensor<3>> = ht.iter().map(|h| own(h.clone())).collect();
    let outt = outer(depth_attend(&own_ht, own(qt.clone())));
    let loss_t = outt.powf_scalar(2.0).sum();
    let grads_t = loss_t.backward();
    let dht: Vec<Wide<3>> = ht.iter().map(|h| h.grad(&grads_t).unwrap()).collect();
    let dqt = qt.grad(&grads_t).unwrap();

    assert_eq!(dhf.len(), l);
    for i in 0..l {
        let md = maxdiff(&to_host(outer(dhf[i].clone())), &to_host(dht[i].clone()));
        assert!(md < 1e-2, "dh[{i}] maxdiff {md}");
        assert!(md < 1e-4, "dh[{i}] maxdiff {md}");
    }
    let md = maxdiff(&to_host(outer(dqf.clone())), &to_host(dqt.clone()));
    assert!(md < 1e-2, "dq maxdiff {md}");
    assert!(md < 1e-4, "dq maxdiff {md}");
    assert!(maxdiff(&to_host(dqt), &vec![0.0; d]) > 1e-3);
}

#[test]
fn gradient_value() {
    // one column, a zero query: the weights are 1/2 each, d_w = h,
    // d_s = (h - (h1 + h2) / 2) / 2, d_h = d_out / 2, d_q = sum d_s * h / sqrt(h^2 + 1e-5)
    let dev = Device::default();
    let h: Vec<Tensor<3>> = vec![
        own(Wide::<3>::from_floats([[[3.0]]], &dev)),
        own(Wide::<3>::from_floats([[[-1.0]]], &dev)),
    ];
    let q = own(Wide::<1>::from_floats([0.0], &dev));
    let d_out = own(Wide::<3>::from_floats([[[1.0]]], &dev));
    let (dhs, dq) = depth_attend_backward_tensor(&h, &q, &d_out);
    assert_eq!(dhs.len(), 2);
    for dh in dhs {
        assert_eq!(dh.dims(), [1, 1, 1]);
        assert!((to_host(outer(dh))[0] - 0.5).abs() < 1e-5);
    }
    assert!((to_host(outer(dq))[0] - 2.0).abs() < 1e-4);
}

#[test]
fn gradients_that_are_not_defined_are_told() {
    let dev = Device::default();
    let h = own(Wide::<3>::ones([1, 2, 3], &dev));
    let q = own(Wide::<1>::ones([3], &dev));
    let hist = [h.clone(), h.clone()];
    assert!(can_differentiate(&hist, &q, &h));
    assert!(!can_differentiate(&hist, &q, &own(Wide::<3>::ones([1, 2, 2], &dev))));
    assert!(!can_differentiate(&hist, &own(Wide::<1>::ones([2], &dev)), &h));
    assert!(!can_differentiate(&[], &q, &h));
    let empty = own(Wide::<3>::ones([0, 2, 3], &dev));
    assert!(!can_differentiate(&[empty.clone()], &q, &empty));
}

#[test]
fn parents_of_a_node() {
    assert_eq!(parent_slots(3, 6), Some(vec![0, 1, 2, 3, 3, 3]));
    assert_eq!(parent_slots(0, 2), Some(vec![0, 0]));
    assert_eq!(parent_slots(3, 4), Some(vec![0, 1, 2, 3]));
    assert_eq!(parent_slots(3, 3), None);
    assert_eq!(parent_slots(usize::MAX, 3), None);
}

#[test]
fn too_many_layers_for_a_node() {
    let dev = Device::default().autodiff();
    let h = own(Wide::<3>::ones([1, 1, 2], &dev));
    let q = own(Wide::<1>::ones([2], &dev));
    let hist = [h.clone(), h.clone(), h.clone()];
    assert!(depth_attend_autodiff::<3>(&hist, q.clone()).is_none());
    let node = depth_attend_autodiff::<5>(&hist, q).unwrap();
    assert_eq!(node.parents, vec![0, 1, 2, 3, 3]);
    assert_eq!(node.out.tape(), 0);
    assert!(maxdiff(&to_host(outer(node.out)), &[1.0, 1.0]) < 1e-5);
}

#[test]
fn no_node_for_tensors_without_recording() {
    let (dev, ad) = (Device::default(), Device::default().autodiff());
    let kept = Device::default().autodiff().gradient_checkpointing();
    let h = |d: &Device| own(Wide::<3>::ones([1, 1, 2], d));
    let q = |d: &Device| own(Wide::<1>::ones([2], d));
    assert!(depth_attend_autodiff::<5>(&[h(&ad), h(&ad)], q(&ad)).is_some());
    assert!(depth_attend_autodiff::<5>(&[h(&dev), h(&dev)], q(&dev)).is_none());
    assert!(depth_attend_autodiff::<5>(&[h(&ad), h(&dev)], q(&ad)).is_none());
    assert!(depth_attend_autodiff::<5>(&[h(&ad), h(&ad)], q(&dev)).is_none());
    assert!(depth_attend_autodiff::<5>(&[h(&kept), h(&kept)], q(&kept)).is_none());
    assert!(is_recorded(&[h(&ad)], &q(&ad)));
    assert!(!is_recorded(&[h(&kept)], &q(&ad)));
}
