use attnres::depth::{can_align, can_attend};
use attnres::score::can_score;
use attnres::{depth_attend, depth_attend_tensor_ad, source_score, stack_ad, AttnRes, Tensor};
use burn::tensor::{DType, Device, Distribution, Int, TensorData};

type Wide<const D: usize> = burn::tensor::Tensor<D>;

fn dev() -> Device {
    Device::default()
}

fn own<const D: usize>(t: Wide<D>) -> Tensor<D> {
    Tensor::from_bridge(t.into_bridge()).unwrap()
}

fn outer<const D: usize>(t: Tensor<D>) -> Wide<D> {
    Wide::from_bridge(t.into_bridge())
}

fn to_host<const D: usize>(t: Wide<D>) -> Vec<f32> {
    t.into_data()
        .bytes()
        .chunks_exact(4)
        .map(|b| f32::from_le_bytes(b.try_into().unwrap()))
        .collect()
}

fn random_h(b: usize, t: usize, d: usize) -> Tensor<3> {
    own(Wide::<3>::random([b, t, d], Distribution::Default, &dev()))
}

fn given<const D: usize>(values: Vec<f32>, shape: [usize; D]) -> Tensor<D> {
    own(Wide::<D>::from_data(TensorData::new(values, shape), &dev()))
}

fn close(a: &[f32], b: &[f32]) -> bool {
    a.len() == b.len() && a.iter().zip(b).all(|(x, y)| (x - y).abs() < 1e-5)
}

#[test]
fn depth_attend_shape() {
    let h = vec![random_h(1, 4, 32), random_h(1, 4, 32), random_h(1, 4, 32)];
    let q = own(Wide::<1>::random([32], Distribution::Default, &dev()));
    assert_eq!(depth_attend(&h, q).dims(), [1, 4, 32]);
}

#[test]
fn depth_attend_single() {
    let h = random_h(2, 8, 16);
    let q = own(Wide::<1>::random([16], Distribution::Default, &dev()));
    let out = depth_attend(std::slice::from_ref(&h), q);
    let d: Vec<f32> = to_host(outer(out) - outer(h));
    assert!(
        d.iter().all(|x| x.abs() < 1e-4),
        "single item should be identity"
    );
}

#[test]
fn full_attnres_module() {
    let a = AttnRes::new(64, &dev());
    let h = vec![random_h(1, 4, 64), random_h(1, 4, 64), random_h(1, 4, 64)];
    assert_eq!(a.forward(&h).dims(), [1, 4, 64]);
}

#[test]
fn query_starts_at_zero_and_weighs_layers_alike() {
    let a = AttnRes::new(2, &dev());
    assert_eq!(to_host(outer(a.query.clone())), vec![0.0, 0.0]);
    let h = vec![
        given(vec![1.0, 2.0], [1, 1, 2]),
        given(vec![3.0, 6.0], [1, 1, 2]),
    ];
    assert!(can_attend(&h, &a.query));
    assert!(close(&to_host(outer(a.forward(&h))), &[2.0, 4.0]));
}

#[test]
fn score_value() {
    // 2 * 3 / sqrt(3^2 + 4^2 + 1e-5) / sqrt(2)
    let q = given(vec![2.0, 0.0], [2]);
    let src = given(vec![3.0, 4.0, 0.0, 0.0], [1, 2, 2]);
    assert!(can_score(&q, &src));
    let s = source_score(&q, &src);
    assert_eq!(s.dims(), [1, 2, 1]);
    let expected = (6.0 / (25.0f64 + 1e-5).sqrt() / 2.0f64.sqrt()) as f32;
    assert!(close(&to_host(outer(s)), &[expected, 0.0]));
}

#[test]
fn score_in_double_precision() {
    let wide = |v: Vec<f64>, n: usize| Wide::<1>::from_data(TensorData::new(v, [n]), (&dev(), DType::F64));
    let q = own(wide(vec![1.0, 2.0, -1.0], 3));
    let src = own(wide(vec![0.5, 0.25, 2.0], 3).reshape([1, 1, 3]));
    assert_eq!(q.element(), 64);
    let s = outer(source_score(&q, &src)).into_data();
    assert_eq!(s.dtype(), DType::F64);
    let got = f64::from_le_bytes(s.bytes()[0..8].try_into().unwrap());
    let norm = (0.25f64 + 0.0625 + 4.0 + 1e-5).sqrt();
    let expected = (0.5 + 0.5 - 2.0) / norm / 3.0f64.sqrt();
    assert!((got - expected).abs() < 1e-12, "{got} {expected}");
}

#[test]
fn attention_over_two_layers_value() {
    // scores 1/sqrt(1 + 1e-5) and 0, d = 1
    let h = vec![
        given(vec![1.0], [1, 1, 1]),
        given(vec![0.0], [1, 1, 1]),
    ];
    let q = given(vec![1.0], [1]);
    let s = 1.0 / (1.0f64 + 1e-5).sqrt();
    let expected = (s.exp() / (s.exp() + 1.0)) as f32;
    let out = to_host(outer(depth_attend(&h, q)));
    assert!(close(&out, &[expected]), "{out:?} {expected}");
}

#[test]
fn positions_attend_on_their_own() {
    // a query that prefers large first columns; the two positions differ in which
    // layer that is
    let h = vec![
        given(vec![9.0, 0.0, 0.0, 9.0], [1, 2, 2]),
        given(vec![0.0, 9.0, 9.0, 0.0], [1, 2, 2]),
    ];
    let q = given(vec![100.0, -100.0], [2]);
    let out = to_host(outer(depth_attend(&h, q)));
    assert!(close(&out, &[9.0, 0.0, 9.0, 0.0]), "{out:?}");
}

#[test]
fn stack_keeps_layers_in_order() {
    let h = vec![
        given(vec![1.0, 2.0, 3.0, 4.0], [1, 2, 2]),
        given(vec![5.0, 6.0, 7.0, 8.0], [1, 2, 2]),
        given(vec![9.0, 10.0, 11.0, 12.0], [1, 2, 2]),
    ];
    let s = stack_ad(&h);
    assert_eq!(s.dims(), [3, 1, 2, 2]);
    let expected: Vec<f32> = (1..13).map(|x| x as f32).collect();
    assert_eq!(to_host(outer(s)), expected);
}

#[test]
fn tensor_path_of_one_layer_is_the_layer() {
    let h = random_h(2, 3, 5);
    let q = own(Wide::<1>::random([5], Distribution::Default, &dev()));
    let out = depth_attend_tensor_ad(std::slice::from_ref(&h), q);
    assert!(close(&to_host(outer(out)), &to_host(outer(h))));
}

#[test]
fn layers_that_do_not_meet_are_told() {
    let q = given(vec![1.0, 2.0], [2]);
    let a = random_h(1, 3, 2);
    let b = random_h(1, 4, 2);
    let empty = own(Wide::<3>::zeros([0, 3, 2], &dev()));
    let wide = own(Wide::<3>::zeros([1, 3, 2], (&dev(), DType::F64)));
    assert!(can_attend(&[a.clone(), a.clone()], &q));
    assert!(can_align(&q, &[a.clone()]));
    assert!(!can_attend(&[], &q));
    assert!(!can_align(&q, &[]));
    assert!(!can_attend(&[a.clone(), b.clone()], &q));
    assert!(!can_attend(&[a.clone(), wide.clone()], &q));
    assert!(!can_attend(&[empty.clone(), empty.clone()], &q));
    assert!(can_align(&q, &[empty.clone(), empty.clone()]));
    assert!(!can_attend(&[a.clone(), a.clone()], &given(vec![1.0], [1])));
    assert!(can_attend(&[b], &given(vec![1.0], [1])));
    assert!(!can_score(&q, &wide));
    assert!(!can_score(&given(vec![1.0], [1]), &a));
}

#[test]
fn scores_without_positions() {
    let q = given(vec![1.0, 2.0], [2]);
    let empty = own(Wide::<3>::zeros([0, 3, 2], &dev()));
    assert!(can_score(&q, &empty));
    assert_eq!(source_score(&q, &empty).dims(), [0, 3, 1]);
}

#[test]
fn tensors_are_taken_over_by_rank_and_element_type() {
    let t = Wide::<3>::zeros([1, 2, 3], &dev());
    assert!(Tensor::<2>::from_bridge(t.clone().into_bridge()).is_none());
    assert!(Tensor::<4>::from_bridge(t.clone().into_bridge()).is_none());
    let own_t = Tensor::<3>::from_bridge(t.into_bridge()).unwrap();
    assert_eq!(own_t.dims(), [1, 2, 3]);
    assert_eq!(own_t.element(), 32);
    assert_eq!(own_t.tape(), 0);
    let i = burn::tensor::Tensor::<3, Int>::zeros([1, 2, 3], &dev());
    assert!(Tensor::<3>::from_bridge(i.into_bridge()).is_none());
    assert!(own_t.same_shape(&random_h(1, 2, 3)));
    assert!(!own_t.same_shape(&random_h(1, 3, 2)));
    assert!(own_t.shares_device(&given(vec![1.0], [1])));
}

#[test]
fn gradient_recording_is_told_and_carried_along() {
    let ad = dev().autodiff();
    let h = own(Wide::<3>::ones([1, 2, 3], &ad));
    let plain = random_h(1, 2, 3);
    assert_eq!(h.tape(), 1);
    assert_eq!(plain.tape(), 0);
    let q = given(vec![1.0, 2.0, 3.0], [3]);
    assert!(can_attend(&[plain.clone(), h.clone()], &q));
    assert_eq!(depth_attend(&[plain, h], q).tape(), 1);
}
