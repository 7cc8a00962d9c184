use attnres::tensor::Precision;
use attnres::{depth_attend, source_score, BlockAttnRes, Tensor};
use burn::tensor::{activation, DType, Device, FloatDType, TensorData};

type Wide<const D: usize> = burn::tensor::Tensor<D>;

fn own<const D: usize>(t: Wide<D>) -> Tensor<D> {
    Tensor::from_bridge(t.into_bridge()).unwrap()
}

fn outer<const D: usize>(t: Tensor<D>) -> Wide<D> {
    Wide::from_bridge(t.into_bridge())
}

fn bytes<const D: usize>(t: Wide<D>) -> Vec<u8> {
    t.into_data().bytes().to_vec()
}

/// Devices without and with gradient recording.
fn devices() -> [Device; 2] {
    [Device::default(), Device::default().autodiff()]
}

const HALVES: [FloatDType; 2] = [FloatDType::F16, FloatDType::BF16];

/// Numbers of about the size `unit`, no two of them alike.
fn numbers(n: usize, seed: usize, unit: f32) -> Vec<f32> {
    (0..n)
        .map(|i| (((i + 3) * (seed + 7) * 131 % 211) as f32 / 97.0 - 1.0) * unit)
        .collect()
}

fn made<const D: usize>(
    shape: [usize; D],
    seed: usize,
    unit: f32,
    kind: FloatDType,
    dev: &Device,
) -> Wide<D> {
    let v = numbers(shape.iter().product(), seed, unit);
    Wide::<D>::from_data(TensorData::new(v, shape), dev).cast(kind)
}

/// The score in raw operations of burn.
fn ref_score(query: &Wide<1>, src: &Wide<3>) -> Wide<3> {
    let [_, _, d] = src.dims();
    let norm = src.clone() / src.clone().powf_scalar(2.0).sum_dim(2).add_scalar(1e-5).sqrt();
    let q = query.clone().reshape([1, 1, d]);
    (q * norm).sum_dim(2).mul_scalar((d as f64).powf(-0.5))
}

/// Depth attention in raw operations of burn.
fn ref_depth(history: &[Wide<3>], query: &Wide<1>) -> Wide<3> {
    let n = history.len();
    let [b, t, d] = history[0].dims();
    let layers: Vec<Wide<4>> = history
        .iter()
        .map(|h| h.clone().unsqueeze_dim::<4>(0))
        .collect();
    let stack = Wide::cat(layers, 0);
    let square = stack.clone().powf_scalar(2.0).sum_dim(3).add_scalar(1e-5);
    let norm = stack.clone() / square.sqrt().reshape([n, b, t, 1usize]);
    let q = query.clone().reshape([1, 1, 1, d]);
    let scores = (q * norm).sum_dim(3).mul_scalar((d as f64).powf(-0.5));
    let weights = activation::softmax(scores, 0);
    stack
        .mul(weights.reshape([n, b, t, 1usize]))
        .sum_dim(0)
        .reshape([b, t, d])
}

#[test]
fn half_precision_scores_are_those_of_burn() {
    for dev in devices() {
        for kind in HALVES {
            for unit in [1.0f32, 1e-2, 2e-3] {
                let q = made([7], 1, 1.0, kind, &dev);
                let src = made([2, 3, 7], 2, unit, kind, &dev);
                let got = outer(source_score(&own(q.clone()), &own(src.clone())));
                assert_eq!(bytes(got), bytes(ref_score(&q, &src)), "{kind:?} {unit}");
            }
        }
    }
}

#[test]
fn half_precision_depth_attention_is_that_of_burn() {
    for dev in devices() {
        for kind in HALVES {
            for n in [2usize, 5] {
                let q = made([6], 1, 2.0, kind, &dev);
                let history: Vec<Wide<3>> =
                    (0..n).map(|k| made([2, 2, 6], k + 2, 1.0, kind, &dev)).collect();
                let layers: Vec<Tensor<3>> = history.iter().map(|h| own(h.clone())).collect();
                let got = outer(depth_attend(&layers, own(q.clone())));
                assert_eq!(bytes(got), bytes(ref_depth(&history, &q)), "{kind:?} {n}");
            }
        }
    }
}

#[test]
fn half_precision_least_divisor_is_that_of_burn() {
    for dev in devices() {
        for kind in HALVES {
            let attn = BlockAttnRes::new(3, 2, &dev);
            let mut st = attn.init_state(1, 2, 3, &dev);
            let acc = made([1, 2, 3], 5, 1.0, kind, &dev);
            let sum = Wide::<3>::from_data(TensorData::new(vec![0.0f32, 0.7], [1, 2, 1]), &dev)
                .cast(kind);
            st.acc = own(acc.clone());
            st.sum_exp = own(sum.clone());
            let expected = acc / sum.clamp_min(1e-12);
            assert_eq!(bytes(outer(st.attended())), bytes(expected), "{kind:?}");
        }
    }
}

#[test]
fn half_precision_merge_is_that_of_burn() {
    for dev in devices() {
        for kind in HALVES {
            let attn = BlockAttnRes::new(3, 2, &dev);
            let mut st = attn.init_state(1, 2, 3, &dev);
            let (acc, src) = (made([1, 2, 3], 5, 1.0, kind, &dev), made([1, 2, 3], 6, 1.0, kind, &dev));
            let (m, s) = (made([1, 2, 1], 7, 2.0, kind, &dev), made([1, 2, 1], 8, 2.0, kind, &dev));
            let sum = made([1, 2, 1], 9, 1.0, kind, &dev).abs();
            st.acc = own(acc.clone());
            st.max_score = own(m.clone());
            st.sum_exp = own(sum.clone());
            st.started = true;
            let out = st.merge_source(&own(src.clone()), &own(s.clone()));
            let top = (m.clone() + s.clone() + (m.clone() - s.clone()).abs()).div_scalar(2.0);
            let rescale = (m - top.clone()).exp();
            let acc = acc.mul(rescale.clone()) + src.mul((s.clone() - top.clone()).exp());
            let sum = sum.mul(rescale) + (s - top.clone()).exp();
            assert_eq!(bytes(outer(st.max_score)), bytes(top), "{kind:?}");
            assert_eq!(bytes(outer(st.acc)), bytes(acc.clone()), "{kind:?}");
            assert_eq!(bytes(outer(st.sum_exp)), bytes(sum.clone()), "{kind:?}");
            assert_eq!(bytes(outer(out)), bytes(acc / sum.clamp_min(1e-12)), "{kind:?}");
        }
    }
}

#[test]
fn precision_tells_the_element_type() {
    let dev = Device::default();
    let t = |k: DType| own(Wide::<1>::zeros([2], (&dev, k)));
    assert!(matches!(t(DType::F64).precision(), Some(Precision::Double)));
    assert!(matches!(t(DType::F32).precision(), Some(Precision::Single)));
    assert!(matches!(t(DType::F16).precision(), Some(Precision::Half)));
    assert!(matches!(t(DType::BF16).precision(), Some(Precision::Brain)));
    assert_eq!(t(DType::F16).element(), 16);
    assert_eq!(t(DType::BF16).element(), 17);
}

#[test]
fn views_score_as_their_elements_do() {
    let dev = Device::default();
    let q = own(made([5], 1, 1.0, FloatDType::F32, &dev));
    let swapped = made([2, 5, 3], 2, 1.0, FloatDType::F32, &dev).swap_dims(1, 2);
    let turned = made([5, 2, 3], 3, 1.0, FloatDType::F32, &dev).permute([2, 1, 0]);
    let spread = made([1, 1, 5], 4, 1.0, FloatDType::F32, &dev).expand([2, 3, 5]);
    let zeros = Wide::<3>::from_data(TensorData::new(vec![-0.0f32; 30], [2, 5, 3]), &dev)
        .swap_dims(1, 2);
    for view in [swapped, turned, spread, zeros] {
        let plain = Wide::<3>::from_data(view.clone().into_data(), &dev);
        let a = outer(source_score(&q, &own(view)));
        let b = outer(source_score(&q, &own(plain)));
        assert_eq!(bytes(a), bytes(b));
    }
}
