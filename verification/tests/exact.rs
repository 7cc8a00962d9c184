use attnres::{
    depth_attend, depth_attend_backward_tensor, depth_attend_cuda, merge_cuda, source_score,
    source_score_cuda, BlockAttnRes, Tensor,
};
use burn::tensor::{DType, Device, FloatDType, TensorData};

type Wide<const D: usize> = burn::tensor::Tensor<D>;

/// The device, set to make tensors in double precision.
fn device() -> Device {
    let mut dev = Device::default();
    let _ = dev.configure(FloatDType::F64);
    dev
}

/// A double precision tensor.
fn given<const D: usize>(v: &[f64], shape: [usize; D]) -> Tensor<D> {
    let dev = device();
    let t = Wide::<D>::from_data(TensorData::new(v.to_vec(), shape), (&dev, DType::F64));
    Tensor::from_bridge(t.into_bridge()).unwrap()
}

fn host<const D: usize>(t: &Tensor<D>) -> Vec<f64> {
    Wide::<D>::from_bridge(t.clone().into_bridge())
        .into_data()
        .bytes()
        .chunks_exact(8)
        .map(|b| f64::from_le_bytes(b.try_into().unwrap()))
        .collect()
}

fn close(a: &[f64], b: &[f64], tolerance: f64) -> bool {
    a.len() == b.len() && a.iter().zip(b).all(|(x, y)| (x - y).abs() <= tolerance)
}

fn numbers(n: usize, seed: usize) -> Vec<f64> {
    (0..n)
        .map(|i| ((i + 5) * (seed + 11) * 277 % 509) as f64 / 211.0 - 1.2)
        .collect()
}

const SHAPE: [usize; 3] = [2, 2, 5];

fn layer(seed: usize) -> Vec<f64> {
    numbers(20, seed)
}

fn layers(seeds: &[usize]) -> Vec<Tensor<3>> {
    seeds.iter().map(|s| given(&layer(*s), SHAPE)).collect()
}

fn query() -> Tensor<1> {
    given(&numbers(5, 91), [5])
}

fn attn(block_size: usize) -> BlockAttnRes {
    let mut a = BlockAttnRes::new(5, block_size, &device());
    a.query = query();
    a
}

/// What the last of the layers reads.
fn read(a: &BlockAttnRes, history: &[Tensor<3>]) -> Vec<f64> {
    host(&a.forward(history))
}

#[test]
fn layer_order_does_not_matter() {
    let out = host(&depth_attend(&layers(&[1, 2, 3, 4]), query()));
    for order in [[4, 3, 2, 1], [2, 1, 4, 3], [3, 4, 1, 2]] {
        let other = host(&depth_attend(&layers(&order), query()));
        assert!(close(&out, &other, 1e-13));
    }
}

#[test]
fn blocks_of_one_read_depth_attention_over_the_layers_before() {
    let history = layers(&[1, 2, 3, 4, 5, 6]);
    for n in 2..=6 {
        let out = read(&attn(1), &history[..n]);
        let expected = host(&depth_attend(&history[..n - 1], query()));
        assert!(close(&out, &expected, 1e-13));
    }
}

#[test]
fn order_within_complete_blocks_does_not_matter() {
    let out = read(&attn(3), &layers(&[1, 2, 3, 4, 5, 6, 7]));
    let other = read(&attn(3), &layers(&[3, 1, 2, 6, 5, 4, 7]));
    assert!(close(&out, &other, 1e-13));
}

#[test]
fn chunks_attend_as_all_layers_at_once() {
    for n in [1usize, 3, 8, 9, 16, 21] {
        let seeds: Vec<usize> = (1..=n).collect();
        let history = layers(&seeds);
        let out = host(&depth_attend_cuda(&history, &query(), true).unwrap());
        assert!(close(&out, &host(&depth_attend(&history, query())), 1e-13));
    }
}

#[test]
fn two_sources_mix_by_the_softmax_of_their_scores() {
    let mut st = attn(2).init_state(1, 1, 2, &device());
    let (s, t) = (0.75f64, -0.5f64);
    st.acc = given(&[3.0, -1.0], [1, 1, 2]);
    st.max_score = given(&[s], [1, 1, 1]);
    st.sum_exp = given(&[1.0], [1, 1, 1]);
    st.started = true;
    let src = given(&[0.5, 4.0], [1, 1, 2]);
    let out = host(&st.merge_source(&src, &given(&[t], [1, 1, 1])));
    let w = s.exp() / (s.exp() + t.exp());
    assert!(close(&out, &[3.0 * w + 0.5 * (1.0 - w), -w + 4.0 * (1.0 - w)], 1e-14));
}

#[test]
fn merges_in_either_order_agree() {
    let a = attn(2);
    let sources = layers(&[1, 2, 3]);
    let score = |k: usize| source_score(&a.query, &sources[k]);
    let mut results = Vec::new();
    for (i, j) in [(1, 2), (2, 1)] {
        let mut st = a.init_state(2, 2, 5, &device());
        st.incorporate(&a.query, &sources[0]);
        st.merge_source(&sources[i], &score(i));
        let out = st.merge_source(&sources[j], &score(j));
        results.push([host(&out), host(&st.acc), host(&st.sum_exp), host(&st.max_score)]);
    }
    for (x, y) in results[0].iter().zip(&results[1]) {
        assert!(close(x, y, 1e-13));
    }
}

#[test]
fn repeated_incorporation_is_depth_attention() {
    let a = attn(2);
    let sources = layers(&[4, 7, 2, 9, 1]);
    let mut st = a.init_state(2, 2, 5, &device());
    for (n, src) in sources.iter().enumerate() {
        st.incorporate(&a.query, src);
        let expected = host(&depth_attend(&sources[..n + 1], query()));
        assert!(close(&host(&st.attended()), &expected, 1e-13));
        // the sum of the exponentials lies between one and the number of sources
        let bound = (n + 1) as f64 + 1e-12;
        assert!(host(&st.sum_exp).iter().all(|x| 1.0 - 1e-12 <= *x && *x <= bound));
    }
    // the reference point is the largest score
    let scores: Vec<Vec<f64>> = sources.iter().map(|s| host(&source_score(&a.query, s))).collect();
    let largest: Vec<f64> = (0..4)
        .map(|m| scores.iter().map(|s| s[m]).fold(f64::NEG_INFINITY, f64::max))
        .collect();
    assert!(close(&host(&st.max_score), &largest, 1e-13));
}

#[test]
fn fused_running_maximum_is_the_largest_score() {
    let q = query();
    let sources = layers(&[4, 7, 2, 9, 1]);
    let scores: Vec<Tensor<3>> =
        sources.iter().map(|s| source_score_cuda(&q, s, true).unwrap()).collect();
    let (mut acc, mut max, mut sum) =
        (sources[0].clone(), scores[0].clone(), given(&[1.0; 4], [2, 2, 1]));
    for k in 1..5 {
        let out = merge_cuda(&mut acc, &mut max, &mut sum, &sources[k], &scores[k], true).unwrap();
        let expected = host(&depth_attend(&sources[..k + 1], q.clone()));
        assert!(close(&host(&out), &expected, 1e-13));
    }
    let all: Vec<Vec<f64>> = scores.iter().map(host).collect();
    let largest: Vec<f64> = (0..4)
        .map(|m| all.iter().map(|s| s[m]).fold(f64::NEG_INFINITY, f64::max))
        .collect();
    assert_eq!(host(&max), largest);
}

#[test]
fn fused_scores_are_scores() {
    for src in layers(&[3, 8, 5]) {
        let fused = source_score_cuda(&query(), &src, true).unwrap();
        assert!(close(&host(&fused), &host(&source_score(&query(), &src)), 1e-14));
    }
}

#[test]
fn gradient_is_linear() {
    let history = layers(&[1, 2, 3]);
    let (g, h) = (numbers(20, 41), numbers(20, 42));
    let (s, t) = (1.5f64, -0.25f64);
    let both: Vec<f64> = g.iter().zip(&h).map(|(x, y)| x * s + y * t).collect();
    let grad = |v: &[f64]| {
        let (layers, query) = depth_attend_backward_tensor(&history, &query(), &given(v, SHAPE));
        let mut all: Vec<Vec<f64>> = layers.iter().map(host).collect();
        all.push(host(&query));
        all
    };
    let (a, b, c) = (grad(&g), grad(&h), grad(&both));
    for k in 0..a.len() {
        let expected: Vec<f64> = a[k].iter().zip(&b[k]).map(|(x, y)| x * s + y * t).collect();
        assert!(close(&c[k], &expected, 1e-13));
    }
}

#[test]
fn gradient_is_the_derivative_along_every_direction() {
    let seeds = [1usize, 2, 3];
    let g = numbers(20, 41);
    let q = numbers(5, 91);
    let history = layers(&seeds);
    let (layers_grad, query_grad) =
        depth_attend_backward_tensor(&history, &query(), &given(&g, SHAPE));
    let dot = |x: &[f64], y: &[f64]| x.iter().zip(y).map(|(a, b)| a * b).sum::<f64>();
    for direction in 0..4 {
        let dirs: Vec<Vec<f64>> = (0..3).map(|k| numbers(20, 60 + 4 * k + direction)).collect();
        let u = numbers(5, 80 + direction);
        let expected: f64 = layers_grad
            .iter()
            .zip(&dirs)
            .map(|(d, v)| dot(&host(d), v))
            .sum::<f64>()
            + dot(&host(&query_grad), &u);
        let value = |step: f64| {
            let moved: Vec<Tensor<3>> = seeds
                .iter()
                .zip(&dirs)
                .map(|(s, v)| {
                    let x: Vec<f64> =
                        layer(*s).iter().zip(v).map(|(a, b)| a + b * step).collect();
                    given(&x, SHAPE)
                })
                .collect();
            let qm: Vec<f64> = q.iter().zip(&u).map(|(a, b)| a + b * step).collect();
            dot(&g, &host(&depth_attend(&moved, given(&qm, [5]))))
        };
        let step = 1e-5;
        let slope = (value(step) - value(-step)) / (2.0 * step);
        assert!((slope - expected).abs() < 1e-7, "{slope} {expected}");
    }
}

#[test]
fn results_stay_in_the_range_of_the_layers() {
    let history = layers(&[1, 2, 3, 4, 5, 6, 7]);
    let out = host(&depth_attend(&history, query()));
    let all: Vec<Vec<f64>> = history.iter().map(host).collect();
    for (i, v) in out.iter().enumerate() {
        let column = all.iter().map(|h| h[i]);
        let lo = column.clone().fold(f64::INFINITY, f64::min);
        let hi = column.fold(f64::NEG_INFINITY, f64::max);
        assert!(lo - 1e-13 <= *v && *v <= hi + 1e-13);
    }
}

#[test]
fn scores_are_bounded_by_the_query() {
    let square: f64 = numbers(5, 91).iter().map(|x| x * x).sum();
    for factor in [1e-3f64, 1.0, 1e6] {
        for seed in 1..6 {
            let v: Vec<f64> = layer(seed).iter().map(|x| x * factor).collect();
            for s in host(&source_score(&query(), &given(&v, SHAPE))) {
                assert!(s * s <= square / 5.0 + 1e-13);
            }
        }
    }
}

#[test]
fn zero_query_gives_the_mean_and_distributes_the_gradient() {
    let history = layers(&[1, 2, 3, 4]);
    let zero = given(&[0.0; 5], [5]);
    let all: Vec<Vec<f64>> = history.iter().map(host).collect();
    let mean: Vec<f64> = (0..20).map(|i| all.iter().map(|h| h[i]).sum::<f64>() / 4.0).collect();
    assert!(close(&host(&depth_attend(&history, zero.clone())), &mean, 1e-14));
    let g = numbers(20, 41);
    let quarter: Vec<f64> = g.iter().map(|x| x / 4.0).collect();
    let (dhs, _) = depth_attend_backward_tensor(&history, &zero, &given(&g, SHAPE));
    for dh in dhs {
        assert!(close(&host(&dh), &quarter, 1e-14));
    }
}

#[test]
fn new_tensors_are_in_the_element_type_of_the_device() {
    let dev = device();
    let narrow = |v: &[f32], shape: [usize; 3]| {
        let t = Wide::<3>::from_data(TensorData::new(v.to_vec(), shape), (&dev, DType::F32));
        Tensor::<3>::from_bridge(t.into_bridge()).unwrap()
    };
    let mut a = BlockAttnRes::new(2, 1, &dev);
    let q = Wide::<1>::from_data(TensorData::new(vec![1.0f32, 0.0], [2]), (&dev, DType::F32));
    a.query = Tensor::from_bridge(q.into_bridge()).unwrap();
    let mut st = a.init_state(1, 1, 2, &dev);
    assert_eq!(st.partial.element(), 64);
    let h = narrow(&[1.0, 2.0], [1, 1, 2]);
    assert!(a.can_step(&h, &st));
    let out = a.step(h.clone(), &mut st);
    assert_eq!(out.element(), 32);
    assert_eq!(st.acc.element(), 32);
    assert_eq!(st.max_score.element(), 32);
    assert_eq!(st.sum_exp.element(), 64);
    assert_eq!(host(&st.sum_exp), vec![1.0]);
    assert_eq!(st.partial.element(), 64);
    // attention cannot go on in two element types
    assert!(!a.can_step(&h, &st));
    // the layers alone decide what a full recompute gives
    assert_eq!(a.forward(&[h.clone(), h.clone(), h]).element(), 32);
}
