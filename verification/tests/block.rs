use attnres::block::Sources;
use attnres::online::can_merge;
use attnres::{source_score, BlockAttnRes, BlockAttnState, Tensor};
use burn::tensor::{DType, Device, Distribution, TensorData};

type Wide<const D: usize> = burn::tensor::Tensor<D>;

fn dev() -> Device {
    Device::default()
}

fn own<const D: usize>(t: Wide<D>) -> Tensor<D> {
    Tensor::from_bridge(t.into_bridge()).unwrap()
}

fn outer<const D: usize>(t: Tensor<D>) -> Wide<D> {
    Wide::from_bridge(t.into_bridge())
}

fn to_host<const D: usize>(t: &Tensor<D>) -> Vec<f32> {
    outer(t.clone())
        .into_data()
        .bytes()
        .chunks_exact(4)
        .map(|b| f32::from_le_bytes(b.try_into().unwrap()))
        .collect()
}

fn random_h(b: usize, t: usize, d: usize) -> Tensor<3> {
    own(Wide::<3>::random([b, t, d], Distribution::Default, &dev()))
}

fn given<const D: usize>(values: Vec<f32>, shape: [usize; D]) -> Tensor<D> {
    own(Wide::<D>::from_data(TensorData::new(values, shape), &dev()))
}

fn close(a: &[f32], b: &[f32]) -> bool {
    a.len() == b.len() && a.iter().zip(b).all(|(x, y)| (x - y).abs() < 1e-5)
}

/// Block attention by its definition, for one position.
fn by_definition(q: &[f64], block_size: usize, history: &[Vec<f64>]) -> Vec<f64> {
    let n = history.len();
    let d = q.len();
    let sum = |part: &[Vec<f64>]| -> Vec<f64> {
        (0..d).map(|c| part.iter().map(|h| h[c]).sum()).collect()
    };
    let whole = (n - 1) / block_size;
    let mut sources: Vec<Vec<f64>> = (0..whole)
        .map(|k| sum(&history[k * block_size..(k + 1) * block_size]))
        .collect();
    let open = &history[whole * block_size..];
    if open.len() >= 2 {
        sources.push(sum(open));
    }
    if sources.is_empty() {
        return history[n - 1].clone();
    }
    let weights: Vec<f64> = sources
        .iter()
        .map(|s| {
            let dot: f64 = s.iter().zip(q).map(|(x, y)| x * y).sum();
            let norm: f64 = (s.iter().map(|x| x * x).sum::<f64>() + 1e-5).sqrt();
            (dot / norm / (d as f64).sqrt()).exp()
        })
        .collect();
    let total: f64 = weights.iter().sum();
    (0..d)
        .map(|c| sources.iter().zip(&weights).map(|(s, w)| s[c] * w / total).sum())
        .collect()
}

/// Layer outputs of one position and three columns that are easy to follow.
fn outputs(n: usize) -> Vec<Vec<f64>> {
    (0..n)
        .map(|i| {
            let x = i as f64;
            vec![1.0 + x, 0.5 * x - 1.0, (x * 0.7).sin()]
        })
        .collect()
}

fn layer(v: &[f64]) -> Tensor<3> {
    given(v.iter().map(|x| *x as f32).collect(), [1, 1, v.len()])
}

#[test]
fn block_attnres_module() {
    let a = BlockAttnRes::new(64, 2, &dev());
    let h = vec![random_h(1, 4, 64), random_h(1, 4, 64), random_h(1, 4, 64)];
    assert_eq!(a.forward(&h).dims(), [1, 4, 64]);
}

#[test]
fn block_attnres_small() {
    let a = BlockAttnRes::new(32, 4, &dev());
    let h = vec![random_h(1, 4, 32), random_h(1, 4, 32)]; // fewer than block_size
    assert_eq!(a.forward(&h).dims(), [1, 4, 32]);
}

#[test]
fn streaming_matches_full_recompute() {
    // The streaming scheme (partial block excluded at its first layer, attended
    // from its second layer on) must reproduce the full recompute at every step.
    let a = BlockAttnRes::new(16, 2, &dev());
    let (b, t, d) = (1usize, 3usize, 16usize);
    let mut st = a.init_state(b, t, d, &dev());
    let mut history: Vec<Tensor<3>> = Vec::new();
    for step in 0..6 {
        let h = random_h(b, t, d);
        history.push(h.clone());
        let streamed = outer(a.step(h, &mut st));
        let full = outer(a.forward(&history));
        let diff: f32 = (streamed - full).powf_scalar(2.0).mean().into_scalar();
        assert!(
            diff < 1e-5,
            "step {step}: streaming mse {diff} vs full recompute"
        );
    }
}

#[test]
fn streaming_equals_full_recompute_for_every_block_size() {
    for block_size in 0..5usize {
        let mut a = BlockAttnRes::new(8, block_size, &dev());
        a.query = own(Wide::<1>::random([8], Distribution::Normal(0.0, 1.0), &dev()));
        let mut st = a.init_state(2, 3, 8, &dev());
        let mut history: Vec<Tensor<3>> = Vec::new();
        for _ in 0..9 {
            let h = random_h(2, 3, 8);
            history.push(h.clone());
            assert!(a.can_step(&h, &st));
            assert!(a.can_forward(&history));
            let streamed = to_host(&a.step(h, &mut st));
            assert_eq!(streamed, to_host(&a.forward(&history)));
        }
    }
}

#[test]
fn layers_read_attention_over_block_sums() {
    let q = [0.8, -1.5, 2.0];
    for block_size in 1..5usize {
        let mut a = BlockAttnRes::new(3, block_size, &dev());
        a.query = given(q.iter().map(|x| *x as f32).collect(), [3]);
        let history = outputs(11);
        let mut st = a.init_state(1, 1, 3, &dev());
        for n in 1..12usize {
            let out = to_host(&a.step(layer(&history[n - 1]), &mut st));
            let expected: Vec<f32> = by_definition(&q, block_size, &history[..n])
                .iter()
                .map(|x| *x as f32)
                .collect();
            assert!(
                out.iter().zip(&expected).all(|(x, y)| (x - y).abs() < 1e-3),
                "block size {block_size}, layer {n}: {out:?} {expected:?}"
            );
        }
    }
}

#[test]
fn state_counts_layers_and_blocks() {
    let a = BlockAttnRes::new(3, 3, &dev());
    let history = outputs(8);
    let mut st = a.init_state(1, 1, 3, &dev());
    for n in 1..9usize {
        a.step(layer(&history[n - 1]), &mut st);
        assert_eq!(st.partial_count, n % 3);
        assert_eq!(st.started, n >= 3);
        let open = &history[n - n % 3..n];
        let sum: Vec<f32> = (0..3)
            .map(|c| open.iter().map(|h| h[c]).sum::<f64>() as f32)
            .collect();
        assert!(close(&to_host(&st.partial), &sum));
    }
}

#[test]
fn first_block_becomes_the_state() {
    let mut a = BlockAttnRes::new(2, 2, &dev());
    a.query = given(vec![1.0, 2.0], [2]);
    let mut st = a.init_state(1, 1, 2, &dev());
    a.step(given(vec![1.0, 2.0], [1, 1, 2]), &mut st);
    let out = a.step(given(vec![3.0, -1.0], [1, 1, 2]), &mut st);
    assert_eq!(to_host(&out), vec![4.0, 1.0]);
    assert_eq!(to_host(&st.acc), vec![4.0, 1.0]);
    assert_eq!(to_host(&st.sum_exp), vec![1.0]);
    let s = source_score(&a.query, &given(vec![4.0, 1.0], [1, 1, 2]));
    assert_eq!(to_host(&st.max_score), to_host(&s));
    assert_eq!(to_host(&st.partial), vec![0.0, 0.0]);
    assert_eq!(to_host(&st.attended()), vec![4.0, 1.0]);
}

#[test]
fn merge_value() {
    let mut st = BlockAttnState::new(1, 1, 2, &dev());
    st.started = true;
    st.acc = given(vec![1.0, 2.0], [1, 1, 2]);
    st.sum_exp = given(vec![1.0], [1, 1, 1]);
    st.max_score = given(vec![0.0], [1, 1, 1]);
    let src = given(vec![3.0, 6.0], [1, 1, 2]);
    let s = given(vec![1.0], [1, 1, 1]);
    assert!(can_merge(&st.acc, &st.max_score, &st.sum_exp, &src, &s));
    let out = st.merge_source(&src, &s);
    let e = (-1.0f64).exp();
    let acc = [(e + 3.0) as f32, (2.0 * e + 6.0) as f32];
    assert!(close(&to_host(&st.max_score), &[1.0]));
    assert!(close(&to_host(&st.sum_exp), &[(e + 1.0) as f32]));
    assert!(close(&to_host(&st.acc), &acc));
    let expected: Vec<f32> = acc.iter().map(|x| x / (e as f32 + 1.0)).collect();
    assert!(close(&to_host(&out), &expected));
    // a lower score leaves the reference point where it is
    st.merge_source(&src, &given(vec![-2.0], [1, 1, 1]));
    assert!(close(&to_host(&st.max_score), &[1.0]));
    assert!(close(&to_host(&st.sum_exp), &[(e + 1.0 + (-3.0f64).exp()) as f32]));
}

#[test]
fn sum_of_weights_has_a_least_value() {
    let mut st = BlockAttnState::new(1, 1, 1, &dev());
    st.acc = given(vec![1e-12], [1, 1, 1]);
    assert!(close(&to_host(&st.attended()), &[1.0]));
    st.sum_exp = given(vec![4e-12], [1, 1, 1]);
    assert!(close(&to_host(&st.attended()), &[0.25]));
}

#[test]
fn first_layer_of_a_block_does_not_read_itself() {
    let a = BlockAttnRes::new(3, 2, &dev());
    let history = outputs(2);
    let mut st = a.init_state(1, 1, 3, &dev());
    let first = layer(&history[0]);
    assert_eq!(to_host(&a.step(first.clone(), &mut st)), to_host(&first));
    a.step(layer(&history[1]), &mut st);
    let mut other = st.clone();
    let x = a.step(layer(&[5.0, 6.0, 7.0]), &mut st);
    let y = a.step(layer(&[-1.0, 0.0, 2.0]), &mut other);
    assert_eq!(to_host(&x), to_host(&y));
}

#[test]
fn partial_block_does_not_stay_in_the_attention() {
    let mut a = BlockAttnRes::new(3, 4, &dev());
    a.query = given(vec![1.0, 0.5, -0.5], [3]);
    let history = outputs(7);
    let mut st = a.init_state(1, 1, 3, &dev());
    for h in &history[..4] {
        a.step(layer(h), &mut st);
    }
    let kept = (to_host(&st.acc), to_host(&st.sum_exp), to_host(&st.max_score));
    for h in &history[4..7] {
        a.step(layer(h), &mut st);
        let now = (to_host(&st.acc), to_host(&st.sum_exp), to_host(&st.max_score));
        assert_eq!(now, kept);
    }
    let last = a.step(layer(&[1.0, 1.0, 1.0]), &mut st);
    assert_eq!(st.partial_count, 0);
    assert!((to_host(&st.acc), to_host(&st.sum_exp)) != (kept.0, kept.1));
    assert_eq!(to_host(&last), to_host(&st.attended()));
}

#[test]
fn without_a_block_size_layers_are_summed() {
    let a = BlockAttnRes::new(3, 0, &dev());
    let history = outputs(5);
    let mut st = a.init_state(1, 1, 3, &dev());
    let mut sum = vec![0.0f64; 3];
    for h in &history {
        let out = to_host(&a.step(layer(h), &mut st));
        for c in 0..3 {
            sum[c] += h[c];
        }
        let expected: Vec<f32> = sum.iter().map(|x| *x as f32).collect();
        assert!(close(&out, &expected));
    }
    assert_eq!(st.partial_count, 5);
    assert!(!st.started);
}

#[test]
fn sources_of_a_layer() {
    let a = BlockAttnRes::new(3, 2, &dev());
    let mut st = a.init_state(1, 1, 3, &dev());
    let h = layer(&[1.0, 2.0, 3.0]);
    st.accumulate(&h);
    assert!(matches!(st.sources(), Sources::Nothing));
    st.accumulate(&h);
    assert!(matches!(st.sources(), Sources::Partial));
    let s = source_score(&a.query, &st.partial);
    st.close(&s, &h);
    st.accumulate(&h);
    assert!(matches!(st.sources(), Sources::Completed));
    st.accumulate(&h);
    assert!(matches!(st.sources(), Sources::CompletedAndPartial));
}

#[test]
fn incorporate_scores_the_source() {
    let mut a = BlockAttnRes::new(2, 1, &dev());
    a.query = given(vec![0.3, -2.0], [2]);
    let src = given(vec![1.0, 4.0], [1, 1, 2]);
    let mut one = a.init_state(1, 1, 2, &dev());
    one.incorporate(&a.query, &src);
    let mut two = a.init_state(1, 1, 2, &dev());
    a.step(src.clone(), &mut two);
    assert_eq!(to_host(&one.max_score), to_host(&two.max_score));
    let next = given(vec![-2.0, 0.5], [1, 1, 2]);
    one.incorporate(&a.query, &next);
    a.step(next, &mut two);
    assert_eq!(to_host(&one.acc), to_host(&two.acc));
    assert_eq!(to_host(&one.sum_exp), to_host(&two.sum_exp));
}

#[test]
fn steps_that_are_not_defined_are_told() {
    let a = BlockAttnRes::new(2, 2, &dev());
    let h = random_h(1, 2, 2);
    let mut st = a.init_state(1, 2, 2, &dev());
    assert!(a.can_step(&h, &st));
    // nothing is read yet, so any shape can start
    assert!(a.can_step(&random_h(3, 1, 5), &st));
    a.step(h.clone(), &mut st);
    assert!(!a.can_step(&random_h(1, 3, 2), &st));
    assert!(!a.can_step(&own(Wide::<3>::zeros([1, 2, 2], (&dev(), DType::F64))), &st));
    a.step(h.clone(), &mut st);
    assert!(st.started);
    assert!(!a.can_step(&random_h(1, 3, 2), &st));
    assert!(a.can_step(&h, &st));
    let narrow = BlockAttnRes::new(1, 2, &dev());
    assert!(narrow.can_step(&h, &st));
    narrow.step(h.clone(), &mut st);
    assert!(!narrow.can_step(&h, &st));
    st.partial_count = usize::MAX;
    assert!(!a.can_step(&h, &st));
    assert!(!a.can_forward(&[]));
    assert!(a.can_forward(&[random_h(1, 1, 7)]));
    assert!(!a.can_forward(&[h.clone(), random_h(1, 3, 2)]));
    assert!(!narrow.can_forward(&[h.clone(), h.clone()]));
}

#[test]
fn layers_without_positions() {
    let a = BlockAttnRes::new(2, 2, &dev());
    let h = own(Wide::<3>::zeros([0, 3, 2], &dev()));
    let mut st = a.init_state(0, 3, 2, &dev());
    for _ in 0..5 {
        assert!(a.can_step(&h, &st));
        assert_eq!(a.step(h.clone(), &mut st).dims(), [0, 3, 2]);
    }
    assert_eq!(a.forward(&[h.clone(), h.clone(), h]).dims(), [0, 3, 2]);
}

#[test]
fn single_layer_is_returned_as_it_is() {
    let a = BlockAttnRes::new(2, 1, &dev());
    let h = random_h(2, 2, 2);
    assert_eq!(to_host(&a.forward(&[h.clone()])), to_host(&h));
}

#[test]
fn fresh_state_is_zero() {
    let st = BlockAttnState::new(1, 2, 3, &dev());
    assert_eq!(st.partial_count, 0);
    assert!(!st.started);
    assert_eq!(to_host(&st.partial), vec![0.0; 6]);
    assert_eq!(to_host(&st.acc), vec![0.0; 6]);
    assert_eq!(st.max_score.dims(), [1, 2, 1]);
    assert_eq!(to_host(&st.sum_exp), vec![0.0; 2]);
}

#[test]
fn merges_that_are_not_defined_are_told() {
    let acc = random_h(1, 2, 3);
    let col = random_h(1, 2, 1);
    assert!(can_merge(&acc, &col, &col, &acc, &col));
    assert!(!can_merge(&acc, &col, &col, &random_h(1, 2, 4), &col));
    assert!(!can_merge(&acc, &acc, &col, &acc, &col));
    assert!(!can_merge(&acc, &col, &acc, &acc, &col));
    assert!(!can_merge(&acc, &col, &col, &acc, &acc));
}
