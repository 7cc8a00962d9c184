use attnres::{
    depth_attend, depth_attend_cuda, merge_cuda, source_score_cuda, BlockAttnRes, Tensor,
};
use burn::tensor::{activation, Device, Distribution};

type Wide<const D: usize> = burn::tensor::Tensor<D>;

fn own<const D: usize>(t: Wide<D>) -> Tensor<D> {
    Tensor::from_bridge(t.into_bridge()).unwrap()
}

fn outer<const D: usize>(t: Tensor<D>) -> Wide<D> {
    Wide::from_bridge(t.into_bridge())
}

fn to_host<const D: usize>(t: Wide<D>) -> Vec<f32> {
    t.into_data()
        .bytes()
        .chunks_exact(4)
        .map(|b| f32::from_le_bytes(b.try_into().unwrap()))
        .collect()
}

fn stack(history: &[Wide<3>]) -> Wide<4> {
    let stacked: Vec<Wide<4>> = history
        .iter()
        .map(|h| h.clone().unsqueeze_dim::<4>(0))
        .collect();
    Wide::cat(stacked, 0)
}

fn maxdiff(a: &[f32], b: &[f32]) -> f32 {
    a.iter()
        .zip(b)
        .map(|(x, y)| (x - y).abs())
        .fold(0.0_f32, f32::max)
}

/// Depth attention in raw operations of burn.
fn ref_depth_attend(history: &[Wide<3>], query: &Wide<1>) -> Wide<3> {
    let n = history.len();
    let [b, t, d] = history[0].dims();
    let scale = (d as f64).powf(-0.5);
    let h_stack = stack(history);
    let h_norm_sq = h_stack.clone().powf_scalar(2.0).sum_dim(3).add_scalar(1e-5);
    let h_norm = h_stack.clone() / h_norm_sq.sqrt().reshape([n, b, t, 1usize]);
    let q = query.clone().reshape([1, 1, 1, d]);
    let scores = (q * h_norm).sum_dim(3).mul_scalar(scale);
    let weights = activation::softmax(scores, 0);
    h_stack
        .mul(weights.reshape([n, b, t, 1usize]))
        .sum_dim(0)
        .reshape([b, t, d])
}

#[test]
fn depth_attend_fused_matches_tensor() {
    let cdev = Device::default();
    for (l, b, t, d) in [
        (12usize, 2usize, 8usize, 512usize),
        (3, 1, 4, 32),
        (40, 2, 4, 2048),
    ] {
        let hist: Vec<Wide<3>> = (0..l)
            .map(|_| Wide::<3>::random([b, t, d], Distribution::Normal(0.0, 1.0), &cdev))
            .collect();
        let q = Wide::<1>::random([d], Distribution::Normal(0.0, 1.0), &cdev);
        let expected = to_host(ref_depth_attend(&hist, &q));
        let hist: Vec<Tensor<3>> = hist.into_iter().map(own).collect();
        let q = own(q);
        let fused = depth_attend_cuda(&hist, &q, true);
        assert!(fused.is_some(), "the fused path should engage");
        let md = maxdiff(&to_host(outer(fused.unwrap())), &expected);
        assert!(md < 1e-4, "[{l},{b},{t},{d}] fused maxdiff {md}");
        let got = to_host(outer(depth_attend(&hist, q)));
        let md = maxdiff(&got, &expected);
        assert!(md < 1e-4, "[{l},{b},{t},{d}] maxdiff {md}");
    }
}

#[test]
fn source_score_fused_matches_tensor() {
    let cdev = Device::default();
    let (b, t, d) = (2usize, 8usize, 256usize);
    let src = Wide::<3>::random([b, t, d], Distribution::Normal(0.0, 1.0), &cdev);
    let q = Wide::<1>::random([d], Distribution::Normal(0.0, 1.0), &cdev);
    let scale = (d as f64).powf(-0.5);
    let norm = src.clone()
        / src
            .clone()
            .powf_scalar(2.0)
            .sum_dim(2)
            .add_scalar(1e-5)
            .sqrt();
    let expected = to_host(
        (q.clone().reshape([1, 1, d]) * norm)
            .sum_dim(2)
            .mul_scalar(scale),
    );
    let got = source_score_cuda(&own(q), &own(src), true).expect("kernel");
    let md = maxdiff(&to_host(outer(got)), &expected);
    assert!(md < 1e-4, "source_score maxdiff {md}");
}

#[test]
fn merge_fused_matches_tensor() {
    let cdev = Device::default();
    let (b, t, d) = (2usize, 8usize, 128usize);
    let acc = Wide::<3>::random([b, t, d], Distribution::Normal(0.0, 1.0), &cdev);
    let max_s = Wide::<3>::random([b, t, 1], Distribution::Normal(0.0, 1.0), &cdev);
    let sum_e = Wide::<3>::random([b, t, 1], Distribution::Uniform(0.5, 1.5), &cdev);
    let src = Wide::<3>::random([b, t, d], Distribution::Normal(0.0, 1.0), &cdev);
    let s = Wide::<3>::random([b, t, 1], Distribution::Normal(0.0, 1.0), &cdev);
    // raw operations: m' = max(m,s); rescale; out = acc'/clamp(sum',1e-12)
    let m_new = (max_s.clone() + s.clone() + (max_s.clone() - s.clone()).abs()).div_scalar(2.0);
    let rescale = (max_s.clone() - m_new.clone()).exp();
    let w = (s.clone() - m_new.clone()).exp();
    let acc_r = acc.clone() * rescale.clone() + src.clone() * w.clone();
    let sum_r = sum_e.clone() * rescale + w;
    let expected = to_host(acc_r.clone() / sum_r.clone().clamp_min(1e-12));

    let mut acc_c = own(acc);
    let mut mx = own(max_s);
    let mut se = own(sum_e);
    let got = merge_cuda(&mut acc_c, &mut mx, &mut se, &own(src), &own(s), true).expect("kernel");
    let md = maxdiff(&to_host(outer(got)), &expected);
    assert!(md < 1e-4, "merge out maxdiff {md}");
    let md = maxdiff(&to_host(outer(acc_c)), &to_host(acc_r));
    assert!(md < 1e-4, "acc state mismatch {md}");
    let md = maxdiff(&to_host(outer(se)), &to_host(sum_r));
    assert!(md < 1e-4, "sum state mismatch {md}");
    let md = maxdiff(&to_host(outer(mx)), &to_host(m_new));
    assert!(md < 1e-4, "max state mismatch {md}");
}

#[test]
fn streaming_fused_matches_tensor_path() {
    // the tensor path against the fused score and merge: the same module semantics
    // must agree at every step
    let dev = Device::default();
    let (b, t, d, bs) = (1usize, 3usize, 64usize, 2usize);
    let q = own(Wide::<1>::random([d], Distribution::Normal(0.0, 1.0), &dev));
    let mut module = BlockAttnRes::new(d, bs, &dev);
    module.query = q.clone();

    let mut st = module.init_state(b, t, d, &dev);
    let mut st_fused = module.init_state(b, t, d, &dev);
    for step in 0..8 {
        let h = own(Wide::<3>::random([b, t, d], Distribution::Normal(0.0, 1.0), &dev));
        let out = module.step(h.clone(), &mut st);
        let out_fused = module.step_on(h, &mut st_fused, true);
        let md = maxdiff(&to_host(outer(out_fused)), &to_host(outer(out)));
        assert!(md < 1e-4, "step {step}: maxdiff {md}");
        assert_eq!(st.partial_count, st_fused.partial_count);
        assert_eq!(st.started, st_fused.started);
        for (a, b) in [
            (&st.partial, &st_fused.partial),
            (&st.acc, &st_fused.acc),
            (&st.sum_exp, &st_fused.sum_exp),
            (&st.max_score, &st_fused.max_score),
        ] {
            let md = maxdiff(&to_host(outer(a.clone())), &to_host(outer(b.clone())));
            assert!(md < 1e-4, "step {step}: state maxdiff {md}");
        }
    }
}

#[test]
fn off_cuda_a_fused_step_is_a_step() {
    let dev = Device::default();
    let mut module = BlockAttnRes::new(5, 2, &dev);
    module.query = own(Wide::<1>::random([5], Distribution::Normal(0.0, 1.0), &dev));
    let mut st = module.init_state(1, 2, 5, &dev);
    let mut other = module.init_state(1, 2, 5, &dev);
    for _ in 0..7 {
        let h = own(Wide::<3>::random([1, 2, 5], Distribution::Normal(0.0, 1.0), &dev));
        let out = module.step(h.clone(), &mut st);
        let same = module.step_on(h, &mut other, false);
        assert_eq!(to_host(outer(out)), to_host(outer(same)));
        assert_eq!(to_host(outer(st.acc.clone())), to_host(outer(other.acc.clone())));
    }
}

#[test]
fn nothing_for_tensors_that_are_not_bare_on_cuda() {
    let dev = Device::default();
    let ad = Device::default().autodiff();
    let q = own(Wide::<1>::ones([3], &dev));
    let h = own(Wide::<3>::ones([1, 2, 3], &dev));
    let s = own(Wide::<3>::ones([1, 2, 1], &dev));
    let taped_q = own(Wide::<1>::ones([3], &ad));
    let taped_h = own(Wide::<3>::ones([1, 2, 3], &ad));
    let both = [h.clone(), h.clone()];
    assert!(depth_attend_cuda(&both, &q, true).is_some());
    assert!(depth_attend_cuda(&both, &q, false).is_none());
    assert!(depth_attend_cuda(&both, &taped_q, true).is_none());
    assert!(depth_attend_cuda(&[h.clone(), taped_h.clone()], &q, true).is_none());
    assert!(source_score_cuda(&q, &h, false).is_none());
    assert!(source_score_cuda(&q, &taped_h, true).is_none());
    assert!(source_score_cuda(&taped_q, &h, true).is_none());
    let (mut acc, mut mx, mut se) = (h.clone(), s.clone(), s.clone());
    assert!(merge_cuda(&mut acc, &mut mx, &mut se, &h, &s, false).is_none());
    assert!(merge_cuda(&mut acc, &mut mx, &mut se, &taped_h, &s, true).is_none());
    assert_eq!(to_host(outer(acc.clone())), vec![1.0; 6]);
    assert!(merge_cuda(&mut acc, &mut mx, &mut se, &h, &s, true).is_some());
    assert_eq!(to_host(outer(acc)), vec![2.0; 6]);
}

#[test]
fn chunk_boundaries() {
    // one short of a chunk, a full one, one layer more, two chunks and one layer
    let dev = Device::default();
    for l in [1usize, 2, 7, 8, 9, 16, 17] {
        let hist: Vec<Wide<3>> = (0..l)
            .map(|_| Wide::<3>::random([2, 2, 5], Distribution::Normal(0.0, 2.0), &dev))
            .collect();
        let q = Wide::<1>::random([5], Distribution::Normal(0.0, 2.0), &dev);
        let expected = to_host(ref_depth_attend(&hist, &q));
        let own_hist: Vec<Tensor<3>> = hist.into_iter().map(own).collect();
        let got = to_host(outer(depth_attend_cuda(&own_hist, &own(q), true).unwrap()));
        let md = maxdiff(&got, &expected);
        assert!(md < 1e-5, "{l} layers: {md}");
    }
}

#[test]
fn nothing_without_layers_or_columns() {
    let dev = Device::default();
    let q = own(Wide::<1>::zeros([3], &dev));
    assert!(depth_attend_cuda(&[], &q, true).is_none());
    let none = own(Wide::<3>::zeros([2, 2, 0], &dev));
    let col = own(Wide::<3>::ones([2, 2, 1], &dev));
    assert!(depth_attend_cuda(&[none.clone(), none.clone()], &q, true).is_none());
    assert!(source_score_cuda(&q, &none, true).is_none());
    let mut acc = own(Wide::<3>::ones([2, 2, 3], &dev));
    let mut mx = col.clone();
    let mut se = col.clone();
    assert!(merge_cuda(&mut acc, &mut mx, &mut se, &none, &col, true).is_none());
    assert_eq!(to_host(outer(acc)), vec![1.0; 12]);
    assert_eq!(to_host(outer(se)), vec![1.0; 4]);
}

#[test]
fn fused_score_value() {
    let dev = Device::default();
    let q = own(Wide::<1>::from_floats([2.0, 0.0], &dev));
    let src = own(Wide::<3>::from_floats([[[3.0, 4.0]]], &dev));
    let s = to_host(outer(source_score_cuda(&q, &src, true).unwrap()));
    let expected = (6.0 / 2.0f64.sqrt() / (25.0f64 + 1e-5).sqrt()) as f32;
    assert!((s[0] - expected).abs() < 1e-6);
}
