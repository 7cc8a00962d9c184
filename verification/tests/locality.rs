use attnres::{depth_attend, depth_attend_cuda, source_score, BlockAttnRes, Tensor};
use burn::tensor::{Device, Distribution, TensorData};

type Wide<const D: usize> = burn::tensor::Tensor<D>;

fn own<const D: usize>(t: Wide<D>) -> Tensor<D> {
    Tensor::from_bridge(t.into_bridge()).unwrap()
}

fn to_host(t: &Tensor<3>) -> Vec<f32> {
    Wide::<3>::from_bridge(t.clone().into_bridge())
        .into_data()
        .bytes()
        .chunks_exact(4)
        .map(|b| f32::from_le_bytes(b.try_into().unwrap()))
        .collect()
}

const FROM: [usize; 4] = [5, 0, 3, 3];

/// The rows `FROM` of a `[2, 3, d]` tensor, as `[4, 1, d]`.
fn gather(t: &Tensor<3>) -> Tensor<3> {
    let [b, p, d] = t.dims();
    assert_eq!([b, p], [2, 3]);
    let all = to_host(t);
    let rows: Vec<f32> = FROM
        .iter()
        .flat_map(|m| all[m * d..(m + 1) * d].to_vec())
        .collect();
    let dev = Device::default();
    own(Wide::<3>::from_data(TensorData::new(rows, [4, 1, d]), &dev))
}

fn layers(n: usize) -> Vec<Tensor<3>> {
    let dev = Device::default();
    (0..n)
        .map(|_| own(Wide::<3>::random([2, 3, 7], Distribution::Normal(0.0, 1.0), &dev)))
        .collect()
}

fn query() -> Tensor<1> {
    let dev = Device::default();
    own(Wide::<1>::random([7], Distribution::Normal(0.0, 1.0), &dev))
}

#[test]
fn depth_attention_keeps_positions_apart() {
    let h = layers(5);
    let q = query();
    let near: Vec<Tensor<3>> = h.iter().map(gather).collect();
    let all = depth_attend(&h, q.clone());
    assert_eq!(to_host(&gather(&all)), to_host(&depth_attend(&near, q)));
}

#[test]
fn fused_attention_keeps_positions_apart() {
    let h = layers(11);
    let q = query();
    let near: Vec<Tensor<3>> = h.iter().map(gather).collect();
    let all = depth_attend_cuda(&h, &q, true).unwrap();
    let few = depth_attend_cuda(&near, &q, true).unwrap();
    assert_eq!(to_host(&gather(&all)), to_host(&few));
}

#[test]
fn scores_keep_positions_apart() {
    let h = &layers(1)[0];
    let q = query();
    let all = source_score(&q, h);
    assert_eq!(to_host(&gather(&all)), to_host(&source_score(&q, &gather(h))));
}

#[test]
fn block_attention_keeps_positions_apart() {
    let dev = Device::default();
    let mut a = BlockAttnRes::new(7, 3, &dev);
    a.query = query();
    let mut st = a.init_state(2, 3, 7, &dev);
    let mut near = a.init_state(4, 1, 7, &dev);
    for h in layers(8) {
        let few = a.step(gather(&h), &mut near);
        let all = a.step(h, &mut st);
        assert_eq!(to_host(&gather(&all)), to_host(&few));
        assert_eq!(to_host(&gather(&st.acc)), to_host(&near.acc));
        assert_eq!(to_host(&gather(&st.sum_exp)), to_host(&near.sum_exp));
        assert_eq!(to_host(&gather(&st.partial)), to_host(&near.partial));
    }
}
