use candle_core::{DType, Device, Tensor};
use tinygpt_rs::kv_cache::KvCache;

#[test]
fn incremental_append_matches_full_concat() {
    let device = Device::Cpu;
    // (batch=1, heads=2, seq=1, head_dim=4) chunks appended one at a time
    let k1 = Tensor::randn(0f32, 1f32, (1, 2, 1, 4), &device).unwrap();
    let k2 = Tensor::randn(0f32, 1f32, (1, 2, 1, 4), &device).unwrap();
    let k3 = Tensor::randn(0f32, 1f32, (1, 2, 1, 4), &device).unwrap();

    let mut cache = KvCache::new();
    cache.append(&k1, &k1).unwrap();
    cache.append(&k2, &k2).unwrap();
    let (acc_k, _) = cache.append(&k3, &k3).unwrap();

    let expected = Tensor::cat(&[&k1, &k2, &k3], 2).unwrap();
    let diff = (acc_k - expected).unwrap().abs().unwrap().sum_all().unwrap().to_scalar::<f32>().unwrap();
    assert!(diff < 1e-6);
}

#[test]
fn cache_grows_along_the_sequence_dimension() {
    let device = Device::Cpu;
    let mut cache = KvCache::default();
    let k = Tensor::zeros((1, 2, 3, 4), DType::F32, &device).unwrap();
    let v = Tensor::ones((1, 2, 3, 4), DType::F32, &device).unwrap();
    let (fk, fv) = cache.append(&k, &v).unwrap();
    assert_eq!(fk.dims(), &[1, 2, 3, 4]);
    assert_eq!(fv.dims(), &[1, 2, 3, 4]);
    let k1 = Tensor::zeros((1, 2, 1, 4), DType::F32, &device).unwrap();
    let (fk, fv) = cache.append(&k1, &k1).unwrap();
    assert_eq!(fk.dims(), &[1, 2, 4, 4]);
    assert_eq!(fv.dims(), &[1, 2, 4, 4]);
    let fv: Vec<f32> = fv.flatten_all().unwrap().to_vec1().unwrap();
    // values: the 3 cached positions of ones, then the new position of zeros, per head
    assert_eq!(&fv[0..12], &[1.0; 12]);
    assert_eq!(&fv[12..16], &[0.0; 4]);
}

#[test]
fn mismatched_chunk_is_refused_and_cache_kept() {
    let device = Device::Cpu;
    let mut cache = KvCache::new();
    let k = Tensor::zeros((1, 2, 3, 4), DType::F32, &device).unwrap();
    cache.append(&k, &k).unwrap();
    let wrong = Tensor::zeros((1, 3, 1, 4), DType::F32, &device).unwrap();
    assert!(cache.append(&wrong, &wrong).is_err());
    let right = Tensor::zeros((1, 2, 2, 4), DType::F32, &device).unwrap();
    let (fk, _) = cache.append(&right, &right).unwrap();
    assert_eq!(fk.dims(), &[1, 2, 5, 4]);
}

#[test]
fn chunk_of_another_element_type_is_refused_and_cache_kept() {
    let device = Device::Cpu;
    let mut cache = KvCache::new();
    assert!(cache.cached_keys_values().is_none());
    let k = Tensor::ones((1, 2, 3, 4), DType::F32, &device).unwrap();
    cache.append(&k, &k).unwrap();
    let other = Tensor::zeros((1, 2, 1, 4), DType::F64, &device).unwrap();
    assert!(cache.append(&other, &other).is_err());
    let (ck, cv) = cache.cached_keys_values().unwrap();
    assert_eq!(ck.dims(), &[1, 2, 3, 4]);
    assert_eq!(cv.dims(), &[1, 2, 3, 4]);
}

#[test]
fn first_chunk_is_returned_as_it_is() {
    let device = Device::Cpu;
    let mut cache = KvCache::new();
    let k = Tensor::from_vec((0u32..8).collect::<Vec<u32>>(), (1, 1, 2, 4), &device).unwrap();
    let v = Tensor::from_vec((8u32..16).collect::<Vec<u32>>(), (1, 1, 2, 4), &device).unwrap();
    let (fk, fv) = cache.append(&k, &v).unwrap();
    assert_eq!(fk.flatten_all().unwrap().to_vec1::<u32>().unwrap(), (0u32..8).collect::<Vec<u32>>());
    assert_eq!(fv.flatten_all().unwrap().to_vec1::<u32>().unwrap(), (8u32..16).collect::<Vec<u32>>());
}

#[test]
fn cached_positions_come_before_new_ones_in_every_head() {
    let device = Device::Cpu;
    let mut cache = KvCache::new();
    // two heads, one cached position of head_dim 2: head 0 = [1, 2], head 1 = [3, 4]
    let k = Tensor::from_vec(vec![1u32, 2, 3, 4], (1, 2, 1, 2), &device).unwrap();
    cache.append(&k, &k).unwrap();
    let k2 = Tensor::from_vec(vec![5u32, 6, 7, 8], (1, 2, 1, 2), &device).unwrap();
    let (fk, _) = cache.append(&k2, &k2).unwrap();
    assert_eq!(fk.dims(), &[1, 2, 2, 2]);
    assert_eq!(fk.flatten_all().unwrap().to_vec1::<u32>().unwrap(), vec![1, 2, 5, 6, 3, 4, 7, 8]);
}

#[test]
fn try_append_joins_like_append() {
    let device = Device::Cpu;
    let mut cache = KvCache::new();
    let k = Tensor::from_vec(vec![1u32, 2, 3, 4], (1, 2, 1, 2), &device).unwrap();
    let (fk, _) = cache.try_append(&k, &k).unwrap().unwrap();
    assert_eq!(fk.dims(), &[1, 2, 1, 2]);
    let k2 = Tensor::from_vec(vec![5u32, 6, 7, 8], (1, 2, 1, 2), &device).unwrap();
    let (fk, fv) = cache.try_append(&k2, &k2).unwrap().unwrap();
    assert_eq!(fk.flatten_all().unwrap().to_vec1::<u32>().unwrap(), vec![1, 2, 5, 6, 3, 4, 7, 8]);
    assert_eq!(fv.dims(), &[1, 2, 2, 2]);
    let wrong = Tensor::from_vec(vec![9u32, 9], (1, 1, 1, 2), &device).unwrap();
    assert!(cache.try_append(&wrong, &wrong).unwrap().is_err());
}
