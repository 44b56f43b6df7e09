use candle_core::{DType, Device, Tensor};
use tinygpt_rs::tensor::{device_is_cpu, dtype_stored_on_cpu, tensor_device, tensor_dims, tensor_dtype};

#[test]
fn cpu_device_is_recognised() {
    assert!(device_is_cpu(&Device::Cpu));
}

#[test]
fn tensor_device_and_dtype_are_those_it_was_made_with() {
    let t = Tensor::zeros((2, 3), DType::U32, &Device::Cpu).unwrap();
    assert!(device_is_cpu(tensor_device(&t)));
    assert_eq!(tensor_dtype(&t), DType::U32);
    let f = Tensor::zeros((2, 3), DType::F32, &Device::Cpu).unwrap();
    assert_eq!(tensor_dtype(&f), DType::F32);
}

#[test]
fn cpu_stores_the_common_element_types() {
    assert!(dtype_stored_on_cpu(DType::F32));
    assert!(dtype_stored_on_cpu(DType::U32));
    assert!(!dtype_stored_on_cpu(DType::F4));
}

#[test]
fn tensor_dims_are_its_shape() {
    let t = Tensor::zeros((2, 3, 5), DType::F32, &Device::Cpu).unwrap();
    assert_eq!(tensor_dims(&t), &[2, 3, 5]);
}
