//! The outside values that the library carries: candle tensors, devices and
//! errors, and the random generator of `rand`. Each call into those crates
//! stands in a small wrapper here, with what its contract claims of it.
use candle_core::{DType, Device, Tensor};
use rand::rngs::StdRng;
use vstd::prelude::*;

verus! {

/// `candle_core::Tensor`, carried through opaque; what the contracts know of a
/// tensor they know through `tensor_shape`, `tensor_elems`, `dtype_of` and
/// `device_of`.
#[verifier::external_type_specification]
#[verifier::external_body]
pub struct ExTensor(Tensor);

/// `candle_core::Device`, the device that tensors live on; opaque.
#[verifier::external_type_specification]
#[verifier::external_body]
pub struct ExDevice(Device);

/// `candle_core::DType`, the element type of a tensor; opaque, only compared.
#[verifier::external_type_specification]
#[verifier::external_body]
pub struct ExDType(DType);

/// `candle_core::Error`, the error of a failed tensor operation; opaque.
#[verifier::external_type_specification]
#[verifier::external_body]
pub struct ExCandleError(candle_core::Error);

/// `rand::rngs::StdRng`, the seeded random generator of training; opaque.
#[verifier::external_type_specification]
#[verifier::external_body]
pub struct ExStdRng(StdRng);

/// The dimensions of a tensor, outermost first (what `Tensor::dims` returns).
pub uninterp spec fn tensor_shape(t: Tensor) -> Seq<usize>;

/// The elements of a tensor in row-major order, each as its bit pattern widened
/// to 64 bits (a `u32` element is its value). Candle can change a tensor's
/// elements in place through a shared handle (`Tensor::slice_set`, `Var::set`);
/// this name describes tensors that nobody changes that way, and neither the
/// library nor its program does.
pub uninterp spec fn tensor_elems(t: Tensor) -> Seq<u64>;

/// The element type of a tensor (what `Tensor::dtype` returns).
pub uninterp spec fn dtype_of(t: Tensor) -> DType;

/// The device of a tensor (what `Tensor::device` returns).
pub uninterp spec fn device_of(t: Tensor) -> Device;

/// Whether a device is the CPU (what `Device::is_cpu` returns).
pub uninterp spec fn is_cpu_device(d: Device) -> bool;

/// Whether candle's CPU backend stores elements of type `d`: whether it can make
/// a CPU tensor of that type (what `Tensor::zeros` on the CPU decides). Its
/// source refuses the same four types, F6E2M3, F6E3M2, F4 and F8E8M0, both when
/// filling storage with zeros and when allocating it for a join, and stores all
/// the others.
pub uninterp spec fn cpu_stores(d: DType) -> bool;

/// Whether `Tensor::zeros((), d, &Device::Cpu)` succeeds: whether the CPU backend
/// stores elements of type `d`.
#[verifier::external_body]
fn dtype_stored_on_cpu_call(d: DType) -> (b: bool)
    ensures
        b == cpu_stores(d),
{
    Tensor::zeros((), d, &Device::Cpu).is_ok()
}

/// `Tensor::dims`: the dimensions of `t`, outermost first.
#[verifier::external_body]
fn tensor_dims_call(t: &Tensor) -> (dims: &[usize])
    ensures
        dims@ == tensor_shape(*t),
{
    t.dims()
}

/// `Device::is_cpu`: whether `d` is the CPU.
#[verifier::external_body]
fn device_is_cpu_call(d: &Device) -> (b: bool)
    ensures
        b == is_cpu_device(*d),
{
    d.is_cpu()
}

/// `Tensor::device`: the device that `t` lives on.
#[verifier::external_body]
fn tensor_device_call(t: &Tensor) -> (d: &Device)
    ensures
        *d == device_of(*t),
{
    t.device()
}

/// `Tensor::dtype`: the element type of `t`.
#[verifier::external_body]
fn tensor_dtype_call(t: &Tensor) -> (d: DType)
    ensures
        d == dtype_of(*t),
{
    t.dtype()
}

/// Whether `device` is the CPU, on which creating a tensor cannot fail.
pub fn device_is_cpu(device: &Device) -> (b: bool)
    ensures
        b == is_cpu_device(*device),
{
    device_is_cpu_call(device)
}

/// The device that `t` lives on.
pub fn tensor_device(t: &Tensor) -> (d: &Device)
    ensures
        *d == device_of(*t),
{
    tensor_device_call(t)
}

/// The element type of `t`.
pub fn tensor_dtype(t: &Tensor) -> (d: DType)
    ensures
        d == dtype_of(*t),
{
    tensor_dtype_call(t)
}

/// Whether tensors with elements of type `d` can be made, and joined, on the CPU.
pub fn dtype_stored_on_cpu(d: DType) -> (b: bool)
    ensures
        b == cpu_stores(d),
{
    dtype_stored_on_cpu_call(d)
}

/// The dimensions of `t`, outermost first.
pub fn tensor_dims(t: &Tensor) -> (dims: &[usize])
    ensures
        dims@ == tensor_shape(*t),
{
    tensor_dims_call(t)
}

/// Errors of the library: a tensor operation of candle failed.
#[derive(Debug)]
pub enum TinyGptError {
    Tensor(candle_core::Error),
}

/// `Tensor::from_vec` with the shape `(rows, cols)`: on success the tensor has the
/// dimensions `[rows, cols]`, holds `data` in row-major order and lives on a CPU
/// exactly when `device` is the CPU, and its element type, `u32`, is one the CPU
/// stores. On the CPU it always succeeds (the data
/// becomes the tensor's storage as it is); on an accelerator it may fail to
/// allocate, which is not stated.
#[verifier::external_body]
pub(crate) fn tensor_from_u32s(data: Vec<u32>, rows: usize, cols: usize, device: &Device) -> (r:
    Result<Tensor, candle_core::Error>)
    requires
        data@.len() == rows * cols,
    ensures
        is_cpu_device(*device) ==> r is Ok,
        r matches Ok(t) ==> {
            &&& tensor_shape(t) == seq![rows, cols]
            &&& tensor_elems(t) == data@.map_values(|x: u32| x as u64)
            &&& is_cpu_device(device_of(t)) == is_cpu_device(*device)
            &&& cpu_stores(dtype_of(t))
        },
{
    Tensor::from_vec(data, (rows, cols), device)
}

/// Two shapes can be joined along dimension `dim` when they have the same rank,
/// `dim` is one of their dimensions, and they agree on every other dimension.
pub open spec fn cat_compatible(a: Seq<usize>, b: Seq<usize>, dim: int) -> bool {
    &&& a.len() == b.len()
    &&& 0 <= dim < a.len()
    &&& forall|i: int| 0 <= i < a.len() && i != dim ==> a[i] == b[i]
}

/// The shape of two tensors joined along dimension `dim`.
pub open spec fn cat_shape(a: Seq<usize>, b: Seq<usize>, dim: int) -> Seq<usize> {
    a.update(dim, (a[dim] + b[dim]) as usize)
}

/// The number of elements of a tensor of shape `s`.
pub open spec fn dims_product(s: Seq<usize>) -> nat
    decreases s.len(),
{
    if s.len() == 0 {
        1
    } else {
        s[0] as nat * dims_product(s.drop_first())
    }
}

/// The elements of a tensor of shape `a` with elements `ea` and one of shape `b`
/// with elements `eb` joined along dimension `dim`, in row-major order: for each
/// index over the dimensions before `dim`, the block of `a` comes first and the
/// block of `b` after it; each block holds its tensor's positions along `dim`
/// with everything inside them.
pub open spec fn cat_elems(a: Seq<usize>, ea: Seq<u64>, b: Seq<usize>, eb: Seq<u64>, dim: int) -> Seq<
    u64,
> {
    let inner = dims_product(a.skip(dim + 1));
    let la = a[dim] * inner;
    let lb = b[dim] * inner;
    let row = la + lb;
    Seq::new(
        (dims_product(a.take(dim)) * row) as nat,
        |i: int|
            if i % row < la {
                ea[(i / row) * la + i % row]
            } else {
                eb[(i / row) * lb + (i % row - la)]
            },
    )
}

/// Whether `Tensor::cat(&[a, b], dim)` refuses the pair outright: the shapes
/// cannot be joined along `dim`, the element types differ, or one tensor is on
/// the CPU and the other is not.
pub open spec fn cat_refused(a: Tensor, b: Tensor, dim: int) -> bool {
    ||| !cat_compatible(tensor_shape(a), tensor_shape(b), dim)
    ||| dtype_of(a) != dtype_of(b)
    ||| is_cpu_device(device_of(a)) != is_cpu_device(device_of(b))
}

/// Whether `t` is `a` and `b` joined along dimension `dim`: the joined shape, the
/// elements of `a` before those of `b` along that dimension, and the element
/// type and kind of device of `a`.
pub open spec fn joined(a: Tensor, b: Tensor, dim: int, t: Tensor) -> bool {
    &&& cat_compatible(tensor_shape(a), tensor_shape(b), dim)
    &&& tensor_shape(t) == cat_shape(tensor_shape(a), tensor_shape(b), dim)
    &&& tensor_elems(t) == cat_elems(
        tensor_shape(a),
        tensor_elems(a),
        tensor_shape(b),
        tensor_elems(b),
        dim,
    )
    &&& dtype_of(t) == dtype_of(a)
    &&& is_cpu_device(device_of(t)) == is_cpu_device(device_of(a))
}

/// `Tensor::cat(&[a, b], dim)`. It fails when the shapes cannot be joined along
/// `dim`, when the element types differ, and when one tensor is on the CPU and
/// the other is not. When neither holds, both are on the CPU and the CPU stores
/// their element type, it succeeds: the CPU backend allocates the joined storage
/// and copies into it without failing. On success the result is `a` and `b`
/// joined along `dim`, `a` first. Whether it succeeds on an accelerator, whose
/// allocation may fail, is not stated.
#[verifier::external_body]
pub(crate) fn tensor_cat(a: &Tensor, b: &Tensor, dim: usize) -> (r: Result<Tensor, candle_core::Error>)
    requires
        dim < tensor_shape(*a).len() && dim < tensor_shape(*b).len() ==> tensor_shape(*a)[dim as int]
            + tensor_shape(*b)[dim as int] <= usize::MAX,
    ensures
        cat_refused(*a, *b, dim as int) ==> r is Err,
        !cat_refused(*a, *b, dim as int) && is_cpu_device(device_of(*a)) && cpu_stores(
            dtype_of(*a),
        ) ==> r is Ok,
        r matches Ok(t) ==> joined(*a, *b, dim as int, t),
{
    Tensor::cat(&[a, b], dim)
}

/// `Tensor::clone`: a second handle on the same tensor, equal to the first.
#[verifier::external_body]
pub(crate) fn tensor_share(t: &Tensor) -> (r: Tensor)
    ensures
        r == *t,
{
    t.clone()
}

/// `RngCore::next_u32` on `StdRng`: 32 random bits; nothing is stated of them.
#[verifier::external_body]
pub(crate) fn next_u32(rng: &mut StdRng) -> u32 {
    rand::RngCore::next_u32(rng)
}

} // verus!
