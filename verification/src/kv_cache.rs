//! Key/value cache for incremental decoding: the keys and values of every
//! position seen so far, of shape `(batch, heads, positions, head_dim)`, grown
//! along dimension 2 by each new chunk.
use candle_core::Tensor;
use vstd::prelude::*;
use vstd::arithmetic::div_mod::{
    lemma_fundamental_div_mod, lemma_fundamental_div_mod_converse, lemma_multiply_divide_lt,
};

use crate::tensor::{
    cat_compatible, cat_elems, cat_refused, cat_shape, cpu_stores, device_of, dims_product,
    dtype_of, is_cpu_device, joined, tensor_cat, tensor_dims, tensor_shape, tensor_share,
    TinyGptError,
};

verus! {

/// The dimension of a key or value tensor that counts the positions.
pub const SEQ_DIM: usize = 2;

/// The cached keys and values of one attention layer.
pub struct KvCache {
    k: Option<Tensor>,
    v: Option<Tensor>,
}

impl KvCache {
    /// The cached keys and values, or `None` while nothing is cached.
    pub closed spec fn cached(self) -> Option<(Tensor, Tensor)> {
        match (self.k, self.v) {
            (Some(k), Some(v)) => Some((k, v)),
            _ => None,
        }
    }

    /// An empty cache.
    pub fn new() -> (cache: Self)
        ensures
            cache.cached() is None,
    {
        KvCache { k: None, v: None }
    }

    /// The cached keys and values, or `None` while nothing is cached.
    pub fn cached_keys_values(&self) -> (r: Option<(&Tensor, &Tensor)>)
        ensures
            r == (match self.cached() {
                Some((ck, cv)) => Some((&ck, &cv)),
                None => None,
            }),
    {
        match (&self.k, &self.v) {
            (Some(k), Some(v)) => Some((k, v)),
            _ => None,
        }
    }

    /// Appends a chunk of keys `k` and values `v`, of shape
    /// `(batch, heads, chunk_len, head_dim)`, after the cached positions and returns
    /// all the keys and values cached so far. The first chunk is taken as it is;
    /// later ones are joined after the cache along dimension 2, which fails when
    /// the other dimensions, the element types or the devices differ. On failure
    /// the cache is left as it was.
    pub fn append(&mut self, k: &Tensor, v: &Tensor) -> (r: Result<(Tensor, Tensor), TinyGptError>)
        requires
            old(self).cached() matches Some((ck, cv)) ==> join_fits(tensor_shape(ck), tensor_shape(*k))
                && join_fits(tensor_shape(cv), tensor_shape(*v)),
        ensures
            old(self).cached() is None ==> r == Ok::<(Tensor, Tensor), TinyGptError>((*k, *v))
                && final(self).cached() == Some((*k, *v)),
            old(self).cached() matches Some((ck, cv)) ==> {
                &&& cat_refused(ck, *k, SEQ_DIM as int) || cat_refused(cv, *v, SEQ_DIM as int) ==> r is Err
                &&& on_cpu_and_stored(ck, *k) && on_cpu_and_stored(cv, *v) ==> r is Ok
                &&& r matches Ok((full_k, full_v)) ==> {
                    &&& joined(ck, *k, SEQ_DIM as int, full_k)
                    &&& joined(cv, *v, SEQ_DIM as int, full_v)
                    &&& final(self).cached() == Some((full_k, full_v))
                }
                &&& r is Err ==> *final(self) == *old(self)
            },
    {
        let (full_k, full_v) = match (&self.k, &self.v) {
            (Some(prev_k), Some(prev_v)) => {
                let full_k = match tensor_cat(prev_k, k, SEQ_DIM) {
                    Ok(t) => t,
                    Err(e) => {
                        return Err(TinyGptError::Tensor(e));
                    },
                };
                let full_v = match tensor_cat(prev_v, v, SEQ_DIM) {
                    Ok(t) => t,
                    Err(e) => {
                        return Err(TinyGptError::Tensor(e));
                    },
                };
                (full_k, full_v)
            },
            _ => (tensor_share(k), tensor_share(v)),
        };
        self.k = Some(tensor_share(&full_k));
        self.v = Some(tensor_share(&full_v));
        Ok((full_k, full_v))
    }
}

/// Whether a join of `cached` and `chunk` along the positions is owed to succeed:
/// candle does not refuse the pair, the cached tensor is on the CPU, and the CPU
/// stores its element type.
pub open spec fn on_cpu_and_stored(cached: Tensor, chunk: Tensor) -> bool {
    &&& !cat_refused(cached, chunk, SEQ_DIM as int)
    &&& is_cpu_device(device_of(cached))
    &&& cpu_stores(dtype_of(cached))
}

/// Whether the cached positions plus those of a chunk can be counted in a `usize`
/// for a cached tensor of shape `cached` and a chunk of shape `chunk`.
pub open spec fn join_fits(cached: Seq<usize>, chunk: Seq<usize>) -> bool {
    cached.len() > 2 && chunk.len() > 2 ==> cached[2] + chunk[2] <= usize::MAX
}

impl KvCache {
    /// `append`, for any chunk: returns `None`, leaving the cache as it was, when the
    /// cached positions plus the chunk's would not fit in a `usize` along
    /// dimension 2, and otherwise `Some` of what `append` returns.
    pub fn try_append(&mut self, k: &Tensor, v: &Tensor) -> (r: Option<
        Result<(Tensor, Tensor), TinyGptError>,
    >)
        ensures
            r is None <==> (old(self).cached() matches Some((ck, cv)) && !(join_fits(
                tensor_shape(ck),
                tensor_shape(*k),
            ) && join_fits(tensor_shape(cv), tensor_shape(*v)))),
            r is None ==> *final(self) == *old(self),
            old(self).cached() is None ==> r == Some(Ok::<(Tensor, Tensor), TinyGptError>((*k, *v)))
                && final(self).cached() == Some((*k, *v)),
            old(self).cached() matches Some((ck, cv)) ==> (r matches Some(res) ==> {
                &&& cat_refused(ck, *k, SEQ_DIM as int) || cat_refused(cv, *v, SEQ_DIM as int)
                    ==> res is Err
                &&& on_cpu_and_stored(ck, *k) && on_cpu_and_stored(cv, *v) ==> res is Ok
                &&& res matches Ok((full_k, full_v)) ==> {
                    &&& joined(ck, *k, SEQ_DIM as int, full_k)
                    &&& joined(cv, *v, SEQ_DIM as int, full_v)
                    &&& final(self).cached() == Some((full_k, full_v))
                }
                &&& res is Err ==> *final(self) == *old(self)
            }),
    {
        let fits = match self.cached_keys_values() {
            Some((ck, cv)) => fits_after(tensor_dims(ck), tensor_dims(k)) && fits_after(
                tensor_dims(cv),
                tensor_dims(v),
            ),
            None => true,
        };
        if fits {
            Some(self.append(k, v))
        } else {
            None
        }
    }
}

/// Whether `cached` and `chunk` satisfy `join_fits`.
fn fits_after(cached: &[usize], chunk: &[usize]) -> (b: bool)
    ensures
        b == join_fits(cached@, chunk@),
{
    if cached.len() > 2 && chunk.len() > 2 {
        cached[2] <= usize::MAX - chunk[2]
    } else {
        true
    }
}

impl Default for KvCache {
    fn default() -> (cache: Self)
        ensures
            cache.cached() is None,
    {
        Self::new()
    }
}

/// Position `r` of block `q`, with blocks of `d` elements and `n` of them, lies in
/// range and is found again as block `q`, offset `r`.
proof fn lemma_block_index(q: int, r: int, d: int, n: int)
    requires
        0 <= q < n,
        0 <= r < d,
    ensures
        0 <= q * d + r < n * d,
        (q * d + r) / d == q,
        (q * d + r) % d == r,
{
    lemma_fundamental_div_mod_converse(q * d + r, d, q, r);
    assert(q * d + r < n * d) by (nonlinear_arith)
        requires
            0 <= q < n,
            0 <= r < d,
    ;
    assert(0 <= q * d) by (nonlinear_arith)
        requires
            0 <= q,
            0 <= d,
    ;
}

/// Joining three tensors along one dimension two at a time, as the cache does
/// with its chunks, gives the same shape and elements whichever pair is joined
/// first: the keys after several appends are all the chunks joined at once, in
/// the order they came.
pub proof fn lemma_cat_assoc(
    a: Seq<usize>,
    ea: Seq<u64>,
    b: Seq<usize>,
    eb: Seq<u64>,
    c: Seq<usize>,
    ec: Seq<u64>,
    dim: int,
)
    requires
        cat_compatible(a, b, dim),
        cat_compatible(b, c, dim),
        a[dim] + b[dim] + c[dim] <= usize::MAX,
    ensures
        cat_compatible(cat_shape(a, b, dim), c, dim),
        cat_compatible(a, cat_shape(b, c, dim), dim),
        cat_shape(cat_shape(a, b, dim), c, dim) == cat_shape(a, cat_shape(b, c, dim), dim),
        cat_elems(cat_shape(a, b, dim), cat_elems(a, ea, b, eb, dim), c, ec, dim) == cat_elems(
            a,
            ea,
            cat_shape(b, c, dim),
            cat_elems(b, eb, c, ec, dim),
            dim,
        ),
{
    let ab = cat_shape(a, b, dim);
    let bc = cat_shape(b, c, dim);
    assert(cat_shape(ab, c, dim) =~= cat_shape(a, bc, dim));
    assert(ab.skip(dim + 1) =~= a.skip(dim + 1));
    assert(bc.skip(dim + 1) =~= a.skip(dim + 1));
    assert(b.skip(dim + 1) =~= a.skip(dim + 1));
    assert(ab.take(dim) =~= a.take(dim));
    assert(bc.take(dim) =~= a.take(dim));
    assert(b.take(dim) =~= a.take(dim));
    let p = dims_product(a.skip(dim + 1)) as int;
    let o = dims_product(a.take(dim)) as int;
    let la = a[dim] * p;
    let lb = b[dim] * p;
    let lc = c[dim] * p;
    assert(ab[dim] * p == la + lb) by (nonlinear_arith)
        requires
            ab[dim] == a[dim] + b[dim],
            la == a[dim] * p,
            lb == b[dim] * p,
    ;
    assert(bc[dim] * p == lb + lc) by (nonlinear_arith)
        requires
            bc[dim] == b[dim] + c[dim],
            lb == b[dim] * p,
            lc == c[dim] * p,
    ;
    assert(0 <= la && 0 <= lb && 0 <= lc && 0 <= p && 0 <= o) by (nonlinear_arith)
        requires
            la == a[dim] * p,
            lb == b[dim] * p,
            lc == c[dim] * p,
            p >= 0,
            o >= 0,
    ;
    let eab = cat_elems(a, ea, b, eb, dim);
    let ebc = cat_elems(b, eb, c, ec, dim);
    let lhs = cat_elems(ab, eab, c, ec, dim);
    let rhs = cat_elems(a, ea, bc, ebc, dim);
    let row = la + lb + lc;
    assert(lhs.len() == rhs.len());
    assert forall|i: int| 0 <= i < lhs.len() implies lhs[i] == rhs[i] by {
        assert(lhs.len() == o * row);
        assert(row > 0) by (nonlinear_arith)
            requires
                0 <= i < o * row,
                o >= 0,
        ;
        let q = i / row;
        let r = i % row;
        lemma_fundamental_div_mod(i, row);
        lemma_multiply_divide_lt(i, row, o);
        assert(0 <= q) by (nonlinear_arith)
            requires
                0 <= i,
                row > 0,
                q == i / row,
        ;
        assert(0 <= r < row);
        if r < la + lb {
            lemma_block_index(q, r, la + lb, o);
            if r >= la {
                lemma_block_index(q, r - la, lb + lc, o);
            }
        } else {
            lemma_block_index(q, r - la, lb + lc, o);
        }
    }
    assert(lhs =~= rhs);
}

} // verus!
