//! Which attention scores the causal mask blocks. A mask over `count` query rows
//! and `total` key columns is laid out row by row; entry `(r, c)` is blocked
//! (its score gets minus infinity before the softmax) when key position `c` comes
//! after query position `first + r`.
use vstd::arithmetic::div_mod::{lemma_fundamental_div_mod, lemma_fundamental_div_mod_converse};
use vstd::prelude::*;

verus! {

/// The blocked flags of query rows `first .. first + count` of the causal mask over
/// `total` positions, row by row: entry `k` stands for query `first + k / total` and
/// key `k % total`, and is blocked when the key comes after the query.
pub open spec fn causal_rows(total: int, first: int, count: int) -> Seq<bool> {
    Seq::new((count * total) as nat, |k: int| k % total > first + k / total)
}

/// The blocked flags of query rows `first .. first + count` over `total` key positions.
fn mask_rows(total: usize, first: usize, count: usize) -> (blocked: Vec<bool>)
    requires
        first + count <= total,
        count * total <= usize::MAX,
    ensures
        blocked@ == causal_rows(total as int, first as int, count as int),
{
    let mut blocked: Vec<bool> = Vec::with_capacity(count * total);
    let mut r: usize = 0;
    while r < count
        invariant
            first + count <= total,
            count * total <= usize::MAX,
            r <= count,
            blocked@.len() == r * total,
            forall|k: int|
                0 <= k < blocked@.len() ==> #[trigger] blocked@[k] == (k % (total as int) > first
                    + k / (total as int)),
        decreases count - r,
    {
        assert((r + 1) * total <= count * total) by (nonlinear_arith)
            requires
                r < count,
        ;
        assert((r + 1) * total == r * total + total) by (nonlinear_arith);
        let mut c: usize = 0;
        while c < total
            invariant
                first + count <= total,
                r < count,
                c <= total,
                r * total + total <= usize::MAX,
                blocked@.len() == r * total + c,
                forall|k: int|
                    0 <= k < blocked@.len() ==> #[trigger] blocked@[k] == (k % (total as int)
                        > first + k / (total as int)),
            decreases total - c,
        {
            proof {
                lemma_fundamental_div_mod_converse(
                    r * total + c,
                    total as int,
                    r as int,
                    c as int,
                );
            }
            blocked.push(c > first + r);
            c = c + 1;
        }
        r = r + 1;
    }
    assert(blocked@ =~= causal_rows(total as int, first as int, count as int));
    blocked
}

/// The causal mask over `seq_len` positions, row by row: entry `i * seq_len + j` is
/// blocked exactly when `j > i`, position `j` being in the future of position `i`.
pub fn causal_mask(seq_len: usize) -> (blocked: Vec<bool>)
    requires
        seq_len * seq_len <= usize::MAX,
    ensures
        blocked@ == causal_rows(seq_len as int, 0, seq_len as int),
{
    mask_rows(seq_len, 0, seq_len)
}

/// The rows of the causal mask for a chunk of `chunk_len` new positions that
/// follow `position_offset` cached ones: the chunk's queries against every
/// position so far, cached or new.
pub fn causal_mask_for_chunk(position_offset: usize, chunk_len: usize) -> (blocked: Vec<bool>)
    requires
        position_offset + chunk_len <= usize::MAX,
        chunk_len * (position_offset + chunk_len) <= usize::MAX,
    ensures
        blocked@ == causal_rows(
            position_offset + chunk_len,
            position_offset as int,
            chunk_len as int,
        ),
{
    mask_rows(position_offset + chunk_len, position_offset, chunk_len)
}

/// Entry `(i, j)` of the causal mask is blocked exactly when `j > i`: no position
/// attends to a position after it.
pub proof fn lemma_causal_mask_entry(seq_len: int, i: int, j: int)
    requires
        0 <= i < seq_len,
        0 <= j < seq_len,
    ensures
        0 <= i * seq_len + j < seq_len * seq_len,
        causal_rows(seq_len, 0, seq_len)[i * seq_len + j] == (j > i),
{
    assert(0 <= i * seq_len + j < seq_len * seq_len) by (nonlinear_arith)
        requires
            0 <= i < seq_len,
            0 <= j < seq_len,
    ;
    lemma_fundamental_div_mod_converse(i * seq_len + j, seq_len, i, j);
}

/// The mask for a chunk is the causal mask over all positions so far, narrowed to
/// the chunk's rows: the cached path blocks the same scores as a full recompute.
pub proof fn lemma_chunk_mask_is_narrowed(position_offset: int, chunk_len: int)
    requires
        0 <= position_offset,
        0 <= chunk_len,
    ensures
        ({
            let total = position_offset + chunk_len;
            causal_rows(total, position_offset, chunk_len) == causal_rows(total, 0, total).subrange(
                position_offset * total,
                total * total,
            )
        }),
{
    let total = position_offset + chunk_len;
    let chunk = causal_rows(total, position_offset, chunk_len);
    let full = causal_rows(total, 0, total);
    assert(total * total == position_offset * total + chunk_len * total) by (nonlinear_arith)
        requires
            total == position_offset + chunk_len,
    ;
    assert(0 <= position_offset * total) by (nonlinear_arith)
        requires
            0 <= position_offset,
            0 <= total,
    ;
    assert forall|k: int| 0 <= k < chunk.len() implies chunk[k] == full[position_offset * total
        + k] by {
        lemma_fundamental_div_mod(k, total);
        let q = k / total;
        let r = k % total;
        assert(position_offset * total + k == (position_offset + q) * total + r) by (nonlinear_arith)
            requires
                k == total * q + r,
        ;
        lemma_fundamental_div_mod_converse(
            position_offset * total + k,
            total,
            position_offset + q,
            r,
        );
    }
    assert(chunk =~= full.subrange(position_offset * total, total * total));
}

} // verus!
