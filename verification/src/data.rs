//! The token stream of a corpus, cut into training windows: each window of
//! `seq_len + 1` consecutive tokens gives an input row (its first `seq_len`
//! tokens) and a target row (its last `seq_len` tokens).
use candle_core::{Device, Tensor};
use rand::rngs::StdRng;
use vstd::prelude::*;

use crate::tensor::{
    device_of, is_cpu_device, next_u32, tensor_elems, tensor_from_u32s, tensor_shape, TinyGptError,
};
use crate::tokenizer::{encode_spec, Tokenizer};

verus! {

/// Where the window picked by the random draw `draw` starts, in a stream of `n`
/// tokens: one of the `n - seq_len` starts that leave room for `seq_len + 1` tokens.
pub open spec fn window_start(n: int, seq_len: int, draw: u32) -> int {
    (draw as int) % (n - seq_len)
}

/// The input row of the window picked by `draw`.
pub open spec fn input_row(ids: Seq<u32>, seq_len: int, draw: u32) -> Seq<u32> {
    let s = window_start(ids.len() as int, seq_len, draw);
    ids.subrange(s, s + seq_len)
}

/// The target row of the window picked by `draw`: the input row moved on by one token.
pub open spec fn target_row(ids: Seq<u32>, seq_len: int, draw: u32) -> Seq<u32> {
    let s = window_start(ids.len() as int, seq_len, draw);
    ids.subrange(s + 1, s + seq_len + 1)
}

/// The input rows of the windows picked by `draws`, one after the other.
pub open spec fn input_rows(ids: Seq<u32>, seq_len: int, draws: Seq<u32>) -> Seq<u32> {
    draws.map_values(|d: u32| input_row(ids, seq_len, d)).flatten()
}

/// The target rows of the windows picked by `draws`, one after the other.
pub open spec fn target_rows(ids: Seq<u32>, seq_len: int, draws: Seq<u32>) -> Seq<u32> {
    draws.map_values(|d: u32| target_row(ids, seq_len, d)).flatten()
}

/// The token stream of a corpus.
pub struct Dataset {
    ids: Vec<u32>,
}

impl View for Dataset {
    type V = Seq<u32>;

    /// The tokens, in corpus order.
    closed spec fn view(&self) -> Seq<u32> {
        self.ids@
    }
}

impl Dataset {
    /// The tokens of `text` under `tokenizer`.
    pub fn from_text(text: &str, tokenizer: &Tokenizer) -> (ds: Self)
        ensures
            ds@ == encode_spec(tokenizer@, text@),
    {
        Dataset { ids: tokenizer.encode(text) }
    }

    /// How many tokens the stream holds.
    pub fn len(&self) -> (n: usize)
        ensures
            n == self@.len(),
    {
        self.ids.len()
    }

    /// The input and target rows of the windows that the random numbers `draws`
    /// pick, one window per draw.
    pub fn batch_from_draws(&self, seq_len: usize, draws: &[u32]) -> (rows: (Vec<u32>, Vec<u32>))
        requires
            seq_len < self@.len(),
            draws@.len() * seq_len <= usize::MAX,
        ensures
            rows.0@ == input_rows(self@, seq_len as int, draws@),
            rows.1@ == target_rows(self@, seq_len as int, draws@),
    {
        let max_start = self.ids.len() - seq_len - 1;
        let mut inputs: Vec<u32> = Vec::with_capacity(draws.len() * seq_len);
        let mut targets: Vec<u32> = Vec::with_capacity(draws.len() * seq_len);
        let ghost ids = self@;
        let ghost l = seq_len as int;
        let mut b: usize = 0;
        while b < draws.len()
            invariant
                ids == self@,
                ids.len() == self.ids.len(),
                l == seq_len,
                seq_len < ids.len(),
                max_start == ids.len() - seq_len - 1,
                b <= draws@.len(),
                inputs@ == input_rows(ids, l, draws@.take(b as int)),
                targets@ == target_rows(ids, l, draws@.take(b as int)),
            decreases draws.len() - b,
        {
            let start = (draws[b] as usize) % (max_start + 1);
            assert(start == window_start(ids.len() as int, l, draws@[b as int]));
            let ghost inputs_before = inputs@;
            let ghost targets_before = targets@;
            let mut j: usize = 0;
            while j < seq_len
                invariant
                    ids == self@,
                    ids.len() == self.ids.len(),
                    seq_len < ids.len(),
                    start + seq_len < ids.len(),
                    j <= seq_len,
                    inputs@ == inputs_before + ids.subrange(start as int, start + j),
                    targets@ == targets_before + ids.subrange(start + 1, start + j + 1),
                decreases seq_len - j,
            {
                inputs.push(self.ids[start + j]);
                targets.push(self.ids[start + j + 1]);
                assert(ids.subrange(start as int, start + j + 1) =~= ids.subrange(
                    start as int,
                    start + j,
                ).push(ids[start + j]));
                assert(ids.subrange(start + 1, start + j + 2) =~= ids.subrange(
                    start + 1,
                    start + j + 1,
                ).push(ids[start + j + 1]));
                j = j + 1;
            }
            proof {
                let d = draws@;
                assert(d.take(b + 1) =~= d.take(b as int).push(d[b as int]));
                let f = |x: u32| input_row(ids, l, x);
                let g = |x: u32| target_row(ids, l, x);
                assert(d.take(b + 1).map_values(f) =~= d.take(b as int).map_values(f).push(
                    input_row(ids, l, d[b as int]),
                ));
                assert(d.take(b + 1).map_values(g) =~= d.take(b as int).map_values(g).push(
                    target_row(ids, l, d[b as int]),
                ));
                d.take(b as int).map_values(f).lemma_flatten_push(input_row(ids, l, d[b as int]));
                d.take(b as int).map_values(g).lemma_flatten_push(target_row(ids, l, d[b as int]));
            }
            b = b + 1;
        }
        proof {
            assert(draws@.take(draws@.len() as int) =~= draws@);
        }
        (inputs, targets)
    }

    /// A batch of `batch_size` windows picked at random: an input tensor and a
    /// target tensor, each of shape `[batch_size, seq_len]`, row `b` of the targets
    /// being row `b` of the inputs moved on by one token. On the CPU it always
    /// succeeds.
    pub fn random_batch(
        &self,
        batch_size: usize,
        seq_len: usize,
        device: &Device,
        rng: &mut StdRng,
    ) -> (r: Result<(Tensor, Tensor), TinyGptError>)
        requires
            seq_len < self@.len(),
            batch_size * seq_len <= usize::MAX,
        ensures
            is_cpu_device(*device) ==> r is Ok,
            r matches Ok((inputs, targets)) ==> {
                &&& tensor_shape(inputs) == seq![batch_size, seq_len]
                &&& tensor_shape(targets) == seq![batch_size, seq_len]
                &&& is_cpu_device(device_of(inputs)) == is_cpu_device(*device)
                &&& is_cpu_device(device_of(targets)) == is_cpu_device(*device)
                &&& exists|draws: Seq<u32>|
                    {
                        &&& draws.len() == batch_size
                        &&& tensor_elems(inputs) == input_rows(self@, seq_len as int, draws).map_values(
                            |x: u32| x as u64,
                        )
                        &&& tensor_elems(targets) == target_rows(
                            self@,
                            seq_len as int,
                            draws,
                        ).map_values(|x: u32| x as u64)
                    }
            },
    {
        let mut draws: Vec<u32> = Vec::with_capacity(batch_size);
        let mut b: usize = 0;
        while b < batch_size
            invariant
                b <= batch_size,
                draws@.len() == b,
            decreases batch_size - b,
        {
            draws.push(next_u32(rng));
            b = b + 1;
        }
        let (input_rows, target_rows) = self.batch_from_draws(seq_len, draws.as_slice());
        proof {
            lemma_rows_len(self@, seq_len as int, draws@);
        }
        let inputs = match tensor_from_u32s(input_rows, batch_size, seq_len, device) {
            Ok(t) => t,
            Err(e) => {
                return Err(TinyGptError::Tensor(e));
            },
        };
        let targets = match tensor_from_u32s(target_rows, batch_size, seq_len, device) {
            Ok(t) => t,
            Err(e) => {
                return Err(TinyGptError::Tensor(e));
            },
        };
        Ok((inputs, targets))
    }
}

/// Each row holds `seq_len` tokens, so the rows of `draws` hold `draws.len() * seq_len`.
pub proof fn lemma_rows_len(ids: Seq<u32>, seq_len: int, draws: Seq<u32>)
    requires
        0 <= seq_len < ids.len(),
    ensures
        input_rows(ids, seq_len, draws).len() == draws.len() * seq_len,
        target_rows(ids, seq_len, draws).len() == draws.len() * seq_len,
    decreases draws.len(),
{
    if draws.len() > 0 {
        let rest = draws.drop_last();
        lemma_rows_len(ids, seq_len, rest);
        let f = |x: u32| input_row(ids, seq_len, x);
        let g = |x: u32| target_row(ids, seq_len, x);
        assert(draws.map_values(f) =~= rest.map_values(f).push(f(draws.last())));
        assert(draws.map_values(g) =~= rest.map_values(g).push(g(draws.last())));
        rest.map_values(f).lemma_flatten_push(f(draws.last()));
        rest.map_values(g).lemma_flatten_push(g(draws.last()));
        assert(draws.len() * seq_len == rest.len() * seq_len + seq_len) by (nonlinear_arith)
            requires
                draws.len() == rest.len() + 1,
        ;
    } else {
        assert(draws.map_values(|x: u32| input_row(ids, seq_len, x)) =~= Seq::<Seq<u32>>::empty());
        assert(draws.map_values(|x: u32| target_row(ids, seq_len, x)) =~= Seq::<Seq<u32>>::empty());
    }
}

/// Position `b * l + j` of the rows laid one after the other is position `j` of row `b`,
/// when every row holds `l` elements.
proof fn lemma_flatten_uniform_index(rows: Seq<Seq<u32>>, l: int, b: int, j: int)
    requires
        forall|i: int| 0 <= i < rows.len() ==> (#[trigger] rows[i]).len() == l,
        0 <= b < rows.len(),
        0 <= j < l,
    ensures
        b * l + j < rows.flatten().len(),
        rows.flatten()[b * l + j] == rows[b][j],
    decreases rows.len(),
{
    let rest = rows.drop_first();
    assert(rows.flatten() == rows[0] + rest.flatten());
    if b == 0 {
        assert(b * l + j == j) by (nonlinear_arith)
            requires
                b == 0,
        ;
    } else {
        assert forall|i: int| 0 <= i < rest.len() implies (#[trigger] rest[i]).len() == l by {
            assert(rest[i] == rows[i + 1]);
        }
        lemma_flatten_uniform_index(rest, l, b - 1, j);
        assert(b * l + j == l + ((b - 1) * l + j)) by (nonlinear_arith);
        assert(rest[b - 1] == rows[b]);
    }
}

/// In a batch, position `j` of input row `b` holds the token at `start + j` of the
/// stream and the same position of target row `b` holds the token after it, `start`
/// being draw `b` modulo the `n - seq_len` starts that leave room for a window of
/// `seq_len + 1` tokens in a stream of `n`. So each target row is its input row
/// moved on by one token.
pub proof fn lemma_batch_positions(ids: Seq<u32>, seq_len: int, draws: Seq<u32>, b: int, j: int)
    requires
        0 <= seq_len < ids.len(),
        0 <= b < draws.len(),
        0 <= j < seq_len,
    ensures
        ({
            let start = (draws[b] as int) % (ids.len() - seq_len);
            &&& 0 <= start && start + seq_len < ids.len()
            &&& input_rows(ids, seq_len, draws)[b * seq_len + j] == ids[start + j]
            &&& target_rows(ids, seq_len, draws)[b * seq_len + j] == ids[start + j + 1]
            &&& j + 1 < seq_len ==> target_rows(ids, seq_len, draws)[b * seq_len + j]
                == input_rows(ids, seq_len, draws)[b * seq_len + j + 1]
        }),
{
    let f = |x: u32| input_row(ids, seq_len, x);
    let g = |x: u32| target_row(ids, seq_len, x);
    let fi = draws.map_values(f);
    let gi = draws.map_values(g);
    assert forall|i: int| 0 <= i < fi.len() implies (#[trigger] fi[i]).len() == seq_len by {
        assert(fi[i] == input_row(ids, seq_len, draws[i]));
    }
    assert forall|i: int| 0 <= i < gi.len() implies (#[trigger] gi[i]).len() == seq_len by {
        assert(gi[i] == target_row(ids, seq_len, draws[i]));
    }
    lemma_flatten_uniform_index(fi, seq_len, b, j);
    lemma_flatten_uniform_index(gi, seq_len, b, j);
    if j + 1 < seq_len {
        lemma_flatten_uniform_index(fi, seq_len, b, j + 1);
    }
}

/// Every window has a draw that picks it: the draw `s` of a single-row batch, for any
/// start `s` below `n - seq_len` (and within `u32`), gives the input row
/// `ids[s .. s + seq_len]` and the target row `ids[s + 1 .. s + seq_len + 1]`, so
/// training can see every part of the stream.
pub proof fn lemma_every_window_reachable(ids: Seq<u32>, seq_len: int, s: int)
    requires
        0 <= seq_len < ids.len(),
        0 <= s < ids.len() - seq_len,
        s <= u32::MAX,
    ensures
        input_rows(ids, seq_len, seq![s as u32]) == ids.subrange(s, s + seq_len),
        target_rows(ids, seq_len, seq![s as u32]) == ids.subrange(s + 1, s + seq_len + 1),
{
    let d = seq![s as u32];
    let f = |x: u32| input_row(ids, seq_len, x);
    let g = |x: u32| target_row(ids, seq_len, x);
    assert(d.map_values(f) =~= seq![f(s as u32)]);
    assert(d.map_values(g) =~= seq![g(s as u32)]);
    assert((s as u32) as int == s);
    vstd::arithmetic::div_mod::lemma_small_mod(s as nat, (ids.len() - seq_len) as nat);
    seq![f(s as u32)].lemma_flatten_one_element();
    seq![g(s as u32)].lemma_flatten_one_element();
}

} // verus!
