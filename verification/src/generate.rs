//! The bookkeeping of autoregressive generation: the tokens so far (the prompt's,
//! then one per sampled token), the position at which each new token is fed back
//! to the model, when to stop, and the text that comes out. The model and the
//! sampler themselves run outside, on floating-point logits.
use vstd::prelude::*;

use crate::tokenizer::{decode_spec, encode_spec, ids_in_range, Tokenizer};

verus! {

/// The state of one generation run.
pub struct GenerationState {
    tokens: Vec<u32>,
    prompt_len: usize,
    max_new_tokens: usize,
}

impl GenerationState {
    /// The tokens so far: the prompt's, then the sampled ones.
    pub closed spec fn tokens_spec(self) -> Seq<u32> {
        self.tokens@
    }

    /// How many of the tokens come from the prompt.
    pub closed spec fn prompt_len_spec(self) -> nat {
        self.prompt_len as nat
    }

    /// How many tokens the run samples in all.
    pub closed spec fn max_new_spec(self) -> nat {
        self.max_new_tokens as nat
    }

    #[verifier::type_invariant]
    spec fn consistent(self) -> bool {
        &&& self.prompt_len <= self.tokens@.len()
        &&& self.tokens@.len() <= self.prompt_len + self.max_new_tokens
    }

    /// Starts a run: the prompt's tokens under `tokenizer`, and `max_new_tokens`
    /// tokens to sample after them.
    pub fn start(tokenizer: &Tokenizer, prompt: &str, max_new_tokens: usize) -> (state: Self)
        ensures
            state.tokens_spec() == encode_spec(tokenizer@, prompt@),
            state.prompt_len_spec() == state.tokens_spec().len(),
            state.max_new_spec() == max_new_tokens,
    {
        let tokens = tokenizer.encode(prompt);
        let prompt_len = tokens.len();
        GenerationState { tokens, prompt_len, max_new_tokens }
    }

    /// The tokens so far: the prompt's, then the sampled ones.
    pub fn tokens(&self) -> (ids: &[u32])
        ensures
            ids@ == self.tokens_spec(),
    {
        self.tokens.as_slice()
    }

    /// The prompt's tokens, fed to the model at positions `0 ..`.
    pub fn prompt_tokens(&self) -> (ids: Vec<u32>)
        ensures
            ids@ == self.tokens_spec().take(self.prompt_len_spec() as int),
    {
        proof {
            use_type_invariant(self);
        }
        let mut ids: Vec<u32> = Vec::with_capacity(self.prompt_len);
        let mut i: usize = 0;
        while i < self.prompt_len
            invariant
                self.prompt_len <= self.tokens@.len(),
                i <= self.prompt_len,
                ids@ == self.tokens@.take(i as int),
            decreases self.prompt_len - i,
        {
            ids.push(self.tokens[i]);
            assert(self.tokens@.take(i + 1) =~= self.tokens@.take(i as int).push(self.tokens@[i as int]));
            i = i + 1;
        }
        ids
    }

    /// How many tokens came from the prompt.
    pub fn prompt_len(&self) -> (n: usize)
        ensures
            n == self.prompt_len_spec(),
    {
        self.prompt_len
    }

    /// Whether every token to sample has been sampled.
    pub fn is_done(&self) -> (done: bool)
        ensures
            done == (self.tokens_spec().len() == self.prompt_len_spec() + self.max_new_spec()),
    {
        proof {
            use_type_invariant(self);
        }
        self.tokens.len() - self.prompt_len == self.max_new_tokens
    }

    /// Takes the sampled token `id` and returns the position at which it is fed
    /// back to the model: the number of tokens before it.
    pub fn push_token(&mut self, id: u32) -> (position: usize)
        requires
            old(self).tokens_spec().len() < old(self).prompt_len_spec() + old(self).max_new_spec(),
        ensures
            position == old(self).tokens_spec().len(),
            final(self).tokens_spec() == old(self).tokens_spec().push(id),
            final(self).prompt_len_spec() == old(self).prompt_len_spec(),
            final(self).max_new_spec() == old(self).max_new_spec(),
    {
        proof {
            use_type_invariant(&*self);
        }
        let position = self.tokens.len();
        let mut taken = GenerationState {
            tokens: Vec::new(),
            prompt_len: 0,
            max_new_tokens: 0,
        };
        std::mem::swap(&mut taken, self);
        let GenerationState { mut tokens, prompt_len, max_new_tokens } = taken;
        tokens.push(id);
        *self = GenerationState { tokens, prompt_len, max_new_tokens };
        position
    }

    /// Whether every token so far names a character of `tokenizer`'s vocabulary,
    /// so that the run's text can be decoded.
    pub fn tokens_known(&self, tokenizer: &Tokenizer) -> (known: bool)
        ensures
            known == ids_in_range(tokenizer@, self.tokens_spec()),
    {
        let n = tokenizer.vocab_size();
        let mut i: usize = 0;
        while i < self.tokens.len()
            invariant
                i <= self.tokens@.len(),
                n == tokenizer@.len(),
                forall|j: int| 0 <= j < i ==> (#[trigger] self.tokens@[j] as int) < n,
            decreases self.tokens@.len() - i,
        {
            if self.tokens[i] as usize >= n {
                return false;
            }
            i = i + 1;
        }
        true
    }

    /// The text of every token so far, prompt and sampled, under `tokenizer`.
    pub fn text(&self, tokenizer: &Tokenizer) -> (text: String)
        requires
            ids_in_range(tokenizer@, self.tokens_spec()),
        ensures
            text@ == decode_spec(tokenizer@, self.tokens_spec()),
    {
        tokenizer.decode(self.tokens.as_slice())
    }
}

/// Decoding keeps one character per token: the text of a run that has sampled
/// all `max_new` tokens after `prompt_len` prompt tokens has `prompt_len + max_new`
/// characters.
pub proof fn lemma_finished_text_len(v: Seq<char>, tokens: Seq<u32>, prompt_len: nat, max_new: nat)
    requires
        tokens.len() == prompt_len + max_new,
    ensures
        decode_spec(v, tokens).len() == prompt_len + max_new,
{
}

} // verus!
