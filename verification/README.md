# tinygpt-rs

A small GPT-style decoder-only transformer on top of candle, with the parts
that are not floating-point arithmetic written as a verified library.

- `src/` is the library, verified with Verus: the character-level tokenizer
  (`tokenizer`), the token stream and its training windows (`data`), the
  key/value cache (`kv_cache`), the causal mask pattern (`attention`), the
  top-k cut of sampling (`sampling`) and the bookkeeping of generation
  (`generate`). `tensor` declares the candle and rand values that the library
  carries and wraps the few calls it makes into those crates.
- `app/` is the command-line program (`train`, `generate`, `ablate`) and the
  model itself: attention, RMSNorm, SwiGLU, decoder blocks, the training loop
  and the sampler compute on floats with candle and stay there.
- `tests/` runs the library.
