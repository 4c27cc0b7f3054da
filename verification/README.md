# engine0

A deterministic request lifecycle for a tiny inference engine, written in
Verus: every function of the library carries a contract, and the contracts
are proved.

A request's text crosses a tokenizer (a byte oracle, a byte-pair tokenizer
with a merge table, and a four-token vocabulary), a chat template adds
control tokens around ordinary content, and the runtime asks a candidate
source for scored candidates until an end token, the token limit,
cancellation, or a failure ends the request. Token identities and complete
UTF-8 text pieces are streamed as separate ordered events, followed by
exactly one terminal event.

## Layout

- `src/lib.rs`: requests, tokens, the lifecycle, the runtime, and the
  specification of a run (`run_step`, `run_from`, `generation`) that
  `Runtime::generate` is proved against.
- `src/run_laws.rs`: what every run guarantees (one terminal event, token
  events in order, the streamed text equals the tokens' bytes, cancellation
  and limits respected).
- `src/tokenizer.rs`, `src/chat.rs`, `src/utf8.rs`, `src/tokenizer_laws.rs`:
  tokenizers, chat templates, streaming UTF-8 decoding, and their laws.
- `src/tensor.rs`, `src/linear.rs`, `src/embedding.rs`, `src/parameters.rs`,
  `src/normalization.rs`,
  `src/sampling.rs`: the checked integer arithmetic of the numerical
  substrate (shapes, strides, offsets, layouts, shape checks, the SplitMix64
  generator).
- `src/cli.rs`: the command-line grammar of the demo program.
- `app/`: the `engine0` program (console sinks, the `tokenize`, `decode` and
  generation commands) and the single-precision tensors, kernels, model,
  normalization, and sampling, which compute with floating point.
- `tests/`: tests of the library on concrete values.
