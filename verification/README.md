# orion-serve

The logic of an LLM inference server, verified with Verus: a paged KV cache with
prefix sharing, a continuous-batching scheduler, the engine step, streaming
detokenization with stop strings, an OpenAI-compatible API, checkpoint loading,
and a load generator's measurements.

- `src/` is the library. Every function states in its contract what it does, and
  Verus proves it. What relates several functions stands beside them in proof
  functions whose names begin with `law_`.
- `app/` is the `orion` program around it: HTTP, files, threads, random numbers,
  and the floating-point kernels of the forward pass, which run what the library
  plans.
- `tests/` runs the library, with the outside crates linked.

Floating-point numbers enter the library as bit patterns (`float::Float32`):
they are compared, ordered and moved, and never computed with. Time enters as
nanoseconds, ids come from a counter that the caller owns, and rates leave as
exact ratios.

What the library takes from outside crates is declared in
`tokenizer/hf.rs` (tokenizers, serde_json), `models/loader.rs` (safetensors,
half), `bench/sample.rs` (serde_json) and `api/types.rs` (uuid), each with what
is believed of it.
