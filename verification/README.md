# rust_ai_runtime

A small local inference runtime whose logic is verified with Verus.

- `src/text.rs`: words, lines, trimming, joining, substring search, ASCII
  case-insensitive comparison and unsigned-number parsing over character
  sequences.
- `src/tokenizer.rs`: the word tokenizer; encoding and decoding with the
  round-trip and id-stability laws.
- `src/inference/`: the inference context and result, the `InferenceModel`
  trait, the keyword rule model (rules read from JSON through `serde_json`), the
  Markov model (transitions learned from a corpus, walks chosen through `rand`),
  and the engine that switches between models.
- `src/cli.rs`, `src/config.rs`: the command line and the `key = value`
  settings, each specified as a function of its input.
- `src/history.rs`: history records and the newest-first listing.
- `src/model.rs`, `src/runtime.rs`, `src/scheduler/`: model metadata, single
  inferences, model aliases and engine assembly, batch prompts and record
  ids, benchmark totals, tasks, workers and the pool size.
- `app/`: the program: argument and file reading, JSON history files, printing,
  and the Tokio worker pool and benchmark.
