# rustycsv

CSV parsing and encoding for Elixir, as a verified Rust library with a thin
NIF layer around it.

- `src/` is the library, verified with Verus: the structural scanner and the
  structural index (`base/`), the batch, two-phase, zero-copy, parallel,
  general (multi-byte separators, escapes and newlines) and streaming parsers
  (`strategy/`), field quoting and target encodings, the encoder
  (`encoder.rs`), the choice of parser for a configuration and the shape of
  its results (`dispatch.rs`), and the streaming parser of any kind
  (`resource.rs`). Contracts are stated over sequence models; the laws that
  relate the parsers to each other and to the encoder are proof functions
  named `law_*`; `strategy/stream_agreement.rs` and
  `strategy/general_agreement.rs` show that the streaming parsers give the
  batch parsers' rows however their input is cut into chunks.
- `tests/` runs the library on concrete inputs.
- `app/` is the NIF layer: decoding Erlang arguments, the parser resource
  behind a mutex, the thread pool, and building result terms.
