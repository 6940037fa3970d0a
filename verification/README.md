# veridex-core

Deterministic validation of robotics datasets: a registry of checks over a common dataset model, a
verdict with a trust score, and signed certificates and attestations that can be verified offline.

- `src/` is the library, verified with Verus: every function states what it returns, and the laws that
  relate functions are public proof functions named `law_…`.
- `tests/` runs it on concrete values.
- `app/` is what surrounds it: files, TOML, JSON, the environment, and checks that panic.

A verdict's content hash and the signatures of certificates and attestations are taken over JSON
documents that the library builds itself: `src/records.rs` and `src/certificate/content.rs` say which.

Doubles stand in the model by their bits. `src/double.rs` gives the exact result of adding,
subtracting, multiplying and dividing them and of taking square roots, rounded to nearest with ties to
even; the checks compute with it. `src/decimal.rs` writes them in decimal, with a number of digits or
with the fewest that read back.
