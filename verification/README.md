# perf_model

A performance model for timing simulations of an inference engine, verified with
Verus. It predicts how many milliseconds the prefill and the decode step of a
batch take:

- from hardcoded polynomials (the default),
- by interpolation in profiler data, with a legacy prefill table over the total of
  new tokens or a batch-aware prefill surface over batch size, fresh tokens and
  prefix tokens per request, and a decode table over active KV tokens and context
  length,
- or by asking a timing service.

## Layout

- `src/model.rs`: the model and its predictions.
- `src/interpolator.rs`: what a model asks of its sources of timings.
- `src/profile.rs`, `src/npz.rs`: which arrays a profile is made of, what is checked
  of them, and the steps by which a model is loaded.
- `src/surface.rs`, `src/axis.rs`: the batch-aware surface and its axes.
- `src/double.rs`, `src/rounding.rs`: double precision numbers as their 64-bit
  encodings, with correctly rounded arithmetic. An operation is specified by the
  exact result that it rounds, counted in units of the smallest positive double.
- `src/text.rs`: the words of the error messages.
- `src/laws.rs`: theorems about the library as a whole.
- `src/accuracy.rs`: how far rounded results are from exact ones, from a single
  operation to an interpolated time.
- `src/utilization.rs`: how the polynomial decode time depends on the share of
  active KV tokens.
- `app/`: the same model over machine floats, which reads archives and builds the
  tables of `ndarray_interp`.
- `tests/`: concrete cases, among them a comparison with the machine's arithmetic.
