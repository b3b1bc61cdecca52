# argus_kv

The K/V cache of a transformer's decoder, with its rules proved in Verus: which rows a cache holds,
what an eviction, a merge, a re-encode or a swap does to them, which plan a selector picks and applies,
and which elements a step of attention reads.

- `src/` is the library. Every function in it is verified against its contract, but for six small
  wrappers around calls of `serde_json`, whose contracts are believed.
- `tests/` runs the library on concrete values, with small floating-point doubles for what a backend
  would compute.
- `app/` is ordinary Rust around the library: floating-point row arithmetic, the attention kernels, the
  clock, the keep-set file, the swap directory, OpenCL buffers and the switches that come from
  environment variables.

Rows are bytes to the library. Numbers of single precision appear as their bit patterns, and where
arithmetic on them decides, it comes in through a trait whose methods promise nothing: contracts then
say which answers were used for what. `serde_json` builds and writes the keep-set document; what is
believed of it stands in `src/json.rs`.
