# rav1d_dsp

Filters of an AV1 decoder, written in Verus: the deblocking loop filter, the constrained directional
enhancement filter (CDEF), the eight-tap and warping filters of motion compensation, and the registration of
the function that starts worker threads where only the embedder can.

Each filter has a contract that gives every pixel it writes. The filters that work on eight 16-bit lanes at a
time are proved to give what their formulas give in unbounded arithmetic, for strengths and filters whose sums
fit the lanes.

* `src/arith.rs`, `src/bitdepth.rs`, `src/picture.rs`: numbers, pixels and planes.
* `src/simd.rs`: vectors of lanes.
* `src/loopfilter.rs` and `src/loopfilter/`: the filter of one edge (`edge` is its model, `wasm` works in
  lanes, `agree` proves that they agree, `effect` says what stays unchanged), of a superblock (`superblock`,
  with a test in `readable` of what it looks at), and the choice between implementations (`dsp`).
* `src/cdef/`: CDEF in lanes (`wasm`), its model in unbounded arithmetic (`scalar`) and what it keeps
  (`effect`).
* `src/mc/`: motion compensation (`wasm`, `warp`) and its laws (`exact`).
* `src/wasm_thread.rs`, `src/c_types.rs`: the thread spawner, C types and `errno` values.
* `app/`: the spawner of the process and the assembly functions of the loop filter.
