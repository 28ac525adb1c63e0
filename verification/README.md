# slang_preview

The verified core of a RetroArch slang shader previewer, written in Verus.

- `src/` is the library: the preview frame format and CPU frame sources,
  still-image decoding, `.slang` preprocessing and `#include` expansion, the
  glslang / spirv-opt output handling, the push-constant and combined-sampler
  SPIR-V rewrites from words to words (decided over plain instruction values,
  with the def-before-use ordering of the global section, then applied to the
  loaded instructions and encoded again), reflection merging, the
  shader cache's bookkeeping, the bind table, chain-level texture routing and
  framebuffer planning, the per-frame framebuffer plan (ownership, staleness,
  the feedback ping-pong), the renderer's frame state (readiness, frame
  counter, history ring) and size builtins, viewport geometry, and the live
  preview loop's pump control and streamed frames. Its functions are proved
  against their contracts, except a few small trusted wrappers around outside
  crates (the `image` decoder, the rspirv loader, SPIR-V opcode names, string
  building), whose contracts state what those crates' sources show.
- `tests/` exercises the library on concrete values.
- `app/` is the ordinary Rust around it: running `glslangValidator` and
  `spirv-opt`, reading files, naga reflection, the floating-point uniform and
  scale values, the wgpu bind-group layout, and the preview loop's tick
  around the GPU chain.
