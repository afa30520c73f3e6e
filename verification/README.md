# simd_kernels

Pixel compositing kernels in the shape of the LoongArch vector extensions, and
the detection of vector features at run time, verified with Verus.

- `src/lane.rs`: the arithmetic of one 16-bit lane.
- `src/vector.rs`: vector operations on sequences of lanes.
- `src/m128.rs`, `src/m256.rs`: the registers and the LSX and LASX operations
  on them, in portable code.
- `src/pixel.rs`: what the kernels compute, pixel by pixel.
- `src/chunk.rs`: how a chunk of pixels travels through a register.
- `src/lsx.rs`, `src/lasx.rs`: the kernels.
- `src/cpuid.rs`: feature detection. It executes `CPUID`, so the library builds
  for x86-64.
- `src/laws.rs`: what holds of the kernels and of the detection as a whole.
- `app/`: the reads of the machine that need `unsafe`, and the floating-point
  positions of gradients.
