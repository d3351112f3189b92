# dualis

The discrete layer of a physics kernel for simulated worlds, written in Verus: what can be
decided about a simulation without a real number in sight, stated in contracts and proved.

## What is proved (`src/`)

| Module | |
| --- | --- |
| `rng` | A seeded xorshift64* stream: exact state and output of every draw, and a state that never reaches zero |
| `grid` | Row-major layout of a 3-D grid, the set of held degrees of freedom, filling cells with a palette entry |
| `block` | The faces of a rectangular elastic block and what a clamp, roller, pin or prescribed boundary holds |
| `waves` | The same for an elastic body that carries waves, with a material palette per element |
| `cavity` | The Yee-grid layout of an electromagnetic cavity: staggered extents, wall pairs, the cells each sample borders, media per cell, and the wall passes — zeroing the tangential field on conducting faces and mirroring it across magnetic ones |
| `acoustic` | The staggered node and face layout of a hall and a room, and which faces exist at a rigid wall |
| `transform` | The quadrant shift of a spectrum and the bit-reversed order of a radix-2 transform |
| `material` | Glass catalogue keys, insensitive to case and punctuation |
| `scene` | The face-count check a flux must pass before it is laid over a boundary |
| `sim` | A scheduler's decisions: substeps per domain, and when an iterative coupling stops |

Laws that span several calls are public proof functions beside the code they are about (for
example `lemma_shift_twice_is_identity`, `lemma_bit_reversal_undoes_itself`,
`lemma_coupling_stops_at_the_first_settled_pass`, `lemma_a_face_is_shared`,
`lemma_a_magnetic_face_reads_one_cell_in`).

## Around it (`app/`)

Ordinary Rust for what the library does not hold: floating-point work (the butterflies of the
Fourier transform, optics, spectra, conservation audits, sampling) and the scheduler loop that
steps user-supplied domains, each asking the library for its decisions.

## Tests

`tests/` runs the library on concrete values; each law has at least one test.
