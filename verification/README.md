# lineartgen

The logic of a line-art diffusion model: what a scribble is turned into before
the model sees it, how large each level of its pyramid is, how its layers fit
together, how datasets are split and sampled, and how a training step is put
together. The library is written in Rust and verified with Verus.

- `src/inference`: requests, the pyramid plan, the pixels of inputs and outputs,
  the denoising schedule
- `src/model`: the geometry of the U-Net
- `src/recursion.rs`: running a model over several resolutions
- `src/data`: directories of images, datasets at several scales, batches
- `src/image_io`: reading, cropping and writing images
- `src/train`: noise regions, noise matching, losses, micro batches, samples,
  settings
- `src/json.rs`, `src/paths.rs`, `src/text.rs`, `src/ieee.rs`, `src/seeds.rs`,
  `src/rng.rs`: what the others rest on

Numbers with a fraction never enter the library. Settings that it only compares
are held as the bits of their floating-point format, tensors are values of a type
parameter, and what is computed on them is handed in as functions.

`app/` is the program around the library: the command line, files, tensors and
the Python extension.
