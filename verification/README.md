# vello (verified core)

The logic of the Vello renderer that decides rather than draws, verified
with Verus:

- `aa`: the anti-aliasing methods and the sets of them a renderer supports.
- `bump`: sizing of the GPU bump buffers. A frame reports how much space each
  buffer needed; `BumpAllocators::reallocate` grows the buffers that ran out
  with `grow_within_binding_limit`, which never asks the device for more than
  it can bind. `ReadbackQueue` keeps the readback two frames behind, and
  `next_readback_step` waits on the device for it only while its completion
  flag is unset.
- `image_cache`: the image atlas cache. Images are packed into an atlas
  (`guillotiere`), uploaded when new or dirty, evicted when stale, and the
  atlas grows and shrinks by repacking. The invariant ties every resident
  image to its own allocation inside the atlas, and keeps any two resident
  images from overlapping. Where the allocator places a request is named
  rather than modelled, so a repack, a growth step or a placement is stated
  exactly in terms of that name.
- `atlas`: the contracts assumed of `guillotiere::AtlasAllocator`.

`app/` holds what stays outside the proofs: conversion from `peniko`
images, decoding and logging of GPU readbacks, the wait on a readback, and `RenderParams`, whose
background color is a floating point color.
