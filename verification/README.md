# embedded_graphics_readback

A pixel-readback capability for `embedded-graphics` draw targets, written in
Verus and verified.

Compositing (antialiased edges, translucent fills, blend modes) blends a
foreground colour into whatever a target already holds. `ReadbackTarget` is a
draw target that can report that: `read_pixel` reads one pixel and
`read_area` copies a region out row-major. The layers in `adapters` carry the
capability through a pipeline: `Shifted` moves the origin, `Windowed`
restricts the target to a sub-region with its own origin, `Masked` restricts
it in the parent's coordinates.

## Layout

- `src/lib.rs`: the `ReadbackTarget` trait, the model its contracts speak of
  (each target is its bounding box and the colour it holds at each point of
  the integer plane, holding one exactly inside the box), the per-pixel read
  loop and `read_area_with`, its entry point for targets with a faster
  per-pixel read, and the laws relating reads and writes. The contracts
  describe a target's colours only where it obeys the model
  (`obeys_model`); a target written in plain Rust cannot, and is promised
  nothing.
- `src/canvas.rs`: `Canvas`, an in-memory framebuffer verified against the
  model, the reference target for everything the trait and the layers state.
- `src/geometry.rs`: points, sizes and rectangles as plain values, the
  row-major point walk of a rectangle, and the calls into
  `embedded-graphics-core` for point arithmetic, `Rectangle::contains` and
  `Rectangle::intersection`, with their contracts.
- `src/adapters.rs`: the three layers, their contracts, and their laws. Each
  layer's constructor ties the target's value after the layer ends to the
  layer's last view of it, and `lemma_released` gives that value once the
  layer is done, so writes through a layer can be read back underneath.
- `tests/`: the test suites, run against the compiled library.
- `app/`: glue to `embedded-graphics` that is not verified: geometry
  conversions, a readback target over `embedded_graphics::framebuffer::Framebuffer`
  (whose `read_area` builds the backing image once per region and walks it
  with `read_area_with`), and an `embedded-graphics` `DrawTarget` over any
  readback target.
