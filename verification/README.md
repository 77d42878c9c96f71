# tsplat

A terminal viewer for 3D Gaussian splat scenes (INRIA `.ply` files), drawn
with half-block characters or through the Kitty graphics protocol.

The crate is split in two:

- `src/` is the library, verified with Verus. It holds the logic of the
  viewer as functions with contracts: the splitmix64 scene generator
  (`rng`), the PLY header, record layout and subsampling (`ply`, on top of
  the character handling in `text`), the stable radix depth sort and its
  parallel variant (`depth_sort`, `parallel`), tile binning and the tile
  geometry of the parallel compositor (`tiles`), the terminal encoders
  (`ansi`, `framebuffer`, `display`: half blocks, Base64 and Kitty frames,
  terminal replies), the HUD state machine and its drawing (`hud`), the
  key bindings (`controls`) and the benchmark's command line (`bench`).
- `app/` is the program around it: argument parsing, the terminal session,
  tty probes, file reading, and the floating-point parts of rendering
  (camera, projection, compositing, colour conversion), which Verus does
  not model.

Started under the name `bench_forward` (for instance through a symbolic
link), the program runs the forward-pass benchmark instead of the viewer.
