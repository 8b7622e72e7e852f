# lostcoast

A small Vulkan renderer with a radiosity light baker and screenshot
regression tools.

- `src/` is the verified library: lightmap chart packing, the checkerboard
  texture and mip chains, mesh index buffers, the baker's random numbers and
  BVH build, probe-volume indexing, swapchain and device choices,
  frame pacing, offscreen read-back, SPIR-V word decoding, command-line and size parsing, image
  comparison, the frame-time window, fly-camera key state and the viewer's
  event decisions. Every function there carries a contract, proved along with it.
- `app/` holds the programs around it: the viewer window, the Vulkan
  passes, the floating-point shading and radiosity code, and the
  `lightbaker`, `render_ref`, `diff` and `stages` tools, chosen by the name
  the program runs under.
- `tests/` runs the library on concrete values.
