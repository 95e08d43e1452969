# render_graph

A render-graph core for a `wgpu` rendering framework, written in Verus.

Passes are added to a per-frame graph with builders; each pass names the
resources (textures, buffers) it reads and writes through handles that the
graph's registries hand out. Compiling the graph orders the passes so that
every pass writing a resource runs before the passes reading it (or reports
that the dependencies run in a cycle), computes the first and last position at
which each resource is used along that order, and says which render passes to
record and what they draw into.

## Layout

- `src/` — the verified library.
  - `types.rs`: handles, node descriptions, transfer operations, descriptors.
  - `slots.rs`: the trusted interface to `slotmap` (slot maps and sparse
    secondary maps, held opaquely and described by what they contain).
  - `registry.rs`: a registry that stores each distinct descriptor once and
    hands out one handle per registration.
  - `order.rs`: dependencies between passes, execution orders, and the
    first-in, first-out topological sort with its proofs.
  - `lifetime.rs`: resource lifetime analysis along an execution order.
  - `graph.rs`: the render graph, its pass builders and the compilation plan.
  - `app_loop.rs`: the event-loop decisions of the windowed application.
  - `camera.rs`: the application's camera.
- `tests/` — tests of the library on concrete graphs.
- `app/` — the program around the library: the `winit` event loop, the `wgpu`
  device and surface, GPU resources (shaders, pipelines), and the recording of
  compiled render passes on the GPU.
