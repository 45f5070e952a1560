# terrashin

Node-based terrain generation. The verified library (`src/`) holds the node
graph and the decisions of its evaluation; the program around it (`app/`)
records the GPU work that those decisions call for.

- `src/terrain/node.rs`: a node's named input and output ports and its dirty flag.
- `src/terrain/graph.rs`: nodes by id, connections between ports, the
  children and parents of each node, and marking dirty everything downstream.
- `src/terrain/evaluation.rs`: what evaluating a node means (its
  dependencies first, each dirty node encoded once, each input handed the
  output it takes before its node is encoded) and the laws that it obeys.
- `src/terrain/executor.rs`: the steps of an evaluation, computed on a graph.
- `src/terrain/termination.rs`: a depth-first search that decides whether an
  evaluation ends (no missing node, no cycle of connections).
- `src/terrain/resource_registry.rs`: GPU textures and views by resource key.
- `app/`: the window, the GPU context and renderer, and the node kinds that
  record GPU work (Perlin noise, solid color).

The Perlin noise node reads its WGSL shader from `shaders/perlin_noise.wgsl`
in the working directory, at start-up.
