# alengine

The verified core of a small WebGPU engine for the browser.

- `src/` — the library, verified with Verus:
  - `ecs/`: entities with generations and a recycling pool, archetypes
    stored as byte columns, and the world that locates each entity's
    components. Adding a component moves an entity to the archetype of its
    component types plus the new one, carrying its other components
    along (`migration.rs` proves how rows move); `world_laws.rs` states
    what the operations keep and what they leave untouched.
  - `models_3d/`: the topology of the subdivided icosphere.
  - `models/`: typed asset handles and the scene.
  - `render/`: GPU constants, guide shaders and line indices, map tile
    triangulation, camera modes, input and guide visibility.
- `app/` — the WebAssembly front end: WebGPU and DOM calls, floating-point
  maths (transforms, cameras, geography, vertex positions), and a typed
  layer over the library's byte-level world.
- `tests/` — tests of the library.
