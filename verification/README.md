# quad

The core of a small game engine, written in Verus and verified.

- `src/ecs`: the entity-component world. Entities are generational handles; a world
  holds each entity's components (keyed by component id), its parent and children, and
  the world's resources. Commands record changes to apply later, queries select the
  entities that have a set of components, and systems declare the access they need.
- `src/input`: keyboard, mouse and touch state: what is held down, and what was pressed,
  released or cancelled this frame.
- `src/render`: which entities are visible (visibility inherited through the hierarchy,
  and the entities each view sees), draw functions and batching of phase items, and the
  pipeline cache that compiles pipelines once their shaders are loaded, which colors the
  clear pass clears with, and what a frame drops once the render graph has run. The GPU
  device's work is handed to the cache as functions.
- `app`: what stays outside the verified library: logging, and what carries
  floating-point values (mouse motion, the camera projection).
- `tests`: tests of the library, run against the compiled crate.
