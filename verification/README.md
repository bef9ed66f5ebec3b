# korchevatel

Game logic of a side-scrolling shooter in which characters walk on several depth
layers, verified with Verus.

- `src/` is the verified library:
  - `layer.rs`: depth layers as one-bit masks, their order and rotation, and the
    parsing of `Layer <number>` map-layer names;
  - `nav_grid.rs`: the navigation grid (ground and obstacles per cell and layer) and
    an A* search whose result is proved to be exactly that of the search step by step
    up to its limit (`outcome`), whose found paths are valid and cheapest, and which
    finds every existing path once the limit exceeds `search_bound`;
  - `timer.rs`: frame and cooldown timers, advanced by `bevy::time::Timer`;
  - `animation.rs`: the sprite-animation state machine, with its frame table in
    bevy's `HashMap`;
  - `attack.rs`: the attack state machine (two shots are proved to be at least
    aim plus cooldown apart), the order in which targets are tried and
    the layers that can stand between shooter and target;
  - `movement.rs`: layer-change decisions, the ground probe and input axes;
  - `hit.rs`: the random bullet-hole sprite.
- `tests/` runs the library on concrete values.
- `app/` is the bevy game around the library: systems, physics queries,
  floating-point motion, the camera and asset loading.
