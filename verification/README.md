# pixel_terrain

The rules of a 2D mining game whose world is a grid of material pixels,
written in Verus and proved against their contracts.

`src/` is the verified library:

- `util` — world coordinates, their split into chunk and local
  coordinates, grid indexing, and the text form of a grid.
- `components` — the terrain as chunks keyed by chunk coordinates
  (`ChunkMap`), the set of pixels gravity still has to visit
  (`GravityCoords`), and plain data components.
- `color_map` — material codes, the material classes the rules use, sell
  values, and random material variants (via `rand`'s small generator,
  seeded by a `u64` that `app/` draws from the operating system).
- `tools` — cursor images, what the shovel shows of its load, digging and
  placing with the shovel, the pickaxe, the hoe, and mouse-click dispatch.
- `world_generation` — gravity and selling, the sell box, ore planting and
  the first terrain.
- `chunk_generator` — terrain of a chunk from per-column noise heights.
- `player` — the player's sprite and its collisions with the terrain.
- `drill` — machines boring through a chunk-sized grid, stepped on a
  timer.
- `render` — which chunk each terrain tile around the player shows, or
  asks to have generated.

`app/` is the Bevy program around it: windows, input, rendering, timers,
Perlin noise and the floating-point physics, which hand the library plain
integers and byte grids.
