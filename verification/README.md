# HT Dungeon core, verified

The game logic of HT Dungeon, a small real-time-with-pause dungeon crawler, as
a Verus library, with the windowed game around it.

- `src/` — the verified library (`ht_dungeon_core`):
  - `dungeon.rs`: the tile map (tiles, revisions, dirty chunks), rooms, and the
    seeded generator of a ten-room floor whose rooms are apart, floored and
    connected;
  - `grid.rs`: walks over floor tiles, side by side and in the eight
    directions of the path search, and the closure lemmas about them;
  - `pathfinding.rs`: A* over floor tiles with octile costs, proved to return
    a valid walk that cuts no wall corner, to find one whenever one exists,
    and to return a cheapest one; the rings of tiles searched around a click;
  - `inventory.rs`: item stacks;
  - `world.rs`: pause, tick, damage and its roll, rat behaviour and orders,
    attack range, loot drops, identifiers, rats per room, victory and defeat;
  - `settings.rs`: the rules an actor's settings must meet and the order in
    which they are checked;
  - `inspect.rs`: the texts of the inspect panel;
  - `snapshot.rs`, `entity.rs`: plain data handed to the renderer;
  - `random.rs`: the seeded ChaCha8 generator of `rand_chacha`, kept with
    its seed and the calls made on it, so that each draw is named as a
    function of those; generation is then proved to give one floor per seed.
- `app/` — the program: window, input, rendering, interface, configuration
  file, and the continuous (floating-point) movement, collision and combat
  geometry, which call into the library for every decision above.
- `tests/` — tests of the library on concrete values.
