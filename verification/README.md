# goetia

The deterministic core of a data-oriented game engine, written in Verus and
proved against its contracts:

- `ecs` — archetype ECS with generational entities, resources and a deferred
  command buffer; queries are exactly the live entities holding the asked
  components.
- `schedule` — batches systems by their read/write sets; every batch is
  conflict-free and the batches cover the systems in order.
- `pcg`, `hash` — PCG-XSH-RR streams (named, independent), Lemire ranges,
  Fisher–Yates; FNV-1a state hashing.
- `events` — double-buffered events that live exactly one extra tick.
- `combat`, `stats`, `triggers` — status lifecycle, layered stat sheets,
  the budgeted trigger queue.
- `rooms`, `table` — seeded realm assembly (rooms never overlap, the layout is
  a tree of real door pairs) and pity-counting weighted tables.
- `data`, `input`, `ui`, `vocab` — data registry and save container
  bookkeeping, input edge detection, the bitmap font atlas, game vocabulary.

`app/` is the unverified shell: the f32/f64 arithmetic (clock, weighted
draws, stat evaluation, trigger falloff), the job pool and parallel schedule
runner, RON files on disk, and a headless driver (`main.rs`).
