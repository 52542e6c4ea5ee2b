# audioverse_core

The verified core of an audio-first game engine.

- `src/` is the library, written in Verus: every function carries a
  contract that Verus proves, except four small wrappers around crossbeam's
  `SegQueue` (in `event_bus`), whose contracts are trusted.
  - `graph`, `navmesh`, `pathfinding`: adjacency of navigation polygons and
    of portal-connected spaces, best-first searches that return a walk
    exactly when one exists, and the route between spaces: follow a walk
    when there is one, else head straight for the goal space.
  - `event_bus`: topics, priorities and bounded publishing; draining hands
    every queued event out once, highest priority first and in publishing
    order within a priority, with the subscriptions that receive it. The
    ordering keys of queued events travel through crossbeam's `SegQueue`,
    whose methods the library reaches through small trusted wrappers.
  - `ringbuffer`: a ring of samples that keeps one slot free.
  - `planar`: interleaving and deinterleaving of channel buffers.
  - `world`: the id-to-entity map of world loading, the whole load of a
    world description, and the parenting step.
  - `audio_world`: which entity plays through which renderer source, which
    entities have a transform, and the cache of keys that the per-frame
    update walks.
  - `control`, `components`, `rendering`: player-control decisions and the
    engine's plain types.
- `app/` holds what Verus does not check: floating-point geometry (glam),
  JSON world descriptions (serde), the typed event bus with its handler
  closures, and Bevy systems that call into the library.
- `tests/` exercises the library.
