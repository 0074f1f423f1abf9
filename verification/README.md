# vackrooms

The deterministic core of a voxel world generator, written in Verus and
proved against its contracts: dense voxel grids, sparse voxel octrees built
from grids or samplers, bricked and deduplicated octree encodings, cellular
automata for decay and wall growth, the office-maze blueprint and its
drawing into voxels, Menger partitions of floor plates, air-only light propagation, frame-rate
hysteresis and triangle budgets, and the stable addressing of recursive
levels and infinite region windows.

## Layout

- `src/` — the verified library. Each module states its behaviour as
  `requires`/`ensures` over spec functions, and the laws that relate several
  operations (round trips, idempotence, determinism, invariants) as public
  proof functions whose names start with `law_`.
- `tests/` — executable tests of the library on concrete values.
- `app/` — ordinary Rust around the library: floating-point world
  coordinates, light attenuation, distance-ordered frame budgeting, the
  rectangle arithmetic of Menger partitions, and the zone noise and
  world-space layout of office chunks. An office chunk's voxels are all
  written by the library's drawing routines, and its room, hallway, doorway
  and stamp choices are made by the library from the rolls drawn for them;
  what stays in `app/` is the conversion between world units and voxels and
  the draws whose probabilities are floating-point.

Randomness comes from the `rand` crate, called from `src/` through small
trusted wrappers whose contracts state only what `rand` documents.
