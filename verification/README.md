# chunkedge_schematics

Loads Minecraft schematics — Sponge `.schem` (v1–3), Litematica `.litematic`
and vanilla structure `.nbt` files — into one canonical, palette-indexed
`Schematic`, and plans how it is pasted into a world. The library in `src/` is
written in Verus: every loader is proved to return exactly the schematic its
specification assigns to the input NBT, or the error it names.

## Layout

- `src/nbt.rs` — the NBT value model the loaders read.
- `src/block.rs` — block-state strings (`minecraft:oak_stairs[facing=east]`)
  and `Name`/`Properties` palette entries.
- `src/schematic.rs` — the canonical `Schematic` (cells ordered
  `x + z*size_x + y*size_x*size_z`) and its coordinate laws.
- `src/formats/` — format detection and one loader per format, each with a
  spec function (`sponge_model`, `litematica_model`, `structure_model`)
  describing what a root compound denotes.
- `src/paste.rs` — the writes a paste performs (air skipped, offset applied).
- `src/lib.rs` — gzip handling (through `flate2`) and format selection.
- `app/` — file I/O, NBT decoding, resolving block names against ChunkEdge's
  block registry, and performing a planned paste in a ChunkEdge world.
- `tests/` — scenario tests run against the compiled library.
