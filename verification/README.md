# super_image_worker

A verified library for Android `super` partition images: the LP metadata format
(`liblp` dynamic partitions), raw and Android Sparse containers, and images that
are split over several block devices.

- `src/` is the library. Its functions carry contracts that Verus proves. A few
  small wrappers around SHA-256 and the standard library carry contracts that it
  takes on trust; each says which function it calls and what it claims of it.
- `app/` is the command line around it: arguments, files, loop devices and the
  device mapper.
- `tests/` runs the library on concrete images.

## Modules

| Module | What it holds |
|---|---|
| `format` | constants, table entries, and where the copies of a slot lie |
| `encoding`, `entry` | numbers, names and table entries as bytes, both ways |
| `digest` | SHA-256 checksums |
| `reader` | containers, geometry and metadata with their checksums and fallbacks, extent chains, split images |
| `writer` | free space, allocations over several devices, rendering of slots, and the laws of reading back |
| `sparse` | the streaming encoder for sparse containers |
| `commands` | what each command decides: plans, edits of the tables, and the writes that carry them out |
| `output` | the overview, tables, shell variables, records and single values |
| `text`, `error` | strings, and what can go wrong |

## Reading and writing

The library reads through the trait `BlockSource`; `PositionedSource` makes one
out of a function that reads at an offset, `MemorySource` out of bytes. It never
writes: a command returns what is to be written and where, and the caller does
it. A metadata update is a `SlotWrite`, the same bytes for both copies of one
slot.

## Laws

Functions named `law_*` state what holds across the library, among them:

- a raw image that was put into a sparse container reads back unchanged;
- metadata that was written loads as it was, in its slot and in no other;
- no allocation overlaps another extent, leaves its device or its alignment, or
  lies on metadata;
- a change to one partition leaves the chains of all others as they were;
- a payload reads back out of its partition, in a new image and in one that it
  was added to;
- unless forced, no group outgrows its largest size.
