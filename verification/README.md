# uuid_remap

Swaps player UUIDs throughout a Minecraft world save, following a table of
UUID pairs: every UUID of a pair is replaced by its partner, in binary NBT
files, in the chunks of region files, in SNBT and other text files, and in
file names.

## Layout

- `src/` — the verified library (Verus):
  - `map` — `SymBiMap`, the symmetric pairing of UUIDs, and its laws;
    `rows` — building the table from user rows, with per-row refusals;
  - `uuid_bits`, `uuid_text` — the int-array, long-pair and textual forms
    of a UUID, and their round trips;
  - `nbt`, `nbt_laws` — a model of NBT trees, the swap over them, and the
    law that swapping twice with a symmetric table gives the tree back
    (for trees whose compounds have distinct names, wherever a second text
    swap gives back each string);
  - `nbt_scan` — a linear check of binary NBT (whole, no negative length,
    nested no deeper than Minecraft allows) made before it is read;
  - `nbt_io`, `region_nbt` — inflating binary NBT, reading it and SNBT
    with `quartz_nbt` and region chunks with `fastnbt`, and swapping what
    was read; the trees are tied to the bytes through named results of
    those readers;
  - `nbt_write` — the bytes written back for a swapped file or chunk,
    kept only when they read back as the swapped tree;
  - `swap`, `swapper`, `content`, `nbt_file`, `files` — the text automaton,
    text contents, SNBT / binary NBT checks, skip and rename decisions;
  - `world` — the per-file state machine, the renaming order of a run and
    the record of paths already renamed;
  - `export`, `players` — the commented JSONC export and player discovery;
  - `args` — the options of the command-line program;
  - `one_way`, `chunk` — the one-way tool: its options, player records,
    its JSON table, player-file renaming, and the entity-chunk processor.
- `app/` — the command-line program and the I/O around the library
  (files, region containers, threads, progress), and the writer that
  turns a tree back into `quartz_nbt` bytes: it rebuilds the reader's own
  tree, whose float and double tags hold `f32` / `f64` values.
- `tests/` — tests of the library on concrete values.
