# dirstats

See what is filling your disk: scan a folder or a whole drive, see which
folders and file types take the space, and clean up with the trash or, where
the platform has none, permanent deletion.

The library in `src/` is written in Verus: its functions carry contracts that
Verus proves, and the data structures state their invariants. The few calls
into std and foldhash that vstd does not specify (hash map methods, sorts,
lossy text decoding) go through small wrappers whose contracts are trusted,
each saying in its doc comment what it takes from the called function.

- `tree`, `scan`: the compact sized tree and the bookkeeping that turns a
  directory walk into it (hard links counted once, errors kept, sizes
  rolled up, children sorted largest first).
- `linux`, `walker`, `mft`, `ntfs_tree`, `volume`: what the Linux walker
  and the NTFS master-file-table reader make of the bytes the system hands
  back.
- `app`, `keys`, `menu`, `rows`, `terminal`, `dialogs`, `status`: the state that the
  front ends drive (navigation, tree view, context menu, keys, the
  permanent-delete dialogs) and the text they show.
- `trash`, `delete`, `backup`, `cloud`: the checks before anything is
  removed, the order of a permanent deletion, and what is recorded after.
- `extensions`, `treemap`, `boxes`, `glyphs`, `icon_files`: file types
  ranked by size, the whole-number parts of the treemap and its hit
  testing, the interface icons, and the icon files of a package.
- `locations`, `settings`, `session`, `cli`, `paths`, `format`, `text`:
  places to scan, the settings file format, whether a window can open, the
  command line, path handling and human-readable sizes.
- `fold`: the foldhash maps and sets, each method with the contract the
  proofs rely on.

`app/` is the `dirstats` program: it reads the command line, walks the disk
with `std::fs`, and prints a summary, leaving every decision to the library.
`tests/` runs the library on concrete values.
