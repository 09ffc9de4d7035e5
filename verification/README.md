# precord-core

Figures about processes and the system on macOS: network traffic, frames and
Mach ports per process, processor frequencies, the use of the graphics
processors, open files.

- `src/` holds what is decided and computed, verified with Verus:
  `text` (characters, words, decimal numbers), `lines`, `nettop` and
  `frame_rate` (what the helper commands print), `entitlements` (what
  `codesign` prints), `power` (what `powermetrics` reports), `source` (the
  figures of the tracked processes), `iokit` (a poll of the I/O registry, one
  call at a time), `kernel` (answers of the kernel).
- `app/` runs the helper commands and makes the calls into macOS.
- `tests/` runs the library on concrete values.

Floating-point numbers are carried through the library by their bit patterns;
what is computed with them is handed in as a function.
