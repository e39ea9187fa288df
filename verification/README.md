# symstore

Symbols for stack frames. An interval tree says which functions cover which addresses of an
executable; frames are symbolized with it, inlined functions included; a store keeps one tree for
each executable.

- `src/` is the library, verified with Verus.
  - `order`, `tree`, `todo`, `query`: the interval tree, building it and searching it.
  - `symtree`, `frame`, `symvec`, `symbolize`: symbol trees, frames, and finding the functions
    behind a frame.
  - `symdb`, `store`, `concurrent`: file names, the cache and the steps of the store, and what holds
    of the store as a whole, also when several threads use it.
  - `text`: numbers as text.
- `tests/` runs it.
- `app/` is the disk side: the file layout, mapping and writing files, locking, and printing.
