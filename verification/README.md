# neutrondb

A log-structured merge-tree key-value store whose logic is verified with
Verus: the byte formats it reads and writes, its bloom filters, and the
decisions of its store operations (put, get, delete, flush, compaction,
opening and log replay).

## Layout

- `src/` — the verified library.
  - `store` and its submodules: the store's state in memory, the log
    records that put and delete produce, the replay of the log on opening,
    the layout of a flushed table, the merge of a level's tables into one
    table of the next level, and the binary search of a table's index.
  - `neutron`, `list`, `linked_list`, `astro`: table and list formats.
  - `bloom_filter`, `bloom`: the two bloom filters.
  - `text_store`: a store kept in text files of hexadecimal lines.
  - `list_store`, `query`: opening a store of lists from its linked-list
    files, and reading all its entries.
  - `types`: conversions of keys and values to and from bytes.
  - `hashes`, `entries`, `bytes`, `error`: digests, maps over entry lists,
    little-endian integers and errors.
- `tests/` — tests run against the compiled library.
- `app/` — the store on disk: reading and writing files, the clock, and the
  floating-point bloom filters of `fides`.

## Table format

- Version (1 byte)
- Key count (8 bytes)
- Index position (8 bytes)
- Key data position (8 bytes)
- Bloom filter
- Index: key hash (32 bytes), key position, key size, value position
- Key data
- Value data
