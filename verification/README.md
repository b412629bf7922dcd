# block_cache

Reads of stored objects through a cache of fixed-size blocks.

- `src/` is the verified library: the format of a block on disk (`block`), the
  keys of blocks (`key`, `key_set`), the arithmetic of ranges and blocks
  (`chunk`), the bookkeeping of the cache (`cache`), the course of a read
  (`request`) and what holds of all of them together (`laws`).
- `app/` puts the library to work: an `object_store::ObjectStore` over another
  one, with the blocks in a `foyer` hybrid cache.
- `tests/` runs the library on concrete values.
