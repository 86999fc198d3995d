# pg_turbovec

Verified logic of a PostgreSQL extension for approximate nearest-neighbour search: how a quantised
vector index is laid out on pages, written, read back, flushed at commit, vacuumed and scanned, and how
its SQL types are read and printed.

- `src/` is the library. Every function states what it returns or changes, and Verus proves it.
- `tests/` runs the library on concrete values, with the quantiser linked.
- `app/` is the extension around the library: the buffer manager, SPI, callbacks, and all computing with
  floating-point numbers.

The library plans and decides; it does no I/O. A write is a list of actions (`chain::Action`), a read is a
list of page reads (`reads::PageRead`), a scan is a state that is told what a search found. Numbers are
carried as bit patterns.

A write leaves its chains packed from block 1 on and no block behind them, so that a smaller index gives
blocks back (`relfile_laws::finished_write_is_complete`). On the way there it first takes blocks that the
index on disk does not use and writes the meta page last; then it moves the chains to the front, again
with the meta page last. So a reader finds a whole index at every moment: the old one, or the new one
(`relfile_laws::every_moment_has_a_whole_index`). Until it is done the relation holds both indexes,
or the new one behind free blocks, and is extended to no more blocks than the larger of the two and the
new one have together (`relfile::writing_takes_bounded_room`).

| Modules | What they hold |
| --- | --- |
| `page`, `codec` | the meta page, the layout of the chains behind it, their encoding |
| `bytes`, `chain`, `reads` | byte tables, page writes and page reads, and a model of the pages |
| `relfile`, `relfile_laws`, `split_write` | whole writes, in one go and in two phases |
| `load` | what to fetch of an index |
| `flush`, `live_rows`, `flush_write`, `xact` | merging a transaction's rows into what is on disk |
| `bitmap`, `graph`, `vacuum`, `vacuum_laws` | removing and marking dead rows |
| `scan`, `scan_load`, `cells`, `allowlist`, `tid` | the life of a scan and what it may search |
| `tvector`, `sparsevec`, `sparsevec_ops`, `float_bits`, `text` | the SQL types |
| `partition`, `knn`, `phase2_knn`, `normalize`, `sorting` | searches over tables and partitions |

What is taken on trust: the codebook that `turbovec::expected_codebook` derives, by name and size
(`relfile`), and `String::push` (`text`).
