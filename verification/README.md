# bucket_map

Buckets of a map from account keys to lists of slots, with the number of references to each key.

A bucket keeps one entry for each key in its index, an open-addressed table that is searched for at
most `max_search` cells. The lists themselves are in data buckets: data bucket `b` has cells for up
to `2^b` slots, and a list is kept in the smallest cells that have room for it. A table without room
is replaced by a larger one. Making it (`grow`, or `larger_table`, which leaves the bucket alone) and
putting it in place (`handle_delayed_grows`) are two steps.

- `src/` is the library. Every function is verified with Verus. The contracts speak of the tables
  (`bucket_model.rs`), of the map that they stand for, and of how far they grow
  (`bucket_growth.rs`); `laws.rs` states what holds over several operations. `outside.rs` has the
  calls whose contracts are taken on trust: random numbers, timing, and the byte order of the
  machine.
- `tests/` runs the library.
- `app/` shares a bucket between threads, and its counters between buckets, and addresses it by
  Solana's keys.

The storages keep their cells in memory. The list of drives that a bucket is given is carried along.
