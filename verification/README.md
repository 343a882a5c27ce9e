# hello_rust

Linear-probing hash tables of `u32` keys and values, verified with Verus.

- `src/hashing.rs`: the MurmurHash3 finaliser, a multiply-xorshift hash and
  the power-of-two arithmetic used for slot indices and growth.
- `src/probe.rs`: probing over a power-of-two array of slots, as spec
  functions (where a probe stops, what an insert, a lookup and a removal do)
  and the verified probing loops shared by all tables.
- `src/chain.rs`: the table invariant (live keys unique and reachable from
  their home slot), under which the slots stand for a map, and the lemmas
  that carry it through inserts and removals.
- `src/growing.rs`: inserting with load-factor growth, shared by the two
  growing tables: its spec, its laws and the verified insert and resize.
- `src/hash_table.rs`: the plain table (no removal, fixed size); its
  operations are proved to be map insertion and lookup.
- `src/hash_table_restriction1.rs`: the table with tombstone removal, an item
  counter and load-factor growth; it is proved to be a map.
- `src/hash_table_restrict.rs`: the table with tombstone removal whose load
  is recomputed by scanning; it is proved to be a map.
- `src/load_factor.rs`: the growth threshold as an exact fraction.
- `app/`: the multi-threaded throughput benchmarks, which share a table
  behind a lock, time the runs and write CSV files.
