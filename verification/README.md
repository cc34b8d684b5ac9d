# typarena

Type-keyed arena storage with stable per-type columns, verified with Verus.

- `TypePool` (`src/type_pool.rs`): an append-only store of values of any
  `'static` type. Each type gets a column of its own, found through its
  `TypeId` once and then reached by index: `insert` hands back a `PoolKey`
  (column and slot) that reaches the value again with no hash lookup.
- `IdGenerator` / `GenId` (`src/id.rs`): generational IDs that are recycled
  with a bumped generation, so a stale ID never matches the one that reuses
  its slot.
- `ColumnId` (`src/lib.rs`): the stable index of a column.

The contracts speak of a model of each structure: a pool is its registry
(`TypeId` to column) and its columns, each column the keys of its live and
checked-out values, its free slots and the `TypeId` it was made for; a
generator is its next fresh slot and the IDs waiting to be reused. A type
is named by its one `TypeId` (`type_key`), the id that a column made for it
records, and a value by what the column's `get` reads at its key, so that
the contracts say which reads give back which writes. The laws (proof
functions) sit beside the code they are about: the issue/recycle account in
`src/id.rs`, the column registry, key and read laws at the end of
`src/type_pool.rs`.

The column storage is `sparse_map::SparseMap<T>` held with its value type
erased (`src/any_sparse_map.rs`), the type index a `hashbrown::HashMap`
(`src/column_index.rs`); `src/any_index_map.rs` erases the value type of an
`indexmap::IndexMap`. The calls into these crates are trusted items whose
contracts state what the crates' sources do.
