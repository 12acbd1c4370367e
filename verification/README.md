# lru_exercise

A doubly linked list whose nodes can be moved to the front through handles,
and a least-recently-used cache built on it, verified with Verus.

- `src/list.rs`: `List<T>` keeps its nodes in an arena of slots; a
  `NodeRef` names a node by slot and identity. `ListModel` is what the
  contracts speak of: the linked handles in order, the data of every
  allocated node, whether the tail pointer is set, and the identity
  counter. Popping frees a node unless a `Handle` on it is kept; such a
  node stays allocated and `move_to_front` links it in again. Each node owns
  an `Rc` token that its handles clone, so the reference counts that
  `to_ref_counts` reports include the handles kept. Identities come from a
  counter kept by each list.
- `src/lru.rs`: `LRU<K, V>` indexes keys with a `HashMap` into the list.
  `CacheModel` is its abstract state; the `law_*` proof functions state what
  holds of every cache.
- `src/id.rs`, `src/lib.rs`: node identities and reference counts.
- `app/main.rs`: a small program that prints a list's nodes and reference counts.
