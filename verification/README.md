# my_consistent_hashing

A consistent-hashing ring with virtual nodes, verified with Verus, and the
server around it.

- `src/` is the verified library:
  - `consistent_hashing`: the ring (a vector of `(position, owner)` entries
    sorted by position), its lookups, and the transactions that adding or
    removing a node, or changing the number of virtual nodes, gives;
  - `ring_laws`: what every change of the ring keeps (sorted positions, every
    position owned by a member), that adding a node moves keys only to it,
    that removing a node moves only its keys, and that adding and then
    removing a node leaves the ring as it was;
  - `count_laws`: the ring as a whole when every member has the same number
    of virtual nodes, how changing that number moves between such rings, and
    that raising and lowering it back restores the ring;
  - `vector_consistent_hashing`: a ring to which nodes are only added;
  - `transaction`, `server_transaction`: ranges of positions that move
    between nodes;
  - `identity_hasher`: a hasher whose hash is the number written to it;
  - `ip`, `routes`, `ecs`, `lookup`, `exclusives`: what the server computes
    (node identifiers and addresses, batches of transactions by route, task
    definition families, lookups in its ring);
  - `decimal`, `text`: decimal text, splitting and parsing.
- `tests/` runs the library.
- `app/` is the server: HTTP routes, the container service, the network.
