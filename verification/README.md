# bus1

A capability-based message bus: peers own nodes, hold handles to the nodes of
other peers, and send messages to them. Every operation is a transaction. All of
its entries are queued on the peers involved, and then committed at once. No
later transaction can jump one that is committed.

The library is verified with Verus. Its contracts are stated over mathematical
models of the bus and of the accounts.

- `src/util/`: intrusive collections (single-linked lists, lockless lists,
  ordered trees) of objects that live in an arena.
- `src/acct/`: resource accounting. Actors of a user charge the resources of
  other users through quotas, which reserve a share for everybody else.
- `src/bus/`: peers, nodes, handles, messages, and the transactions on them.
- `tests/`: tests of the compiled library.
- `app/`: what is left to ordinary Rust, that is a bus shared between threads
  that can wait for it, and helpers around raw pointers.

`model.rs` in `src/acct/` and `src/bus/` describes the state and its transitions.
Properties that span several operations are in `laws.rs`, `src/acct/fair.rs`,
`src/bus/order.rs`, `src/bus/delivery.rs`, `src/util/search.rs`, and
`src/util/history.rs`: a commit is atomic, entries are received in order and
exactly once, nothing is delivered after a shutdown, resources are conserved, and
everybody is guaranteed a share of them.
