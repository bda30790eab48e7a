# presto-pasta

User-mode NAT datapath for sandboxes. It translates L2 frames on a tap
device to native host sockets: outbound TCP and UDP, ICMP echo and DNS
forwarding. The host kernel runs the real TCP stack; presto-pasta only
rewrites headers and moves payload.

## Layout

- `src/` is the datapath's logic, written in Verus and proved against its
  contracts. It performs no I/O.
  - `uring` is the event loop as a state machine. It is fed completions of
    ring operations and answers to its own requests. Each step leaves a list
    of actions to perform and a request to answer. `uring::state` says how
    each event changes the state, `uring::inv` what every state keeps, and
    `uring::laws` what follows for the loop as a whole.
  - `tcp` is the guest-facing half of a TCP connection, `flow` the flow
    table, `buf` the buffer pool.
  - `frame` builds and parses whole frames out of the headers in `proto` and
    `tap`; `wire` and `addr` hold byte order and addresses.
  - `dns` parses the resolver configuration and discovers a NAT64 prefix,
    `netdev` builds the rtnetlink requests that configure the guest's
    interface, `stats` counts.
- `app/` runs the library on Linux: the ring, the tap fd, sockets, ioctls.
- `tests/` exercises the library on concrete values.

## What is taken on trust

The flow table's index is a `HashMap` hashed by `foldhash`; the contracts of
its `get`, `insert` and `remove` in `flow` are believed, not proved. The code
in `app/` is ordinary Rust.
