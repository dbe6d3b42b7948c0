# wires

A verified library for the two resident roles of a wires node.

- The **channel**: a topic's log of signed messages, one chain for each sender,
  kept, filled in and shown; the peers it is had from; the loop that keeps a node
  in the mesh; the credentials that a re-key brings.
- The **directory**: the store of a network's signed policy, the freshness that
  vouches for it, the deltas its subscribers follow it by, and the streams on
  which it is asked.

`src/` is the library. Every function but the two that read the clock states what
it does in `requires` and `ensures`, and Verus proves it. Each module's laws, which relate several
functions, are its public `proof fn`s.

| modules | what they hold |
| --- | --- |
| `ids`, `text`, `table`, `nodes` | identifiers, text, a sorted table, a set of nodes |
| `envelope`, `store`, `order`, `local` | messages, the log, the orders it is read in, this node's own chain |
| `peers`, `topics`, `dial`, `watch` | peer hints, tickets and events, rounds of dialing, the resident loop |
| `records`, `render`, `printer`, `idp_view` | what a message says and how it is shown |
| `cli`, `context`, `start` | the command line, settling its arguments, the resident loop's start |
| `rekey`, `publish`, `clock` | credentials, publishing, time |
| `policy`, `db`, `directory` | policies and their deltas, what a directory keeps, how it answers |
| `feeds`, `serve`, `wire`, `commands` | subscriptions, streams, frames, commands |
| `kv` | a key-value service with one namespace for each person |

`app/` is ordinary Rust around it: the commands, files and databases, and the
loops over streams; what it has from a network comes in through traits. `tests/` runs the library on concrete values.
