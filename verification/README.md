# leviculum_lxmf

LXMF messages over Reticulum: the wire formats, delivery, propagation nodes and
their peers, and the router that queues messages and applies the inbound
policy. The library does no I/O and is verified with Verus: every function
states what it returns, and the public proof functions whose names start with
`law` state what holds across functions.

- `src/` is the verified library.
  - `msgpack`, `ieee`, `bytemap`, `stable`, `text`, `hash`: encodings and
    containers.
  - `message`, `attachments`, `announce`, `paper`, `propagation`, `control`:
    wire formats.
  - `propagation_store`, `propagation_node`, `serve_cost`, `peering`: the
    propagation node and its exchange with other nodes.
  - `transport`, `node`, `propagation_client`: adapters between a Reticulum
    stack and LXMF. They take what the stack reports and name the calls that it
    has to make.
  - `ticket`, `storage`, `snapshot`, `router`: the queue, its scheduler and its
    checkpoint.
- `tests/` runs the library on concrete values.
- `app/` connects the library to a stack.

Floating point values that only pass through, such as timestamps, are held as
their bit patterns. SHA-256 comes from `sha2`, the MessagePack primitives from
`rmp`; the functions that call them are marked `external_body`, and their
documentation says what is taken on trust.
