# t2_bus

A message bus supporting publish/subscribe and request/response, with its
core logic verified by Verus.

## Layout

- `src/` — the verified library:
  - `topic.rs`: the topic grammar (fragments of `a-z`, `0-9`, `_`, or the
    wildcards `*` and `**`, separated by `/`), parsing, prefixing.
  - `matching.rs`: which subscriptions a published topic reaches. A word
    matches the same word, `*` exactly one fragment, `**` any number of
    fragments (none included); with wildcards on both sides, a publication
    reaches a subscription when some topic of words matches both. The laws of
    wildcards are proved there.
  - `directory.rs`: the subscription and ownership directory, modelled as a map
    from topic paths to nodes, with laws relating subscribe/unsubscribe,
    claim/unclaim and dropping a client. The tree of topic fragments is stored
    as a vector of nodes, each holding its full path (the children of a node are
    the nodes whose path extends it by one fragment), with subscribers in a
    vector without repeats. A `HashMap`/`HashSet` tree keyed by `String`
    fragments was not used: vstd's specifications of hash maps with `String`
    keys do not let lookups and inserts be reasoned about, so a directory built
    on them could not be verified.
  - `payload.rs`: payloads, gzip-compressed above a size threshold (through
    `flate2`).
  - `codec.rs`: length-prefixed framing of messages, with laws that frames
    decode in order however the bytes arrive.
  - `client_core.rs`: the decisions of a client: message numbering, local
    subscriptions and claims, routing of incoming messages, acknowledgements.
  - `debug.rs`, `err.rs`, `protocol.rs`, `text.rs`: message descriptions,
    errors, message types, number formatting.
  - `cli.rs`: the `t2` tool's address syntax, address registry and argument
    checks.
- `app/` — the `t2` command line tool and the asynchronous plumbing
  (transports, client task loop, serde/clap types).
- `tests/` — tests of the library.
