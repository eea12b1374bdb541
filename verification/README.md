# bedrock_protocol

A verified library that rewrites Bedrock Edition packets, field by field,
between neighbouring protocol versions, so that a client and a server that
speak different versions can still talk. Every rewrite the library makes is
stated as a function on bytes and proved with Verus; the protocols it
chains are 859, 860, 898, 924, 944, 975, 1001, 2168 and 2169.

## What is not translated here

Some packets change between versions in fields whose wire layout belongs
to the item, NBT, actor-metadata and level-settings codecs of the game
rather than to this library: item registries, crafting data, inventory
content and slots, start game, equipment, actor data, added actors and
players, and creative content. The library has no rewrite for those and
forwards them as they come. An inventory transaction between 1001 and
2168 is translated when it carries no item (its frame is the same in
both); one that carries an item is refused. Item stack responses are translated;
item stack requests are translated by `steps::item_stack_v2168`, given the
item names and network ids the item registry holds, but no step registers
a handler for them, since that registry is one of the packets above. A
PlayerAuthInput that carries an item interaction is refused rather than
guessed at. Packets whose ids this library does not carry (the party
and locator-bar packets, the cookie response and the store and presence
packets of newer protocols) are neither rewritten nor dropped.

## Layout

- `src/codec.rs`, `src/wrapper.rs`: the wire primitives (variable-length
  integers, strings, fixed fields) and the packet rewriter that copies,
  drops, reads and writes them.
- `src/steps/`: one translation step per pair of neighbouring protocols,
  with the packet handlers each step registers and the round-trip laws of
  those handlers.
- `src/translator.rs`, `src/handler.rs`, `src/pipeline.rs`,
  `src/manager.rs`, `src/versions.rs`: how steps are chained between a
  client protocol and a server protocol, and what a packet goes through.
- `src/sound_events.rs`, `src/table.rs`, `src/mapping.rs`,
  `src/rewriter.rs`: sound and id tables and the id shifts between versions.
- `src/config.rs`, `src/report.rs`: settings and the text the host prints.
- `app/`: the host side, which reads the environment and files and keeps the
  per-process state.
- `tests/`: tests on concrete packets.

Handlers that drop a packet may leave a message for the connection; it is
reported with the next packet that gets through, and the score packets
leave theirs once per packet kind.
