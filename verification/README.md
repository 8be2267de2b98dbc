# framework

Building blocks for servers and observers of a tile-based online world, written in Verus.
The contracts of the public functions of `src/` say what they do and are proved from their
bodies. Where something outside decides -- the clock, who sits at the other end of a channel,
the order of a hash map -- they say what holds whatever it is.

* `coords`, `time`, `text`, `collections`, `raw_bytes`, `packets` -- small things that all
  others use.
* `vessel` -- what is known of entities, tile shapes and map data.
* `ecumene` -- geometry of the world: areas, stacks of tile shapes, land heights, patches,
  multi-objects, movement, sight, the registry of what was seen, and the search for a way.
* `rythmos` -- where a player is and which steps wait for an answer.
* `diorama` -- what a session sees: visible objects, remembered objects, containers, events,
  and the packets that show all of it to one who joins.
* `continuum` -- zones of a world with their entities, containers and observers, and the
  worker that moves entities between them.
* `anima` -- controllers that act for entities, with the access they have, and their timers.
* `moira` -- accounts, authentication, sessions and access.
* `mitos` -- events, parameters and the life of scripts.

Laws that relate several functions are public proof functions; their doc comments begin
with `Law:`. Those on what remembered houses and items put in the way are in
`ecumene/remembered_shapes.rs`.

What the proofs take on trust stands in functions marked `external_body`: reading the clock
and sending and receiving through channels of `tokio`, copying and sharing `bytes::Bytes`,
and sharing an `Arc`.

`app/` holds what surrounds the library in a running program: asynchronous loops, Lua,
files, and forms for writing values. `tests/` runs the library.
