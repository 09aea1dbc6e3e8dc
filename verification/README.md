# pulsar_network

The peer-to-peer message layer of the Astreum blockchain, written in Verus.

`src/` is the verified library:

- `chain`, `route`, `topic`, `kind`: the one-byte codes of chains, routes,
  message topics and envelope kinds, with their round-trip laws.
- `natural`: the non-negative integers that messages carry, held as bits and
  computed with `opis`; their byte encoding and its round trip.
- `astro`: the list-of-arrays wire format of `astro-format`, its reading and
  writing, the round trip, and a check for lengths that overrun.
- `message`, `envelope`: the two frames, their hashes (`fides`), the search
  for a nonce that makes a hash start with a zero byte, reading with all its
  errors, and validity in time.
- `table`, `routing`, `peer`, `peers`: routing tables keyed by bit prefixes
  and the ways peers are filed in them.
- `client`: what a client node does with each datagram, broadcast, seeding
  and refreshing; `network`: the same for a bootstrap node, and the sealed
  link to peers.

`app/` holds the sockets, threads and queues around the library.
`tests/` runs the library on concrete values.
