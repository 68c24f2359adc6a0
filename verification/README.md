# prost_reflect

Dynamic protobuf messages, verified with Verus: a message whose type is
known only at run time, its fields read and written through descriptors,
and its wire encoding and decoding, built on the `prost` encoding
primitives.

## Layout

- `src/wire.rs`: the wire format as specification (varints, keys,
  fixed-width and length-delimited records) and the `prost` primitives
  that write it.
- `src/sorted.rs`: sequences of `(number, value)` pairs sorted by number,
  read as maps.
- `src/descriptor.rs`: the descriptor pool and its message, field and
  extension handles, and the number-to-field index.
- `src/pool.rs`: checking a pool's definitions and looking definitions up
  by name.
- `src/value.rs`, `src/unknown.rs`: field values, map keys and unknown
  fields.
- `src/fields.rs`: the sorted field set of a message.
- `src/message.rs`: `DynamicMessage`, its accessors, and the laws that
  relate them.
- `src/encode.rs`: encoding, with `encoded_len` and `encode_to_vec` exact
  against the specification of the bytes.
- `src/decode.rs`: decoding and merging, and the laws that read back what
  was written. When decoding succeeds, its result is a merge of the
  records (`records_merged`); it fails only on bytes that no merge can
  take (`records_unreadable`) and whose records cannot be read
  (`records_ok` does not hold).
- `src/readable.rs`: the bytes any valid message writes can be read
  (`records_ok`), whatever its fields hold (single values, lists packed
  or not, maps, nested messages and groups, unknown fields at numbers of
  no field), when its messages nest within the depth limit and its bytes
  fit in memory; so decoding them succeeds.
- `src/roundtrip.rs`: reading back a whole message from the bytes it
  writes. Any decoding of them gives back slots of the same contents
  (`same_slots`: the same numbers, lists of the same elements in order,
  maps of the same entries in order, the same unknown fields) for every
  message in the class `slots_contents`: each value is written (a field
  without presence at its default writes nothing, so an empty list or
  map, or a zero, reads back as no slot at all), and a map's value that
  is not written is the value an entry without a value record reads as.
  Writing the decoded message again gives the same bytes.
- `src/types.rs`: locating nested definitions of a file by source path.
- `src/corpus.rs`: the byte shapes of a few real-world messages.
- `tests/`: the tests, run against the compiled library.
