# wiring

A wire format for sending Rust values over byte streams, with its encoders and
decoders proved correct by Verus.

Integers travel big-endian, text and sequences behind a `u64` length, options and
enums behind a tag; a value reads back as the value that was written, whatever
follows it. The round trip is proved for models that meet each type's validity
predicate (`Wiring::spec_valid`: lengths that fit a `u64`, URLs in their parsed
form), and writing a value proves that its model meets it.

## Layout

- `src/` — the verified library.
  - `endian.rs`: big-endian numbers as byte sequences.
  - `wire.rs`, `unwire.rs`: the `Wiring` and `Unwiring` traits, byte sinks and
    sources, and the primitive types; `BufWire`, `BufUnWire` and `UnsafeReader`
    for in-memory buffers.
  - `compound.rs`: strings, sequences, arrays, options, tuples and boxes.
  - `collections.rs`: hash and tree maps and sets.
  - `listener.rs`: connect information, wire information and the listener's
    table of wires.
  - `wired.rs`: the events of a wired connection, its tables of streams, and the
    read and write buffers of a multiplexed stream.
  - `attributes.rs`: the rules for the `tag` and `fixed` attributes of derived impls,
    and the writing and reading of an enum's variant index in its tag type.
  - `laws.rs`: properties that span several functions.
- `tests/` — tests of the library on concrete values.
- `app/` — the asynchronous layer over tokio: values over streams, channels carried
  by a stream or as values over a wired connection, buffered streams, the listener
  task and wired connections.
