# gtfsrealtime

Reading GTFS-realtime feeds (vehicle positions, trip updates, service alerts
and trip modifications) into flat rows, with the decoding and the flattening
verified by Verus.

- `src/wire.rs`, `src/values.rs`: the protocol-buffer wire format (varints,
  keys, the split of a message into fields) and what a field's value means.
- `src/model.rs`, `src/decode.rs`, `src/raw.rs`: the messages of the
  GTFS-realtime schema and their decoder; messages that the readers do not
  look into are checked and kept as bytes.
- `src/encode.rs`, `src/roundtrip.rs`: the encoder, and the proof that
  decoding what it writes gives the message back (and that a feed cut after
  an entity reads as the entities before the cut).
- `src/feed.rs`: gzip and bzip2 feeds, and the files of zip archives.
- `src/vehicle_position.rs`, `src/trip_update.rs`, `src/alert.rs`,
  `src/trip_modifications.rs`: the rows each kind of feed flattens to.
- `src/dedup.rs`, `src/enums.rs`, `src/check_types.rs`, `src/text.rs`,
  `src/rows.rs`, `src/util.rs`: identifiers, enumeration names and helpers.
- `src/test_data.rs`: sample feeds for the tests.
- `app/`: the R package around the library (file, archive and URL reading,
  data frames, warnings).
