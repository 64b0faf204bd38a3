//! Reading GTFS-realtime feeds: a verified decoder for the protocol-buffer
//! wire format of the GTFS-realtime schema, the rules that flatten the
//! hierarchical feed into rows, and an encoder whose output the decoder is
//! proved to read back.

pub mod alert;
pub mod check_types;
pub mod decode;
pub mod encode;
pub mod enums;
pub mod dedup;
pub mod feed;
pub mod model;
pub mod raw;
pub mod roundtrip;
pub mod rows;
pub mod test_data;
pub mod text;
pub mod trip_modifications;
pub mod trip_update;
pub mod util;
pub mod values;
pub mod vehicle_position;
pub mod wire;
