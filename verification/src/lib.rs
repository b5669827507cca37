//! Recording of runs: a distance and a duration, stored at microsecond
//! resolution. The duration codec converts between a human-readable
//! compound-unit string (such as `1h30m` or `500ms`) and a microsecond
//! count; the write service validates a submission, hands it to the
//! store, and renders the authoritative row back to the wire shape.

pub mod duration;

pub mod service;
