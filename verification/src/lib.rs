//! Decoding of Snowflake identifiers: 64-bit integers that pack a
//! millisecond timestamp offset, a datacenter id, a worker id and a
//! per-millisecond sequence counter, together with a renderer that
//! expands the custom `%^d` / `%^w` / `%^s` directives of a format
//! template before handing it to a strftime engine.

pub mod epoch;
pub mod render;
pub mod snowflake;
pub mod template;
