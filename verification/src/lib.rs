//! A verified core for a distinguished-point kangaroo search on secp256k1.

pub mod bytes;
pub mod checkpoint;
pub mod collect;
pub mod compact;
pub mod curve;
pub mod disk;
pub mod dp_map;
pub mod draw;
pub mod encoding;
pub mod field;
pub mod jumps;
pub mod limbs;
pub mod modular;
pub mod record;
pub mod report;
pub mod scalar;
pub mod schedule;
pub mod target;
pub mod text;
pub mod walk;
