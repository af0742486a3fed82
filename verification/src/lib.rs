//! Reed-Solomon erasure coding over GF(2^16) in the novel polynomial basis.

pub mod util;
pub mod shard;
pub mod walsh;
pub mod gf;
pub mod tables;
pub mod afft;
pub mod novel_poly_basis;
pub mod gf_lemmas;
pub mod status_quo;
pub mod field_laws;
pub mod table_forms;
pub mod poly;
pub mod derivation;
pub mod locator;
pub mod round_trip;
pub mod high_rate;
