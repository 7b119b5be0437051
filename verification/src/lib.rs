//! Conversion between Fluent (`.ftl`) message files and a translation CSV table.

pub mod text;
pub mod sorted_map;
pub mod ftl;
pub mod ftl_laws;
pub mod csv_io;
pub mod convert;
pub mod csv_laws;
pub mod convert_laws;
