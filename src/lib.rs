//! Identification of aircraft registrations and ICAO 24-bit addresses.
//!
//! - `parser`: the state or organization behind a callsign or an ICAO
//!   address string, by literal prefixes, patterns and priorities.
//! - `icao`: the state that an ICAO 24-bit address is allocated to.
//! - `registration`: conversion between US N-Numbers and their addresses.
//! - `dataset`: reading the reference records from delimited text.
//! - `text`: character classes and string helpers.
pub mod text;
pub mod registration;
pub mod icao;
pub mod parser;
pub mod dataset;

pub use parser::{EntityRecord, EntityResult, Parser};
pub use registration::{icao_to_registration, registration_to_icao, NNumberError};
