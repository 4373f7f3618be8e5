//! Codec for category 048 surveillance records: a field-specification
//! (FSPEC) presence bitmap followed by the payloads of the present fields.
pub mod fspec;
pub mod catalog;
pub mod record;
pub mod laws;
