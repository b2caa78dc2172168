//! Reading and writing lists of bank transactions in three formats: a
//! length-prefixed binary layout, a quoted CSV table and a key/value text
//! block. Every function works on bytes in memory; what it returns is stated
//! over the mathematical value of its arguments and proved.

pub mod bin_format;
pub mod bin_proofs;
pub mod csv_format;
pub mod csv_proofs;
pub mod decimal;
pub mod endian;
pub mod error;
pub mod fields;
pub mod lines;
pub mod parser;
pub mod text_format;
pub mod text_proofs;
pub mod types;
pub mod utils;

pub use bin_format::{dump_as_bin, parse_from_bin};
pub use csv_format::{dump_as_csv, parse_from_csv};
pub use parser::{compare, dump, parse};
pub use text_format::{dump_as_text, parse_from_text};
