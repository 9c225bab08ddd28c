use vstd::prelude::*;

verus! {

/// Fixed parameters of a configuration run.
pub struct Config;

impl Config {
    /// File that the command-line tool reads the schema from.
    pub const SCHEMA_FILE_PATH: &'static str = "schema.txt";

    /// Longest value, counted in characters, that one directive may carry.
    pub const MAX_VALUE_LENGTH: usize = 4096;
}

} // verus!
