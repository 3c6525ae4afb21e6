//! A command-line argument parser in the style of POSIX `getopt` and GNU
//! `getopt_long`: a caller declares a table of option specifications (short
//! letter, long name, whether a value is taken, help text), then scans the
//! invocation tokens against that table and receives either the matched
//! options with their values plus the leftover positional operands, or a
//! typed error naming the first problem found.

pub mod getopt_long;
pub mod laws;
pub mod model;
pub mod spot_error;
pub mod text;

pub use getopt_long::{
    Arguments, ConstructionError, HasArg, LongSpec, Opt, OptError, OptResult, OptionTable,
    getopt_long,
};
pub use spot_error::{SpotError, SpotResult};
