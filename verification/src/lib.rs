//! Command-line option tables and a scanner that classifies raw argument
//! tokens against them.
//!
//! A program declares its options once as an [`Opts`] table and then either
//! walks the classified arguments one by one ([`Opts::getopts`]) or collects
//! them in a single pass ([`Opts::record`]).  [`Opts::gahnoo_help`] renders
//! the table as aligned, wrapped usage text.

pub mod bytes;
pub mod declare;
pub mod doc;
pub mod help;
pub mod record;
pub mod roundtrip;
pub mod scan;
pub mod stream;
pub mod syntax;
pub mod table;
pub mod text;

pub use record::Recording;
pub use scan::{OptRes, OptVar, OptsIter};
pub use table::{Opt, OptType, Opts};
