//! Single-pass health checks and sampling for JSONL files.
//!
//! The passes: [`stats`] profiles a file, [`schema`] discovers the paths it
//! contains, and [`excerpt`] prints its first lines or a uniform sample. They
//! take the lines that [`lines`] splits off, read the record on each with
//! [`json`], select values by the paths of [`path`], keep lengths in the
//! histogram of [`hist`] and sample with the generator of [`rng`]. [`cli`]
//! reads the command line, [`report`] and [`json_report`] write the results.
//!
//! What a pass yields is stated by [`profile`] and [`discovery`], what a JSON
//! document is by [`grammar`]. There are no floating point operations here:
//! [`binary64`] holds numbers as bit patterns, [`decimal`] and [`float`] read
//! them, [`shortest`] and [`notation`] write them, all on top of [`bignat`].
//!
//! What holds of the library as a whole is proved in [`laws`], [`locality`],
//! [`roundtrip`], [`path_laws`], [`exact`], [`agreement`], [`found`] and next to
//! the definitions.

pub mod agreement;
pub mod ascii;
pub mod bignat;
pub mod binary64;
pub mod charted;
pub mod cli;
pub mod commands;
pub mod decimal;
pub mod discovery;
pub mod exact;
pub mod excerpt;
pub mod first_seen;
pub mod float;
pub mod found;
pub mod grammar;
pub mod hist;
pub mod integer;
pub mod json;
pub mod json_report;
pub mod laws;
pub mod lines;
pub mod locality;
pub mod nesting;
pub mod nodes;
pub mod notation;
pub mod numerals;
pub mod order;
pub mod parser;
pub mod path;
pub mod path_laws;
pub mod printed;
pub mod profile;
pub mod ranks;
pub mod report;
pub mod reported;
pub mod rng;
pub mod roundtrip;
pub mod sampling;
pub mod schema;
pub mod selection;
pub mod shares;
pub mod shortest;
pub mod sort;
pub mod spelling;
pub mod splitting;
pub mod stats;
pub mod strings;
pub mod table;
pub mod text;

pub use path::FieldPath;
pub use schema::{Schema, SchemaOptions};
pub use stats::{Stats, StatsOptions};
