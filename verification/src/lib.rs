//! A checksum of everything a container image build reads: the build
//! instruction file and every file or directory that its `COPY` and `ADD`
//! commands name.
//!
//! The crate holds the parts that compute. Reading files, expanding glob
//! patterns and walking directories are left to the caller, who hands the
//! results in as plain values.
//!
//! - [`lines`] joins the physical lines of an instruction file into logical
//!   command lines.
//! - [`extract`] finds the source patterns of the `COPY` and `ADD` commands
//!   among them.
//! - [`entry`] answers what a recursive digest asks about each filesystem
//!   entry: its permission bytes, and whether it is ignored.
//! - [`order`] and [`combine`] sort the digests and byte blobs of a build
//!   and hash them into one final digest.
//! - [`encode`] renders a digest in hexadecimal or base64.
//! - [`checksum`] puts the last three together.

pub mod checksum;
pub mod combine;
pub mod encode;
pub mod entry;
pub mod error;
pub mod extract;
pub mod lines;
pub mod opts;
pub mod order;
pub mod text;

pub use checksum::hash;
pub use extract::{get_external_paths_from_dockerfile_line, get_paths_from_dockerfile};
pub use lines::get_coalesced_lines_from_dockerfile_content;
pub use opts::Opts;
