//! The rules by which media files are probed.
//!
//! A probe has ffprobe tell what a file holds, reads the JSON that it writes into metadata, checks
//! the metadata, and keeps it in a cache. This library is what a probe decides:
//!
//! - [`probe`]: the steps of a probe, from the cache to the result
//! - [`ffprobe`]: how the process is invoked, and what its outcome means
//! - [`parser`]: from the JSON of ffprobe to metadata
//! - [`validator`]: the checks that metadata must pass
//! - [`keyframes`]: the order and the spacing of keyframe times
//! - [`cache`]: what is kept of a probe, and for how long it holds
//! - [`media_info`] and [`error`]: what a probe gives
//!
//! below which stand
//!
//! - [`binary64`]: numbers of seconds, by their bits
//! - [`reading`]: which texts are read as numbers
//! - [`json`], [`paths`] and [`text`]: the values that the rules are about
//!
//! It spawns no process and touches no file: what those give is handed to it.
pub mod binary64;
pub mod cache;
pub mod error;
pub mod ffprobe;
pub mod json;
pub mod keyframes;
pub mod media_info;
pub mod parser;
pub mod paths;
pub mod probe;
pub mod reading;
pub mod text;
pub mod validator;

pub use cache::ProbeCache;
pub use error::ProbeError;
pub use media_info::{Fraction, MediaInfo, MediaInfoMap};
