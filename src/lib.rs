//! Discovery of plugin directories under an ordered list of roots, and the
//! ordered, bounded window through which their descriptors are loaded.
use vstd::prelude::*;

pub mod scan;
pub mod window;
pub mod pipeline;

pub use scan::{candidate_of, from_path, EntryInfo, DESCRIPTOR_FILE};
pub use window::{LoadWindow, Released};
pub use pipeline::{from_paths, keep_loaded};
