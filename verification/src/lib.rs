//! Exhaustive search for sets of 8-bit symbols whose smallest pairwise
//! Hamming distance is as large as possible.

pub mod analysis;
pub mod candidate;
pub mod distance;
pub mod enumeration;
pub mod order;
pub mod pairs;
pub mod search;
pub mod sorting;
pub mod width;

pub use analysis::{hd_for_set, NO_PAIRS};
pub use candidate::Candidate;
pub use distance::hd;
pub use enumeration::{generate, Candidates};
pub use search::{search, SearchError, SearchResult};
pub use width::bit_width;
