//! Verified LZSS token-level tooling for the LF2 image format.
pub mod model;
pub mod ring;
pub mod frame;
pub mod greedy;
pub mod encode;
pub mod token;
pub mod decode;
pub mod header;
pub mod scan;
pub mod text;
pub mod feasibility;
pub mod variants;
pub mod first_miss;
pub mod tiebreak;
pub mod hashchain;
pub mod shadow;
pub mod candidates;
pub mod fields;
pub mod tokfmt;
pub mod stats;
pub mod gamma;
pub mod firstdiff;
pub mod replay;
pub mod teacher;
pub mod offsets;
pub mod bench;
pub mod pairwise;
pub mod laws;
