//! Building blocks of the Duckomp family of compressors.

pub mod archive;
pub mod bits;
pub mod bytes;
pub mod candidates;
pub mod chunk;
pub mod chunked;
pub mod coefficients;
pub mod container;
pub mod crossref;
pub mod decoding;
pub mod deentropy;
pub mod dict;
pub mod display;
pub mod egap;
pub mod egap_codes;
pub mod fitting;
pub mod folder;
pub mod kraft;
pub mod lcg;
pub mod lz77;
pub mod lz77_model;
pub mod memory;
pub mod natural;
pub mod offsets;
pub mod paths;
pub mod pond;
pub mod reading;
pub mod repeats;
pub mod report;
pub mod rounding;
pub mod sampling;
pub mod scanning;
pub mod segments;
pub mod shorthand;
pub mod solver;
pub mod sort;
pub mod spans;
pub mod stages;
pub mod substrings;
pub mod tally;
pub mod text;
pub mod windows;
