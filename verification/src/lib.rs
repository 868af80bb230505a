//! Verified core of the tape-register accelerator: the register machine and its two
//! normalizers (on explicit values and on bit prefixes), the byte-transducer table, the
//! symbolic gap-tape derivation, and the checks that combine row summaries.
pub mod bits;
pub mod machine;

pub mod prefix;
pub mod limbs;
pub mod normalizer;
pub mod scalar;
pub mod linear;
pub mod stack;
pub mod contents;
pub mod derivation;
pub mod transducer;
pub mod paths;
pub mod map;
