//! Binary deltas between two versions of a file, built with a two-tier
//! rolling-hash scheme: a signature of the old file indexes its blocks by a
//! weak rolling checksum and a SHA-256 digest, and a delta of the new file
//! against that signature is a run of block references and literal bytes.
pub mod window_checksum;
pub mod signature;
pub mod file_diff;
pub mod codec;
