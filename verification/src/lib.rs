//! Verified core of a tool that merges and partitions sorted, block-compressed
//! genomic fragment streams.
//!
//! A fragment is one text line `CHROM\tSTART\tEND\tBARCODE[\tSCORE]`.  The
//! library parses and renders such lines, merges any number of sorted streams
//! into one sorted stream with deterministic tie-breaking, positions a cursor
//! at the first record of a target chromosome, filters records by a barcode
//! allow-list, and plans per-label partition outputs.  All file and stream
//! handling stays outside: callers hand the library plain byte lines and take
//! plain byte lines back.

pub mod errors;
pub mod merge;
pub mod order;
pub mod partition;
pub mod record;
pub mod scan;
pub mod split;
