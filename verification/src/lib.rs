//! A hash join over fixed-width rows, with chains of joins over several tables.
//!
//! - `hash`, `radix`, `ht_entry`: key hashes, their radix partitions, and the
//!   entries of the pointer table, which hold a salt and a row address.
//! - `bytes`, `row`: little-endian fields, row layouts and the row arena.
//! - `directory`, `partition`, `ht`: the pointer table with its chains of rows, the
//!   filing of rows by partition, and the join hash table.
//! - `probe`: inner and full outer probes of a join hash table.
//! - `io`: the columns of record batches, and tables made of them.
//! - `chain`, `row_chain`, `checksum`, `sink`: chains of joins on one key, and the
//!   sinks that read what comes out.
//! - `pipeline`, `hash_join`, `scan`, `operator_chain`: sources, operators and
//!   sinks, and the chain of full outer joins that they make up.
//! - `plan`: the plan of a multi-way join.
//! - `select`, `permute`, `bitmap`, `pow2s`: positions picked out of a range,
//!   sequences in another order, marks, and powers of two.
//! - `par`: work for the threads of a rayon pool.

pub mod bitmap;
pub mod bytes;
pub mod chain;
pub mod checksum;
pub mod directory;
pub mod hash;
pub mod hash_join;
pub mod ht;
pub mod ht_entry;
pub mod io;
pub mod operator_chain;
mod par;
pub mod partition;
pub mod permute;
pub mod pipeline;
pub mod plan;
pub mod pow2s;
pub mod probe;
pub mod radix;
pub mod row;
pub mod row_chain;
pub mod scan;
pub mod select;
pub mod sink;
