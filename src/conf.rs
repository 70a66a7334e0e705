use vstd::prelude::*;

verus! {

/// The maximum number of tables per level before the level is compacted.
pub const MAX_TABLES_PER_LEVEL: usize = 10;

/// The maximum number of records held in the memtable before it is flushed;
/// also the number of records per table in the first on-disk level.
pub const MEMTABLE_MAX_SIZE: usize = 100;

/// The number of keys a level's bloom filter is sized for.
pub const BLOOM_FILTER_SIZE: u32 = 1000;

/// The number of bits of a level's bloom filter: what a false-positive rate
/// of one in a thousand asks for `BLOOM_FILTER_SIZE` keys.
pub const BLOOM_FILTER_BITS: usize = 14378;

/// The number of hash functions of a level's bloom filter, optimal for
/// `BLOOM_FILTER_BITS` bits and `BLOOM_FILTER_SIZE` keys.
pub const BLOOM_FILTER_HASHES: u32 = 10;

/// The name of the metadata file in a level's directory.
pub const LEVEL_META_FILE: &'static str = "_meta.bson";

/// The extension of a table file.
pub const TABLE_FILE_EXT: &'static str = "bson";

} // verus!
