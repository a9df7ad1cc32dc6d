//! The constants of an index and the range of shards that an engine hosts.

use vstd::prelude::*;
use crate::posting::ID_SIZE;

verus! {

/// The constants that an index was built with.
#[derive(Clone, Debug)]
pub struct Config {
    /// The number of shards of the index.
    pub nr_shards: usize,
    /// The size of a posting record in bytes.
    pub id_size: usize,
    /// The largest number of records in a bucket.
    pub bucket_size: usize,
    /// About the number of queries in a shard.
    pub shard_size: usize,
    /// Where the stop-words are stored.
    pub stopwords_path: String,
    /// Where the map of term relevances is stored.
    pub terms_relevance_path: String,
}

/// Why an index cannot be opened with a configuration.
#[derive(Clone, Copy, Debug, PartialEq, Eq, Structural)]
pub enum ConfigError {
    /// The index has no shard.
    NoShards,
    /// The number of shards does not fit in 32 bits.
    TooManyShards,
    /// The record size is not `ID_SIZE`.
    IdSize,
    /// A bucket holds no record, or more bytes than can be addressed.
    BucketSize,
    /// A shard holds no query.
    ShardSize,
    /// The hosted shards reach beyond the shards of the index.
    ShardRange,
}

impl Config {
    /// The first fault of the configuration, in the order of its fields.
    pub open spec fn fault(&self) -> Option<ConfigError> {
        if self.nr_shards == 0 {
            Some(ConfigError::NoShards)
        } else if self.nr_shards > u32::MAX {
            Some(ConfigError::TooManyShards)
        } else if self.id_size != ID_SIZE {
            Some(ConfigError::IdSize)
        } else if self.bucket_size == 0 || self.bucket_size * ID_SIZE > usize::MAX {
            Some(ConfigError::BucketSize)
        } else if self.shard_size == 0 {
            Some(ConfigError::ShardSize)
        } else {
            None
        }
    }

    /// An index can be read with this configuration.
    pub open spec fn is_valid(&self) -> bool {
        self.fault() is None
    }

    /// Accepts a configuration that an index can be read with, and names
    /// the first fault of any other.
    pub fn validate(&self) -> (r: Result<(), ConfigError>)
        ensures
            r is Ok <==> self.is_valid(),
            r matches Err(e) ==> self.fault() == Some(e),
    {
        if self.nr_shards == 0 {
            Err(ConfigError::NoShards)
        } else if self.nr_shards > 0xffff_ffff {
            Err(ConfigError::TooManyShards)
        } else if self.id_size != ID_SIZE {
            Err(ConfigError::IdSize)
        } else if self.bucket_size == 0 || self.bucket_size.checked_mul(ID_SIZE).is_none() {
            Err(ConfigError::BucketSize)
        } else if self.shard_size == 0 {
            Err(ConfigError::ShardSize)
        } else {
            Ok(())
        }
    }

    /// The number of bytes that the slot of a bucket takes in a posting
    /// file.
    pub fn bucket_bytes(&self) -> (n: usize)
        requires
            self.is_valid(),
        ensures
            n == self.bucket_size * ID_SIZE,
    {
        self.bucket_size * self.id_size
    }

    /// The number of shards, as the 32-bit value that shard ids are.
    pub fn shard_count(&self) -> (n: u32)
        requires
            self.is_valid(),
        ensures
            n == self.nr_shards,
            n > 0,
    {
        self.nr_shards as u32
    }
}

/// The shards that an engine hosts: those from `start` up to, and not
/// including, `end`.
#[derive(Clone, Copy, Debug, PartialEq, Eq, Structural)]
pub struct ShardRange {
    /// The first hosted shard.
    pub start: u32,
    /// The shard after the last hosted one.
    pub end: u32,
}

impl ShardRange {
    /// Whether the range holds a shard.
    pub open spec fn contains(&self, shard: u32) -> bool {
        self.start <= shard < self.end
    }

    /// The range ends within the shards of an index of `nr_shards` shards:
    /// every shard that it holds is a shard of the index. A range that
    /// ends before it starts holds no shard.
    pub open spec fn within(&self, nr_shards: nat) -> bool {
        self.end <= nr_shards
    }

    /// The number of hosted shards.
    pub open spec fn count(&self) -> nat {
        if self.start <= self.end {
            (self.end - self.start) as nat
        } else {
            0
        }
    }

    /// The range of shards to host: the given one, or every shard of the
    /// index where none is given. A range that reaches beyond the shards of
    /// the index is refused; one that ends before it starts is kept, and
    /// hosts no shard.
    pub fn resolve(given: Option<ShardRange>, nr_shards: u32) -> (r: Result<ShardRange, ConfigError>)
        ensures
            given is None ==> r == Ok::<ShardRange, ConfigError>(
                ShardRange { start: 0, end: nr_shards },
            ),
            given matches Some(range) ==> r == (if range.within(nr_shards as nat) {
                Ok::<ShardRange, ConfigError>(range)
            } else {
                Err::<ShardRange, ConfigError>(ConfigError::ShardRange)
            }),
    {
        match given {
            None => Ok(ShardRange { start: 0, end: nr_shards }),
            Some(range) => {
                if range.end <= nr_shards {
                    Ok(range)
                } else {
                    Err(ConfigError::ShardRange)
                }
            },
        }
    }

    /// The number of hosted shards.
    pub fn len(&self) -> (n: usize)
        ensures
            n == self.count(),
    {
        if self.start <= self.end {
            (self.end - self.start) as usize
        } else {
            0
        }
    }

    /// The place of a shard among the hosted ones, counted from the first;
    /// `None` for a shard that is not hosted.
    pub fn slot(&self, shard: u32) -> (s: Option<usize>)
        ensures
            s is Some <==> self.contains(shard),
            s matches Some(i) ==> i == shard - self.start && i < self.count(),
    {
        if self.start <= shard && shard < self.end {
            Some((shard - self.start) as usize)
        } else {
            None
        }
    }
}

} // verus!
