use qpick::config::{Config, ConfigError, ShardRange};

fn config(nr_shards: usize, id_size: usize, bucket_size: usize, shard_size: usize) -> Config {
    Config {
        nr_shards,
        id_size,
        bucket_size,
        shard_size,
        stopwords_path: String::from("stopwords.txt"),
        terms_relevance_path: String::from("terms.fst"),
    }
}

#[test]
fn sound_configuration_is_accepted() {
    let c = config(2, 7, 1000, 1000);
    assert_eq!(c.validate(), Ok(()));
    assert_eq!(c.bucket_bytes(), 7000);
    assert_eq!(c.shard_count(), 2);
}

#[test]
fn each_fault_is_named() {
    assert_eq!(config(0, 7, 1000, 1000).validate(), Err(ConfigError::NoShards));
    assert_eq!(config(2, 8, 1000, 1000).validate(), Err(ConfigError::IdSize));
    assert_eq!(config(2, 0, 1000, 1000).validate(), Err(ConfigError::IdSize));
    assert_eq!(config(2, 7, 0, 1000).validate(), Err(ConfigError::BucketSize));
    assert_eq!(config(2, 7, usize::MAX, 1000).validate(), Err(ConfigError::BucketSize));
    assert_eq!(config(2, 7, 1000, 0).validate(), Err(ConfigError::ShardSize));
}

#[test]
fn first_fault_wins() {
    assert_eq!(config(0, 8, 0, 0).validate(), Err(ConfigError::NoShards));
    assert_eq!(config(1, 8, 0, 0).validate(), Err(ConfigError::IdSize));
    assert_eq!(config(1, 7, 0, 0).validate(), Err(ConfigError::BucketSize));
}

#[test]
fn shard_count_must_fit_in_32_bits() {
    if usize::MAX as u64 > u32::MAX as u64 {
        let many = (u32::MAX as u64 + 1) as usize;
        assert_eq!(config(many, 7, 1000, 1000).validate(), Err(ConfigError::TooManyShards));
    }
    assert_eq!(config(u32::MAX as usize, 7, 1000, 1000).validate(), Ok(()));
}

#[test]
fn range_defaults_to_every_shard() {
    assert_eq!(ShardRange::resolve(None, 4), Ok(ShardRange { start: 0, end: 4 }));
}

#[test]
fn range_within_the_index_is_kept() {
    let r = ShardRange { start: 1, end: 3 };
    assert_eq!(ShardRange::resolve(Some(r), 4), Ok(r));
    let all = ShardRange { start: 0, end: 4 };
    assert_eq!(ShardRange::resolve(Some(all), 4), Ok(all));
    let none = ShardRange { start: 2, end: 2 };
    assert_eq!(ShardRange::resolve(Some(none), 4), Ok(none));
}

#[test]
fn range_beyond_the_index_is_refused() {
    assert_eq!(
        ShardRange::resolve(Some(ShardRange { start: 1, end: 5 }), 4),
        Err(ConfigError::ShardRange)
    );
    assert_eq!(
        ShardRange::resolve(Some(ShardRange { start: 5, end: 5 }), 4),
        Err(ConfigError::ShardRange)
    );
    assert_eq!(
        ShardRange::resolve(Some(ShardRange { start: 9, end: 5 }), 4),
        Err(ConfigError::ShardRange)
    );
}

#[test]
fn range_that_ends_before_it_starts_is_kept_and_hosts_nothing() {
    let inverted = ShardRange { start: 5, end: 2 };
    assert_eq!(ShardRange::resolve(Some(inverted), 10), Ok(inverted));
    assert_eq!(inverted.len(), 0);
    assert_eq!(inverted.slot(3), None);
    let beyond = ShardRange { start: 12, end: 10 };
    assert_eq!(ShardRange::resolve(Some(beyond), 10), Ok(beyond));
    assert_eq!(ShardRange::resolve(Some(ShardRange { start: 3, end: 2 }), 4), Ok(ShardRange { start: 3, end: 2 }));
}

#[test]
fn slot_counts_from_the_first_hosted_shard() {
    let r = ShardRange { start: 2, end: 5 };
    assert_eq!(r.len(), 3);
    assert_eq!(r.slot(2), Some(0));
    assert_eq!(r.slot(4), Some(2));
    assert_eq!(r.slot(1), None);
    assert_eq!(r.slot(5), None);
    assert_eq!(ShardRange { start: 5, end: 2 }.len(), 0);
    assert_eq!(ShardRange { start: 5, end: 2 }.slot(3), None);
}
