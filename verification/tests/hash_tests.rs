use qpick::hash::{jump_consistent_hash, jump_consistent_hash_str, key64, next_jump};

// The jump as binary64 arithmetic makes it.
fn float_jump(m: u64, d: u64) -> u128 {
    (m as f64 * ((1u64 << 31) as f64 / d as f64)) as u128
}

// The jump consistent hash as it is written over binary64 arithmetic.
fn float_hash(mut key: u64, num_buckets: u32) -> u32 {
    let mut b: i64 = -1;
    let mut j: i64 = 0;
    while j < num_buckets as i64 {
        b = j;
        key = key.wrapping_mul(2862933555777941757).wrapping_add(1);
        j = ((b + 1) as f64 * ((1i64 << 31) as f64 / ((key >> 33) + 1) as f64)) as i64;
    }
    b as u32
}

fn next_random(seed: &mut u64) -> u64 {
    *seed ^= *seed << 13;
    *seed ^= *seed >> 7;
    *seed ^= *seed << 17;
    *seed
}

#[test]
fn jump_agrees_with_binary64_at_the_edges() {
    let ms: [u64; 12] = [
        1,
        2,
        3,
        7,
        1000,
        65535,
        65536,
        0x7fff_ffff,
        0x8000_0000,
        0xffff_fffe,
        0xffff_ffff,
        0x1_0000_0000,
    ];
    let ds: [u64; 16] = [
        1,
        2,
        3,
        5,
        7,
        1023,
        1024,
        1025,
        0x3fff_ffff,
        0x4000_0000,
        0x4000_0001,
        0x5555_5555,
        0x7fff_fffd,
        0x7fff_fffe,
        0x7fff_ffff,
        0x8000_0000,
    ];
    for m in ms.iter() {
        for d in ds.iter() {
            assert_eq!(next_jump(*m, *d), float_jump(*m, *d));
        }
    }
}

#[test]
fn jump_agrees_with_binary64_on_small_operands() {
    let mut m: u64 = 1;
    while m <= 300 {
        let mut d: u64 = 1;
        while d <= 300 {
            assert_eq!(next_jump(m, d), float_jump(m, d));
            d += 1;
        }
        m += 1;
    }
}

#[test]
fn jump_agrees_with_binary64_on_random_operands() {
    let mut seed: u64 = 0x9e37_79b9_7f4a_7c15;
    let mut i = 0;
    while i < 200000 {
        let m = next_random(&mut seed) % 0x1_0000_0000 + 1;
        let d = next_random(&mut seed) % 0x8000_0000 + 1;
        assert_eq!(next_jump(m, d), float_jump(m, d));
        i += 1;
    }
}

#[test]
fn jump_agrees_with_binary64_where_the_quotient_is_whole() {
    // the product is a whole number before it is rounded
    let mut e = 0;
    while e <= 31 {
        let d: u64 = 1 << e;
        let mut m: u64 = 1;
        while m < 0x1_0000_0000 {
            assert_eq!(next_jump(m, d), float_jump(m, d));
            assert_eq!(next_jump(m, d), (m as u128) << (31 - e));
            m = m * 3 + 1;
        }
        e += 1;
    }
}

#[test]
fn jump_goes_forward() {
    let mut seed: u64 = 42;
    let mut i = 0;
    while i < 20000 {
        let m = next_random(&mut seed) % 0x1_0000_0000 + 1;
        assert!(next_jump(m, 0x8000_0000) >= m as u128);
        assert!(next_jump(m, 0x7fff_ffff) >= m as u128);
        i += 1;
    }
}

#[test]
fn hash_agrees_with_binary64_on_random_keys() {
    let mut seed: u64 = 0x1234_5678_9abc_def1;
    let buckets: [u32; 10] = [1, 2, 3, 7, 32, 100, 1000, 65536, 1 << 30, u32::MAX];
    let mut i = 0;
    while i < 20000 {
        let key = next_random(&mut seed);
        for n in buckets.iter() {
            assert_eq!(jump_consistent_hash(key, *n), float_hash(key, *n));
        }
        i += 1;
    }
}

#[test]
fn hash_agrees_with_binary64_on_small_keys() {
    let mut key: u64 = 0;
    while key < 3000 {
        let mut n: u32 = 1;
        while n <= 40 {
            assert_eq!(jump_consistent_hash(key, n), float_hash(key, n));
            n += 1;
        }
        key += 1;
    }
}

#[test]
fn hash_has_the_known_buckets() {
    assert_eq!(jump_consistent_hash(0, 1), 0);
    assert_eq!(jump_consistent_hash(1, 1), 0);
    assert_eq!(jump_consistent_hash(u64::MAX, 1), 0);
    assert_eq!(jump_consistent_hash(0xdead_beef, 1), 0);
    assert_eq!(jump_consistent_hash(1, 100), 55);
}

#[test]
fn hash_has_the_published_buckets() {
    assert_eq!(jump_consistent_hash(10863919174838991, 11), 6);
    assert_eq!(jump_consistent_hash(2016238256797177309, 11), 3);
    assert_eq!(jump_consistent_hash(1673758223894951030, 11), 5);
    assert_eq!(jump_consistent_hash(0, 100), 0);
    assert_eq!(jump_consistent_hash(2, 100), 62);
    assert_eq!(jump_consistent_hash(4, 100), 45);
    assert_eq!(jump_consistent_hash(u64::MAX, 1000), 313);
    assert_eq!(jump_consistent_hash(0xdead_beef, 32), 16);
}

#[test]
fn jump_has_the_stated_values() {
    // 3 * 2^31 / 5 is 1288490188.8
    assert_eq!(next_jump(3, 5), 1288490188);
    assert_eq!(next_jump(1, 1), 0x8000_0000);
    assert_eq!(next_jump(1, 0x8000_0000), 1);
    assert_eq!(next_jump(1000, 0x7fff_ffff), 1000);
    assert_eq!(next_jump(0xffff_ffff, 3), 3074457344902430720);
}

#[test]
fn shards_of_ngrams_are_stable() {
    assert_eq!(key64("ab".as_bytes()), 0x089c_4407_b545_986a);
    assert_eq!(key64("bc".as_bytes()), 0x08a6_3507_b54d_d372);
    assert_eq!(key64("foo".as_bytes()), 0xdcb2_7518_fed9_d577);
    assert_eq!(key64("h\u{e9}".as_bytes()), 0x3130_f119_2e1a_d66f);
    assert_eq!(jump_consistent_hash_str("ab", 2), 1);
    assert_eq!(jump_consistent_hash_str("ab", 5), 2);
    assert_eq!(jump_consistent_hash_str("ab", 32), 18);
    assert_eq!(jump_consistent_hash_str("bc", 2), 0);
    assert_eq!(jump_consistent_hash_str("bc", 32), 29);
    assert_eq!(jump_consistent_hash_str("foo", 32), 1);
    assert_eq!(jump_consistent_hash_str("h\u{e9}", 32), 16);
}

#[test]
fn hash_is_a_bucket_of_the_index() {
    let mut seed: u64 = 7;
    let mut i = 0;
    while i < 5000 {
        let key = next_random(&mut seed);
        let n = (next_random(&mut seed) % 64) as u32 + 1;
        assert!(jump_consistent_hash(key, n) < n);
        i += 1;
    }
}

#[test]
fn hash_without_buckets_is_zero() {
    assert_eq!(jump_consistent_hash(0, 0), 0);
    assert_eq!(jump_consistent_hash(12345, 0), 0);
}

#[test]
fn growing_the_index_moves_keys_to_new_buckets_only() {
    let mut seed: u64 = 99;
    let mut i = 0;
    while i < 3000 {
        let key = next_random(&mut seed);
        let mut n: u32 = 1;
        while n < 20 {
            let before = jump_consistent_hash(key, n);
            let after = jump_consistent_hash(key, n + 1);
            assert!(after == before || after == n);
            n += 1;
        }
        i += 1;
    }
}

#[test]
fn byte_hash_has_the_known_values() {
    assert_eq!(key64(b""), 0xcbf2_9ce4_8422_2325);
    assert_eq!(key64(b"a"), 0xaf63_dc4c_8601_ec8c);
    assert_eq!(key64(b"foobar"), 0x8594_4171_f739_67e8);
}

#[test]
fn shard_of_a_string_is_the_bucket_of_its_bytes() {
    for s in ["ab", "bc", "", "h\u{e9}", "a longer n-gram"] {
        for n in [1u32, 2, 5, 32] {
            assert_eq!(
                jump_consistent_hash_str(s, n),
                jump_consistent_hash(key64(s.as_bytes()), n)
            );
            assert!(jump_consistent_hash_str(s, n) < n);
        }
    }
}
