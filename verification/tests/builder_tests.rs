use qpick::builder::{
    cap_bucket, layout_buckets, parse_line, route_postings, LayoutError, Routed,
};
use qpick::hash::jump_consistent_hash_str;
use qpick::index::SoundMap;
use qpick::ngrams::parse;
use qpick::codec::{elegant_pair, elegant_pair_inv};
use qpick::index::bucket_in_bounds;
use qpick::posting::Posting;

fn posting(pqid: u32, remainder: u8, tr: u8, f: u8) -> Posting {
    Posting { pqid, remainder, tr, f }
}

#[test]
fn line_holds_an_id_and_a_query() {
    assert_eq!(parse_line("5\tabc"), Some((5, "abc".to_string())));
    assert_eq!(parse_line("0\t"), Some((0, String::new())));
    assert_eq!(parse_line("0012\t a b "), Some((12, " a b ".to_string())));
}

#[test]
fn query_may_hold_tabs() {
    assert_eq!(parse_line("7\tab\tcd"), Some((7, "ab\tcd".to_string())));
    assert_eq!(parse_line("7\t\t"), Some((7, "\t".to_string())));
}

#[test]
fn largest_id_is_read() {
    assert_eq!(
        parse_line("18446744073709551615\tq"),
        Some((u64::MAX, "q".to_string()))
    );
    assert_eq!(
        parse_line("00018446744073709551615\tq"),
        Some((u64::MAX, "q".to_string()))
    );
}

#[test]
fn id_that_does_not_fit_is_refused() {
    assert_eq!(parse_line("18446744073709551616\tq"), None);
    assert_eq!(parse_line("99999999999999999999999\tq"), None);
    assert_eq!(parse_line("184467440737095516150\tq"), None);
}

#[test]
fn line_without_a_separator_is_refused() {
    assert_eq!(parse_line(""), None);
    assert_eq!(parse_line("5"), None);
    assert_eq!(parse_line("5 abc"), None);
    assert_eq!(parse_line("abc"), None);
}

#[test]
fn line_without_a_number_is_refused() {
    assert_eq!(parse_line("\tabc"), None);
    assert_eq!(parse_line("x5\tabc"), None);
    assert_eq!(parse_line("5x\tabc"), None);
    assert_eq!(parse_line("-5\tabc"), None);
    assert_eq!(parse_line("+5\tabc"), None);
    assert_eq!(parse_line(" 5\tabc"), None);
    assert_eq!(parse_line("\u{664}\tabc"), None);
}

#[test]
fn query_keeps_its_characters() {
    assert_eq!(parse_line("9\th\u{e9} \u{4e16}"), Some((9, "h\u{e9} \u{4e16}".to_string())));
}

#[test]
fn bucket_within_its_size_is_ranked() {
    let list = vec![posting(1, 0, 10, 5), posting(2, 0, 90, 0), posting(3, 1, 50, 200)];
    assert_eq!(
        cap_bucket(&list, 10),
        vec![posting(2, 0, 90, 0), posting(3, 1, 50, 200), posting(1, 0, 10, 5)]
    );
}

#[test]
fn long_bucket_keeps_the_highest_ranked() {
    let list = vec![
        posting(1, 0, 10, 5),
        posting(2, 0, 90, 0),
        posting(3, 1, 50, 200),
        posting(4, 0, 90, 1),
        posting(5, 0, 50, 199),
    ];
    assert_eq!(cap_bucket(&list, 2), vec![posting(4, 0, 90, 1), posting(2, 0, 90, 0)]);
    assert_eq!(
        cap_bucket(&list, 3),
        vec![posting(4, 0, 90, 1), posting(2, 0, 90, 0), posting(3, 1, 50, 200)]
    );
    assert_eq!(cap_bucket(&list, 0), vec![]);
    assert_eq!(cap_bucket(&vec![], 3), vec![]);
}

#[test]
fn equal_postings_are_ordered_by_id() {
    let list = vec![
        posting(7, 1, 50, 50),
        posting(7, 0, 50, 50),
        posting(2, 9, 50, 50),
        posting(u32::MAX, 255, 255, 255),
    ];
    assert_eq!(
        cap_bucket(&list, 3),
        vec![posting(u32::MAX, 255, 255, 255), posting(2, 9, 50, 50), posting(7, 0, 50, 50)]
    );
}

#[test]
fn buckets_are_laid_out_one_behind_the_other() {
    let values = layout_buckets(&vec![3, 1, 1000, 2], 1000).unwrap();
    assert_eq!(
        values,
        vec![
            elegant_pair(0, 3),
            elegant_pair(3, 1),
            elegant_pair(4, 1000),
            elegant_pair(1004, 2)
        ]
    );
    assert_eq!(layout_buckets(&vec![], 1000), Ok(vec![]));
}

#[test]
fn laid_out_buckets_keep_the_bounds_of_the_file() {
    let lens: Vec<u64> = vec![3, 1, 1000, 2, 17];
    let total: u64 = lens.iter().sum();
    let values = layout_buckets(&lens, 1000).unwrap();
    let mut before = 0;
    for (value, len) in values.iter().zip(lens.iter()) {
        assert_eq!(elegant_pair_inv(*value), (before, *len));
        assert!(bucket_in_bounds(before, *len, 1000, total * 7));
        before += len;
    }
}

#[test]
fn empty_bucket_is_a_fault() {
    assert_eq!(layout_buckets(&vec![3, 0, 2], 1000), Err(LayoutError::EmptyBucket));
}

#[test]
fn long_bucket_is_a_fault() {
    assert_eq!(layout_buckets(&vec![3, 1001, 2], 1000), Err(LayoutError::LongBucket));
    assert_eq!(layout_buckets(&vec![1], 0), Err(LayoutError::LongBucket));
}

#[test]
fn long_file_is_a_fault() {
    let full: u64 = 0xffff_ffff;
    assert!(layout_buckets(&vec![full], usize::MAX).is_ok());
    assert_eq!(layout_buckets(&vec![full, 1], usize::MAX), Err(LayoutError::LongFile));
    assert_eq!(layout_buckets(&vec![full + 1], usize::MAX), Err(LayoutError::LongFile));
}

#[test]
fn first_fault_is_told() {
    assert_eq!(layout_buckets(&vec![0, 1001], 1000), Err(LayoutError::EmptyBucket));
    assert_eq!(layout_buckets(&vec![1001, 0], 1000), Err(LayoutError::LongBucket));
}

#[test]
fn postings_of_a_query_go_to_the_shards_of_its_ngrams() {
    let terms = SoundMap::build(vec![(b"abc".to_vec(), 40u64)]).unwrap();
    let ngrams = parse("abc z", &vec![], &terms);
    let routed = route_postings(11, &ngrams, 4).unwrap();
    assert_eq!(
        routed,
        vec![
            Routed {
                shard: jump_consistent_hash_str("ab", 4),
                posting: posting(2, 3, 40, 0)
            },
            Routed {
                shard: jump_consistent_hash_str("bc", 4),
                posting: posting(2, 3, 40, 0)
            },
            Routed {
                shard: jump_consistent_hash_str("z", 4),
                posting: posting(2, 3, 100, 0)
            },
        ]
    );
    for to in routed.iter() {
        assert!(to.shard < 4);
    }
}

#[test]
fn query_id_that_does_not_fit_has_no_postings() {
    let terms = SoundMap::build(vec![]).unwrap();
    let ngrams = parse("abc", &vec![], &terms);
    assert_eq!(route_postings(5, &ngrams, 0), None);
    assert_eq!(route_postings(u64::MAX, &ngrams, 2), None);
    assert_eq!(route_postings(300, &ngrams, 1000), None);
    assert_eq!(route_postings(5, &vec![], 2), Some(vec![]));
}
