use qpick::codec::{elegant_pair, elegant_pair_inv, isqrt, pqid2qid, qid2pqid};

#[test]
fn pair_round_trips_zero_and_bucket_size() {
    let bucket_size: u32 = 1000;
    assert_eq!(elegant_pair_inv(elegant_pair(0, bucket_size)), (0, bucket_size as u64));
}

#[test]
fn pair_round_trips_large_address() {
    assert_eq!(elegant_pair_inv(elegant_pair(123456, 7)), (123456, 7));
}

#[test]
fn pair_values_follow_the_two_formulas() {
    // below the diagonal: y * y + x
    assert_eq!(elegant_pair(3, 5), 28);
    // on and above it: x * x + x + y
    assert_eq!(elegant_pair(5, 3), 33);
    assert_eq!(elegant_pair(4, 4), 24);
    assert_eq!(elegant_pair(0, 0), 0);
}

#[test]
fn pair_inv_walks_the_shells() {
    assert_eq!(elegant_pair_inv(0), (0, 0));
    assert_eq!(elegant_pair_inv(1), (0, 1));
    assert_eq!(elegant_pair_inv(2), (1, 0));
    assert_eq!(elegant_pair_inv(3), (1, 1));
    assert_eq!(elegant_pair_inv(4), (0, 2));
    assert_eq!(elegant_pair_inv(8), (2, 2));
    assert_eq!(elegant_pair_inv(28), (3, 5));
    assert_eq!(elegant_pair_inv(33), (5, 3));
}

#[test]
fn pair_round_trips_at_the_limits() {
    let m = u32::MAX;
    assert_eq!(elegant_pair(m, m), u64::MAX);
    assert_eq!(elegant_pair_inv(u64::MAX), (m as u64, m as u64));
    assert_eq!(elegant_pair_inv(elegant_pair(0, m)), (0, m as u64));
    assert_eq!(elegant_pair_inv(elegant_pair(m, 0)), (m as u64, 0));
    assert_eq!(elegant_pair_inv(elegant_pair(m - 1, m)), ((m - 1) as u64, m as u64));
}

#[test]
fn pair_round_trips_on_a_grid() {
    let mut x: u32 = 0;
    while x < 60 {
        let mut y: u32 = 0;
        while y < 60 {
            assert_eq!(elegant_pair_inv(elegant_pair(x, y)), (x as u64, y as u64));
            y += 1;
        }
        x += 1;
    }
}

#[test]
fn pair_inv_is_onto_small_values() {
    let mut z: u64 = 0;
    while z < 5000 {
        let (x, y) = elegant_pair_inv(z);
        assert_eq!(elegant_pair(x as u32, y as u32), z);
        z += 1;
    }
}

#[test]
fn isqrt_is_exact_near_squares() {
    assert_eq!(isqrt(0), 0);
    assert_eq!(isqrt(1), 1);
    assert_eq!(isqrt(3), 1);
    assert_eq!(isqrt(4), 2);
    assert_eq!(isqrt(99), 9);
    assert_eq!(isqrt(100), 10);
    assert_eq!(isqrt(u64::MAX), 0xffff_ffff);
    let r: u64 = 3_037_000_499;
    assert_eq!(isqrt(r * r), r);
    assert_eq!(isqrt(r * r - 1), r - 1);
    assert_eq!(isqrt(r * r + 2 * r), r);
}

#[test]
fn qid_is_rebuilt_from_its_parts() {
    assert_eq!(pqid2qid(2, 1, 2), 5);
    assert_eq!(pqid2qid(3, 0, 2), 6);
    assert_eq!(pqid2qid(0, 0, 32), 0);
    assert_eq!(pqid2qid(u32::MAX, 255, u32::MAX), 18446744065119617280);
}

#[test]
fn qid_splits_into_quotient_and_remainder() {
    assert_eq!(qid2pqid(5, 2), Some((2, 1)));
    assert_eq!(qid2pqid(6, 2), Some((3, 0)));
    assert_eq!(qid2pqid(1_000_003, 32), Some((31250, 3)));
}

#[test]
fn qid_split_refuses_what_does_not_fit() {
    assert_eq!(qid2pqid(5, 0), None);
    // the quotient needs more than 32 bits
    assert_eq!(qid2pqid(u64::MAX, 2), None);
    // the remainder needs more than 8 bits
    assert_eq!(qid2pqid(300, 1000), None);
    assert_eq!(qid2pqid(255, 1000), Some((0, 255)));
}

#[test]
fn qid_round_trips_through_split() {
    let mut n: u32 = 1;
    while n <= 40 {
        let mut qid: u64 = 0;
        while qid < 500 {
            let (p, r) = qid2pqid(qid, n).unwrap();
            assert!((r as u32) < n);
            assert_eq!(pqid2qid(p, r, n), qid);
            qid += 7;
        }
        n += 1;
    }
}
