use zendb_storage::sync::messages::SyncCapabilities;
use zendb_storage::topic::names::{list_segments, parse_number, segment_base, segment_name};
use zendb_storage::utils::lex::{compare_bytes, same_bytes, Order};
use zendb_storage::utils::rand::Rng;
use zendb_storage::utils::ratio::Ratio;
use zendb_storage::utils::time::Duration;

#[test]
fn segment_names_have_twenty_digits() {
    assert_eq!(segment_name(0), b"00000000000000000000.log");
    assert_eq!(segment_name(1203), b"00000000000000001203.log");
    assert_eq!(segment_name(u64::MAX), b"18446744073709551615.log");
    for base in [0, 7, 1 << 40, u64::MAX] {
        assert_eq!(segment_base(&segment_name(base)), Some(base));
        assert_eq!(segment_name(base), format!("{base:020}.log").into_bytes());
    }
}

#[test]
fn other_files_are_no_segments() {
    assert_eq!(segment_base(b"12.log"), Some(12));
    assert_eq!(segment_base(b"+12.log"), Some(12));
    assert_eq!(segment_base(b"12.txt"), None);
    assert_eq!(segment_base(b".log"), None);
    assert_eq!(segment_base(b"-1.log"), None);
    assert_eq!(segment_base(b"1.2.log"), None);
    assert_eq!(segment_base(b"offsets"), None);
    assert_eq!(segment_base(b"18446744073709551616.log"), None);
    for text in ["", "+", "0", "007", "18446744073709551615", "18446744073709551616", "12a", "++1", "99999999999999999999999"] {
        assert_eq!(parse_number(text.as_bytes()), text.parse::<u64>().ok());
    }
}

#[test]
fn segments_are_listed_by_offset() {
    let names = vec![segment_name(30), b"offsets".to_vec(), segment_name(4), segment_name(100)];
    let bases: Vec<u64> = list_segments(names).into_iter().map(|(b, _)| b).collect();
    assert_eq!(bases, vec![4, 30, 100]);
}

#[test]
fn bytes_compare_like_slices() {
    let samples: [&[u8]; 5] = [b"", b"a", b"ab", b"b", &[255]];
    for a in samples {
        for b in samples {
            let order = match compare_bytes(a, b) {
                Order::Less => std::cmp::Ordering::Less,
                Order::Equal => std::cmp::Ordering::Equal,
                Order::Greater => std::cmp::Ordering::Greater,
            };
            assert_eq!(order, a.cmp(b));
            assert_eq!(same_bytes(a, b), a == b);
        }
    }
}

#[test]
fn ratios_are_reached_exactly() {
    let half = Ratio { num: 1, den: 2 };
    assert!(half.reached(5, 10));
    assert!(!half.reached(4, 10));
    assert!(!Ratio { num: 1, den: 1 }.reached(10, 10));
    assert!(Ratio { num: 0, den: 1 }.reached(0, 10));
}

#[test]
fn durations_count_nanoseconds() {
    assert_eq!(Duration::from_millis(3).nanos, 3_000_000);
    assert_eq!(Duration::from_secs(2).as_millis(), 2000);
}

#[test]
fn random_numbers_are_the_same_each_time() {
    let mut a = Rng::new();
    let mut b = Rng::new();
    let first = a.fast_rand();
    assert_eq!(first, b.fast_rand());
    assert_ne!(first, a.fast_rand());
}

#[test]
fn capabilities_are_plain_data() {
    let c = SyncCapabilities { can_serve_snapshot: true, can_accept_tail_subscription: false, max_batch_events: 64 };
    let d = c;
    assert_eq!(c, d);
}
