use melt::epoch::parse_epoch;
use melt::snowflake::SnowflakeParts;

#[test]
fn bit_fields_are_exact_slices() {
    let parts = SnowflakeParts::melt(844882040566702080, parse_epoch("twitter").unwrap());
    assert_eq!(parts.sequence, 0);
    assert_eq!(parts.worker, 30);
    assert_eq!(parts.data_center, 10);
    assert_eq!(parts.timestamp_ms, 1490270550277);
}

#[test]
fn timestamp_is_epoch_plus_offset() {
    // The embedded offset of this flake is 201435575620 ms; any epoch
    // shifts the timestamp by exactly that amount.
    let flake: u64 = 844882040566702080;
    let offset: i64 = (flake >> 22) as i64;
    assert_eq!(offset, 201435575620);
    let parts = SnowflakeParts::melt(flake, 0);
    assert_eq!(parts.timestamp_ms, offset);
    let parts = SnowflakeParts::melt(flake, -5000);
    assert_eq!(parts.timestamp_ms, offset - 5000);
}

#[test]
fn zero_and_max_flakes_decode() {
    let parts = SnowflakeParts::melt(0, 0);
    assert_eq!(parts.sequence, 0);
    assert_eq!(parts.worker, 0);
    assert_eq!(parts.data_center, 0);
    assert_eq!(parts.timestamp_ms, 0);
    let parts = SnowflakeParts::melt(u64::MAX, 0);
    assert_eq!(parts.sequence, 4095);
    assert_eq!(parts.worker, 31);
    assert_eq!(parts.data_center, 31);
    assert_eq!(parts.timestamp_ms, ((1u64 << 42) - 1) as i64);
}

#[test]
fn low_bits_recombine() {
    let flake: u64 = 86841168427495424 | 0x3fffff;
    let parts = SnowflakeParts::melt(flake, 0);
    let low = parts.sequence as u64
        + parts.worker as u64 * 4096
        + parts.data_center as u64 * 131072;
    assert_eq!(low, flake % 4194304);
}

#[test]
fn melt_checked_guards_overflow() {
    let parts = SnowflakeParts::melt_checked(844882040566702080, 1288834974657).unwrap();
    assert_eq!(parts.timestamp_ms, 1490270550277);
    assert!(SnowflakeParts::melt_checked(u64::MAX, i64::MAX).is_none());
    assert!(SnowflakeParts::melt_checked(u64::MAX, i64::MAX - ((1i64 << 42) - 1)).is_some());
}
