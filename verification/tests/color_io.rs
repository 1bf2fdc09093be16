use rpt::color::{hex_channels, pack_channels};
use rpt::io::{parse_i32, parse_index};

#[test]
fn hex_channels_work() {
    assert_eq!(hex_channels(0x000000), (0, 0, 0));
    assert_eq!(hex_channels(0xffffff), (255, 255, 255));
    assert_eq!(hex_channels(0xff0000), (255, 0, 0));
    assert_eq!(hex_channels(0x123456), (0x12, 0x34, 0x56));
    assert_eq!(hex_channels(0xff123456), (0x12, 0x34, 0x56));
}

#[test]
fn pack_then_extract_round_trips() {
    for &(r, g, b) in &[(0u8, 0u8, 0u8), (255, 255, 255), (255, 0, 0), (1, 2, 3), (18, 52, 86)] {
        assert_eq!(hex_channels(pack_channels(r, g, b)), (r, g, b));
    }
}

#[test]
fn parse_i32_accepts_plain_numbers() {
    assert_eq!(parse_i32("0"), Some(0));
    assert_eq!(parse_i32("7"), Some(7));
    assert_eq!(parse_i32("+7"), Some(7));
    assert_eq!(parse_i32("-7"), Some(-7));
    assert_eq!(parse_i32("007"), Some(7));
    assert_eq!(parse_i32("2147483647"), Some(2147483647));
    assert_eq!(parse_i32("-2147483648"), Some(-2147483648));
}

#[test]
fn parse_i32_rejects_junk_and_overflow() {
    assert_eq!(parse_i32(""), None);
    assert_eq!(parse_i32("+"), None);
    assert_eq!(parse_i32("-"), None);
    assert_eq!(parse_i32("12a"), None);
    assert_eq!(parse_i32("a12"), None);
    assert_eq!(parse_i32(" 12"), None);
    assert_eq!(parse_i32("1 2"), None);
    assert_eq!(parse_i32("2147483648"), None);
    assert_eq!(parse_i32("-2147483649"), None);
    assert_eq!(parse_i32("99999999999999999999"), None);
}

#[test]
fn parse_index_is_one_based_from_the_front() {
    assert_eq!(parse_index("1", 5), Some(0));
    assert_eq!(parse_index("3", 5), Some(2));
    assert_eq!(parse_index("6", 5), Some(5));
}

#[test]
fn parse_index_counts_from_the_end_for_nonpositive_tokens() {
    assert_eq!(parse_index("-1", 5), Some(4));
    assert_eq!(parse_index("-5", 5), Some(0));
    assert_eq!(parse_index("0", 5), Some(5));
}

#[test]
fn parse_index_rejects_non_numbers() {
    assert_eq!(parse_index("", 5), None);
    assert_eq!(parse_index("x", 5), None);
    assert_eq!(parse_index("1/2", 5), None);
}

#[test]
fn parse_index_wraps_below_zero_like_an_unchecked_cast() {
    // The token points 6 elements before the start of a 5-element list:
    // the resulting index wraps around the unsigned range, far out of
    // bounds, just as a mesh loader's unchecked cast would produce.
    assert_eq!(parse_index("-6", 5), Some(usize::MAX));
    assert_eq!(parse_index("-8", 5), Some(usize::MAX - 2));
}
