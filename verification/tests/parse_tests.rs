use memscrub::checked_pow2;
use memscrub::parse_hex_token;
use memscrub::parse_scrub_area;
use memscrub::pow2_usize;
use memscrub::size_in_cachelines;
use memscrub::ScrubArea;

#[test]
fn power_of_two_helpers() {
    assert_eq!(checked_pow2(0), Some(1));
    assert_eq!(checked_pow2(6), Some(64));
    assert_eq!(checked_pow2(usize::BITS as usize), None);
    assert_eq!(pow2_usize(10), 1024);
}

#[test]
fn plain_hex_tokens_parse() {
    assert_eq!(parse_hex_token(b"0"), Some(0));
    assert_eq!(parse_hex_token(b"10"), Some(16));
    assert_eq!(parse_hex_token(b"1a2F"), Some(0x1a2f));
    assert_eq!(parse_hex_token(b"deadBEEF"), Some(0xdead_beef));
}

#[test]
fn prefixed_tokens_parse() {
    assert_eq!(parse_hex_token(b"0x10"), Some(16));
    assert_eq!(parse_hex_token(b"0X10"), Some(16));
    assert_eq!(parse_hex_token(b"0x0"), Some(0));
}

#[test]
fn malformed_tokens_are_rejected_not_zeroed() {
    assert_eq!(parse_hex_token(b""), None);
    assert_eq!(parse_hex_token(b"0x"), None);
    assert_eq!(parse_hex_token(b"xyz"), None);
    assert_eq!(parse_hex_token(b"12g4"), None);
    assert_eq!(parse_hex_token(b"-4"), None);
    assert_eq!(parse_hex_token(b" 10"), None);
}

#[test]
fn oversized_tokens_are_rejected() {
    // One bit past the address width.
    assert_eq!(parse_hex_token(b"10000000000000000"), None);
    assert_eq!(parse_hex_token(b"0xFFFFFFFFFFFFFFFF"), Some(usize::MAX));
}

#[test]
fn address_pairs_parse_to_regions() {
    let r = parse_scrub_area(b"0x1000", b"0x1fff").unwrap();
    assert_eq!(r, ScrubArea { start: 0x1000, end: 0x1fff });
    assert_eq!(parse_scrub_area(b"0x1000", b"junk"), None);
    assert_eq!(parse_scrub_area(b"junk", b"0x1fff"), None);
}

#[test]
fn region_line_counts() {
    let r = ScrubArea { start: 0x1000, end: 0x1fff };
    assert_eq!(size_in_cachelines(&r, 6, 64), 64);
    let one = ScrubArea { start: 0, end: 63 };
    assert_eq!(size_in_cachelines(&one, 6, 64), 1);
}
