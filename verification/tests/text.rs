//! Numbers and addresses as text.

use librtbit_tracker_comms::addr::{IpAddr, Ipv4Addr, Ipv6Addr};
use librtbit_tracker_comms::text::decimal;

fn v4_text(octets: [u8; 4]) -> String {
    IpAddr::V4(Ipv4Addr {
        bits: u32::from_be_bytes(octets),
    })
    .to_text()
}

fn v6_text(segments: [u16; 8]) -> String {
    let mut bits: u128 = 0;
    for segment in segments {
        bits = bits * 0x1_0000 + segment as u128;
    }
    IpAddr::V6(Ipv6Addr { bits }).to_text()
}

#[test]
fn decimal_numbers() {
    for n in [0, 7, 9, 10, 11, 99, 100, 65535, 1_000_000, u64::MAX] {
        assert_eq!(decimal(n), format!("{}", n));
    }
    assert_eq!(decimal(120), "120");
    assert_eq!(decimal(1_234_567).parse(), Ok(1_234_567u64));
}

#[test]
fn ipv4_addresses() {
    assert_eq!(v4_text([127, 0, 0, 1]), "127.0.0.1");
    assert_eq!(v4_text([0, 0, 0, 0]), "0.0.0.0");
    assert_eq!(v4_text([255, 254, 1, 20]), "255.254.1.20");
}

#[test]
fn ipv6_addresses() {
    assert_eq!(v6_text([0; 8]), "::");
    assert_eq!(v6_text([0, 0, 0, 0, 0, 0, 0, 1]), "::1");
    assert_eq!(v6_text([1, 0, 0, 0, 0, 0, 0, 0]), "1::");
    assert_eq!(v6_text([0x2001, 0xdb8, 0, 0, 0, 0, 0, 1]), "2001:db8::1");
    assert_eq!(v6_text([0xfe80, 0, 0, 0, 1, 2, 3, 4]), "fe80::1:2:3:4");
    assert_eq!(
        v6_text([1, 2, 3, 4, 5, 6, 7, 0xabcd]),
        "1:2:3:4:5:6:7:abcd"
    );
}

#[test]
fn single_zero_group_is_written() {
    assert_eq!(v6_text([1, 0, 2, 3, 4, 5, 6, 7]), "1:0:2:3:4:5:6:7");
    assert_eq!(v6_text([0, 1, 2, 3, 4, 5, 6, 0]), "0:1:2:3:4:5:6:0");
}

#[test]
fn first_of_the_longest_rows_of_zeros_is_left_out() {
    assert_eq!(v6_text([1, 0, 0, 2, 3, 0, 0, 4]), "1::2:3:0:0:4");
    assert_eq!(v6_text([1, 0, 0, 2, 0, 0, 0, 4]), "1:0:0:2::4");
    assert_eq!(v6_text([0, 0, 1, 2, 3, 4, 0, 0]), "::1:2:3:4:0:0");
}

#[test]
fn mapped_ipv4_addresses() {
    assert_eq!(
        v6_text([0, 0, 0, 0, 0, 0xffff, 0xc000, 0x0201]),
        "::ffff:192.0.2.1"
    );
    assert_eq!(v6_text([0, 0, 0, 0, 0, 0, 0xc000, 0x0201]), "::c000:201");
    assert_eq!(
        v6_text([1, 0, 0, 0, 0, 0xffff, 0xc000, 0x0201]),
        "1::ffff:c000:201"
    );
}

#[test]
fn different_addresses_are_written_differently() {
    let texts = [
        v4_text([1, 2, 3, 4]),
        v4_text([12, 3, 4, 0]),
        v4_text([1, 23, 4, 0]),
        v6_text([0, 0, 0, 0, 0, 0, 0x102, 0x304]),
        v6_text([0, 0, 0, 0, 0, 0xffff, 0x102, 0x304]),
        v6_text([1, 0, 0, 0, 0, 0, 0, 0]),
        v6_text([0, 1, 0, 0, 0, 0, 0, 0]),
        v6_text([1, 0, 0, 2, 0, 0, 3, 4]),
        v6_text([1, 0, 0, 2, 0, 0, 0, 4]),
        v6_text([0x12, 3, 4, 5, 6, 7, 8, 9]),
        v6_text([1, 0x23, 4, 5, 6, 7, 8, 9]),
    ];
    for i in 0..texts.len() {
        for j in 0..i {
            assert_ne!(texts[i], texts[j]);
        }
    }
}
