use blackhole::address::{longest_zero_run, push_groups, push_ipv4, push_ipv6, zero_run};
use blackhole::digits::{digit, push_decimal, push_hex};
use blackhole::SocketAddress;

fn decimal(n: u32) -> String {
    let mut out = String::new();
    push_decimal(&mut out, n);
    out
}

fn hex(n: u16) -> String {
    let mut out = String::new();
    push_hex(&mut out, n);
    out
}

fn v6_text(segments: [u16; 8]) -> String {
    let mut out = String::new();
    push_ipv6(&mut out, &segments);
    out
}

#[test]
fn digits_are_lower_case() {
    let all: String = (0u8..16).map(digit).collect();
    assert_eq!(all, "0123456789abcdef");
}

#[test]
fn decimal_has_no_leading_zero() {
    assert_eq!(decimal(0), "0");
    assert_eq!(decimal(7), "7");
    assert_eq!(decimal(10), "10");
    assert_eq!(decimal(8080), "8080");
    assert_eq!(decimal(65535), "65535");
    assert_eq!(decimal(4294967295), "4294967295");
}

#[test]
fn decimal_appends_to_what_is_there() {
    let mut out = String::from("port ");
    push_decimal(&mut out, 443);
    assert_eq!(out, "port 443");
}

#[test]
fn hex_has_no_leading_zero() {
    assert_eq!(hex(0), "0");
    assert_eq!(hex(0xf), "f");
    assert_eq!(hex(0x10), "10");
    assert_eq!(hex(0xdb8), "db8");
    assert_eq!(hex(0xffff), "ffff");
}

#[test]
fn ipv4_is_dotted_decimal() {
    let mut out = String::new();
    push_ipv4(&mut out, &[192, 0, 2, 128]);
    assert_eq!(out, "192.0.2.128");
}

#[test]
fn v4_socket_address_text() {
    assert_eq!(SocketAddress::v4([127, 0, 0, 1], 8080).to_text(), "127.0.0.1:8080");
    assert_eq!(SocketAddress::v4([0, 0, 0, 0], 0).to_text(), "0.0.0.0:0");
    assert_eq!(SocketAddress::v4([255, 255, 255, 255], 65535).to_text(), "255.255.255.255:65535");
    assert_eq!(SocketAddress::v4([10, 20, 30, 40], 80).to_text(), "10.20.30.40:80");
}

#[test]
fn port_is_kept() {
    assert_eq!(SocketAddress::v4([127, 0, 0, 1], 8080).port(), 8080);
    assert_eq!(SocketAddress::v6([0, 0, 0, 0, 0, 0, 0, 1], 9).port(), 9);
}

#[test]
fn zero_runs_are_counted_from_their_start() {
    let segments = [1, 0, 0, 2, 0, 0, 0, 3];
    assert_eq!(zero_run(&segments, 0), 0);
    assert_eq!(zero_run(&segments, 1), 2);
    assert_eq!(zero_run(&segments, 2), 1);
    assert_eq!(zero_run(&segments, 4), 3);
    assert_eq!(zero_run(&segments, 8), 0);
    assert_eq!(zero_run(&[0; 8], 0), 8);
}

#[test]
fn longest_zero_run_is_the_first_of_the_longest() {
    assert_eq!(longest_zero_run(&[1, 0, 0, 2, 0, 0, 0, 3]), (4, 3));
    assert_eq!(longest_zero_run(&[1, 0, 0, 2, 3, 0, 0, 4]), (1, 2));
    assert_eq!(longest_zero_run(&[0; 8]), (0, 8));
    assert_eq!(longest_zero_run(&[1, 2, 3, 4, 5, 6, 7, 8]), (0, 0));
    assert_eq!(longest_zero_run(&[1, 2, 3, 4, 5, 6, 7, 0]), (7, 1));
}

#[test]
fn groups_are_joined_by_colons() {
    let segments = [0x2001, 0xdb8, 0, 0, 0, 0, 0xa, 1];
    let mut out = String::new();
    push_groups(&mut out, &segments, 0, 2);
    assert_eq!(out, "2001:db8");
    let mut none = String::from("x");
    push_groups(&mut none, &segments, 3, 3);
    assert_eq!(none, "x");
    let mut one = String::new();
    push_groups(&mut one, &segments, 6, 7);
    assert_eq!(one, "a");
}

#[test]
fn ipv6_shortens_the_first_longest_zero_run() {
    assert_eq!(v6_text([0, 0, 0, 0, 0, 0, 0, 0]), "::");
    assert_eq!(v6_text([0, 0, 0, 0, 0, 0, 0, 1]), "::1");
    assert_eq!(v6_text([0x2001, 0xdb8, 0, 0, 0, 0, 0, 1]), "2001:db8::1");
    assert_eq!(v6_text([1, 2, 3, 4, 0, 0, 0, 0]), "1:2:3:4::");
    assert_eq!(v6_text([1, 0, 0, 2, 3, 0, 0, 4]), "1::2:3:0:0:4");
    assert_eq!(v6_text([1, 0, 0, 2, 0, 0, 0, 3]), "1:0:0:2::3");
}

#[test]
fn ipv6_keeps_a_single_zero_group() {
    assert_eq!(v6_text([1, 0, 2, 3, 4, 5, 6, 7]), "1:0:2:3:4:5:6:7");
    assert_eq!(v6_text([1, 2, 3, 4, 5, 6, 7, 8]), "1:2:3:4:5:6:7:8");
}

#[test]
fn ipv6_writes_a_mapped_ipv4_address_in_dotted_decimal() {
    assert_eq!(v6_text([0, 0, 0, 0, 0, 0xffff, 0xc000, 0x0280]), "::ffff:192.0.2.128");
    assert_eq!(v6_text([0, 0, 0, 0, 0, 0xffff, 0, 0]), "::ffff:0.0.0.0");
    // Only the mapped form is written so.
    assert_eq!(v6_text([0, 0, 0, 0, 0, 0, 0xc000, 0x0280]), "::c000:280");
}

#[test]
fn v6_socket_address_text() {
    assert_eq!(SocketAddress::v6([0, 0, 0, 0, 0, 0, 0, 1], 8080).to_text(), "[::1]:8080");
    assert_eq!(SocketAddress::v6([0; 8], 0).to_text(), "[::]:0");
    assert_eq!(
        SocketAddress::v6([0x2001, 0xdb8, 0, 0, 0, 0, 0, 1], 443).to_text(),
        "[2001:db8::1]:443"
    );
}

#[test]
fn v6_socket_address_text_names_the_zone() {
    let scoped =
        SocketAddress::V6 { segments: [0xfe80, 0, 0, 0, 0, 0, 0, 1], port: 80, flowinfo: 7, scope_id: 3 };
    assert_eq!(scoped.to_text(), "[fe80::1%3]:80");
    let unscoped =
        SocketAddress::V6 { segments: [0xfe80, 0, 0, 0, 0, 0, 0, 1], port: 80, flowinfo: 7, scope_id: 0 };
    assert_eq!(unscoped.to_text(), "[fe80::1]:80");
}

#[test]
fn flow_label_is_not_written() {
    let segments = [0x2001, 0xdb8, 0, 0, 0, 0, 0, 1];
    let plain = SocketAddress::V6 { segments, port: 80, flowinfo: 0, scope_id: 0 };
    let labelled = SocketAddress::V6 { segments, port: 80, flowinfo: 99, scope_id: 0 };
    assert_ne!(plain, labelled);
    assert_eq!(plain.to_text(), labelled.to_text());
}

#[test]
fn different_addresses_are_written_differently() {
    let addresses = [
        SocketAddress::v4([1, 2, 3, 4], 5),
        SocketAddress::v4([1, 2, 3, 45], 0),
        SocketAddress::v4([12, 3, 4, 5], 5),
        SocketAddress::v4([1, 23, 4, 5], 5),
        SocketAddress::v6([0, 0, 0, 0, 0, 0, 0x102, 0x304], 5),
        SocketAddress::v6([0, 0, 0, 0, 0, 0xffff, 0x102, 0x304], 5),
        SocketAddress::v6([1, 0, 0, 0, 0, 0, 0, 0], 5),
        SocketAddress::v6([1, 0, 0, 0, 0, 0, 0, 1], 5),
        SocketAddress::v6([0, 0, 0, 0, 0, 0, 0, 1], 5),
        SocketAddress::V6 { segments: [0, 0, 0, 0, 0, 0, 0, 1], port: 5, flowinfo: 0, scope_id: 1 },
        SocketAddress::V6 { segments: [0, 0, 0, 0, 0, 0, 0, 1], port: 5, flowinfo: 0, scope_id: 15 },
    ];
    for (i, first) in addresses.iter().enumerate() {
        for (j, second) in addresses.iter().enumerate() {
            assert_eq!(i == j, first.to_text() == second.to_text());
        }
    }
}
