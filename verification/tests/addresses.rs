use url_ipv4::{is_ipv4, parse};

fn valid(ip: &str, a: u8, b: u8, c: u8, d: u8) {
    assert_eq!(parse(ip.as_bytes()).unwrap(), [a, b, c, d]);
}

#[test]
fn decimal() {
    valid("0.0.0.0", 0, 0, 0, 0);
    valid("1.1.1.1", 1, 1, 1, 1);
    valid("255.255.255.255", 255, 255, 255, 255);
    valid("255.255.65535", 255, 255, 255, 255);
    valid("255.16777215", 255, 255, 255, 255);
    valid("4294967295", 255, 255, 255, 255);
}

#[test]
fn octal() {
    valid("0377.0377.0377.0377", 255, 255, 255, 255);
    valid("0377.0377.0177777", 255, 255, 255, 255);
    valid("0377.077777777", 255, 255, 255, 255);
    valid("037777777777", 255, 255, 255, 255);
    valid("00377.00377.00377.00377", 255, 255, 255, 255);
    valid("00377.00377.00177777", 255, 255, 255, 255);
    valid("00377.0077777777", 255, 255, 255, 255);
    valid("0037777777777", 255, 255, 255, 255);
}

#[test]
fn hex() {
    valid("0xff.0xff.0xff.0xff", 255, 255, 255, 255);
    valid("0xff.0xff.0xffff", 255, 255, 255, 255);
    valid("0xff.0xffffff", 255, 255, 255, 255);
    valid("0xffffffff", 255, 255, 255, 255);
    valid("0XFF.0XFF.0XFF.0XFF", 255, 255, 255, 255);
    valid("0XFF.0XFF.0XFFFF", 255, 255, 255, 255);
    valid("0XFF.0XFFFFFF", 255, 255, 255, 255);
    valid("0XFFFFFFFF", 255, 255, 255, 255);
    valid("0x0ff.0x0ff.0x0ff.0x0ff", 255, 255, 255, 255);
    valid("0x0ff.0x0ff.0x0ffff", 255, 255, 255, 255);
    valid("0x0ff.0x0ffffff", 255, 255, 255, 255);
    valid("0x0ffffffff", 255, 255, 255, 255);
}

#[test]
fn many_zeroes() {
    valid("00000000000000000000000000000000000000000", 0, 0, 0, 0);
    valid("00000000000000000000000000000000000000001", 0, 0, 0, 1);
}

#[test]
fn every_decimal() {
    for i in 0..10 {
        valid(&format!("{}", i), 0, 0, 0, i);
    }
}

#[test]
fn every_octal() {
    for i in 0..8 {
        valid(&format!("0{}", i), 0, 0, 0, i);
    }
}

#[test]
fn every_hex() {
    for i in 0..16 {
        valid(&format!("0x{:x}", i), 0, 0, 0, i);
        valid(&format!("0x{:X}", i), 0, 0, 0, i);
    }
}

#[test]
fn loopback() {
    valid("127.0.0.1", 127, 0, 0, 1);
    valid("127.0.1", 127, 0, 0, 1);
    valid("127.1", 127, 0, 0, 1);
    valid("2130706433", 127, 0, 0, 1);
    valid("017700000001", 127, 0, 0, 1);
}

fn invalid(ip: &str) {
    assert!(!is_ipv4(ip.as_bytes()));
}

#[test]
fn too_many_dots() {
    invalid("127..1");
    invalid("0.0.0.0.0");
    invalid("1.2.3.4.5");
    invalid("1..2.3");
    invalid("1.2.3.");
    invalid(".1.2.3");
}

#[test]
fn large_values() {
    invalid("999999999999999999999999999999999");
    invalid("07777777777777777777777777777777777777777");
    invalid("256.255.255.255");
    invalid("255.256.255.255");
    invalid("255.255.256.255");
    invalid("255.255.255.256");
    invalid("255.255.65536");
    invalid("255.16777216");
    invalid("4294967296");
    invalid("0400.0377.0377.0377");
    invalid("0377.0400.0377.0377");
    invalid("0377.0377.0400.0377");
    invalid("0377.0377.0377.0400");
    invalid("0377.0377.0200000");
    invalid("0377.0100000000");
    invalid("040000000000");
    invalid("0x100.0xff.0xff.0xff");
    invalid("0xff.0x100.0xff.0xff");
    invalid("0xff.0xff.0x100.0xff");
    invalid("0xff.0xff.0xff.0x100");
    invalid("0xff.0xff.0x10000");
    invalid("0xff.0x1000000");
    invalid("0x100000000");
}

#[test]
fn non_digit() {
    invalid("");
    invalid("08");
    invalid("09");
    invalid("a");
    invalid("0xg");
    invalid("0XG");
    invalid("\u{2077}");
}

#[test]
fn truncate_hex() {
    invalid("0x");
}
