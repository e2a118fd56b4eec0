use url_ipv4::{is_ipv4, parse, IpParser};

const SAMPLE: [u8; 9] = [0, 1, 7, 8, 9, 10, 127, 200, 255];

fn octets(ip: &str) -> Option<[u8; 4]> {
    parse(ip.as_bytes()).ok()
}

fn spellings(n: u32) -> [String; 6] {
    [
        format!("{}", n),
        format!("0{:o}", n),
        format!("0x{:x}", n),
        format!("0X{:X}", n),
        format!("000{:o}", n),
        format!("0x00{:X}", n),
    ]
}

#[test]
fn dotted_quad_gives_its_octets() {
    for a in SAMPLE {
        for b in SAMPLE {
            for c in SAMPLE {
                for d in SAMPLE {
                    let ip = format!("{}.{}.{}.{}", a, b, c, d);
                    assert_eq!(octets(&ip), Some([a, b, c, d]));
                }
            }
        }
    }
}

#[test]
fn every_octet_in_every_place() {
    for n in 0..=255u8 {
        assert_eq!(octets(&format!("{}.0.0.0", n)), Some([n, 0, 0, 0]));
        assert_eq!(octets(&format!("0.{}.0.0", n)), Some([0, n, 0, 0]));
        assert_eq!(octets(&format!("0.0.{}.0", n)), Some([0, 0, n, 0]));
        assert_eq!(octets(&format!("0.0.0.{}", n)), Some([0, 0, 0, n]));
    }
}

#[test]
fn last_part_absorbs_remaining_octets() {
    for a in SAMPLE {
        for b in SAMPLE {
            for c in SAMPLE {
                for d in SAMPLE {
                    let low16 = u32::from(c) * 256 + u32::from(d);
                    let low24 = u32::from(b) * 65536 + low16;
                    let whole = u32::from(a) * 16777216 + low24;
                    let expected = Some([a, b, c, d]);
                    assert_eq!(octets(&format!("{}.{}.{}", a, b, low16)), expected);
                    assert_eq!(octets(&format!("{}.{}", a, low24)), expected);
                    assert_eq!(octets(&format!("{}", whole)), expected);
                }
            }
        }
    }
}

#[test]
fn radix_does_not_matter() {
    for n in 0..=255u32 {
        let octet = n as u8;
        for s in spellings(n) {
            assert_eq!(octets(&s), Some([0, 0, 0, octet]));
            assert_eq!(octets(&format!("{}.1.2.3", s)), Some([octet, 1, 2, 3]));
            assert_eq!(octets(&format!("1.{}.2.3", s)), Some([1, octet, 2, 3]));
            assert_eq!(octets(&format!("1.2.{}.3", s)), Some([1, 2, octet, 3]));
            assert_eq!(octets(&format!("1.2.3.{}", s)), Some([1, 2, 3, octet]));
        }
    }
}

#[test]
fn radix_does_not_matter_in_wide_last_parts() {
    for n in [256u32, 65535, 65536, 16777215, 16777216, 2130706433, 4294967295] {
        let whole = n.to_be_bytes();
        for s in spellings(n) {
            assert_eq!(octets(&s), Some(whole));
            let in_second = if n < 16777216 { Some([9, whole[1], whole[2], whole[3]]) } else { None };
            assert_eq!(octets(&format!("9.{}", s)), in_second);
            let in_third = if n < 65536 { Some([9, 8, whole[2], whole[3]]) } else { None };
            assert_eq!(octets(&format!("9.8.{}", s)), in_third);
            assert_eq!(octets(&format!("9.8.7.{}", s)), None);
        }
    }
}

#[test]
fn leading_zeros_change_nothing() {
    let mut zeros = String::new();
    for _ in 0..60 {
        zeros.push('0');
        assert_eq!(octets(&zeros), Some([0, 0, 0, 0]));
        assert_eq!(octets(&format!("{}1", zeros)), Some([0, 0, 0, 1]));
        assert_eq!(octets(&format!("{}377", zeros)), Some([0, 0, 0, 255]));
        assert_eq!(octets(&format!("0x{}ff", zeros)), Some([0, 0, 0, 255]));
        assert_eq!(octets(&format!("1.{}2.0X{}3.{}4", zeros, zeros, zeros)), Some([1, 2, 3, 4]));
    }
}

#[test]
fn forty_three_zeros() {
    let zeros = "0".repeat(43);
    assert_eq!(octets(&zeros), Some([0, 0, 0, 0]));
    assert_eq!(octets(&format!("{}1", zeros)), Some([0, 0, 0, 1]));
}

#[test]
fn width_boundaries() {
    assert_eq!(octets("1.2.3.255"), Some([1, 2, 3, 255]));
    assert_eq!(octets("1.2.3.256"), None);
    assert_eq!(octets("1.2.65535"), Some([1, 2, 255, 255]));
    assert_eq!(octets("1.2.65536"), None);
    assert_eq!(octets("1.16777215"), Some([1, 255, 255, 255]));
    assert_eq!(octets("1.16777216"), None);
    assert_eq!(octets("4294967295"), Some([255, 255, 255, 255]));
    assert_eq!(octets("4294967296"), None);
}

#[test]
fn parts_of_2_to_the_32_or_more() {
    for big in ["4294967296", "040000000000", "0x100000000", "99999999999999999999"] {
        assert!(!is_ipv4(big.as_bytes()));
        assert!(!is_ipv4(format!("{}.1", big).as_bytes()));
        assert!(!is_ipv4(format!("1.{}", big).as_bytes()));
        assert!(!is_ipv4(format!("1.2.{}", big).as_bytes()));
        assert!(!is_ipv4(format!("1.2.3.{}", big).as_bytes()));
    }
}

#[test]
fn middle_parts_are_one_octet() {
    assert_eq!(octets("255.1"), Some([255, 0, 0, 1]));
    assert_eq!(octets("256.1"), None);
    assert_eq!(octets("1.256.1"), None);
    assert_eq!(octets("1.2.256.1"), None);
    assert_eq!(octets("255.65535"), Some([255, 0, 255, 255]));
}

#[test]
fn malformed_prefixes() {
    for ip in ["0x", "0X", "0xg", "0XG", "1.0x", "1.2.3.0x", "0x.", "x", "x1", "0x1x", "00x1"] {
        assert!(!is_ipv4(ip.as_bytes()), "{}", ip);
    }
}

#[test]
fn empty_parts() {
    for ip in ["", ".", "..", "1.", ".1", "1..2", "1.2..3", "1.2.3.", ".1.2.3.4", "1...2"] {
        assert!(!is_ipv4(ip.as_bytes()), "{}", ip);
    }
}

#[test]
fn more_than_four_parts() {
    for ip in ["1.2.3.4.5", "0.0.0.0.0", "1.2.3.4.5.6", "0x1.0x2.0x3.0x4.0x5"] {
        assert!(!is_ipv4(ip.as_bytes()), "{}", ip);
    }
    assert!(is_ipv4(b"1.2.3.4"));
}

#[test]
fn foreign_bytes() {
    for b in 0..=255u8 {
        let allowed = b.is_ascii_hexdigit() || b == b'x' || b == b'X' || b == b'.';
        if !allowed {
            assert!(!is_ipv4(&[b]));
            assert!(!is_ipv4(&[b'1', b]));
            assert!(!is_ipv4(&[b, b'1']));
            assert!(!is_ipv4(&[b'1', b'.', b, b'.', b'3']));
            assert!(!is_ipv4(&[b'0', b'x', b, b'1']));
        }
    }
}

#[test]
fn digits_of_another_radix() {
    for ip in ["08", "09", "078", "1a", "0a", "12f", "1.2.3.0f", "1.2.3.4a", "0x1g"] {
        assert!(!is_ipv4(ip.as_bytes()), "{}", ip);
    }
}

#[test]
fn input_must_end_in_a_digit() {
    for ip in ["1.2.3.4.", "1x", "1X", "0x", "1.2.3.4 ", "1.2.3.4\n", "1.2.3.4\0"] {
        assert!(!is_ipv4(ip.as_bytes()), "{}", ip);
    }
}

#[test]
fn reparsing_the_dotted_quad_is_stable() {
    let inputs = [
        "0", "1", "255", "256", "65535", "65536", "16777216", "2130706433", "4294967295",
        "127.1", "127.0.1", "0x7f.1", "0177.0.0.01", "0xffffffff", "1.2.3.4", "10.0xffffff",
        "0x.0x.0x.0", "192.168.257",
    ];
    for ip in inputs {
        let first = IpParser::parse(ip.as_bytes()).unwrap();
        let o = octets(ip).unwrap();
        assert_eq!(u32::from_be_bytes(o), first);
        let quad = format!("{}.{}.{}.{}", o[0], o[1], o[2], o[3]);
        assert_eq!(IpParser::parse(quad.as_bytes()), Ok(first));
        assert_eq!(octets(&quad), Some(o));
    }
}

#[test]
fn predicate_agrees_with_parse() {
    let inputs = ["", "1", "1.2", "1.2.3", "1.2.3.4", "1.2.3.4.5", "0x", "0x1", "08", "256.1", "a"];
    for ip in inputs {
        assert_eq!(is_ipv4(ip.as_bytes()), parse(ip.as_bytes()).is_ok());
        assert_eq!(is_ipv4(ip.as_bytes()), IpParser::parse(ip.as_bytes()).is_ok());
    }
}
