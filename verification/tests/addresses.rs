use fastping::addr::{parse_ipv4, IpAddr};
use fastping::literal::{parse_ip, parse_ipv6};
use fastping::text::{chars_of, join, parse_number, push_numeral, spells, string_of};
use fastping::words::{split_lines, split_parts, split_words, trimmed, white_space};

fn v6(groups: [u16; 8]) -> IpAddr {
    let mut n: u128 = 0;
    for g in groups {
        n = n * 65536 + g as u128;
    }
    IpAddr::V6(n)
}

fn rows_of(list: &[Vec<char>]) -> Vec<String> {
    list.iter().map(|r| string_of(r)).collect()
}

#[test]
fn ipv4_text_is_dotted() {
    assert_eq!(IpAddr::V4(0x0a00_0001).text(), "10.0.0.1");
    assert_eq!(IpAddr::V4(0).text(), "0.0.0.0");
    assert_eq!(IpAddr::V4(u32::MAX).text(), "255.255.255.255");
}

#[test]
fn ipv6_text_shortens_the_first_longest_run() {
    assert_eq!(v6([0; 8]).text(), "::");
    assert_eq!(v6([0, 0, 0, 0, 0, 0, 0, 1]).text(), "::1");
    assert_eq!(v6([1, 0, 0, 0, 0, 0, 0, 0]).text(), "1::");
    assert_eq!(v6([0x2001, 0xdb8, 0, 0, 0, 0, 0, 1]).text(), "2001:db8::1");
    assert_eq!(v6([1, 0, 0, 2, 0, 0, 3, 4]).text(), "1::2:0:0:3:4");
    assert_eq!(v6([1, 0, 0, 2, 0, 0, 0, 4]).text(), "1:0:0:2::4");
    assert_eq!(v6([1, 0, 2, 3, 4, 5, 6, 7]).text(), "1:0:2:3:4:5:6:7");
    assert_eq!(
        v6([0xffff, 0xfff, 0xff, 0xf, 0xabcd, 0xef01, 0x2345, 0x6789]).text(),
        "ffff:fff:ff:f:abcd:ef01:2345:6789"
    );
}

#[test]
fn mapped_address_keeps_its_dots() {
    assert_eq!(v6([0, 0, 0, 0, 0, 0xffff, 0xc0a8, 0x0102]).text(), "::ffff:192.168.1.2");
    assert_eq!(v6([0, 0, 0, 0, 0, 0, 0xc0a8, 0x0102]).text(), "::c0a8:102");
}

#[test]
fn octets_are_in_network_order() {
    assert_eq!(IpAddr::V4(0x0102_0304).octets(), vec![1, 2, 3, 4]);
    let o = v6([0x2001, 0xdb8, 0, 0, 0, 0, 0, 0x0a0b]).octets();
    assert_eq!(o, vec![0x20, 0x01, 0x0d, 0xb8, 0, 0, 0, 0, 0, 0, 0, 0, 0, 0, 0x0a, 0x0b]);
    assert!(v6([0; 8]).is_ipv6());
    assert!(!IpAddr::V4(0).is_ipv6());
}

#[test]
fn ipv4_literals() {
    let read = |s: &str| parse_ipv4(&chars_of(s));
    assert_eq!(read("10.0.0.1"), Some(0x0a00_0001));
    assert_eq!(read("255.255.255.255"), Some(u32::MAX));
    for bad in ["", "1.2.3", "1.2.3.4.5", "256.0.0.1", "01.2.3.4", "1.2.3.+4", "1..2.3", "a.b.c.d"] {
        assert_eq!(read(bad), None, "{}", bad);
    }
}

#[test]
fn ipv6_literals() {
    assert_eq!(parse_ip("::"), Some(v6([0; 8])));
    assert_eq!(parse_ip("::1"), Some(IpAddr::V6(1)));
    assert_eq!(parse_ip("1::"), Some(v6([1, 0, 0, 0, 0, 0, 0, 0])));
    assert_eq!(parse_ip("2001:DB8::1"), Some(v6([0x2001, 0xdb8, 0, 0, 0, 0, 0, 1])));
    assert_eq!(parse_ip("1:2:3:4:5:6:7:8"), Some(v6([1, 2, 3, 4, 5, 6, 7, 8])));
    assert_eq!(parse_ip("1:2:3:4:5:6:7::"), Some(v6([1, 2, 3, 4, 5, 6, 7, 0])));
    assert_eq!(parse_ip("0001::"), Some(v6([1, 0, 0, 0, 0, 0, 0, 0])));
    assert_eq!(
        parse_ip("::ffff:192.168.1.2"),
        Some(v6([0, 0, 0, 0, 0, 0xffff, 0xc0a8, 0x0102]))
    );
    assert_eq!(parse_ip("1:2:3:4:5:6:7.8.9.10"), Some(v6([1, 2, 3, 4, 5, 6, 0x0708, 0x090a])));
    assert_eq!(parse_ip("10.0.0.1"), Some(IpAddr::V4(0x0a00_0001)));
}

#[test]
fn what_is_no_literal() {
    for bad in [
        "",
        ":",
        ":::",
        "1",
        "1:2:3:4:5:6:7",
        "1:2:3:4:5:6:7:8:9",
        "1:2:3:4:5:6:7:8::",
        "1::2::3",
        "1:::2",
        ":1:2:3:4:5:6:7:8",
        "1:2:3:4:5:6:7:",
        "12345::",
        "+1::",
        "g::",
        "1.2.3.4::",
        "1:2:3:4:5:6:7:1.2.3.4",
        "::1.2.3",
        "fe80::1%eth0",
        "localhost",
    ] {
        assert_eq!(parse_ip(bad), None, "{}", bad);
    }
    assert_eq!(parse_ipv6(&chars_of("10.0.0.1")), None);
}

#[test]
fn address_texts_read_back() {
    let mut n: u128 = 0x0123_4567_89ab_cdef_0011_2233_4455_6677;
    for k in 0..2000u32 {
        n = n.wrapping_mul(0x2545_f491_4f6c_dd1d_9e37_79b9_7f4a_7c15).wrapping_add(k as u128);
        let masked = if k % 3 == 0 { n } else { n & (n >> 1) & !(0xffffu128 << (16 * (k % 7))) };
        let sparse = masked & !(0xffff_ffffu128 << (16 * (k % 6)));
        for a in [IpAddr::V6(n), IpAddr::V6(masked), IpAddr::V6(sparse), IpAddr::V4(n as u32)] {
            assert_eq!(parse_ip(&a.text()), Some(a));
        }
        let mapped = IpAddr::V6(0xffff_0000_0000 | (n as u32) as u128);
        assert_eq!(parse_ip(&mapped.text()), Some(mapped));
    }
}

#[test]
fn numbers_are_read_as_the_standard_library_reads_them() {
    for s in [
        "0", "7", "007", "+7", "+", "", "-1", "-0", "1 ", " 1", "1_0", "12a", "ff", "FF", "+fF", "4294967295",
        "4294967296", "18446744073709551615", "18446744073709551616", "99999999999999999999999", "++1",
    ] {
        let c = chars_of(s);
        assert_eq!(parse_number(&c, 10, u64::MAX), s.parse::<u64>().ok(), "{}", s);
        assert_eq!(parse_number(&c, 10, u32::MAX as u64), s.parse::<u32>().ok().map(|v| v as u64), "{}", s);
        assert_eq!(
            parse_number(&c, 16, u32::MAX as u64),
            u32::from_str_radix(s, 16).ok().map(|v| v as u64),
            "{}",
            s
        );
        assert_eq!(parse_number(&c, 16, 255), u8::from_str_radix(s, 16).ok().map(|v| v as u64), "{}", s);
    }
}

#[test]
fn numerals_are_written() {
    let mut s = String::from("n=");
    push_numeral(&mut s, 18446744073709551615, 10);
    push_numeral(&mut s, 0, 10);
    push_numeral(&mut s, 0xbeef, 16);
    assert_eq!(s, "n=184467440737095516150beef");
}

#[test]
fn white_space_is_that_of_unicode() {
    for u in 0..=0x10ffffu32 {
        if let Some(c) = char::from_u32(u) {
            assert_eq!(white_space(c), c.is_whitespace(), "{:x}", u);
        }
    }
}

#[test]
fn text_is_cut_as_the_standard_library_cuts_it() {
    for s in [
        "", " ", "a", " a b  c ", "\u{2003}x\u{a0}y\n", "a\r\nb\nc\r", "a\n\n\r\n", "\r", "::", "a:b", ":a", "a:", "é ü",
    ] {
        let c = chars_of(s);
        assert_eq!(rows_of(&split_words(&c)), s.split_whitespace().collect::<Vec<_>>(), "{:?}", s);
        assert_eq!(rows_of(&split_lines(&c)), s.lines().collect::<Vec<_>>(), "{:?}", s);
        assert_eq!(rows_of(&split_parts(&c, ':')), s.split(':').collect::<Vec<_>>(), "{:?}", s);
        assert_eq!(string_of(&trimmed(&c)), s.trim(), "{:?}", s);
    }
}

#[test]
fn strings_are_joined_and_compared() {
    let list = vec!["a".to_string(), "".to_string(), "c".to_string()];
    assert_eq!(join(&list, " | "), "a |  | c");
    assert_eq!(join(&list[..1], " | "), "a");
    assert_eq!(join(&[], " | "), "");
    assert!(spells(&chars_of("héllo"), "héllo"));
    assert!(!spells(&chars_of("hello"), "hell"));
    assert!(!spells(&chars_of("hello"), "hellp"));
}
