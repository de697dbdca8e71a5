use fastping::echo::{validate, validate_and_record};
use fastping::link::{build_frame, next_frame, parse_frame, strip_ip_header};
use fastping::sweep::{probe, run_id, run_secret};
use fastping::{
    build_icmp, checksum, cookie_for, fnv1a32, IpAddr, Results, HDR, ICMP4_ECHO, ICMP4_REPLY, ICMP6_ECHO,
    ICMP6_REPLY, MAGIC, PAYLOAD_MIN,
};

const TEN: IpAddr = IpAddr::V4(0x0a00_0001);
const DOC: IpAddr = IpAddr::V6(0x2001_0db8_0000_0000_0000_0000_0000_0001);

#[test]
fn constants_of_the_protocol() {
    assert_eq!(MAGIC, 0x5046_5031);
    assert_eq!((HDR, PAYLOAD_MIN), (8, 20));
    assert_eq!((ICMP4_ECHO, ICMP4_REPLY, ICMP6_ECHO, ICMP6_REPLY), (8, 0, 128, 129));
}

#[test]
fn fnv_of_known_texts() {
    assert_eq!(fnv1a32(b""), 0x811c_9dc5);
    assert_eq!(fnv1a32(b"a"), 0xe40c_292c);
    assert_eq!(fnv1a32(b"foobar"), 0xbf9c_f968);
}

#[test]
fn cookies_of_both_families() {
    assert_eq!(cookie_for(TEN, 0x0102_0304), 0xc20f_f1c8);
    assert_eq!(cookie_for(DOC, 0x0102_0304), 0x9b3b_7110);
    assert_ne!(cookie_for(TEN, 0x0102_0305), 0xc20f_f1c8);
}

#[test]
fn checksum_of_known_data() {
    assert_eq!(checksum(&[0x00, 0x01, 0xf2, 0x03, 0xf4, 0xf5, 0xf6, 0xf7]), 0x220d);
    assert_eq!(checksum(&[]), 0xffff);
    assert_eq!(checksum(&[0xff]), 0x00ff);
    assert_eq!(checksum(&[1, 2, 3]), 0xfbfd);
    assert_eq!(checksum(&vec![0xff; 200001]), 0x00ff);
}

#[test]
fn ipv4_request_bytes() {
    let want: Vec<u8> = vec![
        0x08, 0x00, 0x97, 0x99, 0x12, 0x34, 0x00, 0x02, 0x50, 0x46, 0x50, 0x31, 0x00, 0x00, 0x00, 0x07, 0xde, 0xad,
        0xbe, 0xef, 0x01, 0x02, 0x03, 0x04, 0x05, 0x06, 0x07, 0x08,
    ];
    let short = build_icmp(false, 0x1234, 2, 7, 0xdead_beef, 0x0102_0304_0506_0708, 0);
    assert_eq!(short, want);
    let long = build_icmp(false, 0x1234, 2, 7, 0xdead_beef, 0x0102_0304_0506_0708, 23);
    assert_eq!(long.len(), 31);
    assert_eq!(long[..28], want[..]);
    assert_eq!(long[28..], [0, 0, 0]);
}

#[test]
fn ipv6_request_leaves_the_checksum_to_the_kernel() {
    let msg = build_icmp(true, 0x1234, 2, 7, 0xdead_beef, 0x0102_0304_0506_0708, 20);
    assert_eq!(msg.len(), 28);
    assert_eq!(msg[..8], [0x80, 0, 0, 0, 0x12, 0x34, 0, 2]);
}

#[test]
fn ipv4_requests_verify() {
    for payload in [0, 20, 21, 56, 1400] {
        let msg = build_icmp(false, 77, 1, 3, 0xffff_ffff, 12345, payload);
        assert_eq!(checksum(&msg), 0);
    }
}

#[test]
fn a_reply_alone_scores_its_probe() {
    let targets = vec![TEN, DOC];
    for (i, kind) in [(0usize, ICMP4_REPLY), (1usize, ICMP6_REPLY)] {
        let mut msg = probe(&targets, i, 2, 0xabcd, 99, 5_000_000, 32);
        assert_eq!(validate(&msg, targets[i], &targets, 0xabcd, 99, 6_234_567), None);
        msg[0] = kind;
        msg[2] = 0x55;
        assert_eq!(validate(&msg, targets[i], &targets, 0xabcd, 99, 6_234_567), Some((2, i, 1234)));
        assert_eq!(validate(&msg, targets[i], &targets, 0xabcd, 99, 4_000_000), Some((2, i, 0)));
    }
}

#[test]
fn foreign_messages_are_dropped() {
    let targets = vec![TEN, DOC];
    let mut msg = probe(&targets, 0, 0, 7, 99, 0, 20);
    msg[0] = ICMP4_REPLY;
    let check = |m: &[u8], src: IpAddr, id: u16, secret: u32| validate(m, src, &targets, id, secret, 1000);
    assert_eq!(check(&msg, TEN, 7, 99), Some((0, 0, 1)));
    assert_eq!(check(&msg[..27], TEN, 7, 99), None);
    assert_eq!(check(&[], TEN, 7, 99), None);
    assert_eq!(check(&msg, TEN, 8, 99), None);
    assert_eq!(check(&msg, TEN, 7, 98), None);
    assert_eq!(check(&msg, DOC, 7, 99), None);
    assert_eq!(check(&msg, IpAddr::V4(0x0a00_0002), 7, 99), None);
    for (at, value) in [(0usize, 8u8), (8, 1), (12, 1), (15, 1), (15, 2), (16, 0x11)] {
        let mut other = msg.clone();
        other[at] ^= value;
        assert_eq!(check(&other, TEN, 7, 99), None, "byte {}", at);
    }
}

#[test]
fn only_the_first_reply_to_a_probe_counts() {
    let targets = vec![TEN, DOC];
    let mut res = Results::new(2, 2);
    let mut msg = probe(&targets, 1, 1, 7, 99, 1_000_000, 20);
    msg[0] = ICMP6_REPLY;
    validate_and_record(&msg, DOC, &targets, 7, 99, 3_000_000, &mut res);
    validate_and_record(&msg, DOC, &targets, 7, 99, 9_000_000, &mut res);
    assert_eq!(res.round(1, 1), 2000);
    assert_eq!((res.round(0, 0), res.round(0, 1), res.round(1, 0)), (-1, -1, -1));
    let mut late = probe(&targets, 0, 5, 7, 99, 1_000_000, 20);
    late[0] = ICMP4_REPLY;
    validate_and_record(&late, TEN, &targets, 7, 99, 3_000_000, &mut res);
    assert!(!res.responded_any(0));
    assert!(res.responded_any(1));
}

#[test]
fn identity_of_a_run() {
    assert_eq!(run_id(0x0012_00ab), 0x00ab);
    assert_eq!(run_secret(0x1122_3344, 0x00ab), 0xcee9_11d5);
}

#[test]
fn link_frame_bytes() {
    let f = build_frame(&[1, 2, 3, 4, 5, 6], &[7, 8, 9, 10, 11, 12], 0xc0a8_0002, IpAddr::V4(0x0808_0808), 1, &[0xaa, 0xbb]);
    let want: Vec<u8> = vec![
        0x01, 0x02, 0x03, 0x04, 0x05, 0x06, 0x07, 0x08, 0x09, 0x0a, 0x0b, 0x0c, 0x08, 0x00, 0x45, 0x00, 0x00, 0x16, 0x00,
        0x01, 0x40, 0x00, 0x40, 0x01, 0x6a, 0x2c, 0xc0, 0xa8, 0x00, 0x02, 0x08, 0x08, 0x08, 0x08, 0xaa, 0xbb,
    ];
    assert_eq!(f, Ok(want));
}

#[test]
fn link_frames_are_for_ipv4() {
    let r = build_frame(&[0; 6], &[0; 6], 1, DOC, 1, &[]);
    assert_eq!(r, Err("afpacket backend is IPv4-only (use fastping for IPv6)".to_string()));
}

#[test]
fn a_frame_gives_back_its_message() {
    let msg = build_icmp(false, 1, 2, 3, 4, 5, 40);
    let f = build_frame(&[1; 6], &[2; 6], 0x0a00_0001, IpAddr::V4(0x0808_0808), 9, &msg).unwrap();
    assert_eq!(checksum(&f[14..34]), 0);
    let mut buf = vec![0xeeu8; 60];
    assert_eq!(parse_frame(&f, &mut buf), Some((48, TEN)));
    assert_eq!(buf[..48], msg[..]);
    assert_eq!(buf[48..], [0xee; 12]);
    let mut small = [0u8; 10];
    assert_eq!(parse_frame(&f, &mut small), Some((10, TEN)));
    assert_eq!(small[..], msg[..10]);
}

#[test]
fn other_frames_are_skipped() {
    let f = build_frame(&[1; 6], &[2; 6], 0x0a00_0001, IpAddr::V4(0x0808_0808), 9, &[1, 2, 3]).unwrap();
    let mut buf = [7u8; 64];
    for (at, value) in [(12usize, 0x86u8), (13, 6), (14, 0x65), (14, 0x4f), (23, 17)] {
        let mut g = f.clone();
        g[at] = value;
        assert_eq!(parse_frame(&g, &mut buf), None, "byte {}", at);
    }
    assert_eq!(parse_frame(&f[..33], &mut buf), None);
    assert_eq!(parse_frame(&f[..13], &mut buf), None);
    assert_eq!(parse_frame(&f[..34], &mut buf), Some((0, TEN)));
    assert_eq!(buf, [7u8; 64]);
}

#[test]
fn raw_sockets_deliver_packets_or_messages() {
    let mut packet = vec![0u8; 24];
    packet[0] = 0x45;
    packet[20] = 9;
    assert_eq!(strip_ip_header(&packet, false), Some(&packet[20..]));
    packet[0] = 0x46;
    assert_eq!(strip_ip_header(&packet, false), Some(&packet[24..]));
    packet[0] = 0x47;
    assert_eq!(strip_ip_header(&packet, false), None);
    assert_eq!(strip_ip_header(&packet[..19], false), None);
    assert_eq!(strip_ip_header(&packet[..3], true), Some(&packet[..3]));
}

#[test]
fn a_refused_message_takes_no_identification() {
    let mut id = 65535u16;
    let first = next_frame(&[1; 6], &[2; 6], 1, TEN, &mut id, &[9]).unwrap();
    assert_eq!((first[18], first[19], id), (0xff, 0xff, 0));
    assert!(next_frame(&[1; 6], &[2; 6], 1, DOC, &mut id, &[9]).is_err());
    assert_eq!(id, 0);
    let second = next_frame(&[1; 6], &[2; 6], 1, TEN, &mut id, &[9]).unwrap();
    assert_eq!(second, build_frame(&[1; 6], &[2; 6], 1, TEN, 0, &[9]).unwrap());
    assert_eq!(id, 1);
}

#[test]
fn padding_only_appends_zeros() {
    for v6 in [false, true] {
        let short = build_icmp(v6, 9, 8, 7, 6, 5, 20);
        for payload in [21usize, 22, 57, 1000] {
            let long = build_icmp(v6, 9, 8, 7, 6, 5, payload);
            assert_eq!(long[..28], short[..]);
            assert!(long[28..].iter().all(|&b| b == 0));
        }
    }
}

#[test]
fn one_byte_changes_the_cookie() {
    let base = cookie_for(TEN, 0x0a0b_0c0d);
    for shift in [0u32, 8, 16, 24] {
        for x in 1..=255u32 {
            assert_ne!(cookie_for(IpAddr::V4(0x0a00_0001 ^ (x << shift)), 0x0a0b_0c0d), base);
            assert_ne!(cookie_for(TEN, 0x0a0b_0c0d ^ (x << shift)), base);
        }
    }
}
