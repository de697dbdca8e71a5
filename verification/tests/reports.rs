use fastping::json::{extract_json_string, json_escape};
use fastping::report::{report, Item, Piece, Report};
use fastping::syntax::check_json;
use fastping::text::chars_of;
use fastping::zabbix::{
    body_info, build_sender_json, chunk_ranges, frame_payload, item_lines, push_outcome, reply_info, reply_len,
    sender_frame, server_addr, summary, Push, FRAME_HDR, REPLY_MAX,
};
use fastping::{Config, HostMode, IpAddr, Output, Results};

fn triple(h: &str, k: &str, v: &str) -> (String, String, String) {
    (h.to_string(), k.to_string(), v.to_string())
}

fn written(p: &Piece) -> String {
    match p {
        Piece::Text(s) => s.clone(),
        Piece::Millis3(us) => format!("{:.3}", *us as f64 / 1000.0),
        Piece::Millis2(us) => format!("{:.2}", *us as f64 / 1000.0),
        Piece::Share4 { part, whole } => format!("{:.4}", *part as f64 / *whole as f64),
        Piece::Seconds6 { sum_us, count } => {
            let avg = if *count > 0 { *sum_us as f64 / *count as f64 / 1_000_000.0 } else { 0.0 };
            format!("{:.6}", avg)
        }
    }
}

fn text_of(r: Report) -> String {
    match r {
        Report::Text(pieces) => pieces.iter().map(written).collect(),
        Report::Items(_) => panic!("items"),
    }
}

fn items_in(r: Report) -> Vec<(String, String, String)> {
    match r {
        Report::Items(items) => {
            items.iter().map(|Item { host, key, value }| (host.clone(), key.clone(), written(value))).collect()
        }
        Report::Text(_) => panic!("text"),
    }
}

fn sample() -> (Config, Vec<IpAddr>, Vec<String>, Results) {
    let targets = vec![IpAddr::V4(0x0a00_0001), IpAddr::V6(1)];
    let names = vec!["gw \"1\"".to_string(), "::1".to_string()];
    let mut res = Results::new(2, 3);
    res.record(1, 0, 1234);
    res.record(2, 0, 2000);
    (Config::default(), targets, names, res)
}

#[test]
fn plain_output() {
    let (cfg, targets, names, res) = sample();
    assert_eq!(text_of(report(&cfg, &targets, &names, &res)), "10.0.0.1 alive 1.234 ms\n::1 down\n");
}

#[test]
fn fping_output() {
    let (mut cfg, targets, names, res) = sample();
    cfg.output = Output::Fping;
    assert_eq!(text_of(report(&cfg, &targets, &names, &res)), "10.0.0.1 : - 1.23 2.00\n::1 : - - -\n");
}

#[test]
fn json_output() {
    let (mut cfg, targets, names, res) = sample();
    cfg.output = Output::Json;
    assert_eq!(
        text_of(report(&cfg, &targets, &names, &res)),
        "[{\"ip\":\"10.0.0.1\",\"name\":\"gw \\\"1\\\"\",\"alive\":1,\"loss\":0.3333,\"rtt\":0.001617},\
         {\"ip\":\"::1\",\"name\":\"::1\",\"alive\":0,\"loss\":1.0000,\"rtt\":0.000000}]\n"
    );
    cfg.discover = true;
    assert_eq!(
        text_of(report(&cfg, &targets[..1], &names, &res)),
        "[{\"ip\":\"10.0.0.1\",\"name\":\"gw \\\"1\\\"\",\"alive\":1,\"loss\":0.0000,\"rtt\":0.001234}]\n"
    );
    assert_eq!(text_of(report(&cfg, &[], &names, &res)), "[]\n");
}

#[test]
fn zabbix_items_three_per_host() {
    let (mut cfg, targets, names, res) = sample();
    cfg.output = Output::Zabbix;
    let got = items_in(report(&cfg, &targets, &names, &res));
    assert_eq!(
        got,
        vec![
            triple("10.0.0.1", "icmp.alive", "1"),
            triple("10.0.0.1", "icmp.loss", "0.3333"),
            triple("10.0.0.1", "icmp.rtt", "0.001617"),
            triple("::1", "icmp.alive", "0"),
            triple("::1", "icmp.loss", "1.0000"),
            triple("::1", "icmp.rtt", "0.000000"),
        ]
    );
    cfg.zbx_host_mode = HostMode::Resolved;
    cfg.zbx_key = "net".to_string();
    cfg.discover = true;
    let got = items_in(report(&cfg, &targets[..1], &names, &res));
    assert_eq!(
        got,
        vec![
            triple("gw \"1\"", "net.alive", "1"),
            triple("gw \"1\"", "net.loss", "0.0000"),
            triple("gw \"1\"", "net.rtt", "0.001234"),
        ]
    );
}

#[test]
fn json_strings_are_escaped() {
    let mut out = String::from(">");
    json_escape("a\"b\\c\nd\re\tf\u{1}g\u{1f}h/é\u{7f}", &mut out);
    assert_eq!(out, ">a\\\"b\\\\c\\nd\\re\\tf\\u0001g\\u001fh/é\u{7f}");
}

#[test]
fn json_fields_are_read() {
    let read = |t: &str| extract_json_string(t, "info");
    assert_eq!(read("{\"info\":\"processed: 1\"}"), Some("processed: 1".to_string()));
    assert_eq!(read("{\"response\":\"success\", \"info\" :\n \"a\\\"b\\n\\t\\r\\\\\\x\"}"), Some("a\"b\n\t\r\\x".to_string()));
    assert_eq!(read("{\"info\":\"\"}"), Some(String::new()));
    for bad in ["", "info", "{\"info\"}", "{\"info\":1}", "{\"info\":\"open", "{\"info\":\"open\\", "{\"info\" \"x\"}"] {
        assert_eq!(read(bad), None, "{}", bad);
    }
}

#[test]
fn a_written_field_is_read_back() {
    for v in ["", "plain", "quote \" slash \\ tab \t nl \n cr \r", "é \u{10ffff}"] {
        let mut t = String::from("{\"response\":\"success\",\"info\":\"");
        json_escape(v, &mut t);
        t.push_str("\"}");
        assert_eq!(extract_json_string(&t, "info"), Some(v.to_string()));
    }
}

#[test]
fn a_rare_control_character_is_not_read_back() {
    let mut t = String::from("{\"info\":\"");
    json_escape("\u{1}", &mut t);
    t.push_str("\"}");
    assert_eq!(extract_json_string(&t, "info"), Some("u0001".to_string()));
}

#[test]
fn sender_request() {
    let items = vec![triple("h\"", "icmp.alive", "1"), triple("b", "icmp.loss", "0.0000")];
    assert_eq!(
        build_sender_json(&items),
        "{\"request\":\"sender data\",\"data\":[{\"host\":\"h\\\"\",\"key\":\"icmp.alive\",\"value\":\"1\"},\
         {\"host\":\"b\",\"key\":\"icmp.loss\",\"value\":\"0.0000\"}]}"
    );
    assert_eq!(build_sender_json(&[]), "{\"request\":\"sender data\",\"data\":[]}");
}

#[test]
fn sender_frame_bytes() {
    let f = frame_payload("é");
    assert_eq!(f, vec![b'Z', b'B', b'X', b'D', 1, 2, 0, 0, 0, 0, 0, 0, 0, 0xc3, 0xa9]);
    let items = vec![triple("h", "k", "v")];
    let whole = sender_frame(&items);
    assert_eq!(reply_len(&whole), Ok(whole.len() - FRAME_HDR));
    assert_eq!(&whole[FRAME_HDR..], build_sender_json(&items).as_bytes());
}

#[test]
fn reply_header_is_checked() {
    let mut hdr = *b"ZBXD\x01\x05\0\0\0\0\0\0\0";
    assert_eq!(reply_len(&hdr), Ok(5));
    hdr[7] = 2;
    assert_eq!(reply_len(&hdr), Ok(REPLY_MAX));
    hdr[7] = 1;
    hdr[5] = 0;
    assert_eq!(reply_len(&hdr), Ok(65536));
    hdr[3] = b'd';
    assert_eq!(reply_len(&hdr), Err("bad response header".to_string()));
}

#[test]
fn reply_text_is_reported() {
    assert_eq!(reply_info("{\"response\":\"success\",\"info\":\"processed: 3\"}"), "processed: 3");
    assert_eq!(reply_info("garbage"), "garbage");
    assert_eq!(body_info(b"{\"info\":\"ok\"}"), "ok");
    assert_eq!(body_info(b"{\"info\":\"\xc3\xa9 \xff!\"}"), "é \u{fffd}!");
    assert_eq!(body_info(b"no \xf0\x9f info"), "no \u{fffd} info");
}

#[test]
fn server_address_has_a_port() {
    assert_eq!(server_addr("zbx"), "zbx:10051");
    assert_eq!(server_addr("zbx:99"), "zbx:99");
    assert_eq!(server_addr("::1"), "::1");
    assert_eq!(server_addr(""), ":10051");
}

#[test]
fn batches_cover_the_items() {
    assert_eq!(chunk_ranges(7, 3), vec![(0, 3), (3, 6), (6, 7)]);
    assert_eq!(chunk_ranges(6, 3), vec![(0, 3), (3, 6)]);
    assert_eq!(chunk_ranges(5, 0), vec![(0, 5)]);
    assert_eq!(chunk_ranges(5, usize::MAX), vec![(0, 5)]);
    assert_eq!(chunk_ranges(0, 0), vec![]);
}

#[test]
fn replies_are_summed_up() {
    let infos = vec!["a".to_string(), "b".to_string()];
    assert_eq!(summary(&infos[..1]), "a");
    assert_eq!(summary(&infos), "2 batches: a | b");
    assert_eq!(summary(&[]), "0 batches: ");
}

#[test]
fn a_push_sends_every_batch_once() {
    let items: Vec<_> = (0..5).map(|i| triple("h", "k", &i.to_string())).collect();
    let mut push = Push::new("zbx", items.len(), 2);
    assert_eq!(push.addr, "zbx:10051");
    let mut sent = Vec::new();
    while let Some(frame) = push.request(&items) {
        sent.push(frame);
        push.answered(format!("{{\"info\":\"r{}\"}}", sent.len()).as_bytes());
    }
    assert_eq!(sent, vec![sender_frame(&items[..2]), sender_frame(&items[2..4]), sender_frame(&items[4..])]);
    assert_eq!(push.result(), Ok("3 batches: r1 | r2 | r3".to_string()));
}

#[test]
fn a_failed_batch_ends_the_push() {
    let items: Vec<_> = (0..5).map(|i| triple("h", "k", &i.to_string())).collect();
    let mut push = Push::new("zbx:1", items.len(), 2);
    assert_eq!(push.request(&items), Some(sender_frame(&items[..2])));
    push.answered(b"{\"info\":\"r1\"}");
    assert_eq!(push.request(&items), Some(sender_frame(&items[2..4])));
    push.failed("timed out");
    assert_eq!(push.request(&items), None);
    assert_eq!(push.infos, vec!["r1".to_string()]);
    assert_eq!(push.result(), Err("timed out".to_string()));
}

#[test]
fn only_a_top_level_field_is_read() {
    let read = |t: &str| extract_json_string(t, "info");
    let some = |t: &str| Some(t.to_string());
    assert_eq!(read("{\"response\":\"info\",\"info\":\"ok\"}"), some("ok"));
    assert_eq!(read("{\"data\":{\"info\":\"x\"},\"info\":\"y\"}"), some("y"));
    assert_eq!(read("{\"data\":[{\"info\":\"x\"}, \"info\"],\"info\" : \"y\"}"), some("y"));
    assert_eq!(read("{\"data\":{\"info\":\"x\"}}"), None);
    assert_eq!(read("{\"a\":\"\\\"info\\\":\\\"x\",\"info\":\"y\"}"), some("y"));
    assert_eq!(read("{\"a\":\"{[\",\"info\":\"y\"}"), some("y"));
    assert_eq!(read("{\"info\":1,\"info\":\"y\"}"), None);
    assert_eq!(read("[{\"info\":\"x\"}]"), None);
    assert_eq!(read("{\"info\":\"a\",\"info\":\"b\"}"), some("a"));
    assert_eq!(read("{\"xinfo\":\"a\",\"info2\":\"b\"}"), None);
    assert_eq!(read(" \n{ \"info\" :\t\"y\" }"), some("y"));
    assert_eq!(read("\"info\":\"y\""), some("y"));
    assert_eq!(body_info(b"{\"response\":\"info\",\"info\":\"ok\"}"), "ok");
}

#[test]
fn outcome_of_a_push() {
    let items = vec![triple("h", "k", "1"), triple("i", "k", "0")];
    let lines = "\"h\" k 1\n\"i\" k 0\n";
    assert_eq!(item_lines(&items), lines);
    let good = push_outcome("zbx", Ok("done".to_string()), &items);
    assert_eq!((good.out.as_str(), good.err.as_str()), ("", "fastping: zabbix zbx: done\n"));
    let bad = push_outcome("zbx", Err("refused".to_string()), &items);
    assert_eq!((bad.out.as_str(), bad.err.as_str()), (lines, "fastping: zabbix send to zbx failed: refused\n"));
}

#[test]
fn a_text_that_is_no_json_is_searched() {
    let read = |t: &str| extract_json_string(t, "info");
    let some = |t: &str| Some(t.to_string());
    assert_eq!(read("\"info\":\"y\""), some("y"));
    assert_eq!(read("stray \" quote {\"info\":\"y\"}"), some("y"));
    assert_eq!(read("{a\" \"info\":\"y\" \"b}"), some("y"));
    assert_eq!(read("{\"data\":{\"info\":\"x\"},\"info\":\"cut"), some("x"));
    assert_eq!(read("{\"response\":\"info\",\"info\":\"ok\""), None);
    assert_eq!(read("{\"a\":\"info\",\u{a0}\"info\":\"x\"}"), None);
    assert_eq!(read("{\"info\"\u{a0}:\u{3000}\"x\"}"), some("x"));
}

#[test]
fn json_is_told_from_other_text() {
    for good in [
        "{}", "[]", " [ ] ", "0", "-0", "10.50e+3", "1E-9", "true", "false", "null", "\"\"", "\"\\u00e9\\/\\b\\f\"",
        "{\"a\":[1,{\"b\":null}],\"c\":\"d\"}", "[[[]],{}]", "\t{\r\n\"a\" : 1 , \"b\":2 }\n", "\"\u{7f}\u{10ffff}\"",
    ] {
        assert!(check_json(&chars_of(good)), "{}", good);
    }
    for bad in [
        "", " ", "{", "}", "[", "]", "{]", "[}", "[1,]", "[,1]", "{\"a\"}", "{\"a\":}", "{\"a\":1,}", "{a:1}", "{1:2}", "1 2",
        "01", "-", "+1", "1.", ".5", "1e", "1e+", "0x1", "tru", "True", "nul", "\"", "\"\\x\"", "\"\\u12g4\"", "\"\n\"",
        "\u{a0}1", "[1 2]", "{\"a\" 1}", "{\"a\":1 \"b\":2}", "[1:2]", "1,2", "{}}", "[]]", "{\"a\"::1}", "1true",
    ] {
        assert!(!check_json(&chars_of(bad)), "{}", bad);
    }
    let deep = "[".repeat(100000) + &"]".repeat(100000);
    assert!(check_json(&chars_of(&deep)));
    assert!(!check_json(&chars_of(&deep[1..])));
}

#[test]
fn escaping_goes_part_by_part() {
    let (a, b) = ("x\"\u{2}", "\\\u{1f}\ny");
    let (mut parts, mut whole) = (String::new(), String::new());
    json_escape(a, &mut parts);
    json_escape(b, &mut parts);
    json_escape(&format!("{}{}", a, b), &mut whole);
    assert_eq!(parts, whole);
    assert!(whole.chars().all(|c| c as u32 >= 0x20));
}
