use rtt_debug_tool::watch_table::{path_from_parts, str_to_string64, WatchEntry, WatchTable, WriteError};
use rtt_debug_tool::watch_task::{
    answer, encode_telemetry, feed_down_bytes, handle_cmd, parse_command, received_len,
    write_reply, CmdAction, Command, WatchConfig,
};
use rtt_debug_tool::watch_value::{Access, WatchValueKind};

fn entry(parts: &[&str], access: Access) -> WatchEntry {
    WatchEntry {
        path: path_from_parts(parts),
        parent: str_to_string64(parts[0]),
        type_label: "f32",
        kind: WatchValueKind::F32,
        access,
        field_idx: 0,
    }
}

fn table() -> WatchTable {
    let mut t = WatchTable::new();
    assert!(t.register(entry(&["arm", "rpm"], Access::ReadWrite)));
    assert!(t.register(entry(&["arm", "temp"], Access::ReadOnly)));
    t
}

#[test]
fn default_config() {
    let cfg = WatchConfig::default();
    assert_eq!(cfg.mcu_freq_hz, 40);
    assert_eq!(cfg.host_freq_hz, 30);
    assert_eq!(cfg.period_ms, 25);
    assert_eq!(cfg.max_entries, 64);
}

#[test]
fn config_from_100hz() {
    let cfg = WatchConfig::from_freq(100);
    assert_eq!(cfg.mcu_freq_hz, 100);
    assert_eq!(cfg.host_freq_hz, 75);
    assert_eq!(cfg.period_ms, 10);
    assert_eq!(cfg.max_entries, 64);
}

#[test]
fn config_from_40hz_is_default() {
    let a = WatchConfig::from_freq(40);
    let b = WatchConfig::default();
    assert_eq!((a.mcu_freq_hz, a.host_freq_hz, a.period_ms), (b.mcu_freq_hz, b.host_freq_hz, b.period_ms));
}

#[test]
fn config_clamps_and_rounds_up() {
    let low = WatchConfig::from_freq(0);
    assert_eq!((low.mcu_freq_hz, low.host_freq_hz, low.period_ms), (1, 1, 1000));
    let high = WatchConfig::from_freq(5000);
    assert_eq!((high.mcu_freq_hz, high.host_freq_hz, high.period_ms), (1000, 750, 1));
    let odd = WatchConfig::from_freq(3);
    assert_eq!((odd.mcu_freq_hz, odd.host_freq_hz, odd.period_ms), (3, 3, 334));
}

#[test]
fn telemetry_frame_lists_readable_entries() {
    let t = table();
    let values = vec![Some("1000.5".to_string()), None];
    let frame = encode_telemetry(&t, &values, 64);
    assert_eq!(frame, b"arm.rpm=1000.5\n".to_vec());
    let values = vec![Some("1".to_string()), Some("2".to_string())];
    let frame = encode_telemetry(&t, &values, 64);
    assert_eq!(frame, b"arm.rpm=1\narm.temp=2\n".to_vec());
    let frame = encode_telemetry(&t, &values, 1);
    assert_eq!(frame, b"arm.rpm=1\n".to_vec());
}

#[test]
fn telemetry_frame_stops_near_capacity() {
    let t = table();
    let big = "x".repeat(4040);
    let values = vec![Some(big.clone()), Some("2".to_string())];
    let frame = encode_telemetry(&t, &values, 64);
    // 7 + 1 + 4040 + 1 = 4049 bytes, leaving less than 64 free: the second entry is not tried.
    assert_eq!(frame.len(), 4049);
    let huge = "x".repeat(5000);
    let values = vec![Some(huge), Some("2".to_string())];
    let frame = encode_telemetry(&t, &values, 64);
    assert_eq!(frame, b"arm.temp=2\n".to_vec());
}

#[test]
fn down_bytes_make_lines() {
    let mut line = heapless::String::<128>::new();
    let lines = feed_down_bytes(&mut line, b"set a 1\nset b");
    assert_eq!(lines, vec!["set a 1".to_string()]);
    assert_eq!(line.as_str(), "set b");
    let lines = feed_down_bytes(&mut line, b" 2\n\n");
    assert_eq!(lines, vec!["set b 2".to_string(), String::new()]);
    assert_eq!(line.as_str(), "");
}

#[test]
fn down_line_is_capped() {
    let mut line = heapless::String::<128>::new();
    let long = vec![b'a'; 200];
    let lines = feed_down_bytes(&mut line, &long);
    assert!(lines.is_empty());
    assert_eq!(line.as_str().len(), 128);
}

#[test]
fn received_len_stops_at_zero() {
    assert_eq!(received_len(&[1, 2, 0, 3]), 2);
    assert_eq!(received_len(&[1, 2, 3]), 3);
    assert_eq!(received_len(&[0]), 0);
}

#[test]
fn parse_set_commands() {
    match parse_command("  set arm.pitch.rpm 1100.0 \r") {
        Command::Write { path, value } => {
            assert_eq!(path, "arm.pitch.rpm");
            assert_eq!(value, "1100.0");
        }
        _ => panic!("expected a write"),
    }
    match parse_command("set a b c") {
        Command::Write { path, value } => {
            assert_eq!(path, "a b");
            assert_eq!(value, "c");
        }
        _ => panic!("expected a write"),
    }
    assert!(matches!(parse_command("set nospace"), Command::NoSeparator));
    assert!(matches!(parse_command("set  x"), Command::EmptyField));
    assert!(matches!(parse_command("get a 1"), Command::Ignore));
    assert!(matches!(parse_command("   "), Command::Ignore));
}

#[test]
fn handle_cmd_decides() {
    let t = table();
    match handle_cmd("set arm.rpm 1100", &t) {
        CmdAction::Write { index, path, value } => {
            assert_eq!(index, 0);
            assert_eq!(path, "arm.rpm");
            assert_eq!(value, "1100");
        }
        _ => panic!("expected a write"),
    }
    match handle_cmd("set arm.temp 3", &t) {
        CmdAction::Reply { reply } => assert_eq!(reply, "ERR arm.temp: readonly\n"),
        _ => panic!("expected a reply"),
    }
    match handle_cmd("set bad_path 3", &t) {
        CmdAction::Reply { reply } => assert_eq!(reply, "ERR bad_path: not found\n"),
        _ => panic!("expected a reply"),
    }
    match handle_cmd("set broken", &t) {
        CmdAction::Reply { reply } => assert_eq!(reply, "ERR parse: expected 'set path value'\n"),
        _ => panic!("expected a reply"),
    }
    match handle_cmd("set  1", &t) {
        CmdAction::Reply { reply } => assert_eq!(reply, "ERR parse: empty path or value\n"),
        _ => panic!("expected a reply"),
    }
    assert!(matches!(handle_cmd("hello", &t), CmdAction::Ignore));
}

#[test]
fn write_replies() {
    assert_eq!(write_reply("arm.pitch.rpm", "1100.0", Ok(())), "OK arm.pitch.rpm=1100.0\n");
    assert_eq!(
        write_reply("arm.pitch.rpm", "x", Err(WriteError::ParseError)),
        "ERR arm.pitch.rpm: parse error\n"
    );
}

#[test]
fn reads_split_anywhere_give_same_lines() {
    let bytes = b"set a 1\nset bb 22\nset c";
    let mut whole = heapless::String::<128>::new();
    let all = feed_down_bytes(&mut whole, bytes);
    for cut in 0..bytes.len() {
        let mut line = heapless::String::<128>::new();
        let mut got = feed_down_bytes(&mut line, &bytes[..cut]);
        got.extend(feed_down_bytes(&mut line, &bytes[cut..]));
        assert_eq!(got, all);
        assert_eq!(line.as_str(), whole.as_str());
    }
}

#[test]
fn long_command_is_cut_to_128() {
    let mut line = heapless::String::<128>::new();
    let mut bytes = vec![b'x'; 150];
    bytes.push(b'\n');
    let lines = feed_down_bytes(&mut line, &bytes);
    assert_eq!(lines.len(), 1);
    assert_eq!(lines[0], "x".repeat(128));
    assert_eq!(line.as_str(), "");
}

#[test]
fn answers_follow_the_action() {
    let mut table = WatchTable::new();
    table.register(entry(&["arm", "rpm"], Access::ReadWrite));
    table.register(entry(&["arm", "temp"], Access::ReadOnly));
    let act = handle_cmd("set arm.rpm 12", &table);
    assert_eq!(answer(&act, true).as_deref(), Some("OK arm.rpm=12\n"));
    assert_eq!(answer(&act, false).as_deref(), Some("ERR arm.rpm: parse error\n"));
    let act = handle_cmd("set arm.temp 3", &table);
    assert_eq!(answer(&act, true).as_deref(), Some("ERR arm.temp: readonly\n"));
    let act = handle_cmd("set nope 3", &table);
    assert_eq!(answer(&act, true).as_deref(), Some("ERR nope: not found\n"));
    let act = handle_cmd("hello", &table);
    assert_eq!(answer(&act, true), None);
}
