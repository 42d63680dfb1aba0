use rtt_debug_tool::watch_state::{Access, WatchState};
use rtt_debug_tool::watch_table::{path_from_parts, str_to_string64, WatchEntry, WatchTable, WriteError};
use rtt_debug_tool::watch_task::{encode_telemetry, feed_down_bytes, handle_cmd, write_reply, CmdAction};
use rtt_debug_tool::watch_value::{Access as TargetAccess, WatchValueKind};

#[test]
fn host_write_reaches_target() {
    let frame = WatchState::encode_write_cmd("arm.pitch.rpm", "1100.0");
    let mut line = heapless::String::<128>::new();
    let lines = feed_down_bytes(&mut line, frame.as_bytes());
    assert_eq!(lines.len(), 1);
    let mut table = WatchTable::new();
    table.register(WatchEntry {
        path: path_from_parts(&["arm", "pitch", "rpm"]),
        parent: str_to_string64("arm.pitch"),
        type_label: "f32",
        kind: WatchValueKind::F32,
        access: TargetAccess::ReadWrite,
        field_idx: 0,
    });
    match handle_cmd(&lines[0], &table) {
        CmdAction::Write { index, path, value } => {
            assert_eq!(index, 0);
            assert_eq!(path, "arm.pitch.rpm");
            assert_eq!(value, "1100.0");
        }
        _ => panic!("expected a write"),
    }
}

#[test]
fn target_telemetry_reaches_host() {
    let mut table = WatchTable::new();
    table.register(WatchEntry {
        path: path_from_parts(&["arm", "voltage"]),
        parent: str_to_string64("arm"),
        type_label: "f32",
        kind: WatchValueKind::F32,
        access: TargetAccess::ReadWrite,
        field_idx: 0,
    });
    table.register(WatchEntry {
        path: path_from_parts(&["counter"]),
        parent: str_to_string64(""),
        type_label: "u32",
        kind: WatchValueKind::U32,
        access: TargetAccess::ReadOnly,
        field_idx: 0,
    });
    let frame = encode_telemetry(&table, &vec![Some("24.0".to_string()), Some("7".to_string())], 64);
    let text = String::from_utf8(frame).unwrap();
    let mut ws = WatchState::new();
    let mut pending = String::new();
    ws.receive(&mut pending, &text);
    assert_eq!(pending, "");
    assert_eq!(ws.roots.len(), 2);
    assert_eq!(ws.roots[0].children[0].value, "24.0");
    assert_eq!(ws.roots[1].value, "7");
    assert_eq!(ws.get_access("counter"), Some(Access::ReadWrite));
}

#[test]
fn replies_do_not_touch_host_tree() {
    let mut ws = WatchState::new();
    let mut pending = String::new();
    ws.receive(&mut pending, "x=1\n");
    let ok = write_reply("x", "2", Ok(()));
    let refused = write_reply("x", "2", Err(WriteError::ReadOnly));
    let table = WatchTable::new();
    let fault = match handle_cmd("set x", &table) {
        CmdAction::Reply { reply } => reply,
        _ => panic!("expected a reply"),
    };
    for r in [ok, refused, fault] {
        ws.receive(&mut pending, &r);
        assert_eq!(pending, "");
        assert_eq!(ws.roots.len(), 1);
        assert_eq!(ws.roots[0].value, "1");
    }
    assert_eq!(ws.get_access("x"), Some(Access::ReadWrite));
}
