use rtt_debug_tool::watch_table::{
    entry_fields, field_entry, nested_entry, path_from_parts, scalar_entry, walk_entries, WalkField, str_to_string64, writable_entry,
    write_outcome, WatchEntry, WatchFieldMeta, WatchTable, WriteError, MAX_ENTRIES,
};
use rtt_debug_tool::watch_value::{bool_read, bool_write, Access, WatchValueKind};

fn text(s: &heapless::String<64>) -> &str {
    s.as_str()
}

fn entry(path: &str, access: Access) -> WatchEntry {
    WatchEntry {
        path: str_to_string64(path),
        parent: str_to_string64(""),
        type_label: "u8",
        kind: WatchValueKind::U8,
        access,
        field_idx: 0,
    }
}

#[test]
fn paths_are_dot_joined() {
    assert_eq!(text(&path_from_parts(&["arm", "pitch", "rpm"])), "arm.pitch.rpm");
    assert_eq!(text(&path_from_parts(&["solo"])), "solo");
    let (p, parent) = entry_fields(&["arm", "pitch", "rpm"]);
    assert_eq!(text(&p), "arm.pitch.rpm");
    assert_eq!(text(&parent), "arm.pitch");
    let (p, parent) = entry_fields(&["battery"]);
    assert_eq!(text(&p), "battery");
    assert_eq!(text(&parent), "");
}

#[test]
fn overlong_pieces_are_left_out() {
    let long = "y".repeat(70);
    assert_eq!(text(&str_to_string64(&long)), "");
    let sixty = "z".repeat(60);
    let p = path_from_parts(&[&sixty, "abcdef"]);
    assert_eq!(text(&p), format!("{}.", sixty));
}

#[test]
fn table_registers_until_full() {
    let mut t = WatchTable::new();
    for i in 0..MAX_ENTRIES {
        assert!(t.register(entry(&format!("v{}", i), Access::ReadWrite)));
    }
    assert_eq!(t.len(), MAX_ENTRIES);
    assert!(!t.register(entry("extra", Access::ReadWrite)));
    assert_eq!(t.len(), MAX_ENTRIES);
    assert!(t.find_by_path("extra").is_none());
    assert!(t.get(MAX_ENTRIES).is_none());
    assert_eq!(text(&t.get(3).unwrap().path), "v3");
}

#[test]
fn find_by_path_takes_first() {
    let mut t = WatchTable::new();
    t.register(entry("a", Access::ReadOnly));
    t.register(entry("b", Access::ReadWrite));
    t.register(entry("a", Access::ReadWrite));
    assert_eq!(t.find_index("a"), Some(0));
    assert_eq!(t.find_by_path("a").unwrap().access, Access::ReadOnly);
    assert_eq!(t.find_index("b"), Some(1));
    assert_eq!(t.find_index("c"), None);
}

#[test]
fn write_decisions() {
    let mut t = WatchTable::new();
    t.register(entry("ro", Access::ReadOnly));
    t.register(entry("rw", Access::ReadWrite));
    assert_eq!(writable_entry(&t, "ro"), Err(WriteError::ReadOnly));
    assert_eq!(writable_entry(&t, "rw"), Ok(1));
    assert_eq!(writable_entry(&t, "zz"), Err(WriteError::NotFound));
    assert_eq!(write_outcome(Ok(1), true), Ok(()));
    assert_eq!(write_outcome(Ok(1), false), Err(WriteError::ParseError));
    assert_eq!(write_outcome(Err(WriteError::NotFound), true), Err(WriteError::NotFound));
    assert_eq!(WriteError::NotFound.reason(), "not found");
    assert_eq!(WriteError::ReadOnly.reason(), "readonly");
    assert_eq!(WriteError::ParseError.reason(), "parse error");
}

#[test]
fn bool_codec() {
    assert_eq!(bool_read(true), "1");
    assert_eq!(bool_read(false), "0");
    assert_eq!(bool_write("1"), Some(true));
    assert_eq!(bool_write("0"), Some(false));
    assert_eq!(bool_write("true"), None);
    assert_eq!(bool_write(""), None);
    assert_eq!(bool_write(&bool_read(true)), Some(true));
}

#[test]
fn primitive_field_entry() {
    let e = field_entry("motor", "rpm", "f32", WatchValueKind::F32, false, 2);
    assert_eq!(text(&e.path), "motor.rpm");
    assert_eq!(text(&e.parent), "motor");
    assert_eq!((e.type_label, e.kind, e.access, e.field_idx), ("f32", WatchValueKind::F32, Access::ReadWrite, 2));
    let ro = field_entry("motor", "temp", "u8", WatchValueKind::U8, true, 3);
    assert_eq!(ro.access, Access::ReadOnly);
}

#[test]
fn nested_field_entry() {
    let meta = WatchFieldMeta { index: 1, name: "angle", type_label: "f32", kind: WatchValueKind::F32, access: Access::ReadWrite };
    let e = nested_entry("arm", "joint", &meta, false);
    assert_eq!(text(&e.path), "arm.joint.angle");
    assert_eq!(text(&e.parent), "arm.joint");
    assert_eq!((e.type_label, e.kind, e.access, e.field_idx), ("f32", WatchValueKind::F32, Access::ReadWrite, 1));
    // A field marked read-only makes every flattened field read-only.
    let ro = nested_entry("arm", "joint", &meta, true);
    assert_eq!(ro.access, Access::ReadOnly);
    let inner_ro = WatchFieldMeta { access: Access::ReadOnly, ..meta };
    assert_eq!(nested_entry("arm", "joint", &inner_ro, false).access, Access::ReadOnly);
}

#[test]
fn scalar_entries_have_selector_zero() {
    let e = scalar_entry(&["m1", "base", "rpm"], "m1", "f32", WatchValueKind::F32, Access::ReadOnly);
    assert_eq!(text(&e.path), "m1.base.rpm");
    assert_eq!(text(&e.parent), "m1");
    assert_eq!((e.type_label, e.kind, e.access, e.field_idx), ("f32", WatchValueKind::F32, Access::ReadOnly, 0));
}

fn meta(index: u16, name: &'static str, access: Access) -> WatchFieldMeta {
    WatchFieldMeta { index, name, type_label: "f32", kind: WatchValueKind::F32, access }
}

#[test]
fn walk_flattens_in_order() {
    let inner = vec![meta(0, "angle", Access::ReadWrite), meta(1, "speed", Access::ReadWrite)];
    let fields = vec![
        WalkField { meta: meta(0, "voltage", Access::ReadWrite), primitive: true, marked_readonly: false, inner: vec![] },
        WalkField {
            meta: WatchFieldMeta { index: 1, name: "pitch", type_label: "Motor", kind: WatchValueKind::Str(32), access: Access::ReadOnly },
            primitive: false,
            marked_readonly: false,
            inner: inner.clone(),
        },
        WalkField {
            meta: WatchFieldMeta { index: 2, name: "joint", type_label: "Joint", kind: WatchValueKind::Str(32), access: Access::ReadOnly },
            primitive: false,
            marked_readonly: true,
            inner,
        },
        WalkField { meta: meta(3, "temp", Access::ReadOnly), primitive: true, marked_readonly: true, inner: vec![] },
    ];
    let es = walk_entries("arm", &fields);
    let paths: Vec<&str> = es.iter().map(|e| text(&e.path)).collect();
    assert_eq!(paths, vec!["arm.voltage", "arm.pitch.angle", "arm.pitch.speed", "arm.joint.angle", "arm.joint.speed", "arm.temp"]);
    assert_eq!(text(&es[1].parent), "arm.pitch");
    assert_eq!(text(&es[0].parent), "arm");
    let access: Vec<Access> = es.iter().map(|e| e.access).collect();
    assert_eq!(
        access,
        vec![Access::ReadWrite, Access::ReadWrite, Access::ReadWrite, Access::ReadOnly, Access::ReadOnly, Access::ReadOnly]
    );
    let idx: Vec<u16> = es.iter().map(|e| e.field_idx).collect();
    assert_eq!(idx, vec![0, 0, 1, 0, 1, 3]);
}
