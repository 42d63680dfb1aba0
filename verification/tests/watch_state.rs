use rtt_debug_tool::watch_state::{Access, WatchState};

#[test]
fn test_simple_scalar() {
    let mut ws = WatchState::new();
    ws.handle_line("counter=42");
    assert_eq!(ws.roots.len(), 1);
    assert_eq!(ws.roots[0].name, "counter");
    assert_eq!(ws.roots[0].value, "42");
    assert!(!ws.roots[0].is_struct);
}

#[test]
fn test_nested_struct() {
    let mut ws = WatchState::new();
    ws.handle_line("arm.pitch.rpm=1000.5");
    ws.handle_line("arm.pitch.current=2.3");
    ws.handle_line("arm.voltage=24.0");

    assert_eq!(ws.roots.len(), 1);
    let arm = &ws.roots[0];
    assert_eq!(arm.name, "arm");
    assert!(arm.is_struct);
    assert_eq!(arm.children.len(), 2);

    let pitch = &arm.children[0];
    assert_eq!(pitch.name, "pitch");
    assert!(pitch.is_struct);
    assert_eq!(pitch.children.len(), 2);
    assert_eq!(pitch.children[0].value, "1000.5");
    assert_eq!(pitch.children[1].value, "2.3");

    let voltage = &arm.children[1];
    assert_eq!(voltage.name, "voltage");
    assert!(!voltage.is_struct);
    assert_eq!(voltage.value, "24.0");
}

#[test]
fn test_value_update() {
    let mut ws = WatchState::new();
    ws.handle_line("counter=1");
    assert_eq!(ws.roots[0].value, "1");
    ws.handle_line("counter=99");
    assert_eq!(ws.roots[0].value, "99");
}

#[test]
fn test_multiple_roots() {
    let mut ws = WatchState::new();
    ws.handle_line("voltage=3.3");
    ws.handle_line("pid.kp=2.5");
    ws.handle_line("pid.ki=0.1");

    assert_eq!(ws.roots.len(), 2);
    assert_eq!(ws.roots[0].name, "voltage");
    assert_eq!(ws.roots[1].name, "pid");
    assert_eq!(ws.roots[1].children.len(), 2);
}

#[test]
fn test_encode_write_cmd() {
    let cmd = WatchState::encode_write_cmd("arm.pitch.rpm", "1100.0");
    assert_eq!(cmd, "set arm.pitch.rpm 1100.0\n");
}

#[test]
fn access_flag_sets_permission() {
    let mut ws = WatchState::new();
    ws.handle_line("arm.pitch.rpm=1000.5,RW");
    ws.handle_line("arm.temp=40,RO");
    ws.handle_line("speed=3,XX");
    assert_eq!(ws.get_access("arm.pitch.rpm"), Some(Access::ReadWrite));
    assert_eq!(ws.get_access("arm.temp"), Some(Access::ReadOnly));
    assert_eq!(ws.get_access("speed"), Some(Access::ReadOnly));
    assert_eq!(ws.get_access("arm"), None);
    assert_eq!(ws.get_access("nope"), None);
    assert_eq!(ws.roots[0].children[1].access, Access::ReadOnly);
}

#[test]
fn legacy_line_is_read_write() {
    let mut ws = WatchState::new();
    ws.handle_line("counter=7");
    assert_eq!(ws.get_access("counter"), Some(Access::ReadWrite));
}

#[test]
fn latest_permission_wins() {
    let mut ws = WatchState::new();
    ws.handle_line("x=1,RW");
    ws.handle_line("x=2,RO");
    assert_eq!(ws.get_access("x"), Some(Access::ReadOnly));
    assert_eq!(ws.roots.len(), 1);
    assert_eq!(ws.roots[0].value, "2");
    assert_eq!(ws.roots[0].access, Access::ReadOnly);
}

#[test]
fn feedback_and_blank_lines_are_ignored() {
    let mut ws = WatchState::new();
    ws.handle_line("OK arm.pitch.rpm=1100.0");
    ws.handle_line("ERR bad_path: not found");
    ws.handle_line("   \t  ");
    ws.handle_line("");
    ws.handle_line("no assignment here");
    ws.handle_line("a,RW");
    assert_eq!(ws.roots.len(), 0);
    assert_eq!(ws.get_access("bad_path"), None);
}

#[test]
fn lines_are_trimmed() {
    let mut ws = WatchState::new();
    ws.handle_line("  speed=12  \r");
    assert_eq!(ws.roots[0].name, "speed");
    assert_eq!(ws.roots[0].value, "12");
}

#[test]
fn value_may_hold_equals_sign() {
    let mut ws = WatchState::new();
    ws.handle_line("expr=a=b,RO");
    assert_eq!(ws.roots[0].name, "expr");
    assert_eq!(ws.roots[0].value, "a=b");
}

#[test]
fn last_comma_splits_the_flag() {
    let mut ws = WatchState::new();
    ws.handle_line("list=1,2,RW");
    assert_eq!(ws.roots[0].value, "1,2");
    assert_eq!(ws.get_access("list"), Some(Access::ReadWrite));
}

#[test]
fn child_paths_are_joined() {
    let mut ws = WatchState::new();
    ws.handle_line("arm.pitch.rpm=1");
    assert_eq!(ws.roots[0].path, "arm");
    assert_eq!(ws.roots[0].children[0].path, "arm.pitch");
    assert_eq!(ws.roots[0].children[0].children[0].path, "arm.pitch.rpm");
    assert_eq!(ws.roots[0].children[0].children[0].name, "rpm");
}

#[test]
fn leaf_turned_struct_keeps_value() {
    let mut ws = WatchState::new();
    ws.handle_line("a=1");
    ws.handle_line("a.b=2");
    assert!(ws.roots[0].is_struct);
    assert_eq!(ws.roots[0].value, "1");
    ws.handle_line("a=3");
    assert!(!ws.roots[0].is_struct);
    assert_eq!(ws.roots[0].value, "3");
    assert_eq!(ws.roots[0].children.len(), 1);
}

#[test]
fn same_line_twice_is_same_as_once() {
    let mut once = WatchState::new();
    once.handle_line("arm.pitch.rpm=5,RW");
    let mut twice = WatchState::new();
    twice.handle_line("arm.pitch.rpm=5,RW");
    twice.handle_line("arm.pitch.rpm=5,RW");
    assert_eq!(once.roots.len(), twice.roots.len());
    assert_eq!(twice.roots[0].children.len(), 1);
    assert_eq!(twice.roots[0].children[0].children.len(), 1);
    assert_eq!(twice.roots[0].children[0].children[0].value, "5");
}

#[test]
fn clear_forgets_everything() {
    let mut ws = WatchState::new();
    ws.handle_line("a=1");
    ws.clear();
    assert_eq!(ws.roots.len(), 0);
    assert_eq!(ws.get_access("a"), None);
}

#[test]
fn clone_copies_the_tree() {
    let mut ws = WatchState::new();
    ws.handle_line("a.b=1,RO");
    let copy = ws.clone();
    ws.handle_line("a.b=2,RW");
    assert_eq!(copy.roots[0].children[0].value, "1");
    assert_eq!(copy.get_access("a.b"), Some(Access::ReadOnly));
    assert_eq!(ws.roots[0].children[0].value, "2");
}

#[test]
fn receive_applies_complete_lines() {
    let mut ws = WatchState::new();
    let mut pending = String::new();
    ws.receive(&mut pending, "a=1\nb.c=");
    assert_eq!(ws.roots.len(), 1);
    assert_eq!(pending, "b.c=");
    ws.receive(&mut pending, "2\n");
    assert_eq!(pending, "");
    assert_eq!(ws.roots.len(), 2);
    assert_eq!(ws.roots[1].children[0].value, "2");
}

#[test]
fn access_labels() {
    assert_eq!(Access::ReadOnly.label(), "RO");
    assert_eq!(Access::ReadWrite.label(), "RW");
}

#[test]
fn trailing_cr_makes_no_difference() {
    let mut a = WatchState::new();
    a.handle_line("a.b=1\r");
    let mut b = WatchState::new();
    b.handle_line("a.b=1");
    assert_eq!(a.roots[0].children[0].value, "1");
    assert_eq!(a.roots[0].children[0].value, b.roots[0].children[0].value);
    assert_eq!(a.get_access("a.b"), b.get_access("a.b"));
}

#[test]
fn access_follows_last_write() {
    let mut ws = WatchState::new();
    for l in ["x=1,RO", "y=2", "arm.v=1,RO", "x=3,RW"] {
        ws.handle_line(l);
    }
    assert_eq!(ws.get_access("x"), Some(Access::ReadWrite));
    assert_eq!(ws.get_access("y"), Some(Access::ReadWrite));
    assert_eq!(ws.get_access("arm.v"), Some(Access::ReadOnly));
    assert_eq!(ws.get_access("arm"), None);
}

#[test]
fn paths_join_names_and_names_stay_distinct() {
    let mut ws = WatchState::new();
    ws.handle_line("arm.pitch.rpm=1");
    ws.handle_line("arm.pitch.rpm=2");
    ws.handle_line("arm.pitch.cur=3,RO");
    assert_eq!(ws.roots.len(), 1);
    assert_eq!(ws.roots[0].path, "arm");
    let pitch = &ws.roots[0].children[0];
    assert_eq!(ws.roots[0].children.len(), 1);
    assert_eq!(pitch.path, "arm.pitch");
    assert_eq!(pitch.children.len(), 2);
    assert_eq!(pitch.children[0].path, "arm.pitch.rpm");
    assert_eq!(pitch.children[1].path, "arm.pitch.cur");
    assert_eq!(pitch.children[1].access, Access::ReadOnly);
    assert_eq!(ws.get_access("arm.pitch.cur"), Some(Access::ReadOnly));
}
