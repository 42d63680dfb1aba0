use rtt_debug_tool::app_state::{
    font_candidates, is_editing, type_class, value_editable, ConnectRequest, Link, Mode, ProbeInfo, RttWatchApp, RunStatus,
    TypeClass,
};
use rtt_debug_tool::watch_state::Access;
use rtt_debug_tool::watch_state::WatchState;

fn probe() -> ProbeInfo {
    ProbeInfo { index: 0, name: "DAPLink".to_string(), serial: "123".to_string() }
}

#[test]
fn new_window_is_idle() {
    let app = RttWatchApp::new("STM32H723ZG".to_string(), 1, 0, 5000, vec![], vec!["COM3".to_string()]);
    assert_eq!(app.mode, Mode::Swd);
    assert_eq!(app.link, Link::Closed);
    assert!(!app.running);
    assert_eq!(app.chip_name, "STM32H723ZG");
    assert_eq!(app.baud_rate, 115200);
    assert_eq!(app.com_port, "");
    assert_eq!(app.status(), RunStatus::Off);
}

#[test]
fn connect_without_probe_reports() {
    let mut app = RttWatchApp::new("chip".to_string(), 1, 0, 5000, vec![], vec![]);
    assert!(app.connect().is_none());
    assert_eq!(app.error_msg.as_deref(), Some("No probe detected"));
    app.mode = Mode::Uart;
    assert!(app.connect().is_none());
    assert_eq!(app.error_msg.as_deref(), Some("No COM port selected"));
}

#[test]
fn connect_asks_for_link() {
    let mut app = RttWatchApp::new("chip".to_string(), 1, 0, 4000, vec![probe()], vec![]);
    match app.connect() {
        Some(ConnectRequest::OpenRtt { probe_index, speed_khz, chip, up_ch, down_ch }) => {
            assert_eq!((probe_index, speed_khz, up_ch, down_ch), (0, 4000, 1, 0));
            assert_eq!(chip, "chip");
        }
        _ => panic!("expected an RTT request"),
    }
    assert_eq!(app.error_msg.as_deref(), Some("Connecting..."));
    app.connected(Ok(()));
    assert_eq!(app.link, Link::Rtt);
    assert!(app.running);
    assert!(app.error_msg.is_none());
    assert_eq!(app.status(), RunStatus::Run);
}

#[test]
fn failed_connect_is_reported() {
    let mut app = RttWatchApp::new("chip".to_string(), 1, 0, 4000, vec![], vec![]);
    app.mode = Mode::Uart;
    app.com_port = "COM3".to_string();
    match app.connect() {
        Some(ConnectRequest::OpenUart { port, baud_rate }) => {
            assert_eq!(port, "COM3");
            assert_eq!(baud_rate, 115200);
        }
        _ => panic!("expected a UART request"),
    }
    app.connected(Err("busy".to_string()));
    assert_eq!(app.error_msg.as_deref(), Some("Connect failed: busy"));
    assert_eq!(app.link, Link::Closed);
}

#[test]
fn pause_freezes_and_resume_goes_live() {
    let mut app = RttWatchApp::new("chip".to_string(), 1, 0, 4000, vec![probe()], vec![]);
    app.connect();
    app.connected(Ok(()));
    let mut live = WatchState::new();
    live.handle_line("a=1");
    app.editing = Some(("a".to_string(), "2".to_string()));
    assert!(app.start_stop(Some(&live)).is_none());
    assert!(!app.running);
    assert!(app.editing.is_none());
    assert_eq!(app.status(), RunStatus::Pause);
    live.handle_line("a=5");
    let shown = app.active_snapshot(&live);
    assert_eq!(shown.roots[0].value, "1");
    app.toggle_running(Some(&live));
    assert!(app.running);
    let shown = app.active_snapshot(&live);
    assert_eq!(shown.roots[0].value, "5");
}

#[test]
fn disconnect_resets() {
    let mut app = RttWatchApp::new("chip".to_string(), 1, 0, 4000, vec![probe()], vec![]);
    app.connect();
    app.connected(Ok(()));
    app.disconnect();
    assert_eq!(app.link, Link::Closed);
    assert!(!app.running);
    assert_eq!(app.status(), RunStatus::Off);
    assert_eq!(app.probes.len(), 1);
}

#[test]
fn commit_edit_needs_matching_link() {
    let mut app = RttWatchApp::new("chip".to_string(), 1, 0, 4000, vec![probe()], vec![]);
    assert!(app.commit_edit("a", "1").is_none());
    app.connect();
    app.connected(Ok(()));
    assert_eq!(app.commit_edit("arm.rpm", "5").as_deref(), Some("set arm.rpm 5\n"));
    app.mode = Mode::Uart;
    assert!(app.commit_edit("arm.rpm", "5").is_none());
}

#[test]
fn refresh_lists() {
    let mut app = RttWatchApp::new("chip".to_string(), 1, 0, 4000, vec![], vec![]);
    app.refresh_probes(vec![probe()]);
    app.refresh_ports(vec!["COM1".to_string(), "COM2".to_string()]);
    assert_eq!(app.probes.len(), 1);
    assert_eq!(app.com_ports, vec!["COM1".to_string(), "COM2".to_string()]);
}

#[test]
fn mode_labels() {
    assert_eq!(Mode::Swd.label(), "SWD");
    assert_eq!(Mode::Uart.label(), "UART");
}

#[test]
fn font_file_candidates() {
    assert_eq!(font_candidates("SimHei"), vec!["SimHei.ttf", "SimHei.ttc", "SimHei.otf", "simhei.ttf"]);
    assert_eq!(
        font_candidates("Microsoft YaHei"),
        vec!["Microsoft YaHei.ttf", "Microsoft YaHei.ttc", "Microsoft YaHei.otf", "msyh.ttf", "msyh.ttc"]
    );
    assert_eq!(font_candidates("Foo"), vec!["Foo.ttf", "Foo.ttc", "Foo.otf"]);
}

#[test]
fn filter_roots_by_path() {
    let mut ws = WatchState::new();
    ws.handle_line("voltage=3.3");
    ws.handle_line("pid.kp=2.5");
    ws.handle_line("pid_gain=1");
    assert_eq!(ws.filter_roots(""), vec![0, 1, 2]);
    assert_eq!(ws.filter_roots("pid"), vec![1, 2]);
    assert_eq!(ws.filter_roots("zzz"), Vec::<usize>::new());
}

fn open_rtt(app: &mut RttWatchApp) {
    assert!(app.connect().is_some());
    app.connected(Ok(()));
    assert_eq!(app.link, Link::Rtt);
}

#[test]
fn select_mode_closes_link() {
    let mut app = RttWatchApp::new("chip".to_string(), 1, 0, 5000, vec![probe()], vec![]);
    open_rtt(&mut app);
    app.select_mode(Mode::Uart);
    assert_eq!(app.mode, Mode::Uart);
    assert_eq!(app.link, Link::Closed);
    assert!(!app.running);
}

#[test]
fn select_probe_closes_only_on_change() {
    let mut app = RttWatchApp::new("chip".to_string(), 1, 0, 5000, vec![probe(), probe()], vec![]);
    open_rtt(&mut app);
    app.select_probe(0);
    assert_eq!(app.link, Link::Rtt);
    assert!(app.running);
    app.select_probe(1);
    assert_eq!(app.probe_index, 1);
    assert_eq!(app.link, Link::Closed);
}

#[test]
fn select_port_takes_its_name() {
    let ports = vec!["COM3".to_string(), "COM7".to_string()];
    let mut app = RttWatchApp::new("chip".to_string(), 1, 0, 5000, vec![], ports);
    app.mode = Mode::Uart;
    app.select_port(0);
    assert_eq!(app.com_port, "COM3");
    assert!(app.connect().is_some());
    app.connected(Ok(()));
    assert_eq!(app.link, Link::Uart);
    app.select_port(1);
    assert_eq!((app.com_index, app.com_port.as_str()), (1, "COM7"));
    assert_eq!(app.link, Link::Closed);
}

#[test]
fn finish_edit_commits_or_cancels() {
    let mut app = RttWatchApp::new("chip".to_string(), 1, 0, 5000, vec![probe()], vec![]);
    open_rtt(&mut app);
    app.editing = Some(("arm.rpm".to_string(), "10".to_string()));
    assert_eq!(app.finish_edit("12").as_deref(), Some("set arm.rpm 12\n"));
    assert!(app.editing.is_none());
    app.editing = Some(("arm.rpm".to_string(), "10".to_string()));
    assert_eq!(app.finish_edit(""), None);
    assert!(app.editing.is_none());
    assert_eq!(app.finish_edit("5"), None);
}

#[test]
fn enter_commits_buffer() {
    let mut app = RttWatchApp::new("chip".to_string(), 1, 0, 5000, vec![probe()], vec![]);
    app.editing = Some(("x".to_string(), "1".to_string()));
    assert_eq!(app.commit_on_enter(), None);
    assert!(app.editing.is_none());
    open_rtt(&mut app);
    app.editing = Some(("x".to_string(), "1".to_string()));
    assert_eq!(app.commit_on_enter().as_deref(), Some("set x 1\n"));
}

#[test]
fn probe_label_cases() {
    let mut app = RttWatchApp::new("chip".to_string(), 1, 0, 5000, vec![], vec![]);
    assert_eq!(app.probe_label(), "(none)");
    app.refresh_probes(vec![probe()]);
    assert_eq!(app.probe_label(), "[0] DAPLink");
    app.probe_index = 3;
    assert_eq!(app.probe_label(), "idx 3");
}

#[test]
fn status_line_text() {
    let mut app = RttWatchApp::new("STM32H723ZG".to_string(), 1, 0, 5000, vec![], vec!["COM3".to_string()]);
    assert_eq!(app.status_line(12), "SWD:STM32H723ZG | 12 vars");
    app.mode = Mode::Uart;
    app.select_port(0);
    assert_eq!(app.status_line(0), "UART:COM3 | 0 vars");
}

#[test]
fn type_classes() {
    assert_eq!(type_class("f32"), TypeClass::Float);
    assert_eq!(type_class("f64"), TypeClass::Float);
    assert_eq!(type_class("i16"), TypeClass::Signed);
    assert_eq!(type_class("u64"), TypeClass::Unsigned);
    assert_eq!(type_class("bool"), TypeClass::Bool);
    assert_eq!(type_class("Str(32)"), TypeClass::Text);
    assert_eq!(type_class("St"), TypeClass::Other);
    assert_eq!(type_class("Motor"), TypeClass::Other);
    assert_eq!(type_class(""), TypeClass::Other);
}

#[test]
fn editability() {
    assert!(value_editable(true, Access::ReadWrite));
    assert!(!value_editable(false, Access::ReadWrite));
    assert!(!value_editable(true, Access::ReadOnly));
    let e = Some(("a.b".to_string(), "1".to_string()));
    assert!(is_editing(&e, "a.b"));
    assert!(!is_editing(&e, "a"));
    assert!(!is_editing(&None, "a.b"));
}

#[test]
fn running_needs_link() {
    let mut app = RttWatchApp::new("chip".to_string(), 1, 0, 5000, vec![], vec![]);
    assert!(app.start_stop(None).is_none());
    assert!(!app.running);
    app.refresh_probes(vec![probe()]);
    assert!(app.start_stop(None).is_some());
    assert!(!app.running && app.link == Link::Closed);
    app.connected(Err("busy".to_string()));
    assert!(!app.running && app.link == Link::Closed);
    assert_eq!(app.error_msg.as_deref(), Some("Connect failed: busy"));
    app.connected(Ok(()));
    assert!(app.running && app.link == Link::Rtt);
    let live = WatchState::new();
    assert!(app.start_stop(Some(&live)).is_none());
    assert!(!app.running && app.link == Link::Rtt);
    assert_eq!(app.status(), RunStatus::Pause);
    app.disconnect();
    assert!(!app.running && app.link == Link::Closed);
}
