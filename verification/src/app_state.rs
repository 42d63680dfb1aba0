//! Host side: the state of the watch window and its decisions.
//!
//! The window talks to the target over SWD (RTT through a probe) or a UART.
//! Opening a link, sending a frame and listing probes or ports are done by
//! the caller; this type decides when to do them and how the window state
//! changes.

use vstd::prelude::*;

use crate::text::has_prefix;
use crate::watch_state::{write_cmd, Access, WatchState, WatchStateView};
use crate::watch_value::{format_integer, int_text};

verus! {

broadcast use vstd::string::group_string_axioms;

/// The transport to the target.
#[derive(Clone, Copy, Debug, PartialEq, Eq, Structural)]
pub enum Mode {
    Swd,
    Uart,
}

impl Mode {
    /// `SWD` or `UART`.
    pub fn label(&self) -> (s: String)
        ensures
            s@ == (match self {
                Mode::Swd => seq!['S', 'W', 'D'],
                Mode::Uart => seq!['U', 'A', 'R', 'T'],
            }),
    {
        match self {
            Mode::Swd => {
                proof {
                    reveal_strlit("SWD");
                }
                String::from_str("SWD")
            },
            Mode::Uart => {
                proof {
                    reveal_strlit("UART");
                }
                String::from_str("UART")
            },
        }
    }
}

/// A debug probe the user may pick.
pub struct ProbeInfo {
    pub index: usize,
    pub name: String,
    pub serial: String,
}

/// Which link is open.
#[derive(Clone, Copy, Debug, PartialEq, Eq, Structural)]
pub enum Link {
    Closed,
    Rtt,
    Uart,
}

/// A link the caller is asked to open.
pub enum ConnectRequest {
    /// Attach through probe `probe_index` at `speed_khz` to `chip`, using up
    /// channel `up_ch` and down channel `down_ch`.
    OpenRtt { probe_index: usize, speed_khz: u32, chip: String, up_ch: usize, down_ch: usize },
    /// Open serial port `port` at `baud_rate`.
    OpenUart { port: String, baud_rate: u32 },
}

/// What the status bar shows.
#[derive(Clone, Copy, Debug, PartialEq, Eq, Structural)]
pub enum RunStatus {
    /// Receiving.
    Run,
    /// A link is open but the view is frozen.
    Pause,
    /// No link.
    Off,
}

/// The watch window's state.
pub struct RttWatchApp {
    pub mode: Mode,
    pub link: Link,
    /// The tree shown while paused.
    pub frozen: WatchState,
    pub running: bool,
    /// The value being edited: `(path, text)`.
    pub editing: Option<(String, String)>,
    pub error_msg: Option<String>,
    pub chip: String,
    pub chip_name: String,
    pub up_ch: usize,
    pub down_ch: usize,
    pub speed_khz: u32,
    pub probes: Vec<ProbeInfo>,
    pub probe_index: usize,
    pub com_ports: Vec<String>,
    pub com_port: String,
    pub com_index: usize,
    pub baud_rate: u32,
}

/// `No probe detected`
pub open spec fn no_probe_text() -> Seq<char> {
    "No probe detected"@
}

/// `No COM port selected`
pub open spec fn no_port_text() -> Seq<char> {
    "No COM port selected"@
}

/// `Connecting...`
pub open spec fn connecting_text() -> Seq<char> {
    "Connecting..."@
}

/// `Connect failed: `
pub open spec fn connect_failed_text() -> Seq<char> {
    "Connect failed: "@
}

/// The message is present and reads `t`.
pub open spec fn msg_is(m: Option<String>, t: Seq<char>) -> bool {
    match m {
        Some(s) => s@ == t,
        None => false,
    }
}

/// The request opens RTT with the window's probe, speed, chip and channels.
pub open spec fn asks_rtt(req: Option<ConnectRequest>, app: RttWatchApp) -> bool {
    match req {
        Some(ConnectRequest::OpenRtt { probe_index, speed_khz, chip, up_ch, down_ch }) => {
            &&& probe_index == app.probe_index
            &&& speed_khz == app.speed_khz
            &&& chip@ == app.chip@
            &&& up_ch == app.up_ch
            &&& down_ch == app.down_ch
        },
        _ => false,
    }
}

/// The request opens the window's serial port at its baud rate.
pub open spec fn asks_uart(req: Option<ConnectRequest>, app: RttWatchApp) -> bool {
    match req {
        Some(ConnectRequest::OpenUart { port, baud_rate }) => port@ == app.com_port@ && baud_rate
            == app.baud_rate,
        _ => false,
    }
}

/// `new` is `old` after `connect` returned `req`: the link closed, not
/// running, no edit, the frozen tree emptied, and a request for the link of
/// the mode (or the reason why not in the error message).
pub open spec fn connect_result(old: RttWatchApp, new: RttWatchApp, req: Option<ConnectRequest>) -> bool {
    &&& new.frozen@.roots.len() == 0
    &&& new.frozen@.leaves.len() == 0
    &&& new == (RttWatchApp {
        link: Link::Closed,
        running: false,
        frozen: new.frozen,
        editing: None,
        error_msg: new.error_msg,
        ..old
    })
    &&& match old.mode {
        Mode::Swd => if old.probes@.len() == 0 {
            req is None && msg_is(new.error_msg, no_probe_text())
        } else {
            msg_is(new.error_msg, connecting_text()) && asks_rtt(req, old)
        },
        Mode::Uart => if old.com_port@.len() == 0 {
            req is None && msg_is(new.error_msg, no_port_text())
        } else {
            msg_is(new.error_msg, connecting_text()) && asks_uart(req, old)
        },
    }
}

/// `new` is `old` after pausing or resuming with the live tree `live`:
/// pausing freezes a copy of the live tree (when it could be read) and drops
/// the edit; resuming changes nothing else.
pub open spec fn toggle_result(old: RttWatchApp, new: RttWatchApp, live: Option<WatchStateView>) -> bool {
    &&& new.running == !old.running
    &&& old.running ==> new.editing is None && (match live {
        Some(ws) => new.frozen@ == ws,
        None => new.frozen@ == old.frozen@,
    })
    &&& !old.running ==> new.frozen@ == old.frozen@ && new.editing == old.editing
    &&& new == (RttWatchApp { running: new.running, frozen: new.frozen, editing: new.editing, ..old })
}

/// `new` is `old` after the outcome of opening a link was recorded: on
/// success the link of the mode is open and running with no error; on
/// failure only the error message changes.
pub open spec fn connected_result(old: RttWatchApp, new: RttWatchApp, outcome: Result<(), String>) -> bool {
    &&& new == (RttWatchApp { link: new.link, running: new.running, error_msg: new.error_msg, ..old })
    &&& match outcome {
        Ok(()) => new.link == (match old.mode {
            Mode::Swd => Link::Rtt,
            Mode::Uart => Link::Uart,
        }) && new.running && new.error_msg is None,
        Err(e) => new.link == old.link && new.running == old.running && msg_is(
            new.error_msg,
            connect_failed_text() + e@,
        ),
    }
}

/// Values arrive only over an open link.
pub open spec fn running_has_link(app: RttWatchApp) -> bool {
    app.running ==> app.link != Link::Closed
}

/// A running window always has an open link (a new window does not run):
/// closing, connecting, recording a connection outcome and the start/stop
/// button all keep it so.
pub proof fn law_running_has_link(
    old: RttWatchApp,
    new: RttWatchApp,
    req: Option<ConnectRequest>,
    live: Option<WatchStateView>,
    outcome: Result<(), String>,
)
    requires
        running_has_link(old),
    ensures
        connect_result(old, new, req) ==> running_has_link(new),
        connected_result(old, new, outcome) ==> running_has_link(new),
        old.link != Link::Closed && toggle_result(old, new, live) ==> running_has_link(new),
        new == (RttWatchApp { link: Link::Closed, running: false, frozen: new.frozen, editing: None, ..old })
            ==> running_has_link(new),
{
}

/// The view of an optional tree.
pub open spec fn live_view(live: Option<&WatchState>) -> Option<WatchStateView> {
    match live {
        Some(ws) => Some(ws@),
        None => None,
    }
}

impl RttWatchApp {
    /// A window for `chip` over SWD, with the probes and serial ports found
    /// at start; not connected, 115200 baud.
    pub fn new(
        chip: String,
        up_ch: usize,
        down_ch: usize,
        speed_khz: u32,
        probes: Vec<ProbeInfo>,
        com_ports: Vec<String>,
    ) -> (app: Self)
        ensures
            app.mode == Mode::Swd,
            app.link == Link::Closed,
            app.frozen@.roots.len() == 0,
            app.frozen@.leaves.len() == 0,
            !app.running,
            app.editing is None,
            app.error_msg is None,
            app.chip@ == chip@,
            app.chip_name@ == chip@,
            app.up_ch == up_ch,
            app.down_ch == down_ch,
            app.speed_khz == speed_khz,
            app.probes@ == probes@,
            app.probe_index == 0,
            app.com_ports@ == com_ports@,
            app.com_port@.len() == 0,
            app.com_index == 0,
            app.baud_rate == 115200,
    {
        let chip_name = chip.clone();
        RttWatchApp {
            mode: Mode::Swd,
            link: Link::Closed,
            frozen: WatchState::new(),
            running: false,
            editing: None,
            error_msg: None,
            chip,
            chip_name,
            up_ch,
            down_ch,
            speed_khz,
            probes,
            probe_index: 0,
            com_ports,
            com_port: String::new(),
            com_index: 0,
            baud_rate: 115200,
        }
    }

    /// Whether a link is open.
    pub fn is_connected(&self) -> (b: bool)
        ensures
            b == (self.link != Link::Closed),
    {
        !matches!(self.link, Link::Closed)
    }

    /// Closes the link: not running, the frozen tree emptied, no edit.
    pub fn disconnect(&mut self)
        ensures
            final(self).link == Link::Closed,
            !final(self).running,
            final(self).frozen@.roots.len() == 0,
            final(self).frozen@.leaves.len() == 0,
            final(self).editing is None,
            *final(self) == (RttWatchApp {
                link: Link::Closed,
                running: false,
                frozen: final(self).frozen,
                editing: None,
                ..*old(self)
            }),
    {
        self.link = Link::Closed;
        self.running = false;
        self.frozen = WatchState::new();
        self.editing = None;
    }

    /// Closes any open link and asks for a new one in the current mode:
    /// over SWD when a probe is listed, over UART when a port is selected;
    /// otherwise records why not and asks for nothing.
    pub fn connect(&mut self) -> (req: Option<ConnectRequest>)
        ensures
            final(self).link == Link::Closed,
            !final(self).running,
            final(self).editing is None,
            final(self).frozen@.roots.len() == 0,
            final(self).mode == old(self).mode,
            connect_result(*old(self), *final(self), req),
    {
        self.disconnect();
        match self.mode {
            Mode::Swd => {
                if self.probes.len() == 0 {
                    self.error_msg = Some(String::from_str("No probe detected"));
                    return None;
                }
                self.error_msg = Some(String::from_str("Connecting..."));
                Some(
                    ConnectRequest::OpenRtt {
                        probe_index: self.probe_index,
                        speed_khz: self.speed_khz,
                        chip: self.chip.clone(),
                        up_ch: self.up_ch,
                        down_ch: self.down_ch,
                    },
                )
            },
            Mode::Uart => {
                if self.com_port.unicode_len() == 0 {
                    self.error_msg = Some(String::from_str("No COM port selected"));
                    return None;
                }
                self.error_msg = Some(String::from_str("Connecting..."));
                Some(ConnectRequest::OpenUart { port: self.com_port.clone(), baud_rate: self.baud_rate })
            },
        }
    }

    /// Records the outcome of opening the link `connect` asked for: on
    /// success the link of the current mode is open, running, with no
    /// error; on failure the error reads `Connect failed: <reason>`.
    pub fn connected(&mut self, outcome: Result<(), String>)
        ensures
            match outcome {
                Ok(()) => final(self).link == (match old(self).mode {
                    Mode::Swd => Link::Rtt,
                    Mode::Uart => Link::Uart,
                }) && final(self).running && final(self).error_msg is None,
                Err(e) => final(self).link == old(self).link && final(self).running == old(self).running
                    && msg_is(final(self).error_msg, connect_failed_text() + e@),
            },
            final(self).mode == old(self).mode,
            connected_result(*old(self), *final(self), outcome),
    {
        match outcome {
            Ok(()) => {
                self.link = match self.mode {
                    Mode::Swd => Link::Rtt,
                    Mode::Uart => Link::Uart,
                };
                self.error_msg = None;
                self.running = true;
            },
            Err(e) => {
                let mut m = String::from_str("Connect failed: ");
                m.append(e.as_str());
                self.error_msg = Some(m);
            },
        }
    }

    /// The tree to show: the live one while running, the frozen one while
    /// paused.
    pub fn active_snapshot(&self, live: &WatchState) -> (s: WatchState)
        ensures
            s@ == (if self.running {
                live@
            } else {
                self.frozen@
            }),
    {
        if self.running {
            live.clone()
        } else {
            self.frozen.clone()
        }
    }

    /// Pauses (freezing a copy of the live tree when it can be read, and
    /// dropping any edit) or resumes.
    pub fn toggle_running(&mut self, live: Option<&WatchState>)
        ensures
            final(self).running == !old(self).running,
            old(self).running ==> final(self).editing is None,
            old(self).running ==> (match live {
                Some(ws) => final(self).frozen@ == ws@,
                None => final(self).frozen@ == old(self).frozen@,
            }),
            !old(self).running ==> final(self).frozen@ == old(self).frozen@ && final(self).editing
                == old(self).editing,
            final(self).link == old(self).link,
            toggle_result(*old(self), *final(self), live_view(live)),
    {
        if self.running {
            match live {
                Some(ws) => {
                    self.frozen = ws.clone();
                },
                None => {},
            }
            self.running = false;
            self.editing = None;
        } else {
            self.running = true;
        }
    }

    /// The start/stop button: pauses or resumes when a link is open, and
    /// otherwise connects.
    pub fn start_stop(&mut self, live: Option<&WatchState>) -> (req: Option<ConnectRequest>)
        ensures
            old(self).link != Link::Closed ==> req is None && toggle_result(*old(self), *final(self), live_view(live)),
            old(self).link == Link::Closed ==> connect_result(*old(self), *final(self), req),
            old(self).link == Link::Closed ==> final(self).link == Link::Closed && !final(self).running,
    {
        if self.is_connected() {
            self.toggle_running(live);
            None
        } else {
            self.connect()
        }
    }

    /// What the status bar shows.
    pub fn status(&self) -> (s: RunStatus)
        ensures
            s == (if self.running {
                RunStatus::Run
            } else if self.link != Link::Closed {
                RunStatus::Pause
            } else {
                RunStatus::Off
            }),
    {
        if self.running {
            RunStatus::Run
        } else if self.is_connected() {
            RunStatus::Pause
        } else {
            RunStatus::Off
        }
    }

    /// The frame that commits an edit, when the link of the current mode is
    /// open.
    pub fn commit_edit(&self, path: &str, value: &str) -> (frame: Option<String>)
        ensures
            match frame {
                Some(f) => f@ == write_cmd(path@, value@) && ((self.mode == Mode::Swd && self.link
                    == Link::Rtt) || (self.mode == Mode::Uart && self.link == Link::Uart)),
                None => !((self.mode == Mode::Swd && self.link == Link::Rtt) || (self.mode
                    == Mode::Uart && self.link == Link::Uart)),
            },
    {
        let open = match self.mode {
            Mode::Swd => matches!(self.link, Link::Rtt),
            Mode::Uart => matches!(self.link, Link::Uart),
        };
        if open {
            Some(WatchState::encode_write_cmd(path, value))
        } else {
            None
        }
    }

    /// Replaces the probe list.
    pub fn refresh_probes(&mut self, probes: Vec<ProbeInfo>)
        ensures
            final(self).probes@ == probes@,
            *final(self) == (RttWatchApp { probes: final(self).probes, ..*old(self) }),
    {
        self.probes = probes;
    }

    /// Replaces the serial port list.
    pub fn refresh_ports(&mut self, ports: Vec<String>)
        ensures
            final(self).com_ports@ == ports@,
            *final(self) == (RttWatchApp { com_ports: final(self).com_ports, ..*old(self) }),
    {
        self.com_ports = ports;
    }
}


impl RttWatchApp {
    /// Picks the transport (a click on a mode button): the mode changes and
    /// the link closes.
    pub fn select_mode(&mut self, mode: Mode)
        ensures
            final(self).mode == mode,
            final(self).link == Link::Closed,
            !final(self).running,
            final(self).editing is None,
            final(self).frozen@.roots.len() == 0,
            *final(self) == (RttWatchApp {
                mode,
                link: Link::Closed,
                running: false,
                frozen: final(self).frozen,
                editing: None,
                ..*old(self)
            }),
    {
        self.mode = mode;
        self.disconnect();
    }

    /// Picks probe `i`; the link closes when the choice changes.
    pub fn select_probe(&mut self, i: usize)
        ensures
            final(self).probe_index == i,
            i != old(self).probe_index ==> final(self).link == Link::Closed && !final(self).running
                && final(self).editing is None && final(self).frozen@.roots.len() == 0 && *final(self) == (
                RttWatchApp {
                    probe_index: i,
                    link: Link::Closed,
                    running: false,
                    frozen: final(self).frozen,
                    editing: None,
                    ..*old(self)
                }),
            i == old(self).probe_index ==> *final(self) == *old(self),
    {
        if i != self.probe_index {
            self.probe_index = i;
            self.disconnect();
        }
    }

    /// Picks serial port `i` of the list; the link closes when the choice
    /// changes.
    pub fn select_port(&mut self, i: usize)
        requires
            i < old(self).com_ports@.len(),
        ensures
            final(self).com_index == i,
            final(self).com_port@ == old(self).com_ports@[i as int]@,
            final(self).com_ports@ == old(self).com_ports@,
            i != old(self).com_index ==> final(self).link == Link::Closed && !final(self).running
                && final(self).editing is None,
            i == old(self).com_index ==> *final(self) == (RttWatchApp {
                com_port: final(self).com_port,
                ..*old(self)
            }),
            i != old(self).com_index ==> *final(self) == (RttWatchApp {
                com_index: i,
                com_port: final(self).com_port,
                link: Link::Closed,
                running: false,
                frozen: final(self).frozen,
                editing: None,
                ..*old(self)
            }),
    {
        let changed = i != self.com_index;
        self.com_index = i;
        self.com_port = self.com_ports[i].clone();
        if changed {
            self.disconnect();
        }
    }

    /// Ends the edit in progress with the text left in its field: an empty
    /// text cancels it, any other text commits it (see `commit_edit`).
    pub fn finish_edit(&mut self, text: &str) -> (frame: Option<String>)
        ensures
            final(self).editing is None,
            final(self).link == old(self).link,
            final(self).mode == old(self).mode,
            *final(self) == (RttWatchApp { editing: None, ..*old(self) }),
            match old(self).editing {
                None => frame is None,
                Some((path, _)) => if text@.len() == 0 {
                    frame is None
                } else {
                    match frame {
                        Some(f) => f@ == write_cmd(path@, text@) && old(self).link_of_mode(),
                        None => !old(self).link_of_mode(),
                    }
                },
            },
    {
        match self.editing.take() {
            None => None,
            Some((path, _)) => {
                if text.unicode_len() == 0 {
                    None
                } else {
                    self.commit_edit(path.as_str(), text)
                }
            },
        }
    }

    /// Enter in an edit field: commits the edit in progress, whatever its
    /// text.
    pub fn commit_on_enter(&mut self) -> (frame: Option<String>)
        ensures
            final(self).editing is None,
            final(self).link == old(self).link,
            *final(self) == (RttWatchApp { editing: None, ..*old(self) }),
            match old(self).editing {
                None => frame is None,
                Some((path, buf)) => match frame {
                    Some(f) => f@ == write_cmd(path@, buf@) && old(self).link_of_mode(),
                    None => !old(self).link_of_mode(),
                },
            },
    {
        match self.editing.take() {
            None => None,
            Some((path, buf)) => self.commit_edit(path.as_str(), buf.as_str()),
        }
    }

    /// The link of the current mode is open.
    pub open spec fn link_of_mode(self) -> bool {
        (self.mode == Mode::Swd && self.link == Link::Rtt) || (self.mode == Mode::Uart && self.link
            == Link::Uart)
    }

    /// The probe selector's caption: `(none)` without probes, `[i] name` for
    /// the chosen probe, `idx i` when the choice is past the list.
    pub fn probe_label(&self) -> (s: String)
        ensures
            s@ == (if self.probes@.len() == 0 {
                "(none)"@
            } else if self.probe_index < self.probes@.len() {
                seq!['['] + int_text(self.probe_index as int) + seq![']', ' '] + self.probes@[self.probe_index as int].name@
            } else {
                "idx "@ + int_text(self.probe_index as int)
            }),
    {
        if self.probes.len() == 0 {
            String::from_str("(none)")
        } else if self.probe_index < self.probes.len() {
            proof {
                reveal_strlit("[");
                reveal_strlit("] ");
            }
            let mut s = String::from_str("[");
            s.append(format_integer(self.probe_index as i128).as_str());
            s.append("] ");
            s.append(self.probes[self.probe_index].name.as_str());
            proof {
                assert(s@ =~= seq!['['] + int_text(self.probe_index as int) + seq![']', ' '] + self.probes@[self.probe_index as int].name@);
            }
            s
        } else {
            let mut s = String::from_str("idx ");
            s.append(format_integer(self.probe_index as i128).as_str());
            s
        }
    }

    /// The status bar's text: `<mode>:<chip or port> | <n> vars`.
    pub fn status_line(&self, vars: usize) -> (s: String)
        ensures
            s@ == (match self.mode {
                Mode::Swd => "SWD"@ + seq![':'] + self.chip_name@,
                Mode::Uart => "UART"@ + seq![':'] + self.com_port@,
            }) + " | "@ + int_text(vars as int) + " vars"@,
    {
        proof {
            reveal_strlit("SWD");
            reveal_strlit("UART");
            reveal_strlit(":");
        }
        let mut s = self.mode.label();
        s.append(":");
        match self.mode {
            Mode::Swd => s.append(self.chip_name.as_str()),
            Mode::Uart => s.append(self.com_port.as_str()),
        }
        s.append(" | ");
        s.append(format_integer(vars as i128).as_str());
        s.append(" vars");
        s
    }
}

/// How a type name is coloured in the tree.
#[derive(Clone, Copy, Debug, PartialEq, Eq, Structural)]
pub enum TypeClass {
    /// `f32`, `f64`
    Float,
    /// `i8` .. `i64`
    Signed,
    /// `u8` .. `u64`
    Unsigned,
    /// `bool`
    Bool,
    /// A name starting with `Str`
    Text,
    /// Anything else (structures, unknown names)
    Other,
}

/// The colour class of a type name.
pub open spec fn type_class_spec(t: Seq<char>) -> TypeClass {
    if t == "f32"@ || t == "f64"@ {
        TypeClass::Float
    } else if t == "i8"@ || t == "i16"@ || t == "i32"@ || t == "i64"@ {
        TypeClass::Signed
    } else if t == "u8"@ || t == "u16"@ || t == "u32"@ || t == "u64"@ {
        TypeClass::Unsigned
    } else if t == "bool"@ {
        TypeClass::Bool
    } else if has_prefix(t, seq!['S', 't', 'r']) {
        TypeClass::Text
    } else {
        TypeClass::Other
    }
}

/// Classifies a type name for colouring.
pub fn type_class(type_text: &str) -> (c: TypeClass)
    ensures
        c == type_class_spec(type_text@),
{
    if crate::text::text_eq(type_text, "f32") || crate::text::text_eq(type_text, "f64") {
        TypeClass::Float
    } else if crate::text::text_eq(type_text, "i8") || crate::text::text_eq(type_text, "i16")
        || crate::text::text_eq(type_text, "i32") || crate::text::text_eq(type_text, "i64") {
        TypeClass::Signed
    } else if crate::text::text_eq(type_text, "u8") || crate::text::text_eq(type_text, "u16")
        || crate::text::text_eq(type_text, "u32") || crate::text::text_eq(type_text, "u64") {
        TypeClass::Unsigned
    } else if crate::text::text_eq(type_text, "bool") {
        TypeClass::Bool
    } else {
        let v = crate::text::chars_of(type_text);
        if v.len() >= 3 && v[0] == 'S' && v[1] == 't' && v[2] == 'r' {
            assert(v@.take(3) =~= seq!['S', 't', 'r']);
            TypeClass::Text
        } else {
            proof {
                if has_prefix(type_text@, seq!['S', 't', 'r']) {
                    assert(v@.take(3)[0] == 'S' && v@.take(3)[1] == 't' && v@.take(3)[2] == 'r');
                }
            }
            TypeClass::Other
        }
    }
}

/// A value cell can be clicked for editing: values arrive and the variable
/// is writable.
pub fn value_editable(running: bool, access: Access) -> (b: bool)
    ensures
        b == (running && access == Access::ReadWrite),
{
    running && matches!(access, Access::ReadWrite)
}

/// The edit in progress is that of `path`.
pub fn is_editing(editing: &Option<(String, String)>, path: &str) -> (b: bool)
    ensures
        b == (match editing {
            Some((p, _)) => p@ == path@,
            None => false,
        }),
{
    match editing {
        Some((p, _)) => crate::text::text_eq(p.as_str(), path),
        None => false,
    }
}

/// File names tried for a system font: the name with `.ttf`, `.ttc` and
/// `.otf`, then the known file names of that font.
pub open spec fn font_candidates_spec(name: Seq<char>) -> Seq<Seq<char>> {
    let base = seq![name + ".ttf"@, name + ".ttc"@, name + ".otf"@];
    if name == "Microsoft YaHei"@ {
        base + seq!["msyh.ttf"@, "msyh.ttc"@]
    } else if name == "SimHei"@ {
        base + seq!["simhei.ttf"@]
    } else if name == "SimSun"@ {
        base + seq!["simsun.ttf"@, "simsun.ttc"@]
    } else {
        base
    }
}

/// `name` followed by `ext`.
fn with_suffix(name: &str, ext: &str) -> (s: String)
    ensures
        s@ == name@ + ext@,
{
    let mut s = String::from_str(name);
    s.append(ext);
    s
}

/// The file names to try, in order, when loading the system font `name`.
pub fn font_candidates(name: &str) -> (files: Vec<String>)
    ensures
        crate::text::views_of(files@) == font_candidates_spec(name@),
{
    let mut files: Vec<String> = Vec::new();
    files.push(with_suffix(name, ".ttf"));
    files.push(with_suffix(name, ".ttc"));
    files.push(with_suffix(name, ".otf"));
    let ghost base = seq![name@ + ".ttf"@, name@ + ".ttc"@, name@ + ".otf"@];
    assert(crate::text::views_of(files@) =~= base);
    if crate::text::text_eq(name, "Microsoft YaHei") {
        files.push(String::from_str("msyh.ttf"));
        files.push(String::from_str("msyh.ttc"));
        assert(crate::text::views_of(files@) =~= base + seq!["msyh.ttf"@, "msyh.ttc"@]);
    } else if crate::text::text_eq(name, "SimHei") {
        files.push(String::from_str("simhei.ttf"));
        assert(crate::text::views_of(files@) =~= base + seq!["simhei.ttf"@]);
    } else if crate::text::text_eq(name, "SimSun") {
        files.push(String::from_str("simsun.ttf"));
        files.push(String::from_str("simsun.ttc"));
        assert(crate::text::views_of(files@) =~= base + seq!["simsun.ttf"@, "simsun.ttc"@]);
    }
    files
}

} // verus!
