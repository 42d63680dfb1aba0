//! Target side: telemetry timing, the uplink frame and the downlink
//! command protocol.
//!
//! Uplink frames are lines `path=value\n`, one per readable entry, packed
//! into a buffer of `UP_BUF_SIZE` bytes. Downlink bytes are gathered into
//! lines of at most `DOWN_LINE_SIZE` bytes; a line `set <path> <value>`
//! asks for a write and is answered `OK <path>=<value>\n` or
//! `ERR <path>: <reason>\n`.

use vstd::prelude::*;
use vstd::string::StringSliceAdditionalSpecFns;
use vstd::utf8::encode_utf8;

use crate::text::{chars_of, find_last, has_prefix, trim, trim_bounds};
use crate::watch_table::{
    entry_paths, path_as_str, path_bytes, reason_text, WatchEntry, WatchTable, WriteError,
    write_outcome, write_target, writable_entry,
};

verus! {

broadcast use vstd::string::group_string_axioms;

// ─────────────────────────────────────────────────────────────
// Timing
// ─────────────────────────────────────────────────────────────

/// Telemetry timing.
///
/// The target rate is clamped to `1..=1000` Hz; the period is
/// `ceil(1000 / rate)` ms and the host refresh rate `ceil(rate * 3 / 4)`.
#[derive(Clone, Copy)]
pub struct WatchConfig {
    /// Target telemetry rate (Hz), `1..=1000`.
    pub mcu_freq_hz: u16,
    /// Host refresh rate (Hz).
    pub host_freq_hz: u16,
    /// Telemetry period (ms).
    pub period_ms: u64,
    /// Most entries sent per period.
    pub max_entries: usize,
}

/// The clamped target rate.
pub open spec fn clamp_freq(freq: u16) -> int {
    if freq < 1 {
        1
    } else if freq > 1000 {
        1000
    } else {
        freq as int
    }
}

/// The configuration for a requested rate.
pub open spec fn config_for(freq: u16) -> (int, int, int, int) {
    let m = clamp_freq(freq);
    (m, (m * 3 + 3) / 4, (1000 + m - 1) / m, 64)
}

impl WatchConfig {
    /// The configuration's fields as integers.
    pub open spec fn fields(self) -> (int, int, int, int) {
        (self.mcu_freq_hz as int, self.host_freq_hz as int, self.period_ms as int, self.max_entries as int)
    }

    /// The default: 40 Hz on the target (25 ms), 30 Hz on the host, 64 entries.
    pub fn default() -> (c: Self)
        ensures
            c.fields() == (40int, 30int, 25int, 64int),
    {
        WatchConfig { mcu_freq_hz: 40, host_freq_hz: 30, period_ms: 25, max_entries: 64 }
    }

    /// The configuration for `freq` Hz (clamped to `1..=1000`).
    pub fn from_freq(freq: u16) -> (c: Self)
        ensures
            c.fields() == config_for(freq),
    {
        let mcu: u16 = if freq < 1 {
            1
        } else if freq > 1000 {
            1000
        } else {
            freq
        };
        let m = mcu as u32;
        let period: u32 = (1000u32 + m - 1) / m;
        let host: u32 = (m * 3 + 3) / 4;
        assert(host <= 750) by (nonlinear_arith)
            requires
                host == (m * 3 + 3) / 4,
                m <= 1000,
        ;
        WatchConfig { mcu_freq_hz: mcu, host_freq_hz: host as u16, period_ms: period as u64, max_entries: 64 }
    }
}

/// The default configuration is the one for 40 Hz.
pub proof fn law_default_is_40hz()
    ensures
        config_for(40) == (40int, 30int, 25int, 64int),
{
    assert((40int * 3 + 3) / 4 == 30) by (nonlinear_arith);
    assert((1000int + 40 - 1) / 40 == 25) by (nonlinear_arith);
}

/// A requested rate within `1..=1000` Hz is kept as it is; a rate of 0 is
/// raised to 1 Hz and one above 1000 Hz lowered to 1000 Hz. For the rate
/// kept, the period is `ceil(1000 / rate)` ms and the host rate
/// `ceil(rate * 3 / 4)`, and at most 64 entries are sent.
pub proof fn law_config_keeps_rate(freq: u16)
    ensures
        1 <= freq <= 1000 ==> config_for(freq).0 == freq,
        freq < 1 ==> config_for(freq).0 == 1,
        freq > 1000 ==> config_for(freq).0 == 1000,
        ({
            let (m, h, p, e) = config_for(freq);
            &&& p * m >= 1000 && (p - 1) * m < 1000
            &&& 4 * h >= 3 * m && 4 * (h - 1) < 3 * m
            &&& e == 64
        }),
{
    law_config_rounds_up(freq);
}

/// The period is the smallest whole number of milliseconds that is at least
/// one cycle, and the host rate the smallest whole rate at least three
/// quarters of the target's; both are within `1..=1000`.
pub proof fn law_config_rounds_up(freq: u16)
    ensures
        ({
            let (m, h, p, _) = config_for(freq);
            &&& 1 <= m <= 1000
            &&& p * m >= 1000 && (p - 1) * m < 1000
            &&& 4 * h >= 3 * m && 4 * (h - 1) < 3 * m
            &&& 1 <= p <= 1000 && 1 <= h <= m
        }),
{
    let (m, h, p, _) = config_for(freq);
    assert(p * m >= 1000 && (p - 1) * m < 1000 && 1 <= p <= 1000) by (nonlinear_arith)
        requires
            1 <= m <= 1000,
            p == (1000 + m - 1) / m,
    ;
    assert(4 * h >= 3 * m && 4 * (h - 1) < 3 * m && 1 <= h <= m) by (nonlinear_arith)
        requires
            1 <= m <= 1000,
            h == (m * 3 + 3) / 4,
    ;
}

// ─────────────────────────────────────────────────────────────
// Uplink frame
// ─────────────────────────────────────────────────────────────

/// Size of the uplink buffer.
pub const UP_BUF_SIZE: usize = 4096;

/// Room kept free before another entry is tried.
pub const UP_LINE_RESERVE: usize = 64;

/// The uplink line of one entry.
pub open spec fn telemetry_line(path: Seq<u8>, value: Seq<u8>) -> Seq<u8> {
    path + seq![0x3Du8] + value + seq![0x0Au8]
}

/// The UTF-8 bytes of optional value texts.
pub open spec fn value_bytes(values: Seq<Option<String>>) -> Seq<Option<Seq<u8>>> {
    values.map_values(
        |o: Option<String>|
            match o {
                Some(s) => Some(encode_utf8(s@)),
                None => None,
            },
    )
}

/// The uplink frame for the first `n` entries with paths `paths` and values
/// `values`: entries are taken in order; once fewer than `UP_LINE_RESERVE`
/// bytes are left nothing more is added; an entry without a value, or
/// whose line does not fit, is skipped.
pub open spec fn telemetry_frame(paths: Seq<Seq<u8>>, values: Seq<Option<Seq<u8>>>, n: int) -> Seq<u8>
    decreases n,
{
    if n <= 0 {
        Seq::empty()
    } else {
        let acc = telemetry_frame(paths, values, n - 1);
        let i = n - 1;
        if acc.len() + 64 > 4096 || i >= values.len() {
            acc
        } else {
            match values[i] {
                None => acc,
                Some(v) => {
                    let l = telemetry_line(paths[i], v);
                    if acc.len() + l.len() > 4096 {
                        acc
                    } else {
                        acc + l
                    }
                },
            }
        }
    }
}

/// How many entries a frame covers: the table, capped at `max_entries`.
pub open spec fn frame_count(table_len: int, max_entries: int) -> int {
    if table_len < max_entries {
        table_len
    } else {
        max_entries
    }
}

/// The lines `path=value\n` of the first `n` entries, one after the other.
pub open spec fn lines_concat(paths: Seq<Seq<u8>>, values: Seq<Option<Seq<u8>>>, n: int) -> Seq<u8>
    decreases n,
{
    if n <= 0 {
        Seq::empty()
    } else {
        lines_concat(paths, values, n - 1) + paths[n - 1] + seq![0x3Du8] + values[n - 1].unwrap() + seq![0x0Au8]
    }
}

/// A frame covers the first `min(table length, max_entries)` entries.
pub proof fn law_frame_count(table_len: int, max_entries: int)
    ensures
        frame_count(table_len, max_entries) <= table_len,
        frame_count(table_len, max_entries) <= max_entries,
        frame_count(table_len, max_entries) == table_len || frame_count(table_len, max_entries) == max_entries,
{
}

/// When every one of the first `n` entries has a value and their lines fit
/// with the 64-byte reserve to spare, the frame is exactly those lines, in
/// order: no entry is left out.
pub proof fn law_frame_all_lines(paths: Seq<Seq<u8>>, values: Seq<Option<Seq<u8>>>, n: int)
    requires
        0 <= n <= values.len(),
        n <= paths.len(),
        forall|i: int| 0 <= i < n ==> (#[trigger] values[i]) is Some,
        lines_concat(paths, values, n).len() + 64 <= 4096,
    ensures
        telemetry_frame(paths, values, n) == lines_concat(paths, values, n),
    decreases n,
{
    if n > 0 {
        law_frame_all_lines(paths, values, n - 1);
        let acc = lines_concat(paths, values, n - 1);
        let v = values[n - 1].unwrap();
        assert(telemetry_line(paths[n - 1], v) =~= paths[n - 1] + seq![0x3Du8] + v + seq![0x0Au8]);
        assert(acc + telemetry_line(paths[n - 1], v) =~= lines_concat(paths, values, n));
    }
}

/// The frame of a table of `table_len` entries (paths `paths`) with at most
/// `max_entries` sent holds the line of every entry among the first
/// `min(table_len, max_entries)`, when each has a value and the lines fit.
pub proof fn law_frame_has_every_entry(
    paths: Seq<Seq<u8>>,
    values: Seq<Option<Seq<u8>>>,
    table_len: int,
    max_entries: int,
)
    requires
        0 <= table_len == paths.len(),
        0 <= max_entries,
        values.len() >= (if table_len < max_entries { table_len } else { max_entries }),
        forall|i: int| 0 <= i < (if table_len < max_entries { table_len } else { max_entries }) ==> (
        #[trigger] values[i]) is Some,
        lines_concat(paths, values, if table_len < max_entries { table_len } else { max_entries }).len()
            + 64 <= 4096,
    ensures
        telemetry_frame(paths, values, frame_count(table_len, max_entries)) == lines_concat(
            paths,
            values,
            if table_len < max_entries { table_len } else { max_entries },
        ),
{
    law_frame_count(table_len, max_entries);
    law_frame_all_lines(paths, values, frame_count(table_len, max_entries));
}

/// Packs the uplink frame: `values[i]` is what entry `i` read (`None` when
/// it could not be read or was not read).
pub fn encode_telemetry(table: &WatchTable, values: &Vec<Option<String>>, max_entries: usize) -> (frame: Vec<u8>)
    ensures
        frame@ == telemetry_frame(
            entry_paths(table@),
            value_bytes(values@),
            frame_count(table@.len() as int, max_entries as int),
        ),
        frame@.len() <= UP_BUF_SIZE,
{
    let len = table.len();
    let n = if len < max_entries {
        len
    } else {
        max_entries
    };
    let ghost paths = entry_paths(table@);
    let ghost vals = value_bytes(values@);
    let mut frame: Vec<u8> = Vec::new();
    let mut i: usize = 0;
    while i < n
        invariant
            n <= table@.len(),
            n == frame_count(table@.len() as int, max_entries as int),
            i <= n,
            paths == entry_paths(table@),
            vals == value_bytes(values@),
            frame@ == telemetry_frame(paths, vals, i as int),
            frame@.len() <= 4096,
        decreases n - i,
    {
        if frame.len() + 64 > 4096 || i >= values.len() {
        } else {
            match &values[i] {
                None => {},
                Some(v) => {
                    let e = table.get(i).unwrap();
                    let p = path_as_str(&e.path).as_bytes();
                    let vb = v.as_str().as_bytes();
                    proof {
                        assert(paths[i as int] == p@);
                        assert(vals[i as int] == Some(vb@));
                    }
                    if p.len() <= 4096 && vb.len() <= 4096 && frame.len() + p.len() + 1 + vb.len() + 1 <= 4096 {
                        let ghost before = frame@;
                        frame.extend_from_slice(p);
                        frame.push(0x3D);
                        frame.extend_from_slice(vb);
                        frame.push(0x0A);
                        proof {
                            assert(frame@ =~= before + telemetry_line(p@, vb@));
                        }
                    }
                },
            }
        }
        i = i + 1;
    }
    frame
}

// ─────────────────────────────────────────────────────────────
// Downlink lines
// ─────────────────────────────────────────────────────────────

/// Capacity of the downlink line buffer, in bytes.
pub const DOWN_LINE_SIZE: usize = 128;

/// The UTF-8 bytes a `heapless::String<128>` holds.
pub uninterp spec fn line_bytes(s: heapless::String<128>) -> Seq<u8>;

/// `heapless::String::<128>::new`: an empty string.
#[verifier::external_body]
pub(crate) fn line_new() -> (s: heapless::String<128>)
    ensures
        line_bytes(s) == Seq::<u8>::empty(),
{
    heapless::String::new()
}

/// `heapless::String::<128>::push`: appends the UTF-8 encoding of `c` when
/// it fits in the 128-byte capacity, and nothing otherwise.
#[verifier::external_body]
fn line_push(s: &mut heapless::String<128>, c: char) -> (ok: bool)
    ensures
        ok == (line_bytes(*old(s)).len() + encode_utf8(seq![c]).len() <= 128),
        ok ==> line_bytes(*final(s)) == line_bytes(*old(s)) + encode_utf8(seq![c]),
        !ok ==> line_bytes(*final(s)) == line_bytes(*old(s)),
{
    s.push(c).is_ok()
}

/// `heapless::String::<128>::clear`: empties the string.
#[verifier::external_body]
fn line_clear(s: &mut heapless::String<128>)
    ensures
        line_bytes(*final(s)) == Seq::<u8>::empty(),
{
    s.clear()
}

/// `heapless::String::<128>::as_str`: the held text.
#[verifier::external_body]
pub(crate) fn line_as_str(s: &heapless::String<128>) -> (r: &str)
    ensures
        r.spec_bytes() == line_bytes(*s),
{
    s.as_str()
}

/// One downlink byte applied to the pending line `line`: a newline
/// completes the line (returned, and the line starts over); another byte is
/// taken as the character with that code and appended when the line holds
/// fewer than 128 bytes and the character's encoding fits.
pub open spec fn down_step(line: Seq<u8>, b: u8) -> (Option<Seq<u8>>, Seq<u8>) {
    if b == 0x0Au8 {
        (Some(line), Seq::empty())
    } else if line.len() < 128 {
        let enc = encode_utf8(seq![b as char]);
        (None, if line.len() + enc.len() <= 128 {
            line + enc
        } else {
            line
        })
    } else {
        (None, line)
    }
}

/// Completed lines and the pending line after the bytes `bytes`.
pub open spec fn down_feed(line: Seq<u8>, bytes: Seq<u8>) -> (Seq<Seq<u8>>, Seq<u8>)
    decreases bytes.len(),
{
    if bytes.len() == 0 {
        (Seq::empty(), line)
    } else {
        let (done, pending) = down_feed(line, bytes.drop_last());
        let (out, next) = down_step(pending, bytes.last());
        match out {
            Some(l) => (done.push(l), next),
            None => (done, next),
        }
    }
}

/// Bytes received over several reads give the same lines as the same bytes
/// received at once: lines split across reads are completed once, in order,
/// and what follows the last newline stays pending for the next read.
pub proof fn law_down_feed_split(line: Seq<u8>, a: Seq<u8>, b: Seq<u8>)
    ensures
        down_feed(line, a + b) == ({
            let (d1, p1) = down_feed(line, a);
            let (d2, p2) = down_feed(p1, b);
            (d1 + d2, p2)
        }),
    decreases b.len(),
{
    let (d1, p1) = down_feed(line, a);
    if b.len() == 0 {
        assert(a + b =~= a);
        assert(d1 + Seq::<Seq<u8>>::empty() =~= d1);
    } else {
        law_down_feed_split(line, a, b.drop_last());
        assert((a + b).drop_last() =~= a + b.drop_last());
        assert((a + b).last() == b.last());
        let (d2, p2) = down_feed(p1, b.drop_last());
        let (out, next) = down_step(p2, b.last());
        match out {
            Some(l) => {
                assert((d1 + d2).push(l) =~= d1 + d2.push(l));
            },
            None => {},
        }
    }
}

/// The bytes of several reads, one after the other.
pub open spec fn concat_reads(reads: Seq<Seq<u8>>) -> Seq<u8>
    decreases reads.len(),
{
    if reads.len() == 0 {
        Seq::empty()
    } else {
        concat_reads(reads.drop_last()) + reads.last()
    }
}

/// Completed lines and the pending line after feeding each read in turn,
/// the pending line carried from one read to the next.
pub open spec fn feed_reads(line: Seq<u8>, reads: Seq<Seq<u8>>) -> (Seq<Seq<u8>>, Seq<u8>)
    decreases reads.len(),
{
    if reads.len() == 0 {
        (Seq::empty(), line)
    } else {
        let (done, pending) = feed_reads(line, reads.drop_last());
        let (more, next) = down_feed(pending, reads.last());
        (done + more, next)
    }
}

/// However a byte stream is split into reads, the target completes the
/// same lines, in the same order, and keeps the same pending rest as when
/// the stream arrives in one read.
pub proof fn law_down_feed_reads(line: Seq<u8>, reads: Seq<Seq<u8>>)
    ensures
        feed_reads(line, reads) == down_feed(line, concat_reads(reads)),
    decreases reads.len(),
{
    if reads.len() > 0 {
        law_down_feed_reads(line, reads.drop_last());
        law_down_feed_split(line, concat_reads(reads.drop_last()), reads.last());
    } else {
        assert(down_feed(line, Seq::<u8>::empty()) == (Seq::<Seq<u8>>::empty(), line));
    }
}

/// No line the target assembles, complete or pending, is longer than the
/// 128-byte line buffer.
pub proof fn law_down_lines_bounded(line: Seq<u8>, bytes: Seq<u8>)
    requires
        line.len() <= 128,
    ensures
        ({
            let (done, pending) = down_feed(line, bytes);
            &&& pending.len() <= 128
            &&& forall|k: int| 0 <= k < done.len() ==> (#[trigger] done[k]).len() <= 128
        }),
    decreases bytes.len(),
{
    if bytes.len() > 0 {
        law_down_lines_bounded(line, bytes.drop_last());
    }
}

/// The UTF-8 bytes of strings.
pub open spec fn strings_bytes(v: Seq<String>) -> Seq<Seq<u8>> {
    v.map_values(|s: String| encode_utf8(s@))
}

/// Applies downlink bytes to the pending line; returns the completed lines
/// in order.
pub fn feed_down_bytes(line: &mut heapless::String<128>, bytes: &[u8]) -> (lines: Vec<String>)
    ensures
        (strings_bytes(lines@), line_bytes(*final(line))) == down_feed(line_bytes(*old(line)), bytes@),
{
    let mut lines: Vec<String> = Vec::new();
    let mut i: usize = 0;
    assert(bytes@.take(0) =~= Seq::<u8>::empty());
    while i < bytes.len()
        invariant
            i <= bytes@.len(),
            (strings_bytes(lines@), line_bytes(*line)) == down_feed(line_bytes(*old(line)), bytes@.take(i as int)),
        decreases bytes.len() - i,
    {
        let b = bytes[i];
        proof {
            assert(bytes@.take(i + 1).drop_last() =~= bytes@.take(i as int));
            assert(bytes@.take(i + 1).last() == b);
        }
        let ghost before = line_bytes(*line);
        let len = line_as_str(line).len();
        if b == 0x0A {
            let done = String::from_str(line_as_str(line));
            let ghost old_lines = lines@;
            lines.push(done);
            proof {
                assert(strings_bytes(lines@) =~= strings_bytes(old_lines).push(before));
            }
            line_clear(line);
        } else if len < 128 {
            let _ = line_push(line, b as char);
        }
        i = i + 1;
    }
    assert(bytes@.take(i as int) =~= bytes@);
    lines
}

/// Number of received bytes in a buffer filled up to the first zero byte.
pub fn received_len(buf: &[u8]) -> (n: usize)
    ensures
        n <= buf@.len(),
        forall|j: int| 0 <= j < n ==> buf@[j] != 0,
        n < buf@.len() ==> buf@[n as int] == 0,
{
    let mut i: usize = 0;
    while i < buf.len()
        invariant
            i <= buf@.len(),
            forall|j: int| 0 <= j < i ==> buf@[j] != 0,
        decreases buf.len() - i,
    {
        if buf[i] == 0 {
            return i;
        }
        i = i + 1;
    }
    i
}

// ─────────────────────────────────────────────────────────────
// Commands
// ─────────────────────────────────────────────────────────────

/// The `set ` keyword.
pub open spec fn set_prefix() -> Seq<char> {
    seq!['s', 'e', 't', ' ']
}

/// What a downlink line asks for.
pub enum CmdSpec {
    /// Not a command: nothing is done and nothing answered.
    Ignore,
    /// `set` without a space-separated value.
    NoSeparator,
    /// `set` with an empty path or value.
    EmptyField,
    /// A write of `value` to `path`.
    Write { path: Seq<char>, value: Seq<char> },
}

/// The meaning of a downlink line: after trimming, lines that do not start
/// with `set ` are ignored; the rest splits at its last space into the path
/// (as is) and the value (trimmed).
pub open spec fn parse_cmd(line: Seq<char>) -> CmdSpec {
    let t = trim(line);
    if t.len() == 0 || !has_prefix(t, set_prefix()) {
        CmdSpec::Ignore
    } else {
        let rest = t.skip(4);
        match rest.index_of_last(' ') {
            None => CmdSpec::NoSeparator,
            Some(k) => {
                let path = rest.take(k);
                let value = trim(rest.skip(k + 1));
                if path.len() == 0 || value.len() == 0 {
                    CmdSpec::EmptyField
                } else {
                    CmdSpec::Write { path, value }
                }
            },
        }
    }
}

/// A parsed downlink line.
pub enum Command {
    /// Not a command.
    Ignore,
    /// `set` without a space-separated value.
    NoSeparator,
    /// `set` with an empty path or value.
    EmptyField,
    /// A write of `value` to `path`.
    Write { path: String, value: String },
}

impl View for Command {
    type V = CmdSpec;

    open spec fn view(&self) -> CmdSpec {
        match self {
            Command::Ignore => CmdSpec::Ignore,
            Command::NoSeparator => CmdSpec::NoSeparator,
            Command::EmptyField => CmdSpec::EmptyField,
            Command::Write { path, value } => CmdSpec::Write { path: path@, value: value@ },
        }
    }
}

/// Parses a downlink line (see `parse_cmd`).
pub fn parse_command(line: &str) -> (c: Command)
    ensures
        c@ == parse_cmd(line@),
{
    let v = chars_of(line);
    let (a, b) = trim_bounds(&v);
    let ghost t = trim(line@);
    assert(t == v@.subrange(a as int, b as int));
    if a == b {
        return Command::Ignore;
    }
    if !(b - a >= 4 && v[a] == 's' && v[a + 1] == 'e' && v[a + 2] == 't' && v[a + 3] == ' ') {
        proof {
            if has_prefix(t, set_prefix()) {
                assert(t.take(4)[0] == 's' && t.take(4)[1] == 'e' && t.take(4)[2] == 't' && t.take(4)[3]
                    == ' ');
            }
        }
        return Command::Ignore;
    }
    assert(t.take(4) =~= set_prefix());
    let start = a + 4;
    let ghost rest = t.skip(4);
    assert(rest =~= v@.subrange(start as int, b as int));
    let sep = match find_last(&v, start, b, ' ') {
        None => {
            return Command::NoSeparator;
        },
        Some(k) => k,
    };
    let path = line.substring_char(start, sep);
    let raw_value = line.substring_char(sep + 1, b);
    let vv = chars_of(raw_value);
    let (c, d) = trim_bounds(&vv);
    let value = raw_value.substring_char(c, d);
    proof {
        assert(rest.take(sep - start) =~= path@);
        assert(rest.skip(sep - start + 1) =~= raw_value@);
    }
    if sep == start || c == d {
        proof {
            assert(vv@.subrange(c as int, d as int) =~= trim(raw_value@));
        }
        return Command::EmptyField;
    }
    Command::Write { path: String::from_str(path), value: String::from_str(value) }
}

/// What the target does with a downlink line.
pub enum CmdAction {
    /// Nothing to do and nothing to answer.
    Ignore,
    /// Answer `reply`; nothing is written.
    Reply { reply: String },
    /// Write `value` into entry `index` (at path `path`), then answer with
    /// `write_reply`.
    Write { index: usize, path: String, value: String },
}

/// The answer to a line that asks for a write but is malformed.
pub open spec fn fault_reply(c: CmdSpec) -> Seq<char> {
    match c {
        CmdSpec::NoSeparator => seq!['E', 'R', 'R', ' ', 'p', 'a', 'r', 's', 'e', ':', ' ', 'e', 'x', 'p', 'e', 'c', 't', 'e', 'd', ' ', '\'', 's', 'e', 't', ' ', 'p', 'a', 't', 'h', ' ', 'v', 'a', 'l', 'u', 'e', '\'', '\n'],
        _ => seq!['E', 'R', 'R', ' ', 'p', 'a', 'r', 's', 'e', ':', ' ', 'e', 'm', 'p', 't', 'y', ' ', 'p', 'a', 't', 'h', ' ', 'o', 'r', ' ', 'v', 'a', 'l', 'u', 'e', '\n'],
    }
}

/// The answer to a write of `value` to `path` with outcome `r`.
pub open spec fn reply_text(path: Seq<char>, value: Seq<char>, r: Result<(), WriteError>) -> Seq<char> {
    match r {
        Ok(()) => seq!['O', 'K', ' '] + path + seq!['='] + value + seq!['\n'],
        Err(e) => seq!['E', 'R', 'R', ' '] + path + seq![':', ' '] + reason_text(e) + seq!['\n'],
    }
}

/// `act` is what a downlink line asks of a table with entries `entries`.
pub open spec fn acts_on(line: Seq<char>, entries: Seq<WatchEntry>, act: CmdAction) -> bool {
    match parse_cmd(line) {
        CmdSpec::Ignore => act is Ignore,
        CmdSpec::Write { path, value } => match write_target(entries, encode_utf8(path)) {
            Ok(i) => act matches CmdAction::Write { index, path: p, value: v } && index == i && p@ == path
                && v@ == value,
            Err(e) => act matches CmdAction::Reply { reply } && reply@ == reply_text(path, value, Err(e)),
        },
        fault => act matches CmdAction::Reply { reply } && reply@ == fault_reply(fault),
    }
}

/// The answer the target sends for an action, `parsed` telling whether the
/// entry's parser took the value of a write.
pub open spec fn answer_of(act: CmdAction, parsed: bool) -> Option<Seq<char>> {
    match act {
        CmdAction::Ignore => None,
        CmdAction::Reply { reply } => Some(reply@),
        CmdAction::Write { index, path, value } => Some(
            reply_text(
                path@,
                value@,
                if parsed {
                    Ok(())
                } else {
                    Err(WriteError::ParseError)
                },
            ),
        ),
    }
}

/// The answer to a downlink line, given the table's entries and whether the
/// entry's parser took the value (when the line writes an entry).
pub open spec fn line_answer(line: Seq<char>, entries: Seq<WatchEntry>, parsed: bool) -> Option<Seq<char>> {
    match parse_cmd(line) {
        CmdSpec::Ignore => None,
        CmdSpec::Write { path, value } => match write_target(entries, encode_utf8(path)) {
            Ok(_) => Some(
                reply_text(
                    path,
                    value,
                    if parsed {
                        Ok(())
                    } else {
                        Err(WriteError::ParseError)
                    },
                ),
            ),
            Err(e) => Some(reply_text(path, value, Err(e))),
        },
        fault => Some(fault_reply(fault)),
    }
}

/// The text to send for an action once its write (if any) has run:
/// nothing, the prepared reply, or the write's `OK` / `ERR` answer.
pub fn answer(act: &CmdAction, parsed: bool) -> (r: Option<String>)
    ensures
        match r {
            Some(t) => answer_of(*act, parsed) == Some(t@),
            None => answer_of(*act, parsed) is None,
        },
{
    match act {
        CmdAction::Ignore => None,
        CmdAction::Reply { reply } => Some(reply.clone()),
        CmdAction::Write { index, path, value } => {
            let outcome = write_outcome(Ok(*index), parsed);
            Some(write_reply(path.as_str(), value.as_str(), outcome))
        },
    }
}

/// The RTT task and the UART task answer alike: both take the action of
/// `handle_cmd` and send `answer` of it, so the text sent for a line depends
/// on the line, the table's entries and the parse outcome alone (and both
/// send the frame of `encode_telemetry`, a function of the table and the
/// values alone).
pub proof fn law_answer_determined(line: Seq<char>, entries: Seq<WatchEntry>, act: CmdAction, parsed: bool)
    requires
        acts_on(line, entries, act),
    ensures
        answer_of(act, parsed) == line_answer(line, entries, parsed),
{
}

/// Decides what to do with a downlink line, given the table: ignore it,
/// answer a parse fault, answer a refused write, or write an entry.
pub fn handle_cmd(line: &str, table: &WatchTable) -> (act: CmdAction)
    ensures
        acts_on(line@, table@, act),
{
    match parse_command(line) {
        Command::Ignore => CmdAction::Ignore,
        Command::NoSeparator => {
            proof {
                reveal_strlit("ERR parse: expected 'set path value'\n");
            }
            let reply = String::from_str("ERR parse: expected 'set path value'\n");
            proof {
                assert(reply@ =~= fault_reply(CmdSpec::NoSeparator));
            }
            CmdAction::Reply { reply }
        },
        Command::EmptyField => {
            proof {
                reveal_strlit("ERR parse: empty path or value\n");
            }
            let reply = String::from_str("ERR parse: empty path or value\n");
            proof {
                assert(reply@ =~= fault_reply(CmdSpec::EmptyField));
            }
            CmdAction::Reply { reply }
        },
        Command::Write { path, value } => {
            let ps = path.as_str();
            proof {
                assert(ps.spec_bytes() == encode_utf8(path@));
            }
            match writable_entry(table, ps) {
                Ok(index) => CmdAction::Write { index, path, value },
                Err(e) => {
                    let reply = write_reply(path.as_str(), value.as_str(), Err(e));
                    CmdAction::Reply { reply }
                },
            }
        },
    }
}

/// The answer to a write: `OK <path>=<value>\n` or `ERR <path>: <reason>\n`.
pub fn write_reply(path: &str, value: &str, r: Result<(), WriteError>) -> (s: String)
    ensures
        s@ == reply_text(path@, value@, r),
{
    match r {
        Ok(()) => {
            proof {
                reveal_strlit("OK ");
                reveal_strlit("=");
                reveal_strlit("\n");
            }
            let mut s = String::from_str("OK ");
            s.append(path);
            s.append("=");
            s.append(value);
            s.append("\n");
            proof {
                assert(s@ =~= reply_text(path@, value@, r));
            }
            s
        },
        Err(e) => {
            proof {
                reveal_strlit("ERR ");
                reveal_strlit(": ");
                reveal_strlit("\n");
            }
            let mut s = String::from_str("ERR ");
            s.append(path);
            s.append(": ");
            s.append(e.reason());
            s.append("\n");
            proof {
                assert(s@ =~= reply_text(path@, value@, r));
            }
            s
        },
    }
}

} // verus!
