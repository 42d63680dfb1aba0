//! Laws that span both ends of the link: what one end sends is what the
//! other end reads.

use vstd::prelude::*;
use vstd::utf8::{encode_utf8, encode_utf8_decode_utf8, is_ascii_chars, is_ascii_chars_encode_utf8};

use crate::text::{
    has_prefix, is_white_space, lemma_first_index, lemma_last_index, lemma_no_index, split_on, trim,
    trim_end, trim_start,
};
use crate::watch_state::{err_prefix, ok_prefix, parse_line, write_cmd, Access, WatchStateView};
use crate::watch_table::{reason_text, WriteError};
use crate::watch_task::{
    concat_reads, down_feed, down_step, fault_reply, feed_reads, law_down_feed_reads, parse_cmd, reply_text, set_prefix,
    CmdSpec,
};

verus! {

/// A text with no white space at either end is its own trim.
pub proof fn lemma_trim_noop(s: Seq<char>)
    requires
        s.len() > 0,
        !is_white_space(s[0]),
        !is_white_space(s.last()),
    ensures
        trim(s) == s,
{
    assert(trim_start(s) == s);
    assert(trim_end(s) == s);
}

/// A text with no `sep` and one `sep` appended splits into the text and an
/// empty rest.
pub proof fn lemma_split_terminated(s: Seq<char>, sep: char)
    requires
        !s.contains(sep),
    ensures
        split_on(s.push(sep), sep) == seq![s, Seq::<char>::empty()],
{
    let t = s.push(sep);
    lemma_first_index(t, sep, s.len() as int);
    assert(t.take(s.len() as int) =~= s);
    assert(t.skip(s.len() as int + 1) =~= Seq::<char>::empty());
    lemma_no_index(Seq::<char>::empty(), sep);
    assert(split_on(Seq::<char>::empty(), sep) == seq![Seq::<char>::empty()]);
    assert(seq![s] + seq![Seq::<char>::empty()] =~= seq![s, Seq::<char>::empty()]);
}

/// Downlink bytes with no newline, all ASCII and at most 128 of them, are
/// gathered into the pending line unchanged.
proof fn lemma_down_feed_plain(bytes: Seq<u8>)
    requires
        bytes.len() <= 128,
        forall|j: int| 0 <= j < bytes.len() ==> bytes[j] != 0x0Au8 && bytes[j] < 0x80u8,
    ensures
        down_feed(Seq::empty(), bytes) == (Seq::<Seq<u8>>::empty(), bytes),
    decreases bytes.len(),
{
    if bytes.len() > 0 {
        let pre = bytes.drop_last();
        lemma_down_feed_plain(pre);
        let b = bytes.last();
        let c = b as char;
        assert(is_ascii_chars(seq![c]));
        is_ascii_chars_encode_utf8(seq![c]);
        assert(encode_utf8(seq![c]) =~= seq![b]);
        assert(down_step(pre, b) == (None::<Seq<u8>>, pre + seq![b]));
        assert(pre + seq![b] =~= bytes);
    }
}

/// The first `128` bytes of `bytes` (all of them when there are fewer).
pub open spec fn line_cut(bytes: Seq<u8>) -> Seq<u8> {
    if bytes.len() < 128 {
        bytes
    } else {
        bytes.take(128)
    }
}

/// ASCII bytes without a newline, fed into an empty line buffer, leave
/// their first 128 bytes pending; the rest is dropped.
pub proof fn law_down_ascii_cut(bytes: Seq<u8>)
    requires
        forall|j: int| 0 <= j < bytes.len() ==> bytes[j] != 0x0Au8 && bytes[j] < 0x80u8,
    ensures
        down_feed(Seq::empty(), bytes) == (Seq::<Seq<u8>>::empty(), line_cut(bytes)),
    decreases bytes.len(),
{
    if bytes.len() > 0 {
        let pre = bytes.drop_last();
        law_down_ascii_cut(pre);
        let b = bytes.last();
        let c = b as char;
        assert(is_ascii_chars(seq![c]));
        is_ascii_chars_encode_utf8(seq![c]);
        assert(encode_utf8(seq![c]) =~= seq![b]);
        if pre.len() < 128 {
            assert(pre + seq![b] =~= bytes);
        } else {
            assert(pre.take(128) =~= bytes.take(128));
        }
    }
}

/// The pieces of `bytes` between newlines, in order (the last one is what
/// follows the last newline, possibly empty).
pub open spec fn byte_lines(bytes: Seq<u8>) -> Seq<Seq<u8>>
    decreases bytes.len(),
{
    if bytes.len() == 0 {
        seq![Seq::empty()]
    } else {
        let pieces = byte_lines(bytes.drop_last());
        if bytes.last() == 0x0Au8 {
            pieces.push(Seq::empty())
        } else {
            pieces.update(pieces.len() - 1, pieces.last().push(bytes.last()))
        }
    }
}

/// The pieces of a stream always number at least one.
proof fn lemma_byte_lines_len(bytes: Seq<u8>)
    ensures
        byte_lines(bytes).len() >= 1,
    decreases bytes.len(),
{
    if bytes.len() > 0 {
        lemma_byte_lines_len(bytes.drop_last());
    }
}

/// Downlink over an ASCII stream: every newline-terminated line of the
/// stream is completed once, in order, cut to its first 128 bytes, and what
/// follows the last newline stays pending, cut the same way.
pub proof fn law_down_ascii_stream(bytes: Seq<u8>)
    requires
        forall|j: int| 0 <= j < bytes.len() ==> bytes[j] < 0x80u8,
    ensures
        ({
            let pieces = byte_lines(bytes);
            &&& pieces.len() >= 1
            &&& down_feed(Seq::empty(), bytes) == (pieces.drop_last().map_values(|l: Seq<u8>| line_cut(l)), line_cut(
                pieces.last(),
            ))
        }),
    decreases bytes.len(),
{
    lemma_byte_lines_len(bytes);
    if bytes.len() == 0 {
        assert(seq![Seq::<u8>::empty()].drop_last() =~= Seq::<Seq<u8>>::empty());
        assert(Seq::<Seq<u8>>::empty().map_values(|l: Seq<u8>| line_cut(l)) =~= Seq::<Seq<u8>>::empty());
    } else {
        let pre = bytes.drop_last();
        let b = bytes.last();
        law_down_ascii_stream(pre);
        lemma_byte_lines_len(pre);
        let ps = byte_lines(pre);
        let pending = line_cut(ps.last());
        let done = ps.drop_last().map_values(|l: Seq<u8>| line_cut(l));
        let ps2 = byte_lines(bytes);
        if b == 0x0Au8 {
            assert(ps2 == ps.push(Seq::<u8>::empty()));
            assert(ps2.drop_last() =~= ps);
            assert(ps.drop_last().map_values(|l: Seq<u8>| line_cut(l)).push(line_cut(ps.last())) =~= ps.map_values(
                |l: Seq<u8>| line_cut(l),
            ));
        } else {
            let c = b as char;
            assert(is_ascii_chars(seq![c]));
            is_ascii_chars_encode_utf8(seq![c]);
            assert(encode_utf8(seq![c]) =~= seq![b]);
            let last = ps.last();
            assert(ps2 == ps.update(ps.len() - 1, last.push(b)));
            assert(ps2.drop_last() =~= ps.drop_last());
            assert(ps2.last() == last.push(b));
            if last.len() < 128 {
                assert(pending == last);
                assert(line_cut(last.push(b)) == last.push(b));
            } else {
                assert(pending == last.take(128));
                assert(last.push(b).take(128) =~= last.take(128));
            }
        }
    }
}

/// Downlink over successive reads: whatever reads an ASCII stream arrives
/// in, each of its newline-terminated lines is completed once, in order, cut
/// to its first 128 bytes, even when it spans several reads; what follows
/// the last newline stays pending for later reads.
pub proof fn law_down_ascii_reads(reads: Seq<Seq<u8>>)
    requires
        forall|j: int| 0 <= j < concat_reads(reads).len() ==> concat_reads(reads)[j] < 0x80u8,
    ensures
        ({
            let pieces = byte_lines(concat_reads(reads));
            feed_reads(Seq::empty(), reads) == (pieces.drop_last().map_values(|l: Seq<u8>| line_cut(l)), line_cut(
                pieces.last(),
            ))
        }),
{
    law_down_feed_reads(Seq::empty(), reads);
    law_down_ascii_stream(concat_reads(reads));
}

/// An ASCII command line sent as one newline-terminated piece reaches the
/// command handler as its first 128 bytes, and nothing stays pending.
pub proof fn law_down_ascii_line(bytes: Seq<u8>)
    requires
        forall|j: int| 0 <= j < bytes.len() ==> bytes[j] != 0x0Au8 && bytes[j] < 0x80u8,
    ensures
        down_feed(Seq::empty(), bytes.push(0x0Au8)) == (seq![line_cut(bytes)], Seq::<u8>::empty()),
{
    law_down_ascii_cut(bytes);
    assert(bytes.push(0x0Au8).drop_last() =~= bytes);
    assert(Seq::<Seq<u8>>::empty().push(line_cut(bytes)) =~= seq![line_cut(bytes)]);
}

/// Downlink round trip: the frame the host encodes for a write, fed byte
/// by byte into an empty line buffer on the target, yields exactly one line,
/// and that line parses as a write of the same value to the same path.
///
/// This holds for ASCII paths and values without newlines, a value without
/// spaces and without white space at its ends, both non-empty, and a frame
/// line of at most 128 bytes.
pub proof fn law_write_command_roundtrip(path: Seq<char>, value: Seq<char>)
    requires
        is_ascii_chars(path),
        is_ascii_chars(value),
        path.len() > 0,
        value.len() > 0,
        !path.contains('\n'),
        !value.contains('\n'),
        !value.contains(' '),
        !is_white_space(value[0]),
        !is_white_space(value.last()),
        path.len() + value.len() + 5 <= 128,
    ensures
        ({
            let (lines, pending) = down_feed(Seq::empty(), encode_utf8(write_cmd(path, value)));
            &&& lines.len() == 1
            &&& pending.len() == 0
            &&& forall|s: Seq<char>|
                encode_utf8(s) == lines[0] ==> parse_cmd(s) == (CmdSpec::Write { path, value })
        }),
{
    let line = set_prefix() + path + seq![' '] + value;
    let frame = write_cmd(path, value);
    assert(frame =~= line.push('\n'));
    assert(is_ascii_chars(line)) by {
        assert forall|i: int| 0 <= i < line.len() implies '\0' <= #[trigger] line[i] <= '\u{7f}' by {
            if i < 4 {
            } else if i < 4 + path.len() {
                assert(line[i] == path[i - 4]);
            } else if i == 4 + path.len() {
            } else {
                assert(line[i] == value[i - 5 - path.len()]);
            }
        }
    }
    assert(is_ascii_chars(frame)) by {
        assert forall|i: int| 0 <= i < frame.len() implies '\0' <= #[trigger] frame[i] <= '\u{7f}' by {
            if i < line.len() {
                assert(frame[i] == line[i]);
            }
        }
    }
    is_ascii_chars_encode_utf8(line);
    is_ascii_chars_encode_utf8(frame);
    let lb = encode_utf8(line);
    let fb = encode_utf8(frame);
    assert(fb.drop_last() =~= lb) by {
        assert forall|i: int| 0 <= i < lb.len() implies fb[i] == lb[i] by {
            assert(frame[i] == line[i]);
        }
    }
    assert(fb.last() == 0x0Au8);
    assert forall|j: int| 0 <= j < lb.len() implies lb[j] != 0x0Au8 && lb[j] < 0x80u8 by {
        assert(line[j] as u8 == lb[j]);
        if j >= 4 && j < 4 + path.len() {
            assert(line[j] == path[j - 4]);
            if line[j] == '\n' {
                assert(path.contains('\n'));
            }
        } else if j > 4 + path.len() {
            assert(line[j] == value[j - 5 - path.len()]);
            if line[j] == '\n' {
                assert(value.contains('\n'));
            }
        }
    }
    lemma_down_feed_plain(lb);
    assert(down_feed(Seq::empty(), fb) == (seq![lb], Seq::<u8>::empty()));
    // The gathered line decodes to `line`, which parses as the write.
    encode_utf8_decode_utf8(line);
    assert forall|s: Seq<char>| encode_utf8(s) == lb implies parse_cmd(s) == (CmdSpec::Write { path, value }) by {
        encode_utf8_decode_utf8(s);
        assert(s == line);
        lemma_parse_set_line(path, value);
    }
}

/// The line `set <path> <value>` parses as the write.
proof fn lemma_parse_set_line(path: Seq<char>, value: Seq<char>)
    requires
        path.len() > 0,
        value.len() > 0,
        !value.contains(' '),
        !is_white_space(value[0]),
        !is_white_space(value.last()),
    ensures
        parse_cmd(set_prefix() + path + seq![' '] + value) == (CmdSpec::Write { path, value }),
{
    let line = set_prefix() + path + seq![' '] + value;
    assert(line.last() == value.last());
    lemma_trim_noop(line);
    assert(line.take(4) =~= set_prefix());
    let rest = line.skip(4);
    assert(rest =~= path + seq![' '] + value);
    assert forall|j: int| path.len() < j < rest.len() implies rest[j] != ' ' by {
        assert(rest[j] == value[j - path.len() - 1]);
        if rest[j] == ' ' {
            assert(value.contains(' '));
        }
    }
    lemma_last_index(rest, ' ', path.len() as int);
    assert(rest.take(path.len() as int) =~= path);
    assert(rest.skip(path.len() as int + 1) =~= value);
    lemma_trim_noop(value);
}

/// Uplink round trip: the line the target sends for an entry, received by
/// the host, is applied as a read/write update of the same path with the
/// same value, and leaves nothing pending.
///
/// This holds for paths without `=`, texts without newlines or commas, a
/// path that starts with no white space and a value that ends with none,
/// and a line that is not a feedback line.
pub proof fn law_telemetry_roundtrip(st: WatchStateView, path: Seq<char>, value: Seq<char>)
    requires
        path.len() > 0,
        !path.contains('='),
        !path.contains('\n'),
        !value.contains('\n'),
        !path.contains(','),
        !value.contains(','),
        !is_white_space(path[0]),
        value.len() == 0 || !is_white_space(value.last()),
        !has_prefix(path + seq!['='] + value, ok_prefix()),
        !has_prefix(path + seq!['='] + value, err_prefix()),
    ensures
        ({
            let pieces = split_on(path + seq!['='] + value + seq!['\n'], '\n');
            &&& pieces.last() == Seq::<char>::empty()
            &&& st.handle_lines(pieces.drop_last()) == st.upsert(path, value, Access::ReadWrite)
        }),
{
    let line = path + seq!['='] + value;
    assert(!line.contains('\n')) by {
        if line.contains('\n') {
            let i = choose|i: int| 0 <= i < line.len() && line[i] == '\n';
            if i < path.len() {
                assert(path[i] == '\n');
            } else if i > path.len() {
                assert(value[i - path.len() - 1] == '\n');
            }
        }
    }
    assert(line + seq!['\n'] =~= line.push('\n'));
    lemma_split_terminated(line, '\n');
    let pieces = split_on(line.push('\n'), '\n');
    assert(pieces.drop_last() =~= seq![line]);
    assert(seq![line].drop_last() =~= Seq::<Seq<char>>::empty());
    // The line parses as the update.
    if value.len() == 0 {
        assert(line.last() == '=');
    } else {
        assert(line.last() == value.last());
    }
    assert(line[0] == path[0]);
    lemma_trim_noop(line);
    assert(!line.contains(',')) by {
        if line.contains(',') {
            let i = choose|i: int| 0 <= i < line.len() && line[i] == ',';
            if i < path.len() {
                assert(path[i] == ',');
            } else if i > path.len() {
                assert(value[i - path.len() - 1] == ',');
            }
        }
    }
    line.index_of_last_ensures(',');
    assert forall|j: int| 0 <= j < path.len() implies line[j] != '=' by {
        assert(line[j] == path[j]);
        if line[j] == '=' {
            assert(path.contains('='));
        }
    }
    lemma_first_index(line, '=', path.len() as int);
    assert(line.take(path.len() as int) =~= path);
    assert(line.skip(path.len() as int + 1) =~= value);
    assert(parse_line(line) == Some((path, value, Access::ReadWrite)));
    assert(seq![line].last() == line);
    assert(st.handle_lines(Seq::<Seq<char>>::empty()) == st);
    assert(st.handle_lines(seq![line]) == st.handle_line(line));
    assert(path + seq!['='] + value + seq!['\n'] == line.push('\n'));
}


/// Trimming the end of a text keeps every prefix that ends in a character
/// other than white space.
proof fn lemma_trim_end_keeps(s: Seq<char>, n: int)
    requires
        0 < n <= s.len(),
        !is_white_space(s[n - 1]),
    ensures
        n <= trim_end(s).len(),
        trim_end(s).take(n) == s.take(n),
    decreases s.len(),
{
    if is_white_space(s.last()) {
        let d = s.drop_last();
        assert(n - 1 != s.len() - 1);
        assert(d[n - 1] == s[n - 1]);
        lemma_trim_end_keeps(d, n);
        assert(d.take(n) =~= s.take(n));
    }
}

/// A line that starts with `p`, where `p` starts with a character other
/// than white space and the line has such a character at position `n - 1`
/// past `p`, still starts with `p` once trimmed.
proof fn lemma_trim_keeps_prefix(line: Seq<char>, p: Seq<char>, n: int)
    requires
        0 < p.len() <= n <= line.len(),
        line.take(p.len() as int) == p,
        !is_white_space(p[0]),
        !is_white_space(line[n - 1]),
    ensures
        has_prefix(trim(line), p),
{
    assert(line[0] == p[0]);
    assert(trim_start(line) == line);
    lemma_trim_end_keeps(line, n);
    let t = trim(line);
    assert(t.take(p.len() as int) =~= t.take(n).take(p.len() as int));
    assert(line.take(p.len() as int) =~= line.take(n).take(p.len() as int));
}

/// A line with no newline, terminated by one, is read by the host as that
/// single line, which changes nothing when it is a feedback line.
proof fn lemma_single_feedback_line(st: WatchStateView, line: Seq<char>)
    requires
        !line.contains('\n'),
        has_prefix(trim(line), ok_prefix()) || has_prefix(trim(line), err_prefix()),
    ensures
        ({
            let pieces = split_on(line.push('\n'), '\n');
            &&& pieces.last() == Seq::<char>::empty()
            &&& st.handle_lines(pieces.drop_last()) == st
        }),
{
    lemma_split_terminated(line, '\n');
    let pieces = split_on(line.push('\n'), '\n');
    assert(pieces.drop_last() =~= seq![line]);
    assert(seq![line].drop_last() =~= Seq::<Seq<char>>::empty());
    assert(seq![line].last() == line);
    assert(st.handle_lines(Seq::<Seq<char>>::empty()) == st);
    assert(st.handle_lines(seq![line]) == st.handle_line(line));
}

/// Neither a reason text nor white space holds a newline.
proof fn lemma_reason_plain(e: WriteError)
    ensures
        !reason_text(e).contains('\n'),
        reason_text(e).len() > 0,
        !is_white_space(reason_text(e).last()),
{
    let r = reason_text(e);
    assert forall|i: int| 0 <= i < r.len() implies r[i] != '\n' by {
        match e {
            WriteError::NotFound => {},
            WriteError::ReadOnly => {},
            WriteError::ParseError => {},
        }
    }
}

/// Feedback is not telemetry: the answer the target sends to a write,
/// accepted or refused, is read by the host as one line that leaves its
/// state unchanged (for a path and a value without newlines).
pub proof fn law_reply_ignored(
    st: WatchStateView,
    path: Seq<char>,
    value: Seq<char>,
    r: Result<(), WriteError>,
)
    requires
        !path.contains('\n'),
        !value.contains('\n'),
    ensures
        ({
            let pieces = split_on(reply_text(path, value, r), '\n');
            &&& pieces.last() == Seq::<char>::empty()
            &&& st.handle_lines(pieces.drop_last()) == st
        }),
{
    match r {
        Ok(()) => {
            let line = seq!['O', 'K', ' '] + path + seq!['='] + value;
            assert(reply_text(path, value, r) =~= line.push('\n'));
            assert(!line.contains('\n')) by {
                if line.contains('\n') {
                    let i = choose|i: int| 0 <= i < line.len() && line[i] == '\n';
                    if 3 <= i < 3 + path.len() {
                        assert(path[i - 3] == '\n');
                    } else if i > 3 + path.len() {
                        assert(value[i - 4 - path.len()] == '\n');
                    }
                }
            }
            let n: int = 4 + path.len() as int;
            assert(line[n - 1] == '=');
            assert(line.take(3) =~= ok_prefix());
            lemma_trim_keeps_prefix(line, ok_prefix(), n);
            lemma_single_feedback_line(st, line);
        },
        Err(e) => {
            lemma_reason_plain(e);
            let why = reason_text(e);
            let line = seq!['E', 'R', 'R', ' '] + path + seq![':', ' '] + why;
            assert(reply_text(path, value, r) =~= line.push('\n'));
            assert(!line.contains('\n')) by {
                if line.contains('\n') {
                    let i = choose|i: int| 0 <= i < line.len() && line[i] == '\n';
                    if 4 <= i < 4 + path.len() {
                        assert(path[i - 4] == '\n');
                    } else if i >= 6 + path.len() {
                        assert(why[i - 6 - path.len()] == '\n');
                    }
                }
            }
            let n: int = 5 + path.len() as int;
            assert(line[n - 1] == ':');
            assert(line.take(4) =~= err_prefix());
            lemma_trim_keeps_prefix(line, err_prefix(), n);
            lemma_single_feedback_line(st, line);
        },
    }
}

/// The answer to a malformed write command is feedback too: the host
/// ignores it.
pub proof fn law_fault_reply_ignored(st: WatchStateView, c: CmdSpec)
    requires
        c is NoSeparator || c is EmptyField,
    ensures
        ({
            let pieces = split_on(fault_reply(c), '\n');
            &&& pieces.last() == Seq::<char>::empty()
            &&& st.handle_lines(pieces.drop_last()) == st
        }),
{
    let all = fault_reply(c);
    let line = all.drop_last();
    assert(all =~= line.push('\n'));
    assert forall|i: int| 0 <= i < line.len() implies line[i] != '\n' by {
        if c is NoSeparator {
        } else {
        }
    }
    assert(line.take(4) =~= err_prefix());
    lemma_trim_keeps_prefix(line, err_prefix(), 5);
    lemma_single_feedback_line(st, line);
}

} // verus!
