//! Target side: value kinds, permissions and the text codecs of watched
//! values.
//!
//! Values travel as text. Booleans are written `1` / `0`; integers in
//! decimal, as `{}` formats them and `str::parse` reads them back.

use vstd::prelude::*;

verus! {

broadcast use vstd::string::group_string_axioms;

/// Kind of a watched value; the host picks the editor widget by it.
#[derive(Clone, Copy, Debug, PartialEq, Eq, Structural)]
pub enum WatchValueKind {
    F32,
    F64,
    I8,
    I16,
    I32,
    I64,
    U8,
    U16,
    U32,
    U64,
    Bool,
    /// Fixed-capacity string with the given maximum length in bytes.
    Str(u8),
}

/// Read/write permission of a watched variable.
#[derive(Clone, Copy, Debug, PartialEq, Eq, Structural)]
pub enum Access {
    /// The host may not write.
    ReadOnly,
    /// The host may write.
    ReadWrite,
}

/// The text of a boolean: `1` for true, `0` for false.
pub open spec fn bool_text(val: bool) -> Seq<char> {
    if val {
        seq!['1']
    } else {
        seq!['0']
    }
}

/// The boolean a text denotes: exactly `1` or `0`, nothing else.
pub open spec fn bool_of_text(raw: Seq<char>) -> Option<bool> {
    if raw == seq!['1'] {
        Some(true)
    } else if raw == seq!['0'] {
        Some(false)
    } else {
        None
    }
}

/// Serialises a boolean (read direction).
pub fn bool_read(val: bool) -> (s: String)
    ensures
        s@ == bool_text(val),
{
    if val {
        proof {
            reveal_strlit("1");
        }
        String::from_str("1")
    } else {
        proof {
            reveal_strlit("0");
        }
        String::from_str("0")
    }
}

/// Parses a boolean (write direction): `1` and `0` only.
pub fn bool_write(raw: &str) -> (r: Option<bool>)
    ensures
        r == bool_of_text(raw@),
{
    let n = raw.unicode_len();
    if n != 1 {
        assert(raw@ != seq!['1'] && raw@ != seq!['0']);
        return None;
    }
    let c = raw.get_char(0);
    if c == '1' {
        assert(raw@ =~= seq!['1']);
        Some(true)
    } else if c == '0' {
        assert(raw@ =~= seq!['0']);
        Some(false)
    } else {
        assert(raw@ != seq!['1'] && raw@ != seq!['0']);
        None
    }
}

/// Reading back what was written gives the value again.
pub proof fn law_bool_roundtrip(val: bool)
    ensures
        bool_of_text(bool_text(val)) == Some(val),
{
    assert(seq!['0'][0] != seq!['1'][0]);
}


/// The decimal digit character of `d`.
pub open spec fn digit_char(d: int) -> char {
    ((d + 48) as u32) as char
}

/// The decimal numeral of `n`, without leading zeros.
pub open spec fn decimal(n: nat) -> Seq<char>
    decreases n,
{
    if n < 10 {
        seq![digit_char(n as int)]
    } else {
        decimal(n / 10).push(digit_char((n % 10) as int))
    }
}

/// The text of an integer, as `{}` formats it.
pub open spec fn int_text(v: int) -> Seq<char> {
    if v < 0 {
        seq!['-'] + decimal((-v) as nat)
    } else {
        decimal(v as nat)
    }
}

/// `c` is an ASCII decimal digit.
pub open spec fn is_digit(c: char) -> bool {
    '0' <= c <= '9'
}

/// Value of a string of decimal digits.
pub open spec fn digits_value(ds: Seq<char>) -> int
    decreases ds.len(),
{
    if ds.len() == 0 {
        0
    } else {
        digits_value(ds.drop_last()) * 10 + (ds.last() as int - 48)
    }
}

/// The digits of an integer text: what follows a leading `+`, or a leading
/// `-` when `signed`.
pub open spec fn int_digits(s: Seq<char>, signed: bool) -> Seq<char> {
    if s[0] == '+' || (s[0] == '-' && signed) {
        s.drop_first()
    } else {
        s
    }
}

/// The integer `str::parse` reads from `s` for a type with range
/// `lo..=hi` (`signed` when it takes a minus sign): an optional sign, then
/// one or more ASCII digits, with a value in range; `None` otherwise.
pub open spec fn parse_int(s: Seq<char>, signed: bool, lo: int, hi: int) -> Option<int> {
    if s.len() == 0 {
        None
    } else if (s[0] == '+' || s[0] == '-') && s.len() == 1 {
        None
    } else {
        let neg = s[0] == '-' && signed;
        let ds = int_digits(s, signed);
        if forall|i: int| 0 <= i < ds.len() ==> is_digit(#[trigger] ds[i]) {
            let v = if neg {
                -digits_value(ds)
            } else {
                digits_value(ds)
            };
            if lo <= v <= hi {
                Some(v)
            } else {
                None
            }
        } else {
            None
        }
    }
}

/// The one-character text of digit `d`.
fn digit_text(d: u8) -> (s: &'static str)
    requires
        d < 10,
    ensures
        s@ == seq![digit_char(d as int)],
{
    proof {
        reveal_strlit("0");
        reveal_strlit("1");
        reveal_strlit("2");
        reveal_strlit("3");
        reveal_strlit("4");
        reveal_strlit("5");
        reveal_strlit("6");
        reveal_strlit("7");
        reveal_strlit("8");
        reveal_strlit("9");
    }
    match d {
        0 => "0",
        1 => "1",
        2 => "2",
        3 => "3",
        4 => "4",
        5 => "5",
        6 => "6",
        7 => "7",
        8 => "8",
        _ => "9",
    }
}

/// `decimal` of a number with one more low digit.
proof fn lemma_decimal_step(n: nat)
    requires
        n >= 10,
    ensures
        decimal(n) == decimal(n / 10).push(digit_char((n % 10) as int)),
{
}

/// Formats a non-negative number in decimal.
fn format_natural(n: u128) -> (s: String)
    ensures
        s@ == decimal(n as nat),
{
    // Digits from least to most significant.
    let mut digits: Vec<u8> = Vec::new();
    let mut m = n;
    let ghost mut tail: Seq<char> = Seq::empty();
    while m >= 10
        invariant
            decimal(n as nat) == decimal(m as nat) + tail,
            digits@.len() == tail.len(),
            forall|k: int| 0 <= k < digits@.len() ==> #[trigger] digits@[k] < 10 && tail[tail.len() - 1 - k]
                == digit_char(digits@[k] as int),
        decreases m,
    {
        let d = (m % 10) as u8;
        proof {
            lemma_decimal_step(m as nat);
            let t2 = seq![digit_char(d as int)] + tail;
            assert(decimal(m as nat) + tail =~= decimal((m / 10) as nat) + t2);
            assert forall|k: int| 0 <= k < digits@.push(d).len() implies #[trigger] digits@.push(d)[k] < 10
                && t2[t2.len() - 1 - k] == digit_char(digits@.push(d)[k] as int) by {
                if k < digits@.len() {
                    assert(t2[t2.len() - 1 - k] == tail[tail.len() - 1 - k]);
                }
            }
            tail = t2;
        }
        digits.push(d);
        m = m / 10;
    }
    let mut s = String::from_str(digit_text(m as u8));
    let mut i = digits.len();
    proof {
        assert(decimal(m as nat) == seq![digit_char(m as int)]);
    }
    while i > 0
        invariant
            i <= digits@.len(),
            digits@.len() == tail.len(),
            forall|k: int| 0 <= k < digits@.len() ==> #[trigger] digits@[k] < 10 && tail[tail.len() - 1 - k]
                == digit_char(digits@[k] as int),
            decimal(n as nat) == decimal(m as nat) + tail,
            s@ + tail.subrange(tail.len() - i, tail.len() as int) == decimal(n as nat),
        decreases i,
    {
        let d = digits[i - 1];
        let ghost before = s@;
        s.append(digit_text(d));
        proof {
            let j = tail.len() - i;
            assert(tail[j] == digit_char(d as int));
            assert(seq![tail[j]] + tail.subrange(j + 1, tail.len() as int) =~= tail.subrange(j, tail.len() as int));
        }
        i = i - 1;
    }
    proof {
        assert(tail.subrange(tail.len() as int, tail.len() as int) =~= Seq::<char>::empty());
        assert(s@ + Seq::<char>::empty() =~= s@);
    }
    s
}

/// Formats an integer in decimal, as `{}` does.
pub fn format_integer(v: i128) -> (s: String)
    requires
        v > i128::MIN,
    ensures
        s@ == int_text(v as int),
{
    if v < 0 {
        proof {
            reveal_strlit("-");
        }
        let mut s = String::from_str("-");
        let digits = format_natural((-v) as u128);
        s.append(digits.as_str());
        s
    } else {
        format_natural(v as u128)
    }
}

/// Parses an integer of range `lo..=hi` as `str::parse` does (see
/// `parse_int`).
pub fn parse_integer(raw: &str, signed: bool, lo: i128, hi: i128) -> (r: Option<i128>)
    requires
        -0x1_0000_0000_0000_0000 <= lo <= hi <= 0x1_0000_0000_0000_0000,
    ensures
        match r {
            Some(v) => parse_int(raw@, signed, lo as int, hi as int) == Some(v as int),
            None => parse_int(raw@, signed, lo as int, hi as int) is None,
        },
{
    let s = crate::text::chars_of(raw);
    if s.len() == 0 {
        return None;
    }
    if (s[0] == '+' || s[0] == '-') && s.len() == 1 {
        return None;
    }
    let neg = s[0] == '-' && signed;
    let start: usize = if s[0] == '+' || neg {
        1
    } else {
        0
    };
    let ghost ds = int_digits(raw@, signed);
    assert(ds =~= s@.subrange(start as int, s@.len() as int));
    // Magnitudes above the bound are only tracked as "too large".
    let bound: i128 = 0x1_0000_0000_0000_0001;
    let mut acc: i128 = 0;
    let mut big = false;
    let mut i = start;
    while i < s.len()
        invariant
            start <= i <= s@.len(),
            s@ == raw@,
            bound == 0x1_0000_0000_0000_0001,
            ds == int_digits(raw@, signed),
            ds == s@.subrange(start as int, s@.len() as int),
            forall|k: int| 0 <= k < i - start ==> is_digit(#[trigger] ds[k]),
            !big ==> acc == digits_value(ds.take(i - start)),
            big ==> digits_value(ds.take(i - start)) >= bound,
            0 <= acc <= bound,
        decreases s.len() - i,
    {
        let c = s[i];
        if !('0' <= c && c <= '9') {
            proof {
                assert(!is_digit(ds[i - start]));
            }
            return None;
        }
        let d = (c as u32 - 48) as i128;
        proof {
            let t = ds.take(i - start + 1);
            assert(t.drop_last() =~= ds.take(i - start));
            assert(t.last() == c);
            assert(digits_value(t) == digits_value(ds.take(i - start)) * 10 + d);
            assert forall|k: int| 0 <= k < i + 1 - start implies is_digit(#[trigger] ds[k]) by {
                if k == i - start {
                    assert(ds[k] == c);
                }
            }
        }
        if !big {
            if acc > (bound - d) / 10 {
                big = true;
                assert(acc * 10 + d >= bound) by (nonlinear_arith)
                    requires
                        acc > (bound - d) / 10,
                        0 <= d < 10,
                        bound > 10,
                ;
            } else {
                assert(acc * 10 + d <= bound) by (nonlinear_arith)
                    requires
                        acc <= (bound - d) / 10,
                        0 <= d < 10,
                        bound > 10,
                        acc >= 0,
                ;
                acc = acc * 10 + d;
            }
        } else {
            proof {
                let t = ds.take(i - start);
                assert(digits_value(t) * 10 + d >= bound) by (nonlinear_arith)
                    requires
                        digits_value(t) >= bound,
                        0 <= d < 10,
                        bound > 0,
                ;
            }
        }
        i = i + 1;
    }
    proof {
        assert(ds.take(i - start) =~= ds);
    }
    if big {
        return None;
    }
    let v = if neg {
        -acc
    } else {
        acc
    };
    if lo <= v && v <= hi {
        Some(v)
    } else {
        None
    }
}

/// `decimal(n)` is all digits and denotes `n`.
proof fn lemma_decimal_value(n: nat)
    ensures
        digits_value(decimal(n)) == n,
        forall|i: int| 0 <= i < decimal(n).len() ==> is_digit(#[trigger] decimal(n)[i]),
        decimal(n).len() >= 1,
    decreases n,
{
    if n >= 10 {
        lemma_decimal_value(n / 10);
        let d = decimal(n);
        assert(d.drop_last() =~= decimal(n / 10));
        assert(d.last() as int == n % 10 + 48);
        assert(digits_value(d) == digits_value(decimal(n / 10)) * 10 + (n % 10));
        assert((n / 10) * 10 + n % 10 == n);
        assert forall|i: int| 0 <= i < d.len() implies is_digit(#[trigger] d[i]) by {
            if i < d.len() - 1 {
                assert(d[i] == decimal(n / 10)[i]);
            }
        }
    } else {
        assert(digit_char(n as int) as int == n + 48);
        assert(seq![digit_char(n as int)].drop_last() =~= Seq::<char>::empty());
        assert(digits_value(Seq::<char>::empty()) == 0);
    }
}

/// Reading back the text of an integer gives the integer again, for every
/// integer the type holds.
pub proof fn law_int_roundtrip(v: int, signed: bool, lo: int, hi: int)
    requires
        lo <= v <= hi,
        !signed ==> v >= 0,
    ensures
        parse_int(int_text(v), signed, lo, hi) == Some(v),
{
    if v < 0 {
        let n = (-v) as nat;
        lemma_decimal_value(n);
        let s = int_text(v);
        assert(s.drop_first() =~= decimal(n));
    } else {
        lemma_decimal_value(v as nat);
        let s = decimal(v as nat);
        assert(is_digit(s[0]));
    }
}

} // verus!
