//! The grammar of filter expressions, over the tokens of `lexer`.
//!
//! `or` binds looser than `and`, which may be written, `&&`, or left out between
//! two terms; `not`/`!` and parentheses nest at most 128 deep.
use crate::archive::Event;
use crate::filter::{Compare, Expr, FilterError, Field, Formula, Predicate, Truth, eval, well_formed};
use crate::lexer::{Tok, Token, slice_chars, toks_of};
use vstd::prelude::*;
use vstd::string::*;
use vstd::utf8::*;

verus! {

/// The result of parsing one term: its formula and the position after it.
pub type Parsed = Result<(Formula, int), FilterError>;

/// The result of parsing a list of terms.
pub type ParsedList = Result<(Seq<Formula>, int), FilterError>;

/// Whether the token at `at` has exactly the text `w` (quoted or not).
pub open spec fn at_kw(toks: Seq<Tok>, at: int, w: Seq<char>) -> bool {
    0 <= at < toks.len() && toks[at].0 == w
}

// ---------------------------------------------------------------------------
// Numbers, durations and byte patterns

pub open spec fn dec_digit(c: char) -> Option<nat> {
    if '0' <= c && c <= '9' {
        Some((c as int - '0' as int) as nat)
    } else {
        None
    }
}

pub open spec fn hex_digit(c: char) -> Option<nat> {
    if '0' <= c && c <= '9' {
        Some((c as int - '0' as int) as nat)
    } else if 'a' <= c && c <= 'f' {
        Some((c as int - 'a' as int + 10) as nat)
    } else if 'A' <= c && c <= 'F' {
        Some((c as int - 'A' as int + 10) as nat)
    } else {
        None
    }
}

/// The digit a character stands for in base 16 (`hex`) or 10.
pub open spec fn digit(c: char, hex: bool) -> Option<nat> {
    if hex {
        hex_digit(c)
    } else {
        dec_digit(c)
    }
}

pub open spec fn radix(hex: bool) -> nat {
    if hex {
        16
    } else {
        10
    }
}

pub open spec fn all_digits(s: Seq<char>, hex: bool) -> bool {
    forall|i: int| 0 <= i < s.len() ==> (#[trigger] digit(s[i], hex)) is Some
}

/// The value of a string of digits, most significant first.
pub open spec fn digits_value(s: Seq<char>, hex: bool) -> nat
    decreases s.len(),
{
    if s.len() == 0 {
        0
    } else {
        let d = match digit(s.last(), hex) {
            Some(d) => d,
            None => 0,
        };
        digits_value(s.drop_last(), hex) * radix(hex) + d
    }
}

/// A non-empty string of digits.
pub open spec fn plain_digits(s: Seq<char>, hex: bool) -> Option<nat> {
    if s.len() > 0 && all_digits(s, hex) {
        Some(digits_value(s, hex))
    } else {
        None
    }
}

/// An unsigned number as `from_str_radix` reads it: an optional `+`, then digits.
pub open spec fn unsigned_value(s: Seq<char>, hex: bool) -> Option<nat> {
    if s.len() > 0 && s[0] == '+' {
        plain_digits(s.drop_first(), hex)
    } else {
        plain_digits(s, hex)
    }
}

/// A signed decimal number: an optional `+` or `-`, then digits.
pub open spec fn signed_value(s: Seq<char>) -> Option<int> {
    if s.len() > 0 && s[0] == '-' {
        match plain_digits(s.drop_first(), false) {
            Some(v) => Some(-v),
            None => None,
        }
    } else {
        match unsigned_value(s, false) {
            Some(v) => Some(v as int),
            None => None,
        }
    }
}

pub open spec fn starts_hex(t: Seq<char>) -> bool {
    t.len() >= 2 && t[0] == '0' && t[1] == 'x'
}

/// A number in a filter: `0x` and hex digits (a `u64`), or a decimal integer that
/// fits an `i128` and lies between `i64::MIN` and `u64::MAX`.
pub open spec fn number(t: Seq<char>) -> Result<int, FilterError> {
    if starts_hex(t) {
        match unsigned_value(t.skip(2), true) {
            Some(v) => if v <= u64::MAX {
                Ok(v as int)
            } else {
                Err(FilterError::InvalidHexNumber)
            },
            None => Err(FilterError::InvalidHexNumber),
        }
    } else {
        match signed_value(t) {
            None => Err(FilterError::InvalidNumber),
            Some(v) => if v < i128::MIN || v > i128::MAX {
                Err(FilterError::InvalidNumber)
            } else if v < i64::MIN || v > u64::MAX {
                Err(FilterError::NumberOutOfRange)
            } else {
                Ok(v)
            },
        }
    }
}

/// A number may be written in hex after `0x` or in decimal: both spellings of a
/// value up to `u64::MAX` read as that value.
pub proof fn law_hex_and_decimal_agree(h: Seq<char>, s: Seq<char>)
    requires
        h.len() > 0,
        all_digits(h, true),
        s.len() > 0,
        all_digits(s, false),
        digits_value(h, true) == digits_value(s, false),
        digits_value(s, false) <= u64::MAX,
    ensures
        number(seq!['0', 'x'] + h) == Ok::<int, FilterError>(digits_value(s, false) as int),
        number(s) == Ok::<int, FilterError>(digits_value(s, false) as int),
{
    let t = seq!['0', 'x'] + h;
    assert(t.skip(2) =~= h);
    assert(digit(h[0], true) is Some);
    assert(digit(s[0], false) is Some);
    if s.len() >= 2 {
        assert(digit(s[1], false) is Some);
    }
}

pub open spec fn scaled(r: Result<int, FilterError>, k: int) -> Result<int, FilterError> {
    match r {
        Ok(v) => Ok(v * k),
        Err(e) => Err(e),
    }
}

pub open spec fn ends_with2(t: Seq<char>, a: char, b: char) -> bool {
    t.len() >= 2 && t[t.len() - 2] == a && t[t.len() - 1] == b
}

/// A latency in nanoseconds: a number with an optional unit `ns`, `us`, `ms` or `s`.
pub open spec fn duration(t: Seq<char>) -> Result<int, FilterError> {
    if ends_with2(t, 'n', 's') {
        scaled(number(t.take(t.len() - 2)), 1)
    } else if ends_with2(t, 'u', 's') {
        scaled(number(t.take(t.len() - 2)), 1000)
    } else if ends_with2(t, 'm', 's') {
        scaled(number(t.take(t.len() - 2)), 1_000_000)
    } else if t.len() >= 1 && t.last() == 's' {
        scaled(number(t.drop_last()), 1_000_000_000)
    } else {
        number(t)
    }
}

/// The value of an ASCII hex digit byte.
pub open spec fn hex_byte(b: u8) -> Option<nat> {
    if 0x30 <= b && b <= 0x39 {
        Some((b - 0x30) as nat)
    } else if 0x61 <= b && b <= 0x66 {
        Some((b - 0x61 + 10) as nat)
    } else if 0x41 <= b && b <= 0x46 {
        Some((b - 0x41 + 10) as nat)
    } else {
        None
    }
}

/// Two bytes read as one hex byte, an optional `+` included as `from_str_radix` allows.
pub open spec fn pair_value(a: u8, b: u8) -> Option<nat> {
    if a == 0x2b {
        hex_byte(b)
    } else {
        match (hex_byte(a), hex_byte(b)) {
            (Some(x), Some(y)) => Some(16 * x + y),
            _ => None,
        }
    }
}

/// Bytes read two at a time as hex bytes.
pub open spec fn hex_pairs(b: Seq<u8>) -> Option<Seq<u8>>
    decreases b.len(),
{
    if b.len() < 2 {
        if b.len() == 0 {
            Some(Seq::empty())
        } else {
            None
        }
    } else {
        match (pair_value(b[0], b[1]), hex_pairs(b.skip(2))) {
            (Some(v), Some(rest)) => Some(seq![v as u8] + rest),
            _ => None,
        }
    }
}

/// The bytes a `payload contains` pattern searches for: a quoted string's UTF-8
/// encoding, or `0x` and hex pairs.
pub open spec fn pattern(t: Tok) -> Result<Seq<u8>, FilterError> {
    if t.1 {
        let b = encode_utf8(t.0);
        if b.len() == 0 {
            Err(FilterError::EmptyPattern)
        } else {
            Ok(b)
        }
    } else if !starts_hex(t.0) {
        Err(FilterError::PatternNotHex)
    } else {
        let b = encode_utf8(t.0.skip(2));
        if b.len() % 2 == 1 {
            Err(FilterError::OddHexPattern)
        } else {
            match hex_pairs(b) {
                None => Err(FilterError::InvalidHexPattern),
                Some(v) => if v.len() == 0 {
                    Err(FilterError::EmptyPattern)
                } else {
                    Ok(v)
                },
            }
        }
    }
}

// ---------------------------------------------------------------------------
// Predicates

/// The transfer-type shorthands stand for the USB transfer-type codes: `iso` and
/// `isoc` for 0, `interrupt` and `intr` for 1, `control` and `ctrl` for 2, `bulk`
/// for 3; `type` names the field itself. `in` and `out` stand for the direction
/// bit set and clear.
pub proof fn law_transfer_shorthands()
    ensures
        named_field("iso"@) == Some((Field::Transfer, Some(0int))),
        named_field("isoc"@) == Some((Field::Transfer, Some(0int))),
        named_field("interrupt"@) == Some((Field::Transfer, Some(1int))),
        named_field("intr"@) == Some((Field::Transfer, Some(1int))),
        named_field("control"@) == Some((Field::Transfer, Some(2int))),
        named_field("ctrl"@) == Some((Field::Transfer, Some(2int))),
        named_field("bulk"@) == Some((Field::Transfer, Some(3int))),
        named_field("type"@) == Some((Field::Transfer, None::<int>)),
        named_field("in"@) == Some((Field::Direction, Some(1int))),
        named_field("out"@) == Some((Field::Direction, Some(0int))),
{
    reveal_strlit("bus");
    reveal_strlit("dev");
    reveal_strlit("device");
    reveal_strlit("vid");
    reveal_strlit("pid");
    reveal_strlit("ep");
    reveal_strlit("endpoint");
    reveal_strlit("epnum");
    reveal_strlit("in");
    reveal_strlit("out");
    reveal_strlit("dir");
    reveal_strlit("direction");
    reveal_strlit("iso");
    reveal_strlit("isoc");
    reveal_strlit("interrupt");
    reveal_strlit("intr");
    reveal_strlit("control");
    reveal_strlit("ctrl");
    reveal_strlit("bulk");
    reveal_strlit("type");
    assert("in"@.len() != "bus"@.len());
    assert("in"@.len() != "dev"@.len());
    assert("in"@.len() != "device"@.len());
    assert("in"@.len() != "vid"@.len());
    assert("in"@.len() != "pid"@.len());
    assert("in"@[0] != "ep"@[0]);
    assert("in"@.len() != "endpoint"@.len());
    assert("in"@.len() != "epnum"@.len());
    assert("out"@[0] != "bus"@[0]);
    assert("out"@[0] != "dev"@[0]);
    assert("out"@.len() != "device"@.len());
    assert("out"@[0] != "vid"@[0]);
    assert("out"@[0] != "pid"@[0]);
    assert("out"@.len() != "ep"@.len());
    assert("out"@.len() != "endpoint"@.len());
    assert("out"@.len() != "epnum"@.len());
    assert("out"@.len() != "in"@.len());
    assert("iso"@[0] != "bus"@[0]);
    assert("iso"@[0] != "dev"@[0]);
    assert("iso"@.len() != "device"@.len());
    assert("iso"@[0] != "vid"@[0]);
    assert("iso"@[0] != "pid"@[0]);
    assert("iso"@.len() != "ep"@.len());
    assert("iso"@.len() != "endpoint"@.len());
    assert("iso"@.len() != "epnum"@.len());
    assert("iso"@.len() != "in"@.len());
    assert("iso"@[0] != "out"@[0]);
    assert("iso"@[0] != "dir"@[0]);
    assert("iso"@.len() != "direction"@.len());
    assert("isoc"@.len() != "bus"@.len());
    assert("isoc"@.len() != "dev"@.len());
    assert("isoc"@.len() != "device"@.len());
    assert("isoc"@.len() != "vid"@.len());
    assert("isoc"@.len() != "pid"@.len());
    assert("isoc"@.len() != "ep"@.len());
    assert("isoc"@.len() != "endpoint"@.len());
    assert("isoc"@.len() != "epnum"@.len());
    assert("isoc"@.len() != "in"@.len());
    assert("isoc"@.len() != "out"@.len());
    assert("isoc"@.len() != "dir"@.len());
    assert("isoc"@.len() != "direction"@.len());
    assert("isoc"@.len() != "iso"@.len());
    assert("interrupt"@.len() != "bus"@.len());
    assert("interrupt"@.len() != "dev"@.len());
    assert("interrupt"@.len() != "device"@.len());
    assert("interrupt"@.len() != "vid"@.len());
    assert("interrupt"@.len() != "pid"@.len());
    assert("interrupt"@.len() != "ep"@.len());
    assert("interrupt"@.len() != "endpoint"@.len());
    assert("interrupt"@.len() != "epnum"@.len());
    assert("interrupt"@.len() != "in"@.len());
    assert("interrupt"@.len() != "out"@.len());
    assert("interrupt"@.len() != "dir"@.len());
    assert("interrupt"@[0] != "direction"@[0]);
    assert("interrupt"@.len() != "iso"@.len());
    assert("interrupt"@.len() != "isoc"@.len());
    assert("intr"@.len() != "bus"@.len());
    assert("intr"@.len() != "dev"@.len());
    assert("intr"@.len() != "device"@.len());
    assert("intr"@.len() != "vid"@.len());
    assert("intr"@.len() != "pid"@.len());
    assert("intr"@.len() != "ep"@.len());
    assert("intr"@.len() != "endpoint"@.len());
    assert("intr"@.len() != "epnum"@.len());
    assert("intr"@.len() != "in"@.len());
    assert("intr"@.len() != "out"@.len());
    assert("intr"@.len() != "dir"@.len());
    assert("intr"@.len() != "direction"@.len());
    assert("intr"@.len() != "iso"@.len());
    assert("intr"@[1] != "isoc"@[1]);
    assert("intr"@.len() != "interrupt"@.len());
    assert("control"@.len() != "bus"@.len());
    assert("control"@.len() != "dev"@.len());
    assert("control"@.len() != "device"@.len());
    assert("control"@.len() != "vid"@.len());
    assert("control"@.len() != "pid"@.len());
    assert("control"@.len() != "ep"@.len());
    assert("control"@.len() != "endpoint"@.len());
    assert("control"@.len() != "epnum"@.len());
    assert("control"@.len() != "in"@.len());
    assert("control"@.len() != "out"@.len());
    assert("control"@.len() != "dir"@.len());
    assert("control"@.len() != "direction"@.len());
    assert("control"@.len() != "iso"@.len());
    assert("control"@.len() != "isoc"@.len());
    assert("control"@.len() != "interrupt"@.len());
    assert("control"@.len() != "intr"@.len());
    assert("ctrl"@.len() != "bus"@.len());
    assert("ctrl"@.len() != "dev"@.len());
    assert("ctrl"@.len() != "device"@.len());
    assert("ctrl"@.len() != "vid"@.len());
    assert("ctrl"@.len() != "pid"@.len());
    assert("ctrl"@.len() != "ep"@.len());
    assert("ctrl"@.len() != "endpoint"@.len());
    assert("ctrl"@.len() != "epnum"@.len());
    assert("ctrl"@.len() != "in"@.len());
    assert("ctrl"@.len() != "out"@.len());
    assert("ctrl"@.len() != "dir"@.len());
    assert("ctrl"@.len() != "direction"@.len());
    assert("ctrl"@.len() != "iso"@.len());
    assert("ctrl"@[0] != "isoc"@[0]);
    assert("ctrl"@.len() != "interrupt"@.len());
    assert("ctrl"@[0] != "intr"@[0]);
    assert("ctrl"@.len() != "control"@.len());
    assert("bulk"@.len() != "bus"@.len());
    assert("bulk"@.len() != "dev"@.len());
    assert("bulk"@.len() != "device"@.len());
    assert("bulk"@.len() != "vid"@.len());
    assert("bulk"@.len() != "pid"@.len());
    assert("bulk"@.len() != "ep"@.len());
    assert("bulk"@.len() != "endpoint"@.len());
    assert("bulk"@.len() != "epnum"@.len());
    assert("bulk"@.len() != "in"@.len());
    assert("bulk"@.len() != "out"@.len());
    assert("bulk"@.len() != "dir"@.len());
    assert("bulk"@.len() != "direction"@.len());
    assert("bulk"@.len() != "iso"@.len());
    assert("bulk"@[0] != "isoc"@[0]);
    assert("bulk"@.len() != "interrupt"@.len());
    assert("bulk"@[0] != "intr"@[0]);
    assert("bulk"@.len() != "control"@.len());
    assert("bulk"@[0] != "ctrl"@[0]);
    assert("type"@.len() != "bus"@.len());
    assert("type"@.len() != "dev"@.len());
    assert("type"@.len() != "device"@.len());
    assert("type"@.len() != "vid"@.len());
    assert("type"@.len() != "pid"@.len());
    assert("type"@.len() != "ep"@.len());
    assert("type"@.len() != "endpoint"@.len());
    assert("type"@.len() != "epnum"@.len());
    assert("type"@.len() != "in"@.len());
    assert("type"@.len() != "out"@.len());
    assert("type"@.len() != "dir"@.len());
    assert("type"@.len() != "direction"@.len());
    assert("type"@.len() != "iso"@.len());
    assert("type"@[0] != "isoc"@[0]);
    assert("type"@.len() != "interrupt"@.len());
    assert("type"@[0] != "intr"@[0]);
    assert("type"@.len() != "control"@.len());
    assert("type"@[0] != "ctrl"@[0]);
    assert("type"@[0] != "bulk"@[0]);
}

/// The field a name selects and, for a shorthand such as `in` or `bulk`, the value it
/// stands for.
pub open spec fn named_field(n: Seq<char>) -> Option<(Field, Option<int>)> {
    if n == "bus"@ {
        Some((Field::Bus, None))
    } else if n == "dev"@ || n == "device"@ {
        Some((Field::Device, None))
    } else if n == "vid"@ {
        Some((Field::Vid, None))
    } else if n == "pid"@ {
        Some((Field::Pid, None))
    } else if n == "ep"@ || n == "endpoint"@ {
        Some((Field::Endpoint, None))
    } else if n == "epnum"@ {
        Some((Field::EpNum, None))
    } else if n == "in"@ {
        Some((Field::Direction, Some(1)))
    } else if n == "out"@ {
        Some((Field::Direction, Some(0)))
    } else if n == "dir"@ || n == "direction"@ {
        Some((Field::Direction, None))
    } else if n == "iso"@ || n == "isoc"@ {
        Some((Field::Transfer, Some(0)))
    } else if n == "interrupt"@ || n == "intr"@ {
        Some((Field::Transfer, Some(1)))
    } else if n == "control"@ || n == "ctrl"@ {
        Some((Field::Transfer, Some(2)))
    } else if n == "bulk"@ {
        Some((Field::Transfer, Some(3)))
    } else if n == "type"@ {
        Some((Field::Transfer, None))
    } else if n == "requested"@ {
        Some((Field::Requested, None))
    } else if n == "actual"@ {
        Some((Field::Actual, None))
    } else if n == "len"@ || n == "length"@ {
        Some((Field::Length, None))
    } else if n == "captured"@ {
        Some((Field::Captured, None))
    } else if n == "frames"@ {
        Some((Field::Frames, None))
    } else if n == "status"@ {
        Some((Field::Status, None))
    } else if n == "event"@ {
        Some((Field::Event, None))
    } else if n == "interval"@ {
        Some((Field::Interval, None))
    } else if n == "start_frame"@ {
        Some((Field::StartFrame, None))
    } else if n == "errors"@ {
        Some((Field::Errors, None))
    } else if n == "urb"@ {
        Some((Field::UrbId, None))
    } else if n == "setup.request"@ {
        Some((Field::Request, None))
    } else if n == "setup.type"@ {
        Some((Field::RequestType, None))
    } else if n == "setup.value"@ {
        Some((Field::Value, None))
    } else if n == "setup.index"@ {
        Some((Field::Index, None))
    } else if n == "setup.length"@ {
        Some((Field::SetupLength, None))
    } else if n == "latency"@ {
        Some((Field::Latency, None))
    } else {
        None
    }
}

/// The value a token compares against: names of directions, transfer types and
/// event kinds where the field has them, a duration for `latency`, else a number.
pub open spec fn value_of(field: Field, t: Seq<char>) -> Result<int, FilterError> {
    match field {
        Field::Direction => if t == "in"@ {
            Ok(1)
        } else if t == "out"@ {
            Ok(0)
        } else {
            number(t)
        },
        Field::Transfer => if t == "iso"@ || t == "isoc"@ {
            Ok(0)
        } else if t == "interrupt"@ || t == "intr"@ {
            Ok(1)
        } else if t == "control"@ || t == "ctrl"@ {
            Ok(2)
        } else if t == "bulk"@ {
            Ok(3)
        } else {
            number(t)
        },
        Field::Event => if t == "S"@ || t == "submit"@ {
            Ok(0x53)
        } else if t == "C"@ || t == "complete"@ {
            Ok(0x43)
        } else if t == "E"@ || t == "error"@ {
            Ok(0x45)
        } else {
            number(t)
        },
        Field::Latency => duration(t),
        _ => number(t),
    }
}

/// `[offset]` or `[offset:width]` after `payload`.
pub open spec fn payload_field(toks: Seq<Tok>, at: int) -> Result<(Field, int), FilterError> {
    if !at_kw(toks, at, "["@) {
        Err(FilterError::ExpectedOpenBracket)
    } else if at + 1 >= toks.len() {
        Err(FilterError::UnexpectedEnd)
    } else {
        match number(toks[at + 1].0) {
            Err(e) => Err(e),
            Ok(offset) => if offset < 0 {
                Err(FilterError::InvalidPayloadOffset)
            } else {
                match payload_width(toks, at + 2) {
                    Err(e) => Err(e),
                    Ok((w, a)) => if !(w == 1 || w == 2 || w == 4 || w == 8) {
                        Err(FilterError::InvalidPayloadWidth)
                    } else if !at_kw(toks, a, "]"@) {
                        Err(FilterError::ExpectedCloseBracket)
                    } else {
                        Ok((Field::Payload(offset as u64, w as u8), a + 1))
                    },
                }
            },
        }
    }
}

/// The optional `:width` of a payload extraction; one byte when absent.
pub open spec fn payload_width(toks: Seq<Tok>, at: int) -> Result<(int, int), FilterError> {
    if at_kw(toks, at, ":"@) {
        if at + 1 >= toks.len() {
            Err(FilterError::UnexpectedEnd)
        } else {
            match number(toks[at + 1].0) {
                Err(e) => Err(e),
                Ok(w) => if 0 <= w <= 255 {
                    Ok((w, at + 2))
                } else {
                    Err(FilterError::InvalidPayloadWidth)
                },
            }
        }
    } else {
        Ok((1, at))
    }
}

/// The optional `& mask` after a field.
pub open spec fn mask_part(toks: Seq<Tok>, at: int) -> Result<(Option<u64>, int), FilterError> {
    if at_kw(toks, at, "&"@) {
        if at + 1 >= toks.len() {
            Err(FilterError::UnexpectedEnd)
        } else {
            match number(toks[at + 1].0) {
                Err(e) => Err(e),
                Ok(m) => if m < 0 {
                    Err(FilterError::InvalidMask)
                } else {
                    Ok((Some(m as u64), at + 2))
                },
            }
        }
    } else {
        Ok((None, at))
    }
}

/// The optional comparison operator; equality when absent.
pub open spec fn comparison_part(toks: Seq<Tok>, at: int) -> (Compare, int) {
    if at_kw(toks, at, "="@) || at_kw(toks, at, "=="@) {
        (Compare::Eq, at + 1)
    } else if at_kw(toks, at, "!="@) {
        (Compare::Ne, at + 1)
    } else if at_kw(toks, at, "<"@) {
        (Compare::Lt, at + 1)
    } else if at_kw(toks, at, "<="@) {
        (Compare::Le, at + 1)
    } else if at_kw(toks, at, ">"@) {
        (Compare::Gt, at + 1)
    } else if at_kw(toks, at, ">="@) {
        (Compare::Ge, at + 1)
    } else {
        (Compare::Eq, at)
    }
}

/// What follows a field: mask, comparison and value.
pub open spec fn predicate_rest(toks: Seq<Tok>, at: int, field: Field) -> Parsed {
    match mask_part(toks, at) {
        Err(e) => Err(e),
        Ok((mask, a)) => {
            let (comparison, b) = comparison_part(toks, a);
            if b >= toks.len() {
                Err(FilterError::UnexpectedEnd)
            } else {
                match value_of(field, toks[b].0) {
                    Err(e) => Err(e),
                    Ok(v) => Ok(
                        (
                            Formula::Predicate(
                                Predicate { field, mask, comparison, value: v as i128 },
                            ),
                            b + 1,
                        ),
                    ),
                }
            }
        },
    }
}

/// A single test: `payload contains PATTERN`, a shorthand such as `bulk`, or a field
/// with optional mask and comparison and a value.
#[verifier::opaque]
pub open spec fn p_predicate(toks: Seq<Tok>, at: int) -> Parsed {
    if at < 0 || at >= toks.len() {
        Err(FilterError::UnexpectedEnd)
    } else if toks[at].0 == "payload"@ {
        if at_kw(toks, at + 1, "contains"@) {
            if at + 2 >= toks.len() {
                Err(FilterError::UnexpectedEnd)
            } else {
                match pattern(toks[at + 2]) {
                    Err(e) => Err(e),
                    Ok(b) => Ok((Formula::Contains(b), at + 3)),
                }
            }
        } else {
            match payload_field(toks, at + 1) {
                Err(e) => Err(e),
                Ok((field, a)) => predicate_rest(toks, a, field),
            }
        }
    } else {
        match named_field(toks[at].0) {
            None => Err(FilterError::UnknownField),
            Some((field, Some(v))) => Ok(
                (
                    Formula::Predicate(
                        Predicate { field, mask: None, comparison: Compare::Eq, value: v as i128 },
                    ),
                    at + 1,
                ),
            ),
            Some((field, None)) => predicate_rest(toks, at + 1, field),
        }
    }
}

// ---------------------------------------------------------------------------
// Expressions

pub open spec fn join(a: Formula, b: Formula, and: bool) -> Formula {
    if and {
        Formula::And(Box::new(a), Box::new(b))
    } else {
        Formula::Or(Box::new(a), Box::new(b))
    }
}

/// One round of pairing neighbours, left to right; an odd last term stays as it is.
pub open spec fn pair_up(fs: Seq<Formula>, and: bool) -> Seq<Formula>
    decreases fs.len(),
{
    if fs.len() >= 2 {
        seq![join(fs[0], fs[1], and)] + pair_up(fs.skip(2), and)
    } else {
        fs
    }
}

pub proof fn lemma_pair_up_len(fs: Seq<Formula>, and: bool)
    ensures
        pair_up(fs, and).len() == (fs.len() + 1) / 2,
    decreases fs.len(),
{
    if fs.len() >= 2 {
        lemma_pair_up_len(fs.skip(2), and);
    }
}

/// A chain of terms joined by one operator, as a balanced tree: long flat
/// expressions do not nest deeply.
pub open spec fn balanced(fs: Seq<Formula>, and: bool) -> Formula
    decreases fs.len(),
{
    if fs.len() == 0 {
        Formula::All
    } else if fs.len() == 1 {
        fs[0]
    } else {
        proof {
            lemma_pair_up_len(fs, and);
        }
        balanced(pair_up(fs, and), and)
    }
}

/// A parse result with `k` negations put around its formula.
pub open spec fn negated_times(k: nat, r: Parsed) -> Parsed
    decreases k,
{
    if k == 0 {
        r
    } else {
        match negated_times((k - 1) as nat, r) {
            Err(e) => Err(e),
            Ok((f, a)) => Ok((Formula::Not(Box::new(f)), a)),
        }
    }
}

/// Nesting is bounded: a run of `k` `not` tokens starting a unary term that `d`
/// others enclose is refused as too deep when the term under them would be the
/// 129th nested one, and otherwise parses as that term under `k` negations.
pub proof fn law_negation_nesting_bound(toks: Seq<Tok>, at: int, d: nat, k: nat)
    requires
        0 <= at,
        at + k <= toks.len(),
        forall|i: int| at <= i < at + k ==> #[trigger] at_kw(toks, i, "not"@),
    ensures
        d + k + 1 > 128 ==> p_unary(toks, at, d) == Err::<(Formula, int), FilterError>(
            FilterError::NestingTooDeep,
        ),
        d + k + 1 <= 128 ==> p_unary(toks, at, d) == negated_times(k, p_unary(toks, at + k, d + k)),
    decreases k,
{
    if k > 0 {
        assert(at_kw(toks, at, "not"@));
        if d + 1 <= 128 {
            law_negation_nesting_bound(toks, at + 1, d + 1, (k - 1) as nat);
        }
    }
}

/// Parentheses nest as `not` does: a run of `k` `(` tokens starting a unary term
/// that `d` others enclose is refused as too deep when the term inside them would
/// be the 129th nested one.
pub proof fn law_parenthesis_nesting_bound(toks: Seq<Tok>, at: int, d: nat, k: nat)
    requires
        0 <= at,
        at + k <= toks.len(),
        forall|i: int| at <= i < at + k ==> #[trigger] at_kw(toks, i, "("@),
        d + k + 1 > 128,
    ensures
        p_unary(toks, at, d) == Err::<(Formula, int), FilterError>(FilterError::NestingTooDeep),
    decreases k,
{
    if k > 0 && d + 1 <= 128 {
        assert(at_kw(toks, at, "("@));
        lemma_open_paren(toks, at, d);
        law_parenthesis_nesting_bound(toks, at + 1, d + 1, (k - 1) as nat);
        lemma_refused_term(toks, at + 1, d + 1);
    }
}

/// Within the bound, a term inside `k` pairs of parentheses, with `d` other terms
/// enclosing them, parses as the term alone: parentheses add no formula.
pub proof fn law_parentheses_add_nothing(
    toks: Seq<Tok>,
    at: int,
    d: nat,
    k: nat,
    f: Formula,
    b: int,
)
    requires
        0 <= at,
        at + k <= toks.len(),
        forall|i: int| at <= i < at + k ==> #[trigger] at_kw(toks, i, "("@),
        d + k + 1 <= 128,
        p_unary(toks, at + k, d + k) == Ok::<(Formula, int), FilterError>((f, b)),
        forall|i: int| b <= i < b + k ==> #[trigger] at_kw(toks, i, ")"@),
    ensures
        p_unary(toks, at, d) == Ok::<(Formula, int), FilterError>((f, b + k)),
    decreases k,
{
    if k > 0 {
        assert(at_kw(toks, at, "("@));
        assert(at_kw(toks, b + k - 1, ")"@));
        let k1 = (k - 1) as nat;
        let d1 = (d + 1) as nat;
        assert((at + 1) + k1 == at + k);
        assert(d1 + k1 == d + k);
        assert(forall|i: int| b <= i < b + k1 ==> #[trigger] at_kw(toks, i, ")"@));
        assert(forall|i: int| at + 1 <= i < at + 1 + k1 ==> #[trigger] at_kw(toks, i, "("@));
        law_parentheses_add_nothing(toks, at + 1, d1, k1, f, b);
        lemma_wrap_once(toks, at, d, f, b + k1);
    }
}

/// `and` binds tighter than `or`: terms `a`, `b` and `c` written `a or b and c`
/// parse as `a` or (`b` and `c`).
pub proof fn law_and_binds_tighter_than_or(
    toks: Seq<Tok>,
    fa: Formula,
    a: int,
    fb: Formula,
    b: int,
    fc: Formula,
)
    requires
        p_unary(toks, 0, 0) == Ok::<(Formula, int), FilterError>((fa, a)),
        at_kw(toks, a, "or"@),
        p_unary(toks, a + 1, 0) == Ok::<(Formula, int), FilterError>((fb, b)),
        at_kw(toks, b, "and"@),
        p_unary(toks, b + 1, 0) == Ok::<(Formula, int), FilterError>((fc, toks.len() as int)),
    ensures
        parse_tokens(toks) == Ok::<Formula, FilterError>(
            Formula::Or(Box::new(fa), Box::new(Formula::And(Box::new(fb), Box::new(fc)))),
        ),
{
    lemma_and_pair(toks, a + 1, fb, b, fc);
    lemma_term_before_or(toks, 0, 0, fa, a);
    lemma_or_pair(toks, fa, a, join(fb, fc, true));
}

/// Terms `b` and `c` written `b and c` up to the end make one `or`-term.
proof fn lemma_and_pair(toks: Seq<Tok>, at: int, fb: Formula, b: int, fc: Formula)
    requires
        p_unary(toks, at, 0) == Ok::<(Formula, int), FilterError>((fb, b)),
        at_kw(toks, b, "and"@),
        p_unary(toks, b + 1, 0) == Ok::<(Formula, int), FilterError>((fc, toks.len() as int)),
    ensures
        or_list(toks, at, 0) == Ok::<(Seq<Formula>, int), FilterError>(
            (seq![join(fb, fc, true)], toks.len() as int),
        ),
{
    lemma_term_before_and(toks, at, 0, fb, b);
    lemma_last_term(toks, b + 1, 0, fc);
    assert(seq![fb] + seq![fc] =~= seq![fb, fc]);
    lemma_balanced_pair(fb, fc, true);
    lemma_or_ends(toks, at, 0, seq![fb, fc]);
}

/// A first term `a` followed by `or` and an `or`-term `g` up to the end is `a or g`.
proof fn lemma_or_pair(toks: Seq<Tok>, fa: Formula, a: int, g: Formula)
    requires
        and_list(toks, 0, 0) == Ok::<(Seq<Formula>, int), FilterError>((seq![fa], a)),
        at_kw(toks, a, "or"@),
        or_list(toks, a + 1, 0) == Ok::<(Seq<Formula>, int), FilterError>(
            (seq![g], toks.len() as int),
        ),
    ensures
        parse_tokens(toks) == Ok::<Formula, FilterError>(join(fa, g, false)),
{
    lemma_or_continues(toks, 0, 0, seq![fa], a);
    lemma_balanced_one(fa, true);
    assert(seq![fa] + seq![g] =~= seq![fa, g]);
    lemma_balanced_pair(fa, g, false);
    lemma_top_level(toks, seq![fa, g]);
}

/// `not` binds tighter than `and`: terms `a` and `b` written `not a and b` parse
/// as (not `a`) and `b`.
pub proof fn law_not_binds_tighter_than_and(
    toks: Seq<Tok>,
    fa: Formula,
    a: int,
    fb: Formula,
)
    requires
        at_kw(toks, 0, "not"@),
        p_unary(toks, 1, 1) == Ok::<(Formula, int), FilterError>((fa, a)),
        at_kw(toks, a, "and"@),
        p_unary(toks, a + 1, 0) == Ok::<(Formula, int), FilterError>((fb, toks.len() as int)),
    ensures
        parse_tokens(toks) == Ok::<Formula, FilterError>(
            Formula::And(Box::new(Formula::Not(Box::new(fa))), Box::new(fb)),
        ),
{
    let n = toks.len() as int;
    let na = Formula::Not(Box::new(fa));
    law_negation_nesting_bound(toks, 0, 0, 1);
    assert(negated_times(0, p_unary(toks, 1, 1)) == p_unary(toks, 1, 1));
    assert(p_unary(toks, 0, 0) == Ok::<(Formula, int), FilterError>((na, a)));
    lemma_term_before_and(toks, 0, 0, na, a);
    lemma_last_term(toks, a + 1, 0, fb);
    assert(and_list(toks, 0, 0) == Ok::<(Seq<Formula>, int), FilterError>((seq![na, fb], n))) by {
        assert(seq![na] + seq![fb] =~= seq![na, fb]);
    }
    lemma_balanced_pair(na, fb, true);
    lemma_or_ends(toks, 0, 0, seq![na, fb]);
    lemma_balanced_one(join(na, fb, true), false);
    lemma_top_level(toks, seq![join(na, fb, true)]);
}

/// `and` may be left out: two terms `a` and `b` written next to each other parse
/// as `a and b` does, when `b` does not start with `)`, `or`, `||`, `and` or `&&`.
pub proof fn law_adjacent_terms_are_anded(toks: Seq<Tok>, fa: Formula, a: int, fb: Formula)
    requires
        p_unary(toks, 0, 0) == Ok::<(Formula, int), FilterError>((fa, a)),
        a < toks.len(),
        !at_kw(toks, a, ")"@),
        !at_kw(toks, a, "or"@),
        !at_kw(toks, a, "||"@),
        !at_kw(toks, a, "and"@),
        !at_kw(toks, a, "&&"@),
        p_unary(toks, a, 0) == Ok::<(Formula, int), FilterError>((fb, toks.len() as int)),
    ensures
        parse_tokens(toks) == Ok::<Formula, FilterError>(
            Formula::And(Box::new(fa), Box::new(fb)),
        ),
{
    let n = toks.len() as int;
    lemma_unary(toks, 0, 0);
    assert(and_list(toks, 0, 0) == prepend_formula(fa, and_list(toks, a, 0)));
    lemma_last_term(toks, a, 0, fb);
    assert(and_list(toks, 0, 0) == Ok::<(Seq<Formula>, int), FilterError>((seq![fa, fb], n))) by {
        assert(seq![fa] + seq![fb] =~= seq![fa, fb]);
    }
    lemma_balanced_pair(fa, fb, true);
    lemma_or_ends(toks, 0, 0, seq![fa, fb]);
    lemma_balanced_one(join(fa, fb, true), false);
    lemma_top_level(toks, seq![join(fa, fb, true)]);
}

/// A list of two joins its terms once.
proof fn lemma_balanced_pair(x: Formula, y: Formula, and: bool)
    ensures
        balanced(seq![x, y], and) == join(x, y, and),
{
    let s = seq![x, y];
    assert(s.skip(2) =~= Seq::<Formula>::empty());
    assert(pair_up(Seq::<Formula>::empty(), and) == Seq::<Formula>::empty());
    assert(pair_up(s, and) == seq![join(x, y, and)] + pair_up(s.skip(2), and));
    assert(pair_up(s, and) =~= seq![join(x, y, and)]);
    assert(balanced(seq![join(x, y, and)], and) == join(x, y, and));
}

/// A list of one is its term.
proof fn lemma_balanced_one(x: Formula, and: bool)
    ensures
        balanced(seq![x], and) == x,
{
}

/// An `and`-list followed by `or` starts an `or`-list that goes on after the `or`.
proof fn lemma_or_continues(toks: Seq<Tok>, at: int, d: nat, fs: Seq<Formula>, a: int)
    requires
        and_list(toks, at, d) == Ok::<(Seq<Formula>, int), FilterError>((fs, a)),
        at_kw(toks, a, "or"@),
    ensures
        or_list(toks, at, d) == prepend_formula(balanced(fs, true), or_list(toks, a + 1, d)),
{
    lemma_and_list(toks, at, d);
}

/// An `and`-list that reaches the end is the last of its `or`-list.
proof fn lemma_or_ends(toks: Seq<Tok>, at: int, d: nat, fs: Seq<Formula>)
    requires
        and_list(toks, at, d) == Ok::<(Seq<Formula>, int), FilterError>(
            (fs, toks.len() as int),
        ),
    ensures
        or_list(toks, at, d) == Ok::<(Seq<Formula>, int), FilterError>(
            (seq![balanced(fs, true)], toks.len() as int),
        ),
{
}

/// An `or`-list from the first token that reaches the end is the whole filter.
proof fn lemma_top_level(toks: Seq<Tok>, fs: Seq<Formula>)
    requires
        toks.len() > 0,
        or_list(toks, 0, 0) == Ok::<(Seq<Formula>, int), FilterError>((fs, toks.len() as int)),
    ensures
        parse_tokens(toks) == Ok::<Formula, FilterError>(balanced(fs, false)),
{
}

/// A term followed by `or` ends its `and`-list.
proof fn lemma_term_before_or(toks: Seq<Tok>, at: int, d: nat, f: Formula, a: int)
    requires
        p_unary(toks, at, d) == Ok::<(Formula, int), FilterError>((f, a)),
        at_kw(toks, a, "or"@),
    ensures
        and_list(toks, at, d) == Ok::<(Seq<Formula>, int), FilterError>((seq![f], a)),
{
}

/// A term followed by `and` starts an `and`-list that goes on after the `and`.
proof fn lemma_term_before_and(toks: Seq<Tok>, at: int, d: nat, f: Formula, a: int)
    requires
        p_unary(toks, at, d) == Ok::<(Formula, int), FilterError>((f, a)),
        at_kw(toks, a, "and"@),
    ensures
        and_list(toks, at, d) == prepend_formula(f, and_list(toks, a + 1, d)),
{
    reveal_strlit("and");
    reveal_strlit(")");
    reveal_strlit("or");
    reveal_strlit("||");
    assert("and"@.len() != ")"@.len() && "and"@.len() != "or"@.len());
    assert("and"@[0] != "||"@[0]);
    lemma_unary(toks, at, d);
}

/// A term that reaches the end is the last of its list.
proof fn lemma_last_term(toks: Seq<Tok>, at: int, d: nat, f: Formula)
    requires
        p_unary(toks, at, d) == Ok::<(Formula, int), FilterError>((f, toks.len() as int)),
    ensures
        and_list(toks, at, d) == Ok::<(Seq<Formula>, int), FilterError>(
            (seq![f], toks.len() as int),
        ),
{
}

/// One pair of parentheses around a term that parses.
proof fn lemma_wrap_once(toks: Seq<Tok>, at: int, d: nat, f: Formula, c: int)
    requires
        at_kw(toks, at, "("@),
        d + 1 <= 128,
        p_unary(toks, at + 1, d + 1) == Ok::<(Formula, int), FilterError>((f, c)),
        at_kw(toks, c, ")"@),
    ensures
        p_unary(toks, at, d) == Ok::<(Formula, int), FilterError>((f, c + 1)),
{
    lemma_single_term(toks, at + 1, d + 1, f, c);
    lemma_open_paren(toks, at, d);
}

/// A `(` token opens a parenthesised expression.
proof fn lemma_open_paren(toks: Seq<Tok>, at: int, d: nat)
    requires
        at_kw(toks, at, "("@),
        d + 1 <= 128,
    ensures
        p_unary(toks, at, d) == match or_list(toks, at + 1, d + 1) {
            Err(e) => Err(e),
            Ok((fs, b)) => if at_kw(toks, b, ")"@) {
                Ok((balanced(fs, false), b + 1))
            } else {
                Err(FilterError::ExpectedCloseParen)
            },
        },
{
    reveal_strlit("(");
    reveal_strlit("not");
    reveal_strlit("!");
    assert("("@.len() != "not"@.len());
    assert("("@[0] != "!"@[0]);
    assert(!at_kw(toks, at, "not"@) && !at_kw(toks, at, "!"@));
}

/// A single term followed by `)` is a list of one.
proof fn lemma_single_term(toks: Seq<Tok>, at: int, d: nat, f: Formula, b: int)
    requires
        p_unary(toks, at, d) == Ok::<(Formula, int), FilterError>((f, b)),
        at_kw(toks, b, ")"@),
    ensures
        or_list(toks, at, d) == Ok::<(Seq<Formula>, int), FilterError>((seq![f], b)),
        balanced(seq![f], false) == f,
{
    reveal_strlit(")");
    reveal_strlit("or");
    reveal_strlit("||");
    assert(")"@.len() != "or"@.len() && ")"@.len() != "||"@.len());
    assert(!at_kw(toks, b, "or"@) && !at_kw(toks, b, "||"@));
    assert(and_list(toks, at, d) == Ok::<(Seq<Formula>, int), FilterError>((seq![f], b)));
    assert(balanced(seq![f], true) == f);
}

/// A refused first term refuses the list.
proof fn lemma_refused_term(toks: Seq<Tok>, at: int, d: nat)
    requires
        p_unary(toks, at, d) is Err,
    ensures
        or_list(toks, at, d) == Err::<(Seq<Formula>, int), FilterError>(
            p_unary(toks, at, d)->Err_0,
        ),
{
    assert(and_list(toks, at, d) == Err::<(Seq<Formula>, int), FilterError>(
        p_unary(toks, at, d)->Err_0,
    ));
}

/// Two results joined by `and` or `or`, evaluated left to right: an error or a
/// deciding left side ends the evaluation.
pub open spec fn joined(x: Result<Truth, FilterError>, y: Result<Truth, FilterError>, and: bool) -> Result<
    Truth,
    FilterError,
> {
    match x {
        Err(err) => Err(err),
        Ok(t) => if (and && t == Truth::False) || (!and && t == Truth::True) {
            Ok(t)
        } else {
            match y {
                Err(err) => Err(err),
                Ok(u) => if and {
                    Ok(t.spec_and(u))
                } else {
                    Ok(t.spec_or(u))
                },
            }
        },
    }
}

/// A chain of terms joined by one operator, nested to the right.
pub open spec fn chain(fs: Seq<Formula>, and: bool) -> Formula
    decreases fs.len(),
{
    if fs.len() <= 1 {
        balanced(fs, and)
    } else {
        join(fs[0], chain(fs.skip(1), and), and)
    }
}

/// What a chain of terms evaluates to, term by term from the left.
spec fn chain_value(fs: Seq<Formula>, and: bool, e: &Event, latency: Option<u64>) -> Result<
    Truth,
    FilterError,
>
    decreases fs.len(),
{
    if fs.len() <= 1 {
        eval(balanced(fs, and), e, latency)
    } else {
        joined(eval(fs[0], e, latency), chain_value(fs.skip(1), and, e, latency), and)
    }
}

proof fn lemma_joined_assoc(
    x: Result<Truth, FilterError>,
    y: Result<Truth, FilterError>,
    z: Result<Truth, FilterError>,
    and: bool,
)
    ensures
        joined(joined(x, y, and), z, and) == joined(x, joined(y, z, and), and),
{
}

proof fn lemma_eval_join(a: Formula, b: Formula, and: bool, e: &Event, latency: Option<u64>)
    ensures
        eval(join(a, b, and), e, latency) == joined(eval(a, e, latency), eval(b, e, latency), and),
{
}

proof fn lemma_chain_value(fs: Seq<Formula>, and: bool, e: &Event, latency: Option<u64>)
    ensures
        eval(chain(fs, and), e, latency) == chain_value(fs, and, e, latency),
    decreases fs.len(),
{
    if fs.len() > 1 {
        lemma_chain_value(fs.skip(1), and, e, latency);
        lemma_eval_join(fs[0], chain(fs.skip(1), and), and, e, latency);
    }
}

proof fn lemma_pair_up_value(fs: Seq<Formula>, and: bool, e: &Event, latency: Option<u64>)
    requires
        fs.len() >= 1,
    ensures
        chain_value(pair_up(fs, and), and, e, latency) == chain_value(fs, and, e, latency),
    decreases fs.len(),
{
    if fs.len() == 2 {
        let p = pair_up(fs, and);
        assert(fs.skip(2).len() == 0);
        assert(pair_up(fs.skip(2), and) == fs.skip(2));
        assert(p =~= seq![join(fs[0], fs[1], and)]);
        lemma_eval_join(fs[0], fs[1], and, e, latency);
        assert(fs.skip(1) =~= seq![fs[1]]);
        assert(chain_value(p, and, e, latency) == eval(join(fs[0], fs[1], and), e, latency));
        assert(chain_value(fs.skip(1), and, e, latency) == eval(fs[1], e, latency));
    } else if fs.len() > 2 {
        let rest = fs.skip(2);
        let p = pair_up(fs, and);
        lemma_pair_up_value(rest, and, e, latency);
        lemma_pair_up_len(rest, and);
        assert(p[0] == join(fs[0], fs[1], and));
        assert(p.skip(1) =~= pair_up(rest, and));
        assert(p.len() >= 2);
        lemma_eval_join(fs[0], fs[1], and, e, latency);
        assert(fs.skip(1).skip(1) =~= rest);
        assert(fs.skip(1)[0] == fs[1]);
        lemma_joined_assoc(
            eval(fs[0], e, latency),
            eval(fs[1], e, latency),
            chain_value(rest, and, e, latency),
            and,
        );
        assert(chain_value(fs.skip(1), and, e, latency) == joined(
            eval(fs[1], e, latency),
            chain_value(rest, and, e, latency),
            and,
        ));
    }
}

proof fn lemma_balanced_value(fs: Seq<Formula>, and: bool, e: &Event, latency: Option<u64>)
    requires
        fs.len() >= 1,
    ensures
        eval(balanced(fs, and), e, latency) == chain_value(fs, and, e, latency),
    decreases fs.len(),
{
    if fs.len() > 1 {
        lemma_pair_up_len(fs, and);
        lemma_balanced_value(pair_up(fs, and), and, e, latency);
        lemma_pair_up_value(fs, and, e, latency);
    }
}

/// Balancing a flat chain of `and` or `or` terms changes how deeply it nests, not
/// what it selects: for every event it evaluates as the chain nested to the right,
/// errors and unknown results included.
pub proof fn law_balanced_chain_selects_alike(
    fs: Seq<Formula>,
    and: bool,
    e: &Event,
    latency: Option<u64>,
)
    ensures
        eval(balanced(fs, and), e, latency) == eval(chain(fs, and), e, latency),
{
    lemma_chain_value(fs, and, e, latency);
    if fs.len() >= 1 {
        lemma_balanced_value(fs, and, e, latency);
    }
}

pub open spec fn prepend_formula(f: Formula, r: ParsedList) -> ParsedList {
    match r {
        Ok((fs, b)) => Ok((seq![f] + fs, b)),
        Err(e) => Err(e),
    }
}

/// `and`-terms separated by `or` or `||`.
pub open spec fn or_list(toks: Seq<Tok>, at: int, d: nat) -> ParsedList
    decreases toks.len() - at, 3int,
{
    match and_list(toks, at, d) {
        Err(e) => Err(e),
        Ok((fs, a)) => {
            let f = balanced(fs, true);
            if at_kw(toks, a, "or"@) || at_kw(toks, a, "||"@) {
                if at <= a {
                    prepend_formula(f, or_list(toks, a + 1, d))
                } else {
                    Err(FilterError::UnexpectedEnd)
                }
            } else {
                Ok((seq![f], a))
            }
        },
    }
}

/// Unary terms, joined by `and`, `&&` or nothing, up to the end, `)`, `or` or `||`.
pub open spec fn and_list(toks: Seq<Tok>, at: int, d: nat) -> ParsedList
    decreases toks.len() - at, 2int,
{
    match p_unary(toks, at, d) {
        Err(e) => Err(e),
        Ok((f, a)) => if a >= toks.len() || at_kw(toks, a, ")"@) || at_kw(toks, a, "or"@)
            || at_kw(toks, a, "||"@) {
            Ok((seq![f], a))
        } else {
            let a2 = if at_kw(toks, a, "and"@) || at_kw(toks, a, "&&"@) {
                a + 1
            } else {
                a
            };
            if at < a2 <= toks.len() {
                prepend_formula(f, and_list(toks, a2, d))
            } else {
                Err(FilterError::UnexpectedEnd)
            }
        },
    }
}

/// `not` or `!` and a unary term, a parenthesised expression, or a predicate; `d`
/// unary terms enclose this one.
pub open spec fn p_unary(toks: Seq<Tok>, at: int, d: nat) -> Parsed
    decreases toks.len() - at, 1int,
{
    if d + 1 > 128 {
        Err(FilterError::NestingTooDeep)
    } else if at_kw(toks, at, "not"@) || at_kw(toks, at, "!"@) {
        match p_unary(toks, at + 1, d + 1) {
            Err(e) => Err(e),
            Ok((f, a)) => Ok((Formula::Not(Box::new(f)), a)),
        }
    } else if at_kw(toks, at, "("@) {
        match or_list(toks, at + 1, d + 1) {
            Err(e) => Err(e),
            Ok((fs, b)) => if at_kw(toks, b, ")"@) {
                Ok((balanced(fs, false), b + 1))
            } else {
                Err(FilterError::ExpectedCloseParen)
            },
        }
    } else {
        p_predicate(toks, at)
    }
}

/// A whole expression: `or`-terms, as a balanced tree.
pub open spec fn p_or(toks: Seq<Tok>, at: int, d: nat) -> Parsed {
    match or_list(toks, at, d) {
        Err(e) => Err(e),
        Ok((fs, a)) => Ok((balanced(fs, false), a)),
    }
}

/// An `and`-chain, as a balanced tree.
pub open spec fn p_and(toks: Seq<Tok>, at: int, d: nat) -> Parsed {
    match and_list(toks, at, d) {
        Err(e) => Err(e),
        Ok((fs, a)) => Ok((balanced(fs, true), a)),
    }
}

/// A filter from its tokens: no tokens select everything; otherwise an expression
/// that uses every token.
pub open spec fn parse_tokens(toks: Seq<Tok>) -> Result<Formula, FilterError> {
    if toks.len() == 0 {
        Ok(Formula::All)
    } else {
        match p_or(toks, 0, 0) {
            Err(e) => Err(e),
            Ok((f, a)) => if a < toks.len() {
                Err(FilterError::UnexpectedToken)
            } else {
                Ok(f)
            },
        }
    }
}

// ---------------------------------------------------------------------------
// Facts about parses

pub proof fn lemma_number_range(t: Seq<char>)
    ensures
        number(t) matches Ok(v) ==> i64::MIN <= v <= u64::MAX,
{
}

/// Every formula of a list is well formed.
pub open spec fn list_wf(fs: Seq<Formula>) -> bool {
    forall|i: int| 0 <= i < fs.len() ==> well_formed(#[trigger] fs[i])
}

pub proof fn lemma_balanced_wf(fs: Seq<Formula>, and: bool)
    requires
        list_wf(fs),
    ensures
        well_formed(balanced(fs, and)),
    decreases fs.len(),
{
    if fs.len() >= 2 {
        lemma_pair_up_wf(fs, and);
        lemma_pair_up_len(fs, and);
        lemma_balanced_wf(pair_up(fs, and), and);
    }
}

pub proof fn lemma_pair_up_wf(fs: Seq<Formula>, and: bool)
    requires
        list_wf(fs),
    ensures
        list_wf(pair_up(fs, and)),
    decreases fs.len(),
{
    if fs.len() >= 2 {
        assert(list_wf(fs.skip(2))) by {
            assert forall|i: int| 0 <= i < fs.skip(2).len() implies well_formed(
                #[trigger] fs.skip(2)[i],
            ) by {
                assert(fs.skip(2)[i] == fs[i + 2]);
            }
        }
        lemma_pair_up_wf(fs.skip(2), and);
        assert(well_formed(fs[0]) && well_formed(fs[1]));
        let p = pair_up(fs, and);
        assert forall|i: int| 0 <= i < p.len() implies well_formed(#[trigger] p[i]) by {
            if i > 0 {
                assert(p[i] == pair_up(fs.skip(2), and)[i - 1]);
            }
        }
    }
}

pub proof fn lemma_predicate_progress(toks: Seq<Tok>, at: int)
    ensures
        p_predicate(toks, at) matches Ok((f, a)) ==> at < a <= toks.len() && well_formed(f),
{
    reveal(p_predicate);
}

pub proof fn lemma_or_list(toks: Seq<Tok>, at: int, d: nat)
    ensures
        or_list(toks, at, d) matches Ok((fs, a)) ==> at < a <= toks.len() && fs.len() >= 1
            && list_wf(fs),
    decreases toks.len() - at, 3int,
{
    lemma_and_list(toks, at, d);
    if let Ok((fs, a)) = and_list(toks, at, d) {
        lemma_balanced_wf(fs, true);
        if at_kw(toks, a, "or"@) || at_kw(toks, a, "||"@) {
            lemma_or_list(toks, a + 1, d);
            if let Ok((gs, b)) = or_list(toks, a + 1, d) {
                let all = seq![balanced(fs, true)] + gs;
                assert forall|i: int| 0 <= i < all.len() implies well_formed(#[trigger] all[i]) by {
                    if i > 0 {
                        assert(all[i] == gs[i - 1]);
                    }
                }
            }
        }
    }
}

pub proof fn lemma_and_list(toks: Seq<Tok>, at: int, d: nat)
    ensures
        and_list(toks, at, d) matches Ok((fs, a)) ==> at < a <= toks.len() && fs.len() >= 1
            && list_wf(fs),
    decreases toks.len() - at, 2int,
{
    lemma_unary(toks, at, d);
    if let Ok((f, a)) = p_unary(toks, at, d) {
        let a2 = if at_kw(toks, a, "and"@) || at_kw(toks, a, "&&"@) {
            a + 1
        } else {
            a
        };
        if !(a >= toks.len() || at_kw(toks, a, ")"@) || at_kw(toks, a, "or"@) || at_kw(
            toks,
            a,
            "||"@,
        )) && at < a2 <= toks.len() {
            lemma_and_list(toks, a2, d);
            if let Ok((gs, b)) = and_list(toks, a2, d) {
                let all = seq![f] + gs;
                assert forall|i: int| 0 <= i < all.len() implies well_formed(#[trigger] all[i]) by {
                    if i > 0 {
                        assert(all[i] == gs[i - 1]);
                    }
                }
            }
        }
    }
}

pub proof fn lemma_unary(toks: Seq<Tok>, at: int, d: nat)
    ensures
        p_unary(toks, at, d) matches Ok((f, a)) ==> at < a <= toks.len() && well_formed(f),
    decreases toks.len() - at, 1int,
{
    if d + 1 > 128 {
    } else if at_kw(toks, at, "not"@) || at_kw(toks, at, "!"@) {
        lemma_unary(toks, at + 1, d + 1);
    } else if at_kw(toks, at, "("@) {
        lemma_or_list(toks, at + 1, d + 1);
        if let Ok((fs, b)) = or_list(toks, at + 1, d + 1) {
            lemma_balanced_wf(fs, false);
        }
    } else {
        lemma_predicate_progress(toks, at);
    }
}

/// A parsed filter is well formed.
pub proof fn lemma_parse_well_formed(toks: Seq<Tok>)
    ensures
        parse_tokens(toks) matches Ok(f) ==> well_formed(f),
{
    lemma_or_list(toks, 0, 0);
    if let Ok((fs, a)) = or_list(toks, 0, 0) {
        lemma_balanced_wf(fs, false);
    }
}

// ---------------------------------------------------------------------------
// Reading numbers, durations and patterns

/// Whether a token's text is the given word.
pub(crate) fn text_eq(t: &Vec<char>, w: &str) -> (r: bool)
    ensures
        r == (t@ == w@),
{
    let n = w.unicode_len();
    if t.len() != n {
        return false;
    }
    let mut i: usize = 0;
    while i < n
        invariant
            n == w@.len(),
            t@.len() == n,
            i <= n,
            forall|k: int| 0 <= k < i ==> t@[k] == w@[k],
        decreases n - i,
    {
        if t[i] != w.get_char(i) {
            return false;
        }
        i = i + 1;
    }
    assert(t@ =~= w@);
    true
}

/// Whether the token at `at` is the given word.
fn kw(tokens: &Vec<Token>, at: usize, w: &str) -> (r: bool)
    ensures
        r == at_kw(toks_of(tokens@), at as int, w@),
        r ==> at < tokens@.len(),
        tokens@.len() <= usize::MAX,
{
    if at < tokens.len() {
        text_eq(&tokens[at].text, w)
    } else {
        false
    }
}

fn digit_value(c: char, hex: bool) -> (r: Option<u8>)
    ensures
        match r {
            Some(d) => digit(c, hex) == Some(d as nat),
            None => digit(c, hex) is None,
        },
{
    if '0' <= c && c <= '9' {
        Some(((c as u32) - ('0' as u32)) as u8)
    } else if hex && 'a' <= c && c <= 'f' {
        Some(((c as u32) - ('a' as u32) + 10) as u8)
    } else if hex && 'A' <= c && c <= 'F' {
        Some(((c as u32) - ('A' as u32) + 10) as u8)
    } else {
        None
    }
}

proof fn lemma_digits_step(s: Seq<char>, k: int, hex: bool)
    requires
        0 <= k < s.len(),
    ensures
        digits_value(s.take(k + 1), hex) == digits_value(s.take(k), hex) * radix(hex) + match digit(
            s[k],
            hex,
        ) {
            Some(d) => d,
            None => 0,
        },
{
    assert(s.take(k + 1).drop_last() =~= s.take(k));
}

proof fn lemma_digits_grow(s: Seq<char>, k: int, hex: bool)
    requires
        0 <= k <= s.len(),
    ensures
        digits_value(s.take(k), hex) <= digits_value(s, hex),
    decreases s.len() - k,
{
    if k < s.len() {
        lemma_digits_grow(s, k + 1, hex);
        lemma_digits_step(s, k, hex);
        let x = digits_value(s.take(k), hex) as int;
        let r = radix(hex) as int;
        assert(x <= x * r) by (nonlinear_arith)
            requires
                x >= 0,
                r >= 1,
        ;
    } else {
        assert(s.take(k) =~= s);
    }
}

/// The digits of `t` from `from` on, when there are some, all valid, and their value
/// is at most `limit`.
pub(crate) fn read_digits(t: &Vec<char>, from: usize, hex: bool, limit: u128) -> (r: Option<u128>)
    requires
        from <= t@.len(),
    ensures
        match r {
            Some(v) => plain_digits(t@.skip(from as int), hex) == Some(v as nat) && v <= limit,
            None => plain_digits(t@.skip(from as int), hex) matches Some(v) ==> v > limit,
        },
{
    let ghost s = t@.skip(from as int);
    let n = t.len();
    if from >= n {
        return None;
    }
    let base: u128 = if hex {
        16
    } else {
        10
    };
    let mut acc: u128 = 0;
    let mut i = from;
    assert(s.take(0) =~= Seq::<char>::empty());
    while i < n
        invariant
            from <= i <= n,
            n == t@.len(),
            s == t@.skip(from as int),
            base == radix(hex),
            acc as nat == digits_value(s.take(i - from), hex),
            acc <= limit,
            forall|k: int| 0 <= k < i - from ==> (#[trigger] digit(s[k], hex)) is Some,
        decreases n - i,
    {
        let c = t[i];
        assert(s[i - from] == c);
        let d = match digit_value(c, hex) {
            Some(d) => d,
            None => {
                return None;
            },
        };
        proof {
            lemma_digits_step(s, i - from, hex);
            if all_digits(s, hex) {
                lemma_digits_grow(s, i - from + 1, hex);
            }
        }
        let m = match acc.checked_mul(base) {
            Some(m) => m,
            None => {
                return None;
            },
        };
        let v = match m.checked_add(d as u128) {
            Some(v) => v,
            None => {
                return None;
            },
        };
        if v > limit {
            return None;
        }
        acc = v;
        i = i + 1;
    }
    assert(s.take(n - from) =~= s);
    assert(all_digits(s, hex));
    Some(acc)
}

/// A number in a filter (see [`number`]).
pub fn number_of(t: &Vec<char>) -> (r: Result<i128, FilterError>)
    ensures
        match r {
            Ok(v) => number(t@) == Ok::<int, FilterError>(v as int),
            Err(e) => number(t@) == Err::<int, FilterError>(e),
        },
{
    if t.len() >= 2 && t[0] == '0' && t[1] == 'x' {
        let from: usize = if t.len() > 2 && t[2] == '+' {
            3
        } else {
            2
        };
        proof {
            if t@.len() > 2 {
                assert(t@.skip(2).drop_first() =~= t@.skip(3));
            }
        }
        match read_digits(t, from, true, 0xffff_ffff_ffff_ffffu128) {
            Some(v) => Ok(v as i128),
            None => Err(FilterError::InvalidHexNumber),
        }
    } else {
        let neg = t.len() > 0 && t[0] == '-';
        let from: usize = if t.len() > 0 && (t[0] == '-' || t[0] == '+') {
            1
        } else {
            0
        };
        proof {
            assert(t@.skip(0) =~= t@);
            if t@.len() > 0 {
                assert(t@.drop_first() =~= t@.skip(1));
            }
        }
        match read_digits(t, from, false, 0x8000_0000_0000_0000_0000_0000_0000_0000u128) {
            None => Err(FilterError::InvalidNumber),
            Some(m) => {
                if !neg && m == 0x8000_0000_0000_0000_0000_0000_0000_0000u128 {
                    return Err(FilterError::InvalidNumber);
                }
                let v: i128 = if neg {
                    if m == 0x8000_0000_0000_0000_0000_0000_0000_0000u128 {
                        i128::MIN
                    } else {
                        -(m as i128)
                    }
                } else {
                    m as i128
                };
                if v < -0x8000_0000_0000_0000i128 || v > 0xffff_ffff_ffff_ffffi128 {
                    Err(FilterError::NumberOutOfRange)
                } else {
                    Ok(v)
                }
            },
        }
    }
}

fn scaled_number(t: &Vec<char>, head: usize, k: i128) -> (r: Result<i128, FilterError>)
    requires
        head <= t@.len(),
        1 <= k <= 1_000_000_000,
    ensures
        match r {
            Ok(v) => scaled(number(t@.take(head as int)), k as int) == Ok::<int, FilterError>(
                v as int,
            ),
            Err(e) => scaled(number(t@.take(head as int)), k as int) == Err::<int, FilterError>(e),
        },
{
    let text = slice_chars(t, 0, head);
    assert(text@ =~= t@.take(head as int));
    match number_of(&text) {
        Err(e) => Err(e),
        Ok(v) => {
            proof {
                lemma_number_range(text@);
            }
            assert(-0x1_0000_0000_0000_0000 * 1_000_000_000 <= v * k <= 0x1_0000_0000_0000_0000
                * 1_000_000_000) by (nonlinear_arith)
                requires
                    -0x1_0000_0000_0000_0000 <= v <= 0x1_0000_0000_0000_0000,
                    1 <= k <= 1_000_000_000,
            ;
            Ok(v * k)
        },
    }
}

/// A latency in nanoseconds (see [`duration`]).
pub fn duration_of(t: &Vec<char>) -> (r: Result<i128, FilterError>)
    ensures
        match r {
            Ok(v) => duration(t@) == Ok::<int, FilterError>(v as int),
            Err(e) => duration(t@) == Err::<int, FilterError>(e),
        },
{
    let n = t.len();
    if n >= 2 && t[n - 2] == 'n' && t[n - 1] == 's' {
        scaled_number(t, n - 2, 1)
    } else if n >= 2 && t[n - 2] == 'u' && t[n - 1] == 's' {
        scaled_number(t, n - 2, 1000)
    } else if n >= 2 && t[n - 2] == 'm' && t[n - 1] == 's' {
        scaled_number(t, n - 2, 1_000_000)
    } else if n >= 1 && t[n - 1] == 's' {
        assert(t@.drop_last() =~= t@.take(n - 1));
        scaled_number(t, n - 1, 1_000_000_000)
    } else {
        number_of(t)
    }
}

proof fn lemma_encode_push(a: Seq<char>, c: char)
    ensures
        encode_utf8(a.push(c)) == encode_utf8(a) + encode_scalar(c as u32),
    decreases a.len(),
{
    let e = encode_scalar(c as u32);
    if a.len() == 0 {
        assert(a.push(c).drop_first() =~= Seq::<char>::empty());
        assert(encode_utf8(Seq::<char>::empty()) =~= Seq::<u8>::empty());
        assert(encode_utf8(a) =~= Seq::<u8>::empty());
        assert(encode_utf8(a.push(c)) == e + encode_utf8(a.push(c).drop_first()));
        assert(e + Seq::<u8>::empty() =~= e);
        assert(Seq::<u8>::empty() + e =~= e);
    } else {
        lemma_encode_push(a.drop_first(), c);
        assert(a.push(c).drop_first() =~= a.drop_first().push(c));
        assert(a.push(c)[0] == a[0]);
        let h = encode_scalar(a[0] as u32);
        let m = encode_utf8(a.drop_first());
        assert(encode_utf8(a.push(c)) == h + encode_utf8(a.push(c).drop_first()));
        assert(encode_utf8(a) == h + m);
        assert(h + (m + e) =~= (h + m) + e);
    }
}

/// Appends the UTF-8 encoding of one character.
fn push_utf8(out: &mut Vec<u8>, c: char)
    ensures
        final(out)@ == old(out)@ + encode_scalar(c as u32),
{
    let v = c as u32;
    proof {
        char_is_scalar(c);
    }
    if v <= 0x7F {
        out.push((v & 0x7F) as u8);
    } else if v <= 0x7FF {
        out.push(0xC0 | ((v >> 6) & 0x1F) as u8);
        out.push(0x80 | (v & 0x3F) as u8);
    } else if v <= 0xFFFF {
        out.push(0xE0 | ((v >> 12) & 0x0F) as u8);
        out.push(0x80 | ((v >> 6) & 0x3F) as u8);
        out.push(0x80 | (v & 0x3F) as u8);
    } else {
        out.push(0xF0 | ((v >> 18) & 0x7) as u8);
        out.push(0x80 | ((v >> 12) & 0x3F) as u8);
        out.push(0x80 | ((v >> 6) & 0x3F) as u8);
        out.push(0x80 | (v & 0x3F) as u8);
    }
}

/// The UTF-8 encoding of the characters of `t` from `from` on.
fn utf8_of(t: &Vec<char>, from: usize) -> (r: Vec<u8>)
    requires
        from <= t@.len(),
    ensures
        r@ == encode_utf8(t@.skip(from as int)),
{
    let mut out: Vec<u8> = Vec::new();
    let mut i = from;
    assert(t@.subrange(from as int, from as int) =~= Seq::<char>::empty());
    while i < t.len()
        invariant
            from <= i <= t@.len(),
            out@ == encode_utf8(t@.subrange(from as int, i as int)),
        decreases t@.len() - i,
    {
        proof {
            lemma_encode_push(t@.subrange(from as int, i as int), t@[i as int]);
            assert(t@.subrange(from as int, i as int).push(t@[i as int]) =~= t@.subrange(
                from as int,
                i + 1,
            ));
        }
        push_utf8(&mut out, t[i]);
        i = i + 1;
    }
    assert(t@.subrange(from as int, t@.len() as int) =~= t@.skip(from as int));
    out
}

fn hex_byte_of(b: u8) -> (r: Option<u8>)
    ensures
        match r {
            Some(d) => hex_byte(b) == Some(d as nat),
            None => hex_byte(b) is None,
        },
{
    if 0x30 <= b && b <= 0x39 {
        Some(b - 0x30)
    } else if 0x61 <= b && b <= 0x66 {
        Some(b - 0x61 + 10)
    } else if 0x41 <= b && b <= 0x46 {
        Some(b - 0x41 + 10)
    } else {
        None
    }
}

fn pair_value_of(a: u8, b: u8) -> (r: Option<u8>)
    ensures
        match r {
            Some(v) => pair_value(a, b) == Some(v as nat),
            None => pair_value(a, b) is None,
        },
{
    if a == 0x2b {
        hex_byte_of(b)
    } else {
        match (hex_byte_of(a), hex_byte_of(b)) {
            (Some(x), Some(y)) => Some(16 * x + y),
            _ => None,
        }
    }
}

pub open spec fn prefixed(pre: Seq<u8>, r: Option<Seq<u8>>) -> Option<Seq<u8>> {
    match r {
        Some(v) => Some(pre + v),
        None => None,
    }
}

/// Bytes read two at a time as hex bytes (see [`hex_pairs`]).
fn hex_pairs_of(b: &Vec<u8>) -> (r: Option<Vec<u8>>)
    ensures
        match r {
            Some(v) => hex_pairs(b@) == Some(v@),
            None => hex_pairs(b@) is None,
        },
{
    let mut out: Vec<u8> = Vec::new();
    let mut i: usize = 0;
    assert(b@.skip(0) =~= b@);
    assert(Seq::<u8>::empty() + Seq::<u8>::empty() =~= Seq::<u8>::empty());
    proof {
        match hex_pairs(b@) {
            Some(v) => {
                assert(Seq::<u8>::empty() + v =~= v);
            },
            None => {},
        }
    }
    while b.len() - i >= 2
        invariant
            i <= b@.len(),
            hex_pairs(b@) == prefixed(out@, hex_pairs(b@.skip(i as int))),
        decreases b@.len() - i,
    {
        let ghost rest = b@.skip(i as int);
        assert(rest[0] == b@[i as int] && rest[1] == b@[i + 1]);
        assert(rest.skip(2) =~= b@.skip(i + 2));
        match pair_value_of(b[i], b[i + 1]) {
            None => {
                return None;
            },
            Some(v) => {
                proof {
                    match hex_pairs(b@.skip(i + 2)) {
                        Some(t) => {
                            assert(out@ + (seq![v] + t) =~= out@.push(v) + t);
                        },
                        None => {},
                    }
                }
                out.push(v);
                i = i + 2;
            },
        }
    }
    if i < b.len() {
        assert(b@.skip(i as int).len() == 1);
        return None;
    }
    assert(b@.skip(i as int).len() == 0);
    assert(out@ + Seq::<u8>::empty() =~= out@);
    Some(out)
}

/// The bytes a `payload contains` pattern searches for (see [`pattern`]).
fn pattern_of(t: &Token) -> (r: Result<Vec<u8>, FilterError>)
    ensures
        match r {
            Ok(v) => pattern(t.tok()) == Ok::<Seq<u8>, FilterError>(v@),
            Err(e) => pattern(t.tok()) == Err::<Seq<u8>, FilterError>(e),
        },
{
    if t.quoted {
        let b = utf8_of(&t.text, 0);
        assert(t.text@.skip(0) =~= t.text@);
        if b.len() == 0 {
            Err(FilterError::EmptyPattern)
        } else {
            Ok(b)
        }
    } else if !(t.text.len() >= 2 && t.text[0] == '0' && t.text[1] == 'x') {
        Err(FilterError::PatternNotHex)
    } else {
        let b = utf8_of(&t.text, 2);
        if b.len() % 2 == 1 {
            Err(FilterError::OddHexPattern)
        } else {
            match hex_pairs_of(&b) {
                None => Err(FilterError::InvalidHexPattern),
                Some(v) => if v.len() == 0 {
                    Err(FilterError::EmptyPattern)
                } else {
                    Ok(v)
                },
            }
        }
    }
}

// ---------------------------------------------------------------------------
// Reading predicates

/// The parse of one term, by its formula.
pub open spec fn pview(r: Result<(Expr, usize), FilterError>) -> Parsed {
    match r {
        Ok((e, a)) => Ok((e.formula(), a as int)),
        Err(e) => Err(e),
    }
}

/// The field a name selects (see [`named_field`]).
fn named_field_of(n: &Vec<char>) -> (r: Option<(Field, Option<i128>)>)
    ensures
        match r {
            None => named_field(n@) is None,
            Some((f, None)) => named_field(n@) == Some((f, None::<int>)),
            Some((f, Some(v))) => named_field(n@) == Some((f, Some(v as int))),
        },
{
    if text_eq(n, "bus") {
        Some((Field::Bus, None))
    } else if text_eq(n, "dev") || text_eq(n, "device") {
        Some((Field::Device, None))
    } else if text_eq(n, "vid") {
        Some((Field::Vid, None))
    } else if text_eq(n, "pid") {
        Some((Field::Pid, None))
    } else if text_eq(n, "ep") || text_eq(n, "endpoint") {
        Some((Field::Endpoint, None))
    } else if text_eq(n, "epnum") {
        Some((Field::EpNum, None))
    } else if text_eq(n, "in") {
        Some((Field::Direction, Some(1)))
    } else if text_eq(n, "out") {
        Some((Field::Direction, Some(0)))
    } else if text_eq(n, "dir") || text_eq(n, "direction") {
        Some((Field::Direction, None))
    } else if text_eq(n, "iso") || text_eq(n, "isoc") {
        Some((Field::Transfer, Some(0)))
    } else if text_eq(n, "interrupt") || text_eq(n, "intr") {
        Some((Field::Transfer, Some(1)))
    } else if text_eq(n, "control") || text_eq(n, "ctrl") {
        Some((Field::Transfer, Some(2)))
    } else if text_eq(n, "bulk") {
        Some((Field::Transfer, Some(3)))
    } else if text_eq(n, "type") {
        Some((Field::Transfer, None))
    } else if text_eq(n, "requested") {
        Some((Field::Requested, None))
    } else if text_eq(n, "actual") {
        Some((Field::Actual, None))
    } else if text_eq(n, "len") || text_eq(n, "length") {
        Some((Field::Length, None))
    } else if text_eq(n, "captured") {
        Some((Field::Captured, None))
    } else if text_eq(n, "frames") {
        Some((Field::Frames, None))
    } else if text_eq(n, "status") {
        Some((Field::Status, None))
    } else if text_eq(n, "event") {
        Some((Field::Event, None))
    } else if text_eq(n, "interval") {
        Some((Field::Interval, None))
    } else if text_eq(n, "start_frame") {
        Some((Field::StartFrame, None))
    } else if text_eq(n, "errors") {
        Some((Field::Errors, None))
    } else if text_eq(n, "urb") {
        Some((Field::UrbId, None))
    } else if text_eq(n, "setup.request") {
        Some((Field::Request, None))
    } else if text_eq(n, "setup.type") {
        Some((Field::RequestType, None))
    } else if text_eq(n, "setup.value") {
        Some((Field::Value, None))
    } else if text_eq(n, "setup.index") {
        Some((Field::Index, None))
    } else if text_eq(n, "setup.length") {
        Some((Field::SetupLength, None))
    } else if text_eq(n, "latency") {
        Some((Field::Latency, None))
    } else {
        None
    }
}

/// The value a token compares against (see [`value_of`]).
fn value_for(field: Field, t: &Vec<char>) -> (r: Result<i128, FilterError>)
    ensures
        match r {
            Ok(v) => value_of(field, t@) == Ok::<int, FilterError>(v as int),
            Err(e) => value_of(field, t@) == Err::<int, FilterError>(e),
        },
{
    match field {
        Field::Direction => if text_eq(t, "in") {
            Ok(1)
        } else if text_eq(t, "out") {
            Ok(0)
        } else {
            number_of(t)
        },
        Field::Transfer => if text_eq(t, "iso") || text_eq(t, "isoc") {
            Ok(0)
        } else if text_eq(t, "interrupt") || text_eq(t, "intr") {
            Ok(1)
        } else if text_eq(t, "control") || text_eq(t, "ctrl") {
            Ok(2)
        } else if text_eq(t, "bulk") {
            Ok(3)
        } else {
            number_of(t)
        },
        Field::Event => if text_eq(t, "S") || text_eq(t, "submit") {
            Ok(0x53)
        } else if text_eq(t, "C") || text_eq(t, "complete") {
            Ok(0x43)
        } else if text_eq(t, "E") || text_eq(t, "error") {
            Ok(0x45)
        } else {
            number_of(t)
        },
        Field::Latency => duration_of(t),
        _ => number_of(t),
    }
}

/// The optional `:width` of a payload extraction (see [`payload_width`]).
fn payload_width_of(tokens: &Vec<Token>, at: usize) -> (r: Result<(i128, usize), FilterError>)
    requires
        at <= tokens@.len(),
    ensures
        match r {
            Ok((w, a)) => payload_width(toks_of(tokens@), at as int) == Ok::<(int, int), FilterError>(
                (w as int, a as int),
            ),
            Err(e) => payload_width(toks_of(tokens@), at as int) == Err::<(int, int), FilterError>(e),
        },
{
    if kw(tokens, at, ":") {
        if at + 1 >= tokens.len() {
            Err(FilterError::UnexpectedEnd)
        } else {
            match number_of(&tokens[at + 1].text) {
                Err(e) => Err(e),
                Ok(w) => if 0 <= w && w <= 255 {
                    Ok((w, at + 2))
                } else {
                    Err(FilterError::InvalidPayloadWidth)
                },
            }
        }
    } else {
        Ok((1, at))
    }
}

/// `[offset]` or `[offset:width]` (see [`payload_field`]).
fn payload_field_of(tokens: &Vec<Token>, at: usize) -> (r: Result<(Field, usize), FilterError>)
    requires
        at <= tokens@.len(),
    ensures
        match r {
            Ok((f, a)) => payload_field(toks_of(tokens@), at as int) == Ok::<(Field, int), FilterError>(
                (f, a as int),
            ),
            Err(e) => payload_field(toks_of(tokens@), at as int) == Err::<(Field, int), FilterError>(e),
        },
{
    if !kw(tokens, at, "[") {
        return Err(FilterError::ExpectedOpenBracket);
    }
    if at + 1 >= tokens.len() {
        return Err(FilterError::UnexpectedEnd);
    }
    let offset = match number_of(&tokens[at + 1].text) {
        Err(e) => {
            return Err(e);
        },
        Ok(v) => v,
    };
    if offset < 0 {
        return Err(FilterError::InvalidPayloadOffset);
    }
    proof {
        lemma_number_range(tokens@[at + 1].text@);
    }
    match payload_width_of(tokens, at + 2) {
        Err(e) => Err(e),
        Ok((w, a)) => if !(w == 1 || w == 2 || w == 4 || w == 8) {
            Err(FilterError::InvalidPayloadWidth)
        } else if !kw(tokens, a, "]") {
            Err(FilterError::ExpectedCloseBracket)
        } else {
            Ok((Field::Payload(offset as u64, w as u8), a + 1))
        },
    }
}

/// The optional `& mask` (see [`mask_part`]).
fn mask_of(tokens: &Vec<Token>, at: usize) -> (r: Result<(Option<u64>, usize), FilterError>)
    requires
        at <= tokens@.len(),
    ensures
        match r {
            Ok((m, a)) => mask_part(toks_of(tokens@), at as int) == Ok::<
                (Option<u64>, int),
                FilterError,
            >((m, a as int)),
            Err(e) => mask_part(toks_of(tokens@), at as int) == Err::<(Option<u64>, int), FilterError>(
                e,
            ),
        },
{
    if kw(tokens, at, "&") {
        if at + 1 >= tokens.len() {
            Err(FilterError::UnexpectedEnd)
        } else {
            match number_of(&tokens[at + 1].text) {
                Err(e) => Err(e),
                Ok(m) => if m < 0 {
                    Err(FilterError::InvalidMask)
                } else {
                    proof {
                        lemma_number_range(tokens@[at + 1].text@);
                    }
                    Ok((Some(m as u64), at + 2))
                },
            }
        }
    } else {
        Ok((None, at))
    }
}

/// The optional comparison operator (see [`comparison_part`]).
fn comparison_of(tokens: &Vec<Token>, at: usize) -> (r: (Compare, usize))
    requires
        at <= tokens@.len(),
    ensures
        comparison_part(toks_of(tokens@), at as int) == (r.0, r.1 as int),
{
    if kw(tokens, at, "=") || kw(tokens, at, "==") {
        (Compare::Eq, at + 1)
    } else if kw(tokens, at, "!=") {
        (Compare::Ne, at + 1)
    } else if kw(tokens, at, "<") {
        (Compare::Lt, at + 1)
    } else if kw(tokens, at, "<=") {
        (Compare::Le, at + 1)
    } else if kw(tokens, at, ">") {
        (Compare::Gt, at + 1)
    } else if kw(tokens, at, ">=") {
        (Compare::Ge, at + 1)
    } else {
        (Compare::Eq, at)
    }
}

/// Mask, comparison and value after a field (see [`predicate_rest`]).
fn predicate_rest_of(tokens: &Vec<Token>, at: usize, field: Field) -> (r: Result<
    (Expr, usize),
    FilterError,
>)
    requires
        at <= tokens@.len(),
    ensures
        pview(r) == predicate_rest(toks_of(tokens@), at as int, field),
{
    let (mask, a) = match mask_of(tokens, at) {
        Err(e) => {
            return Err(e);
        },
        Ok(x) => x,
    };
    let (comparison, b) = comparison_of(tokens, a);
    if b >= tokens.len() {
        return Err(FilterError::UnexpectedEnd);
    }
    match value_for(field, &tokens[b].text) {
        Err(e) => Err(e),
        Ok(value) => Ok((Expr::Predicate(Predicate { field, mask, comparison, value }), b + 1)),
    }
}

/// A single test (see [`p_predicate`]).
fn parse_predicate(tokens: &Vec<Token>, at: usize) -> (r: Result<(Expr, usize), FilterError>)
    requires
        at <= tokens@.len(),
    ensures
        pview(r) == p_predicate(toks_of(tokens@), at as int),
{
    reveal(p_predicate);
    if at >= tokens.len() {
        return Err(FilterError::UnexpectedEnd);
    }
    let name = &tokens[at].text;
    if text_eq(name, "payload") {
        if kw(tokens, at + 1, "contains") {
            if at + 2 >= tokens.len() {
                Err(FilterError::UnexpectedEnd)
            } else {
                match pattern_of(&tokens[at + 2]) {
                    Err(e) => Err(e),
                    Ok(b) => Ok((Expr::Contains(b), at + 3)),
                }
            }
        } else {
            match payload_field_of(tokens, at + 1) {
                Err(e) => Err(e),
                Ok((field, a)) => predicate_rest_of(tokens, a, field),
            }
        }
    } else {
        match named_field_of(name) {
            None => Err(FilterError::UnknownField),
            Some((field, Some(value))) => Ok(
                (
                    Expr::Predicate(
                        Predicate { field, mask: None, comparison: Compare::Eq, value },
                    ),
                    at + 1,
                ),
            ),
            Some((field, None)) => predicate_rest_of(tokens, at + 1, field),
        }
    }
}

// ---------------------------------------------------------------------------
// Reading expressions

pub open spec fn formulas(v: Seq<Expr>) -> Seq<Formula> {
    v.map_values(|e: Expr| e.formula())
}

/// The formulas of `v`, last first.
pub open spec fn formulas_reversed(v: Seq<Expr>) -> Seq<Formula> {
    Seq::new(v.len(), |i: int| v[v.len() - 1 - i].formula())
}

fn join_exprs(a: Expr, b: Expr, and: bool) -> (r: Expr)
    ensures
        r.formula() == join(a.formula(), b.formula(), and),
{
    if and {
        Expr::And(Box::new(a), Box::new(b))
    } else {
        Expr::Or(Box::new(a), Box::new(b))
    }
}

/// One round of pairing neighbours (see [`pair_up`]).
fn pair_round(nodes: Vec<Expr>, and: bool) -> (r: Vec<Expr>)
    ensures
        formulas(r@) == pair_up(formulas(nodes@), and),
{
    let ghost f0 = formulas(nodes@);
    let mut nodes = nodes;
    let mut rev: Vec<Expr> = Vec::new();
    assert(formulas(nodes@) + formulas_reversed(rev@) =~= f0);
    while nodes.len() > 0
        invariant
            formulas(nodes@) + formulas_reversed(rev@) == f0,
        decreases nodes@.len(),
    {
        let ghost before = nodes@;
        let ghost rbefore = rev@;
        match nodes.pop() {
            Some(x) => {
                rev.push(x);
                proof {
                    assert(formulas_reversed(rev@) =~= seq![x.formula()] + formulas_reversed(
                        rbefore,
                    ));
                    assert(formulas(before) =~= formulas(nodes@).push(x.formula()));
                    assert(formulas(nodes@) + formulas_reversed(rev@) =~= formulas(before)
                        + formulas_reversed(rbefore));
                }
            },
            None => {},
        }
    }
    assert(formulas_reversed(rev@) =~= f0);
    let mut next: Vec<Expr> = Vec::new();
    assert(formulas(next@) + pair_up(formulas_reversed(rev@), and) =~= pair_up(f0, and));
    while rev.len() > 0
        invariant
            formulas(next@) + pair_up(formulas_reversed(rev@), and) == pair_up(f0, and),
        decreases rev@.len(),
    {
        let ghost r0 = rev@;
        let ghost n0 = next@;
        let a = match rev.pop() {
            Some(a) => a,
            None => {
                return next;
            },
        };
        if rev.len() > 0 {
            let ghost r1 = rev@;
            let b = match rev.pop() {
                Some(b) => b,
                None => {
                    return next;
                },
            };
            let ghost rest = formulas_reversed(rev@);
            let j = join_exprs(a, b, and);
            proof {
                let fr = formulas_reversed(r0);
                assert(fr[0] == a.formula());
                assert(fr[1] == b.formula());
                assert(fr.skip(2) =~= rest);
                assert(pair_up(fr, and) == seq![join(fr[0], fr[1], and)] + pair_up(fr.skip(2), and));
            }
            next.push(j);
            proof {
                assert(formulas(next@) =~= formulas(n0).push(j.formula()));
                assert(formulas(next@) + pair_up(rest, and) =~= formulas(n0) + (seq![j.formula()]
                    + pair_up(rest, and)));
            }
        } else {
            proof {
                let fr = formulas_reversed(r0);
                assert(fr =~= seq![a.formula()]);
                assert(formulas_reversed(rev@) =~= Seq::<Formula>::empty());
                assert(pair_up(Seq::<Formula>::empty(), and) =~= Seq::<Formula>::empty());
            }
            next.push(a);
            proof {
                assert(formulas(next@) =~= formulas(n0).push(a.formula()));
                assert(formulas(next@) + pair_up(formulas_reversed(rev@), and) =~= formulas(n0)
                    + pair_up(formulas_reversed(r0), and));
            }
        }
    }
    assert(formulas_reversed(rev@) =~= Seq::<Formula>::empty());
    assert(formulas(next@) + Seq::<Formula>::empty() =~= formulas(next@));
    next
}

/// A chain of terms as a balanced tree (see [`balanced`]).
fn balance(nodes: Vec<Expr>, and: bool) -> (r: Expr)
    requires
        nodes@.len() >= 1,
    ensures
        r.formula() == balanced(formulas(nodes@), and),
{
    let ghost f0 = formulas(nodes@);
    let mut nodes = nodes;
    while nodes.len() > 1
        invariant
            nodes@.len() >= 1,
            balanced(formulas(nodes@), and) == balanced(f0, and),
        decreases nodes@.len(),
    {
        let ghost before = formulas(nodes@);
        proof {
            lemma_pair_up_len(before, and);
        }
        nodes = pair_round(nodes, and);
        assert(formulas(nodes@).len() == nodes@.len());
    }
    let ghost last = formulas(nodes@);
    match nodes.pop() {
        Some(x) => {
            assert(last[0] == x.formula());
            x
        },
        None => Expr::All,
    }
}

pub open spec fn prepend_fs(fs: Seq<Formula>, r: ParsedList) -> ParsedList {
    match r {
        Ok((gs, b)) => Ok((fs + gs, b)),
        Err(e) => Err(e),
    }
}

/// What follows an `and`-chain inside an `or`-list.
pub open spec fn or_tail(toks: Seq<Tok>, a: int, d: nat) -> ParsedList {
    if at_kw(toks, a, "or"@) || at_kw(toks, a, "||"@) {
        or_list(toks, a + 1, d)
    } else {
        Ok((Seq::empty(), a))
    }
}

/// What follows a unary term inside an `and`-list.
pub open spec fn and_tail(toks: Seq<Tok>, a: int, d: nat) -> ParsedList {
    if a >= toks.len() || at_kw(toks, a, ")"@) || at_kw(toks, a, "or"@) || at_kw(toks, a, "||"@) {
        Ok((Seq::empty(), a))
    } else {
        let a2 = if at_kw(toks, a, "and"@) || at_kw(toks, a, "&&"@) {
            a + 1
        } else {
            a
        };
        and_list(toks, a2, d)
    }
}

proof fn lemma_prepend_fs(fs: Seq<Formula>, f: Formula, r: ParsedList)
    ensures
        prepend_fs(fs, prepend_fs(seq![f], r)) == prepend_fs(fs.push(f), r),
        prepend_fs(seq![f], r) == prepend_formula(f, r),
{
    match r {
        Ok((gs, b)) => {
            assert(fs + (seq![f] + gs) =~= fs.push(f) + gs);
        },
        Err(e) => {},
    }
}

proof fn lemma_or_unfold(toks: Seq<Tok>, at: int, d: nat)
    ensures
        or_list(toks, at, d) == match and_list(toks, at, d) {
            Err(e) => Err(e),
            Ok((fs, a)) => prepend_fs(seq![balanced(fs, true)], or_tail(toks, a, d)),
        },
{
    lemma_and_list(toks, at, d);
    if let Ok((fs, a)) = and_list(toks, at, d) {
        let f = balanced(fs, true);
        lemma_prepend_fs(Seq::empty(), f, or_tail(toks, a, d));
        assert(seq![f] + Seq::<Formula>::empty() =~= seq![f]);
    }
}

proof fn lemma_and_unfold(toks: Seq<Tok>, at: int, d: nat)
    ensures
        and_list(toks, at, d) == match p_unary(toks, at, d) {
            Err(e) => Err(e),
            Ok((f, a)) => prepend_fs(seq![f], and_tail(toks, a, d)),
        },
{
    lemma_unary(toks, at, d);
    if let Ok((f, a)) = p_unary(toks, at, d) {
        lemma_prepend_fs(Seq::empty(), f, and_tail(toks, a, d));
        assert(seq![f] + Seq::<Formula>::empty() =~= seq![f]);
    }
}

/// An expression: `and`-chains separated by `or` or `||` (see [`p_or`]).
fn parse_or(tokens: &Vec<Token>, at: usize, depth: usize) -> (r: Result<(Expr, usize), FilterError>)
    requires
        at <= tokens@.len(),
        depth <= 128,
    ensures
        pview(r) == p_or(toks_of(tokens@), at as int, depth as nat),
    decreases tokens@.len() - at, 3int,
{
    let ghost toks = toks_of(tokens@);
    proof {
        lemma_or_unfold(toks, at as int, depth as nat);
        lemma_and_list(toks, at as int, depth as nat);
    }
    let (first, a) = match parse_and(tokens, at, depth) {
        Err(e) => {
            return Err(e);
        },
        Ok(x) => x,
    };
    let mut nodes: Vec<Expr> = Vec::new();
    nodes.push(first);
    let mut pos = a;
    assert(formulas(nodes@) =~= seq![first.formula()]);
    while kw(tokens, pos, "or") || kw(tokens, pos, "||")
        invariant
            at < pos <= tokens@.len(),
            depth <= 128,
            toks == toks_of(tokens@),
            nodes@.len() >= 1,
            or_list(toks, at as int, depth as nat) == prepend_fs(
                formulas(nodes@),
                or_tail(toks, pos as int, depth as nat),
            ),
        decreases tokens@.len() - pos,
    {
        proof {
            lemma_or_unfold(toks, pos + 1, depth as nat);
            lemma_and_list(toks, pos + 1, depth as nat);
        }
        match parse_and(tokens, pos + 1, depth) {
            Err(e) => {
                return Err(e);
            },
            Ok((f, b)) => {
                let ghost before = formulas(nodes@);
                proof {
                    lemma_prepend_fs(before, f.formula(), or_tail(toks, b as int, depth as nat));
                }
                nodes.push(f);
                assert(formulas(nodes@) =~= before.push(f.formula()));
                pos = b;
            },
        }
    }
    assert(formulas(nodes@) + Seq::<Formula>::empty() =~= formulas(nodes@));
    let e = balance(nodes, false);
    Ok((e, pos))
}

/// A chain of unary terms (see [`p_and`]).
fn parse_and(tokens: &Vec<Token>, at: usize, depth: usize) -> (r: Result<(Expr, usize), FilterError>)
    requires
        at <= tokens@.len(),
        depth <= 128,
    ensures
        pview(r) == p_and(toks_of(tokens@), at as int, depth as nat),
    decreases tokens@.len() - at, 2int,
{
    let ghost toks = toks_of(tokens@);
    proof {
        lemma_and_unfold(toks, at as int, depth as nat);
        lemma_unary(toks, at as int, depth as nat);
    }
    let (first, a) = match parse_unary(tokens, at, depth) {
        Err(e) => {
            return Err(e);
        },
        Ok(x) => x,
    };
    let mut nodes: Vec<Expr> = Vec::new();
    nodes.push(first);
    let mut pos = a;
    assert(formulas(nodes@) =~= seq![first.formula()]);
    while !(pos >= tokens.len() || kw(tokens, pos, ")") || kw(tokens, pos, "or") || kw(
        tokens,
        pos,
        "||",
    ))
        invariant
            at < pos <= tokens@.len(),
            depth <= 128,
            toks == toks_of(tokens@),
            nodes@.len() >= 1,
            and_list(toks, at as int, depth as nat) == prepend_fs(
                formulas(nodes@),
                and_tail(toks, pos as int, depth as nat),
            ),
        decreases tokens@.len() - pos,
    {
        let p2 = if kw(tokens, pos, "and") || kw(tokens, pos, "&&") {
            pos + 1
        } else {
            pos
        };
        proof {
            lemma_and_unfold(toks, p2 as int, depth as nat);
            lemma_unary(toks, p2 as int, depth as nat);
        }
        match parse_unary(tokens, p2, depth) {
            Err(e) => {
                return Err(e);
            },
            Ok((f, b)) => {
                let ghost before = formulas(nodes@);
                proof {
                    lemma_prepend_fs(before, f.formula(), and_tail(toks, b as int, depth as nat));
                }
                nodes.push(f);
                assert(formulas(nodes@) =~= before.push(f.formula()));
                pos = b;
            },
        }
    }
    assert(formulas(nodes@) + Seq::<Formula>::empty() =~= formulas(nodes@));
    let e = balance(nodes, true);
    Ok((e, pos))
}

/// `not` and a term, a parenthesised expression, or a predicate (see [`p_unary`]).
fn parse_unary(tokens: &Vec<Token>, at: usize, depth: usize) -> (r: Result<
    (Expr, usize),
    FilterError,
>)
    requires
        at <= tokens@.len(),
        depth <= 128,
    ensures
        pview(r) == p_unary(toks_of(tokens@), at as int, depth as nat),
    decreases tokens@.len() - at, 1int,
{
    if depth + 1 > 128 {
        return Err(FilterError::NestingTooDeep);
    }
    if kw(tokens, at, "not") || kw(tokens, at, "!") {
        match parse_unary(tokens, at + 1, depth + 1) {
            Err(e) => Err(e),
            Ok((f, a)) => Ok((Expr::Not(Box::new(f)), a)),
        }
    } else if kw(tokens, at, "(") {
        match parse_or(tokens, at + 1, depth + 1) {
            Err(e) => Err(e),
            Ok((f, b)) => if kw(tokens, b, ")") {
                Ok((f, b + 1))
            } else {
                Err(FilterError::ExpectedCloseParen)
            },
        }
    } else {
        parse_predicate(tokens, at)
    }
}

/// A filter from its text, as [`lex`](crate::lexer::lex) and [`parse_tokens`] read it.
pub open spec fn parse_source(source: Seq<char>) -> Result<Formula, FilterError> {
    match crate::lexer::lex(source) {
        Err(e) => Err(e),
        Ok(toks) => parse_tokens(toks),
    }
}

/// A parsed filter is well formed.
pub proof fn lemma_source_well_formed(source: Seq<char>)
    ensures
        parse_source(source) matches Ok(f) ==> well_formed(f),
{
    if let Ok(toks) = crate::lexer::lex(source) {
        lemma_parse_well_formed(toks);
    }
}

/// Parses a filter.
pub fn parse_filter(source: &str) -> (r: Result<Expr, FilterError>)
    ensures
        match r {
            Ok(e) => parse_source(source@) == Ok::<Formula, FilterError>(e.formula()),
            Err(x) => parse_source(source@) == Err::<Formula, FilterError>(x),
        },
{
    let tokens = match crate::lexer::tokenize(source) {
        Err(e) => {
            return Err(e);
        },
        Ok(t) => t,
    };
    if tokens.len() == 0 {
        return Ok(Expr::All);
    }
    match parse_or(&tokens, 0, 0) {
        Err(e) => Err(e),
        Ok((e, a)) => if a < tokens.len() {
            Err(FilterError::UnexpectedToken)
        } else {
            Ok(e)
        },
    }
}

} // verus!
