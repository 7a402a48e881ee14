//! HTTP success classification and the protocol status code table.
//!
//! The protocol carries an out-of-band status code (separate from the
//! HTTP status) in a response header. Codes 0 through 15 have canonical
//! names; any other code is rendered with a sentinel label. The mapping
//! is presentation-only: it never gates whether a body is decoded.

use vstd::prelude::*;
use vstd::utf8::encode_utf8;

verus! {

/// An HTTP status lies in the success range exactly when it is 2xx.
pub open spec fn spec_http_success(status: u16) -> bool {
    200 <= status && status <= 299
}

/// HTTP-level success or failure, independent of the protocol status.
pub fn http_success(status: u16) -> (r: bool)
    ensures
        r == spec_http_success(status),
{
    200 <= status && status <= 299
}

/// The canonical label of a protocol status code: codes 0 through 15
/// each have a fixed name, every other code maps to the sentinel label.
pub open spec fn spec_status_name(code: u8) -> Seq<char> {
    if code == 0 {
        "OK"@
    } else if code == 1 {
        "CANCELLED"@
    } else if code == 2 {
        "UNKNOWN"@
    } else if code == 3 {
        "INVALID_ARGUMENT"@
    } else if code == 4 {
        "DEADLINE_EXCEEDED"@
    } else if code == 5 {
        "NOT_FOUND"@
    } else if code == 6 {
        "ALREADY_EXISTS"@
    } else if code == 7 {
        "PERMISSION_DENIED"@
    } else if code == 8 {
        "RESOURCE_EXHAUSTED"@
    } else if code == 9 {
        "FAILED_PRECONDITION"@
    } else if code == 10 {
        "ABORTED"@
    } else if code == 11 {
        "OUT_OF_RANGE"@
    } else if code == 12 {
        "UNIMPLEMENTED"@
    } else if code == 13 {
        "INTERNAL"@
    } else if code == 14 {
        "UNAVAILABLE"@
    } else if code == 15 {
        "DATA_LOSS"@
    } else {
        "???"@
    }
}

/// The canonical name of a protocol status code.
pub fn status_name(code: u8) -> (r: &'static str)
    ensures
        r@ == spec_status_name(code),
{
    match code {
        0 => "OK",
        1 => "CANCELLED",
        2 => "UNKNOWN",
        3 => "INVALID_ARGUMENT",
        4 => "DEADLINE_EXCEEDED",
        5 => "NOT_FOUND",
        6 => "ALREADY_EXISTS",
        7 => "PERMISSION_DENIED",
        8 => "RESOURCE_EXHAUSTED",
        9 => "FAILED_PRECONDITION",
        10 => "ABORTED",
        11 => "OUT_OF_RANGE",
        12 => "UNIMPLEMENTED",
        13 => "INTERNAL",
        14 => "UNAVAILABLE",
        15 => "DATA_LOSS",
        _ => "???",
    }
}

/// Only protocol status 0 is rendered as success; every other code is
/// rendered as a failure.
pub fn status_is_ok(code: u8) -> (r: bool)
    ensures
        r == (code == 0),
{
    code == 0
}

/// Whether every byte of the sequence is an ASCII decimal digit.
pub open spec fn spec_all_digits(s: Seq<u8>) -> bool {
    forall|i: int| 0 <= i < s.len() ==> (48 <= #[trigger] s[i] && s[i] <= 57)
}

/// The numeric value of a sequence of decimal digit bytes.
pub open spec fn spec_digits_value(s: Seq<u8>) -> int
    decreases s.len(),
{
    if s.len() == 0 {
        0
    } else {
        spec_digits_value(s.drop_last()) * 10 + (s.last() - 48)
    }
}

/// What parsing a protocol status header value yields: an optional
/// leading '+' followed by at least one decimal digit, valued at most
/// 255, parses to that value; any other shape is a parse fault.
pub open spec fn spec_parse_status(s: Seq<u8>) -> Option<u8> {
    let digits = if s.len() > 0 && s[0] == 43 {
        s.skip(1)
    } else {
        s
    };
    if digits.len() > 0 && spec_all_digits(digits) && spec_digits_value(digits) <= 255 {
        Some(spec_digits_value(digits) as u8)
    } else {
        None
    }
}

/// The value of a digit sequence is never negative.
proof fn lemma_digits_value_nonneg(s: Seq<u8>)
    requires
        spec_all_digits(s),
    ensures
        spec_digits_value(s) >= 0,
    decreases s.len(),
{
    if s.len() > 0 {
        assert(spec_all_digits(s.drop_last()));
        lemma_digits_value_nonneg(s.drop_last());
    }
}

/// A prefix of a digit sequence never values more than the whole.
proof fn lemma_digits_value_monotone(s: Seq<u8>, i: int)
    requires
        0 <= i <= s.len(),
        spec_all_digits(s),
    ensures
        spec_digits_value(s.take(i)) <= spec_digits_value(s),
    decreases s.len() - i,
{
    if i < s.len() {
        assert(s.take(i + 1).drop_last() =~= s.take(i));
        assert(s.take(i + 1).last() == s[i]);
        assert(spec_all_digits(s.take(i)));
        lemma_digits_value_nonneg(s.take(i));
        lemma_digits_value_monotone(s, i + 1);
    } else {
        assert(s.take(i) =~= s);
    }
}

/// Parse the protocol status header value as a small unsigned integer:
/// an optional leading '+', then decimal digits, with a value of at
/// most 255. `None` is the protocol status parse fault; there is no
/// silent fallback.
pub fn parse_status_code(s: &str) -> (r: Option<u8>)
    ensures
        r == spec_parse_status(encode_utf8(s@)),
{
    let bytes: &[u8] = s.as_bytes();
    let ghost whole = bytes@;
    let start: usize = if bytes.len() > 0 && bytes[0] == 43 {
        1
    } else {
        0
    };
    let ghost digits = whole.skip(start as int);
    proof {
        assert(whole.skip(0) =~= whole);
    }
    if bytes.len() == start {
        return None;
    }
    let mut value: u32 = 0;
    let mut i: usize = start;
    while i < bytes.len()
        invariant
            start <= 1,
            start <= i <= whole.len(),
            bytes@ == whole,
            whole == encode_utf8(s@),
            start == 1 ==> (whole.len() > 0 && whole[0] == 43),
            start == 0 ==> !(whole.len() > 0 && whole[0] == 43),
            digits == whole.skip(start as int),
            start == 0 ==> digits == whole,
            digits.len() > 0,
            spec_all_digits(digits.take(i - start)),
            value == spec_digits_value(digits.take(i - start)),
            value <= 255,
        decreases whole.len() - i,
    {
        let b: u8 = bytes[i];
        proof {
            assert(digits[i - start] == whole[i as int]);
        }
        if b < 48 || b > 57 {
            proof {
                assert(!spec_all_digits(digits));
            }
            return None;
        }
        let d: u32 = (b - 48) as u32;
        proof {
            assert(digits.take(i - start + 1).drop_last() =~= digits.take(i - start));
            assert(digits.take(i - start + 1).last() == digits[i - start]);
        }
        value = value * 10 + d;
        if value > 255 {
            proof {
                if spec_all_digits(digits) {
                    lemma_digits_value_monotone(digits, i - start + 1);
                }
            }
            return None;
        }
        i = i + 1;
    }
    proof {
        assert(digits.take(i - start) =~= digits);
    }
    Some(value as u8)
}

} // verus!
