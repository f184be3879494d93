use vstd::prelude::*;
use vstd::string::*;

verus! {

/// Task timeout, in seconds, when none or no valid one is configured.
pub const DEFAULT_TIMEOUT_SECS: u64 = 60;

pub open spec fn is_digit(c: char) -> bool {
    '0' <= c && c <= '9'
}

/// The number that the decimal digits `s` write.
pub open spec fn digits_value(s: Seq<char>) -> int
    decreases s.len(),
{
    if s.len() == 0 {
        0
    } else {
        digits_value(s.drop_last()) * 10 + ((s.last() as u32) as int - 48)
    }
}

pub open spec fn all_digits(s: Seq<char>) -> bool {
    forall|i: int| 0 <= i < s.len() ==> is_digit(#[trigger] s[i])
}

/// `s` without a leading `+`.
pub open spec fn unsigned_part(s: Seq<char>) -> Seq<char> {
    if s.len() > 0 && s[0] == '+' {
        s.skip(1)
    } else {
        s
    }
}

/// The value of `s` read as an unsigned 64-bit decimal: an optional `+`,
/// then one or more digits, whose number fits in 64 bits.
pub open spec fn parsed_u64(s: Seq<char>) -> Option<u64> {
    let d = unsigned_part(s);
    if d.len() > 0 && all_digits(d) && digits_value(d) <= u64::MAX {
        Some(digits_value(d) as u64)
    } else {
        None
    }
}

/// The timeout that a configured text gives: its value when it reads as an
/// unsigned 64-bit decimal, the default otherwise.
pub open spec fn timeout_from(raw: Option<Seq<char>>) -> u64 {
    match raw {
        Some(s) => match parsed_u64(s) {
            Some(v) => v,
            None => DEFAULT_TIMEOUT_SECS,
        },
        None => DEFAULT_TIMEOUT_SECS,
    }
}

/// The task timeout from the configured text, if any.
pub fn timeout_setting(raw: Option<&str>) -> (r: u64)
    ensures
        r == timeout_from(
            match raw {
                Some(s) => Some(s@),
                None => None,
            },
        ),
{
    match raw {
        None => DEFAULT_TIMEOUT_SECS,
        Some(s) => match parse_u64(s) {
            Some(v) => v,
            None => DEFAULT_TIMEOUT_SECS,
        },
    }
}

/// Reads `s` as an unsigned 64-bit decimal.
pub fn parse_u64(s: &str) -> (r: Option<u64>)
    ensures
        r == parsed_u64(s@),
{
    let n = s.unicode_len();
    let mut start: usize = 0;
    if n > 0 && s.get_char(0) == '+' {
        start = 1;
    }
    let ghost d = unsigned_part(s@);
    proof {
        if start == 1 {
            assert(d =~= s@.subrange(1, n as int));
        } else {
            assert(d =~= s@.subrange(0, n as int));
        }
    }
    if start >= n {
        return None;
    }
    let mut value: u64 = 0;
    let mut big = false;
    let mut i: usize = start;
    proof {
        assert(s@.subrange(start as int, start as int) =~= Seq::<char>::empty());
    }
    while i < n
        invariant
            n == s@.len(),
            start <= i <= n,
            d == s@.subrange(start as int, n as int),
            d == unsigned_part(s@),
            forall|k: int| start <= k < i ==> is_digit(#[trigger] s@[k]),
            digits_value(s@.subrange(start as int, i as int)) >= 0,
            big ==> digits_value(s@.subrange(start as int, i as int)) > u64::MAX,
            !big ==> value == digits_value(s@.subrange(start as int, i as int)),
        decreases n - i,
    {
        let c = s.get_char(i);
        if !(c >= '0' && c <= '9') {
            proof {
                assert(d[i - start] == c);
                assert(!is_digit(d[i - start]));
                assert(!all_digits(d));
            }
            return None;
        }
        let digit: u64 = (c as u32 - 48) as u64;
        let ghost prev = digits_value(s@.subrange(start as int, i as int));
        proof {
            let p = s@.subrange(start as int, i as int + 1);
            assert(p.drop_last() =~= s@.subrange(start as int, i as int));
            assert(p.last() == c);
            assert(digits_value(p) == prev * 10 + digit);
            assert(prev * 10 + digit >= prev) by (nonlinear_arith)
                requires
                    prev >= 0,
                    digit >= 0,
            ;
        }
        if !big {
            if value > (u64::MAX - digit) / 10 {
                proof {
                    assert(value * 10 + digit > u64::MAX) by (nonlinear_arith)
                        requires
                            value > (u64::MAX - digit) / 10,
                            digit <= 9,
                    ;
                }
                big = true;
            } else {
                proof {
                    assert(value * 10 + digit <= u64::MAX) by (nonlinear_arith)
                        requires
                            value <= (u64::MAX - digit) / 10,
                            digit <= 9,
                    ;
                }
                value = value * 10 + digit;
            }
        }
        i = i + 1;
    }
    proof {
        assert forall|k: int| 0 <= k < d.len() implies is_digit(#[trigger] d[k]) by {
            assert(d[k] == s@[k + start]);
        }
        assert(all_digits(d));
        assert(d =~= s@.subrange(start as int, i as int));
    }
    if big {
        None
    } else {
        Some(value)
    }
}

} // verus!
