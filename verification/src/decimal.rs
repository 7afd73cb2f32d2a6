//! Whole numbers as they are written in addresses: an optional sign and
//! decimal digits.

use vstd::prelude::*;

verus! {

/// Whether `c` is a decimal digit.
pub open spec fn is_digit(c: char) -> bool {
    '0' <= c <= '9'
}

/// The digit that stands for `d`.
pub open spec fn digit(d: int) -> char {
    ('0' as int + d) as char
}

/// Whether `s` holds nothing but decimal digits.
pub open spec fn all_digits(s: Seq<char>) -> bool {
    forall|i: int| 0 <= i < s.len() ==> is_digit(#[trigger] s[i])
}

/// The number that the digits `s` write.
pub open spec fn digits_value(s: Seq<char>) -> nat
    decreases s.len(),
{
    if s.len() == 0 {
        0
    } else {
        (10 * digits_value(s.drop_last()) + (s.last() as int - '0' as int)) as nat
    }
}

/// The number that `s` writes: digits, at least one, behind at most one `+`
/// or `-`.
pub open spec fn written(s: Seq<char>) -> Option<int> {
    let signed = s.len() > 0 && (s[0] == '+' || s[0] == '-');
    let body = if signed {
        s.subrange(1, s.len() as int)
    } else {
        s
    };
    if body.len() > 0 && all_digits(body) {
        Some(
            if signed && s[0] == '-' {
                -(digits_value(body) as int)
            } else {
                digits_value(body) as int
            },
        )
    } else {
        None
    }
}

/// The number that `s` writes, if it writes one that an `i64` holds.
pub open spec fn written_i64(s: Seq<char>) -> Option<i64> {
    match written(s) {
        Some(v) if i64::MIN <= v <= i64::MAX => Some(v as i64),
        _ => None,
    }
}

/// The digits of `n`, without leading zeros.
pub open spec fn digits_of(n: nat) -> Seq<char>
    decreases n,
{
    if n < 10 {
        seq![digit(n as int)]
    } else {
        digits_of(n / 10).push(digit((n % 10) as int))
    }
}

/// `n` as it is written: its digits, behind `-` if it is negative.
pub open spec fn decimal(n: int) -> Seq<char> {
    if n < 0 {
        seq!['-'] + digits_of((-n) as nat)
    } else {
        digits_of(n as nat)
    }
}

/// The digits of a number are digits, at least one, and write that
/// number.
pub proof fn lemma_digits_of(n: nat)
    ensures
        digits_of(n).len() > 0,
        all_digits(digits_of(n)),
        digits_value(digits_of(n)) == n,
    decreases n,
{
    if n < 10 {
        let s = digits_of(n);
        assert(s.drop_last() == Seq::<char>::empty());
        assert(digits_value(s.drop_last()) == 0);
    } else {
        lemma_digits_of(n / 10);
        let s = digits_of(n);
        assert(s.drop_last() == digits_of(n / 10));
        assert forall|i: int| 0 <= i < s.len() implies is_digit(#[trigger] s[i]) by {
            if i < s.len() - 1 {
                assert(s[i] == digits_of(n / 10)[i]);
            }
        }
    }
}

/// A number as it is written writes that number, and holds nothing but
/// digits behind at most one `-`.
pub proof fn lemma_decimal_written(n: int)
    ensures
        written(decimal(n)) == Some(n),
        forall|i: int| 0 <= i < decimal(n).len() ==> (#[trigger] decimal(n)[i]) != '/',
{
    if n < 0 {
        let body = digits_of((-n) as nat);
        lemma_digits_of((-n) as nat);
        assert(decimal(n).subrange(1, decimal(n).len() as int) == body);
        assert forall|i: int| 0 <= i < decimal(n).len() implies (#[trigger] decimal(n)[i])
            != '/' by {
            if i > 0 {
                assert(is_digit(body[i - 1]));
            }
        }
    } else {
        lemma_digits_of(n as nat);
        assert(is_digit(decimal(n)[0]));
        assert forall|i: int| 0 <= i < decimal(n).len() implies (#[trigger] decimal(n)[i])
            != '/' by {
            assert(is_digit(decimal(n)[i]));
        }
    }
}

/// The number that `s` writes, if it writes one that an `i64` holds.
#[verifier::loop_isolation(false)]
pub fn parse_i64(s: &[char]) -> (r: Option<i64>)
    ensures
        r == written_i64(s@),
{
    if s.len() == 0 {
        return None;
    }
    let negative = s[0] == '-';
    let start: usize = if s[0] == '-' || s[0] == '+' {
        1
    } else {
        0
    };
    if start == s.len() {
        return None;
    }
    let limit: u64 = if negative {
        0x8000_0000_0000_0000
    } else {
        0x7fff_ffff_ffff_ffff
    };
    let ghost body = s@.subrange(start as int, s.len() as int);
    let mut value: u64 = 0;
    let mut fits = true;
    let mut i: usize = start;
    while i < s.len()
        invariant
            start <= i <= s.len(),
            body == s@.subrange(start as int, s.len() as int),
            all_digits(body.subrange(0, i - start)),
            fits ==> value == digits_value(body.subrange(0, i - start)) && value <= limit,
            !fits ==> digits_value(body.subrange(0, i - start)) > limit,
        decreases s.len() - i,
    {
        let c = s[i];
        let ghost read = body.subrange(0, i - start);
        let ghost next = body.subrange(0, i + 1 - start);
        proof {
            assert(next.drop_last() == read);
            assert(next.last() == c);
        }
        if !(c >= '0' && c <= '9') {
            proof {
                assert(body[i - start] == c);
                assert(!all_digits(body));
            }
            return None;
        }
        let d: u64 = (c as u32 - '0' as u32) as u64;
        if fits && (value > limit / 10 || value * 10 > limit - d) {
            fits = false;
        } else if fits {
            value = value * 10 + d;
        }
        i += 1;
        proof {
            assert forall|k: int| 0 <= k < next.len() implies is_digit(#[trigger] next[k]) by {
                if k < read.len() {
                    assert(next[k] == read[k]);
                }
            }
        }
    }
    proof {
        assert(body.subrange(0, body.len() as int) == body);
        assert(s@.subrange(0, s.len() as int) == s@);
        assert(written(s@) == Some(
            if negative {
                -(digits_value(body) as int)
            } else {
                digits_value(body) as int
            },
        ));
    }
    if !fits {
        None
    } else if negative {
        if value == 0x8000_0000_0000_0000 {
            Some(i64::MIN)
        } else {
            Some(-(value as i64))
        }
    } else {
        Some(value as i64)
    }
}

/// The digits of `n`, without leading zeros.
pub fn digits(n: u64) -> (out: Vec<char>)
    ensures
        out@ == digits_of(n as nat),
    decreases n,
{
    let last: char = ((n % 10) as u8 + 48u8) as char;
    if n < 10 {
        let mut out: Vec<char> = Vec::new();
        out.push(last);
        assert(out@ == seq![digit(n as int)]);
        out
    } else {
        let mut out = digits(n / 10);
        out.push(last);
        out
    }
}

/// `n` as it is written: its digits, behind `-` if it is negative.
pub fn decimal_chars(n: i64) -> (out: Vec<char>)
    ensures
        out@ == decimal(n as int),
{
    if n < 0 {
        let size: u64 = if n == i64::MIN {
            0x8000_0000_0000_0000
        } else {
            (-n) as u64
        };
        let mut out: Vec<char> = Vec::new();
        out.push('-');
        let mut rest = digits(size);
        out.append(&mut rest);
        out
    } else {
        digits(n as u64)
    }
}

} // verus!
