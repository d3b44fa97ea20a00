//! The integer grammar for query parameters: an optional sign, then
//! decimal digits, within the target range; anything else is rejected.

use vstd::prelude::*;
use crate::date::{is_digit, digit_val};
use crate::ident::dec_val;
use crate::text::str_chars;

verus! {

pub open spec fn all_digits(s: Seq<char>) -> bool {
    forall|i: int| 0 <= i < s.len() ==> is_digit(#[trigger] s[i])
}

/// A digit string denotes a non-negative number.
pub proof fn lemma_dec_val_nonneg(s: Seq<char>)
    requires
        all_digits(s),
    ensures
        dec_val(s) >= 0,
    decreases s.len(),
{
    if s.len() > 0 {
        assert(all_digits(s.drop_last()));
        lemma_dec_val_nonneg(s.drop_last());
    }
}

/// Dropping trailing digits never increases the denoted number.
pub proof fn lemma_dec_val_mono(s: Seq<char>, i: int)
    requires
        all_digits(s),
        0 <= i <= s.len(),
    ensures
        dec_val(s.take(i)) <= dec_val(s),
    decreases s.len() - i,
{
    if i < s.len() {
        let pre = s.drop_last();
        assert(all_digits(pre));
        assert(s.take(i) =~= pre.take(i));
        lemma_dec_val_mono(pre, i);
        lemma_dec_val_nonneg(pre);
    } else {
        assert(s.take(i) =~= s);
    }
}

/// The unsigned-integer grammar: an optional `+`, then one or more
/// digits, denoting at most `u32::MAX`.
pub open spec fn parse_u32_seq(s: Seq<char>) -> Option<u32> {
    let body = if s.len() > 0 && s[0] == '+' {
        s.subrange(1, s.len() as int)
    } else {
        s
    };
    if body.len() > 0 && all_digits(body) && dec_val(body) <= u32::MAX {
        Some(dec_val(body) as u32)
    } else {
        None
    }
}

/// The signed-integer grammar: an optional `+` or `-`, then one or
/// more digits, denoting a number an `i32` can hold.
pub open spec fn parse_i32_seq(s: Seq<char>) -> Option<i32> {
    if s.len() > 0 && s[0] == '-' {
        let body = s.subrange(1, s.len() as int);
        if body.len() > 0 && all_digits(body) && -dec_val(body) >= i32::MIN {
            Some((-dec_val(body)) as i32)
        } else {
            None
        }
    } else {
        let body = if s.len() > 0 && s[0] == '+' {
            s.subrange(1, s.len() as int)
        } else {
            s
        };
        if body.len() > 0 && all_digits(body) && dec_val(body) <= i32::MAX {
            Some(dec_val(body) as i32)
        } else {
            None
        }
    }
}

/// Reads the digits of `v` from `start` on; the denoted number, unless
/// a non-digit stands there, no digit does, or the number passes `cap`.
fn parse_digits_capped(v: &Vec<char>, start: usize, cap: u64) -> (r: Option<u64>)
    requires
        start <= v@.len(),
        cap < 0x1000_0000_0000_0000,
    ensures
        ({
            let body = v@.subrange(start as int, v@.len() as int);
            &&& (r is Some <==> (body.len() > 0 && all_digits(body) && dec_val(body) <= cap))
            &&& (r matches Some(val) ==> val == dec_val(body))
        }),
{
    let ghost body = v@.subrange(start as int, v@.len() as int);
    let n = v.len();
    if start >= n {
        return None;
    }
    let mut acc: u64 = 0;
    let mut i: usize = start;
    while i < n
        invariant
            start <= i <= n,
            n == v@.len(),
            start < n,
            cap < 0x1000_0000_0000_0000,
            body == v@.subrange(start as int, n as int),
            all_digits(v@.subrange(start as int, i as int)),
            acc == dec_val(v@.subrange(start as int, i as int)),
            acc <= cap,
        decreases n - i,
    {
        let c = v[i];
        if !('0' <= c && c <= '9') {
            proof {
                assert(body[i - start] == c);
                assert(!is_digit(c));
            }
            return None;
        }
        let d: u64 = c as u64 - 48;
        proof {
            let pre = v@.subrange(start as int, i as int);
            let cur = v@.subrange(start as int, i + 1);
            assert(cur.drop_last() =~= pre);
            assert(cur.last() == c);
            assert(all_digits(cur));
            assert(dec_val(cur) == acc * 10 + d);
        }
        let newacc = acc * 10 + d;
        if newacc > cap {
            proof {
                if all_digits(body) {
                    let cur = v@.subrange(start as int, i + 1);
                    assert(cur =~= body.take(i + 1 - start));
                    lemma_dec_val_mono(body, i + 1 - start);
                    assert(dec_val(body) > cap);
                }
            }
            return None;
        }
        acc = newacc;
        i += 1;
    }
    proof {
        assert(v@.subrange(start as int, i as int) =~= body);
    }
    Some(acc)
}

/// Parses a string against the unsigned-integer grammar.
pub fn parse_u32(s: &str) -> (r: Option<u32>)
    ensures
        r == parse_u32_seq(s@),
{
    let v = str_chars(s);
    let start: usize = if v.len() > 0 && v[0] == '+' {
        1
    } else {
        0
    };
    proof {
        if start == 1 {
            assert(v@.subrange(1, v@.len() as int) =~= s@.subrange(1, s@.len() as int));
        } else {
            assert(v@.subrange(0, v@.len() as int) =~= s@);
        }
    }
    match parse_digits_capped(&v, start, 0xffff_ffff) {
        Some(val) => Some(val as u32),
        None => None,
    }
}

/// Parses a string against the signed-integer grammar.
pub fn parse_i32(s: &str) -> (r: Option<i32>)
    ensures
        r == parse_i32_seq(s@),
{
    let v = str_chars(s);
    if v.len() > 0 && v[0] == '-' {
        proof {
            assert(v@.subrange(1, v@.len() as int) =~= s@.subrange(1, s@.len() as int));
        }
        match parse_digits_capped(&v, 1, 0x8000_0000) {
            Some(val) => Some((-(val as i64)) as i32),
            None => None,
        }
    } else {
        let start: usize = if v.len() > 0 && v[0] == '+' {
            1
        } else {
            0
        };
        proof {
            if start == 1 {
                assert(v@.subrange(1, v@.len() as int) =~= s@.subrange(1, s@.len() as int));
            } else {
                assert(v@.subrange(0, v@.len() as int) =~= s@);
            }
        }
        match parse_digits_capped(&v, start, 0x7fff_ffff) {
            Some(val) => Some(val as i32),
            None => None,
        }
    }
}

} // verus!
