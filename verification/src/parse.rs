//! Decimal parsing of flag values.
//!
//! A flag's value token is an unsigned decimal integer: an optional single
//! leading `'+'`, then one or more digits, with a value that fits in `u32`.
//! A token that does not have this shape is not an error; the dispatcher
//! leaves it in the stream as positional data.

use vstd::prelude::*;

verus! {

/// A decimal digit `'0'` through `'9'`.
pub open spec fn is_digit(c: char) -> bool {
    '0' as int <= c as int <= '9' as int
}

/// The numeric value of a decimal digit.
pub open spec fn digit_val(c: char) -> int {
    c as int - '0' as int
}

/// Every character of `s` is a decimal digit.
pub open spec fn all_digits(s: Seq<char>) -> bool {
    forall|i: int| 0 <= i < s.len() ==> is_digit(#[trigger] s[i])
}

/// The value of a digit string read in decimal, most significant digit first.
pub open spec fn dec_value(s: Seq<char>) -> int
    decreases s.len(),
{
    if s.len() == 0 {
        0
    } else {
        dec_value(s.drop_last()) * 10 + digit_val(s.last())
    }
}

/// The digit portion of a value token: one leading `'+'` is a sign, not a digit.
pub open spec fn digits_of(s: Seq<char>) -> Seq<char> {
    if s.len() > 0 && s[0] == '+' {
        s.drop_first()
    } else {
        s
    }
}

/// Whether a token parses as a `u32`: after the optional sign there is at
/// least one character, all of them digits, and the value fits in `u32`.
pub open spec fn parses_as_u32(s: Seq<char>) -> bool {
    let d = digits_of(s);
    d.len() > 0 && all_digits(d) && dec_value(d) <= u32::MAX
}

/// The value a parsing token denotes.
pub open spec fn u32_value(s: Seq<char>) -> int {
    dec_value(digits_of(s))
}

/// A digit string has a non-negative value.
pub proof fn lemma_dec_value_nonneg(s: Seq<char>)
    requires
        all_digits(s),
    ensures
        dec_value(s) >= 0,
    decreases s.len(),
{
    if s.len() > 0 {
        assert(all_digits(s.drop_last()));
        lemma_dec_value_nonneg(s.drop_last());
    }
}

/// Dropping trailing digits never increases the value: the value of a prefix
/// of a digit string is at most the value of the whole string.
pub proof fn lemma_dec_value_prefix(s: Seq<char>, i: int)
    requires
        all_digits(s),
        0 <= i <= s.len(),
    ensures
        dec_value(s.take(i)) <= dec_value(s),
    decreases s.len(),
{
    if i < s.len() {
        assert(all_digits(s.drop_last()));
        assert(s.drop_last().take(i) =~= s.take(i));
        lemma_dec_value_prefix(s.drop_last(), i);
        lemma_dec_value_nonneg(s.drop_last());
        assert(is_digit(s.last()));
    } else {
        assert(s.take(i) =~= s);
    }
}

/// Parses a token as an unsigned decimal integer, exactly when the token is
/// an optional `'+'` followed by one or more digits whose value fits in `u32`.
pub fn parse_u32(s: &str) -> (r: Option<u32>)
    ensures
        r is Some <==> parses_as_u32(s@),
        r matches Some(v) ==> v == u32_value(s@),
{
    let len = s.unicode_len();
    let mut i: usize = 0;
    if len > 0 && s.get_char(0) == '+' {
        i = 1;
    }
    if i >= len {
        assert(digits_of(s@).len() == 0);
        return None;
    }
    let ghost d = digits_of(s@);
    let ghost start = i as int;
    proof {
        assert(d =~= s@.subrange(start, len as int));
    }
    let mut acc: u32 = 0;
    while i < len
        invariant
            0 <= start <= i <= len,
            len == s@.len(),
            d == s@.subrange(start, len as int),
            d == digits_of(s@),
            d.len() > 0,
            all_digits(d.take(i - start)),
            acc == dec_value(d.take(i - start)),
        decreases len - i,
    {
        let c = s.get_char(i);
        let cv = c as u32;
        if cv < '0' as u32 || cv > '9' as u32 {
            proof {
                assert(s@.subrange(start, len as int)[i - start] == s@[i as int]);
                assert(!is_digit(d[i - start]));
            }
            return None;
        }
        let dv = cv - '0' as u32;
        let next = match acc.checked_mul(10) {
            Some(a) => a.checked_add(dv),
            None => None,
        };
        proof {
            let p = d.take(i - start);
            assert(p.push(c) =~= d.take(i - start + 1));
            assert(d.take(i - start + 1).last() == c);
            assert(d.take(i - start + 1).drop_last() =~= p);
            lemma_dec_value_nonneg(p);
        }
        match next {
            Some(b) => {
                acc = b;
            }
            None => {
                // The prefix up to and including this digit already exceeds
                // `u32::MAX`, so the whole digit string does too.
                proof {
                    if all_digits(d) {
                        lemma_dec_value_prefix(d, i - start + 1);
                    }
                }
                return None;
            }
        }
        i += 1;
    }
    proof {
        assert(d.take(i - start) =~= d);
    }
    Some(acc)
}

} // verus!
