//! Parsing of unsigned decimal numbers.
//!
//! Block heights, mint amounts and the neighborhood field all arrive as
//! decimal strings. They are read with the same acceptance rule as
//! `str::parse::<u64>`: an optional leading plus sign, then at least one
//! ASCII digit, and a value that fits in 64 bits.

use vstd::prelude::*;

verus! {

/// Whether `c` is an ASCII decimal digit.
pub open spec fn is_digit(c: char) -> bool {
    48 <= c as u32 <= 57
}

/// The numeric value of an ASCII decimal digit.
pub open spec fn digit_val(c: char) -> nat {
    (c as u32 - 48) as nat
}

/// Whether every character of `s` is an ASCII decimal digit.
pub open spec fn all_digits(s: Seq<char>) -> bool {
    forall|i: int| 0 <= i < s.len() ==> is_digit(#[trigger] s[i])
}

/// The value of a sequence of decimal digits, most significant first.
pub open spec fn dec_value(s: Seq<char>) -> nat
    decreases s.len(),
{
    if s.len() == 0 {
        0
    } else {
        dec_value(s.drop_last()) * 10 + digit_val(s.last())
    }
}

/// The digit part of a number string: the whole string, or everything
/// after a single leading plus sign.
pub open spec fn digits_of(s: Seq<char>) -> Seq<char> {
    if s.len() > 0 && s[0] == '+' {
        s.skip(1)
    } else {
        s
    }
}

/// Whether `s` is accepted as a `u64`: an optional leading plus sign,
/// then one or more ASCII digits, with a value of at most `u64::MAX`.
pub open spec fn parses_to_u64(s: Seq<char>) -> bool {
    &&& digits_of(s).len() > 0
    &&& all_digits(digits_of(s))
    &&& dec_value(digits_of(s)) <= u64::MAX
}

/// The value a number string denotes.
pub open spec fn u64_value(s: Seq<char>) -> nat {
    dec_value(digits_of(s))
}

/// A digit string is worth at least any of its prefixes.
pub proof fn lemma_dec_value_prefix(s: Seq<char>, i: int)
    requires
        0 <= i <= s.len(),
    ensures
        dec_value(s.take(i)) <= dec_value(s),
    decreases s.len() - i,
{
    if i < s.len() {
        lemma_dec_value_prefix(s, i + 1);
        assert(s.take(i + 1).drop_last() =~= s.take(i));
        assert(s.take(i + 1).last() == s[i]);
        assert(dec_value(s.take(i)) * 10 + digit_val(s[i]) >= dec_value(s.take(i)))
            by (nonlinear_arith);
    } else {
        assert(s.take(i) =~= s);
    }
}

/// Parse a `u64` from a decimal string, accepting exactly the strings
/// that `parses_to_u64` describes.
#[verifier::loop_isolation(false)]
pub fn parse_u64(s: &str) -> (r: Option<u64>)
    ensures
        match r {
            Some(v) => parses_to_u64(s@) && v == u64_value(s@),
            None => !parses_to_u64(s@),
        },
{
    let n = s.unicode_len();
    let start: usize = if n > 0 && s.get_char(0) == '+' {
        1
    } else {
        0
    };
    proof {
        if start == 1 {
            assert(digits_of(s@) =~= s@.skip(1));
        } else {
            assert(digits_of(s@) =~= s@);
        }
    }
    if start == n {
        return None;
    }
    let ghost ds = digits_of(s@);
    let mut acc: u64 = 0;
    let mut i: usize = start;
    while i < n
        invariant
            start <= i <= n,
            n == s@.len(),
            start == 0 || start == 1,
            start < n,
            ds == digits_of(s@),
            ds.len() == n - start,
            forall|j: int| 0 <= j < i - start ==> is_digit(#[trigger] ds[j]),
            forall|j: int| 0 <= j < i - start ==> ds[j] == s@[j + start],
            acc == dec_value(ds.take(i - start)),
        decreases n - i,
    {
        let c = s.get_char(i);
        let cv = c as u32;
        if cv < 48 || cv > 57 {
            proof {
                assert(ds[i - start] == s@[i as int]);
                assert(!is_digit(ds[i - start]));
            }
            return None;
        }
        let d = (cv - 48) as u64;
        let ghost k = i - start;
        proof {
            assert(ds.take(k + 1).drop_last() =~= ds.take(k));
            assert(ds.take(k + 1).last() == ds[k]);
            assert(ds[k] == s@[i as int]);
        }
        let step = match acc.checked_mul(10) {
            Some(m) => m.checked_add(d),
            None => None,
        };
        match step {
            Some(v) => {
                acc = v;
            }
            None => {
                proof {
                    assert(dec_value(ds.take(k + 1)) > u64::MAX);
                    lemma_dec_value_prefix(ds, k + 1);
                }
                return None;
            }
        }
        i = i + 1;
    }
    proof {
        assert(ds.take(n - start) =~= ds);
    }
    Some(acc)
}

} // verus!
