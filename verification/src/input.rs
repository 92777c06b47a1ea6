//! Reading the numeric texts a human types at the prompts: a frame
//! position, a new speed.  A text counts as a number only if it is one or
//! more decimal digits and nothing else.

use vstd::prelude::*;

use crate::codec::all_digits;
use crate::codec::digit_val;
use crate::codec::digit_val_x;
use crate::codec::dval;
use crate::codec::is_digit;
use crate::codec::is_digit_x;
use crate::codec::str_chars;

verus! {

/// The number a text denotes: defined exactly when the text is nonempty
/// and all digits.
pub open spec fn decimal_of(s: Seq<char>) -> Option<nat> {
    if s.len() >= 1 && all_digits(s) {
        Some(dval(s))
    } else {
        None
    }
}

/// A prefix of a digit string never denotes more than the whole.
proof fn lemma_dval_take_le(s: Seq<char>, j: int)
    requires
        0 <= j <= s.len(),
    ensures
        dval(s.take(j)) <= dval(s),
    decreases s.len() - j,
{
    if j == s.len() {
        assert(s.take(j) =~= s);
    } else {
        assert(s.take(j + 1).take(j) =~= s.take(j));
        assert(dval(s.take(j + 1)) == dval(s.take(j)) * 10 + digit_val(s[j]));
        lemma_dval_take_le(s, j + 1);
    }
}

/// Reads a whole text as an unsigned decimal number.  `None` when the text
/// is empty, holds any non-digit, or denotes a number beyond sixty-four
/// bits.
pub fn parse_u64(text: &str) -> (r: Option<u64>)
    ensures
        match r {
            Some(n) => decimal_of(text@) == Some(n as nat),
            None => decimal_of(text@) is None || (decimal_of(text@) matches Some(n) && n
                > u64::MAX),
        },
{
    let v = str_chars(text);
    if v.len() == 0 {
        return None;
    }
    let mut i: usize = 0;
    let mut acc: u64 = 0;
    proof {
        assert(v@.take(0) =~= Seq::<char>::empty());
    }
    while i < v.len()
        invariant
            i <= v@.len(),
            v@ == text@,
            all_digits(v@.take(i as int)),
            acc as nat == dval(v@.take(i as int)),
        decreases v@.len() - i,
    {
        let c = v[i];
        if !is_digit_x(c) {
            proof {
                assert(!is_digit(text@[i as int]));
            }
            return None;
        }
        let d = digit_val_x(c);
        proof {
            assert(v@.take(i + 1).take(i as int) =~= v@.take(i as int));
            assert(dval(v@.take(i + 1)) == dval(v@.take(i as int)) * 10 + digit_val(
                v@[i as int],
            ));
            assert(all_digits(v@.take(i + 1)));
        }
        let next = match acc.checked_mul(10) {
            Some(m) => m.checked_add(d),
            None => None,
        };
        match next {
            Some(a2) => {
                acc = a2;
            },
            None => {
                proof {
                    lemma_dval_take_le(v@, i + 1);
                    assert(dval(v@) > u64::MAX);
                }
                return None;
            },
        }
        i = i + 1;
    }
    proof {
        assert(v@.take(v@.len() as int) =~= v@);
    }
    Some(acc)
}

} // verus!
