//! Reading numbers out of strings of ASCII decimal digits.

use vstd::prelude::*;
use vstd::arithmetic::div_mod::lemma_fundamental_div_mod;

verus! {

/// The byte is an ASCII decimal digit.
pub open spec fn is_digit(b: u8) -> bool {
    48 <= b <= 57
}

/// Every byte of the string is an ASCII decimal digit.
pub open spec fn all_digits(s: Seq<u8>) -> bool {
    forall|i: int| 0 <= i < s.len() ==> is_digit(#[trigger] s[i])
}

/// The value of a string of decimal digits, most significant first.
pub open spec fn digits_val(s: Seq<u8>) -> int
    decreases s.len(),
{
    if s.len() == 0 {
        0
    } else {
        digits_val(s.drop_last()) * 10 + (s.last() - 48)
    }
}

/// The value of a string of digits is non-negative.
proof fn lemma_digits_val_nonneg(s: Seq<u8>)
    requires
        all_digits(s),
    ensures
        digits_val(s) >= 0,
    decreases s.len(),
{
    if s.len() > 0 {
        assert forall|i: int| 0 <= i < s.drop_last().len() implies is_digit(
            #[trigger] s.drop_last()[i],
        ) by {
            assert(s.drop_last()[i] == s[i]);
        }
        lemma_digits_val_nonneg(s.drop_last());
    }
}

/// A prefix of a digit string never has a larger value than the whole.
proof fn lemma_digits_val_prefix_le(s: Seq<u8>, j: int)
    requires
        all_digits(s),
        0 <= j <= s.len(),
    ensures
        digits_val(s.take(j)) <= digits_val(s),
    decreases s.len() - j,
{
    if j == s.len() {
        assert(s.take(j) =~= s);
    } else {
        assert(s.take(j + 1).drop_last() =~= s.take(j));
        assert(s.take(j + 1).last() == s[j]);
        assert forall|i: int| 0 <= i < s.take(j).len() implies is_digit(
            #[trigger] s.take(j)[i],
        ) by {
            assert(s.take(j)[i] == s[i]);
        }
        lemma_digits_val_nonneg(s.take(j));
        assert(digits_val(s.take(j + 1)) == digits_val(s.take(j)) * 10 + (s[j] - 48));
        lemma_digits_val_prefix_le(s, j + 1);
    }
}

/// Parse a string of decimal digits into a number. The string must be
/// non-empty, all digits, and name a number that fits, else nothing is
/// returned.
pub fn parse_number(token: &[u8]) -> (r: Option<usize>)
    ensures
        r is Some <==> token@.len() >= 1 && all_digits(token@) && digits_val(token@)
            <= usize::MAX,
        r is Some ==> r == Some(digits_val(token@) as usize),
{
    if token.len() == 0 {
        return None;
    }

    let mut acc: usize = 0;
    let mut i: usize = 0;
    while i < token.len()
        invariant
            1 <= token@.len(),
            i <= token@.len(),
            all_digits(token@.take(i as int)),
            acc == digits_val(token@.take(i as int)),
        decreases token@.len() - i,
    {
        let b = token[i];
        if b < 48 || b > 57 {
            assert(!is_digit(token@[i as int]));
            return None;
        }
        let d = (b - 48) as usize;

        proof {
            assert(token@.take(i as int + 1).drop_last() =~= token@.take(i as int));
            assert(token@.take(i as int + 1).last() == token@[i as int]);
            assert forall|q: int| 0 <= q < token@.take(i as int + 1).len() implies is_digit(
                #[trigger] token@.take(i as int + 1)[q],
            ) by {
                assert(token@.take(i as int + 1)[q] == token@[q]);
            }
            lemma_fundamental_div_mod(usize::MAX - d, 10);
        }

        if acc > (usize::MAX - d) / 10 {
            // The number no longer fits: every longer digit string names a
            // number at least as large.
            assert(digits_val(token@.take(i as int + 1)) > usize::MAX);
            proof {
                if all_digits(token@) {
                    lemma_digits_val_prefix_le(token@, i as int + 1);
                }
            }
            return None;
        }

        acc = acc * 10 + d;
        i = i + 1;
    }

    assert(token@.take(token@.len() as int) =~= token@);
    Some(acc)
}

} // verus!
