//! Typed parsing: raw string tokens become elements of the selected kind.
//!
//! A token parses as a base-10 signed 32-bit integer, normalizes to a
//! lowercase string with a single trailing comma stripped, or contributes
//! its first character. Tokens that cannot be interpreted in the selected
//! kind are dropped by the callers, never reported as errors.

use vstd::prelude::*;

verus! {

/// A base-10 digit character.
pub open spec fn is_digit(c: char) -> bool {
    48 <= c as u32 && c as u32 <= 57
}

/// The numeric value of a digit character.
pub open spec fn digit_val(c: char) -> int {
    c as u32 - 48
}

/// Every character of the sequence is a digit.
pub open spec fn all_digits(s: Seq<char>) -> bool {
    forall|i: int| 0 <= i < s.len() ==> is_digit(#[trigger] s[i])
}

/// The value of a digit sequence read in base 10.
pub open spec fn digits_val(s: Seq<char>) -> int
    decreases s.len(),
{
    if s.len() == 0 {
        0
    } else {
        digits_val(s.drop_last()) * 10 + digit_val(s.last())
    }
}

/// Ten to the given power.
pub open spec fn pow10(n: nat) -> int
    decreases n,
{
    if n == 0 {
        1
    } else {
        10 * pow10((n - 1) as nat)
    }
}

/// The mathematical value of an integer token: an optional single sign
/// followed by at least one digit. Anything else has no value.
pub open spec fn int_token_value(s: Seq<char>) -> Option<int> {
    if s.len() > 0 && (s[0] == '-' || s[0] == '+') {
        if s.len() > 1 && all_digits(s.drop_first()) {
            if s[0] == '-' {
                Some(-digits_val(s.drop_first()))
            } else {
                Some(digits_val(s.drop_first()))
            }
        } else {
            None
        }
    } else if s.len() > 0 && all_digits(s) {
        Some(digits_val(s))
    } else {
        None
    }
}

/// What a token yields as a signed 32-bit integer: its mathematical
/// value when that value fits, and nothing otherwise.
pub open spec fn parse_int_spec(s: Seq<char>) -> Option<i32> {
    match int_token_value(s) {
        Some(v) => if i32::MIN <= v <= i32::MAX {
            Some(v as i32)
        } else {
            None
        },
        None => None,
    }
}

/// A digit sequence has a value between zero and ten to its length.
proof fn lemma_digits_val_bounds(s: Seq<char>)
    requires
        all_digits(s),
    ensures
        0 <= digits_val(s) < pow10(s.len()),
    decreases s.len(),
{
    if s.len() > 0 {
        lemma_digits_val_bounds(s.drop_last());
    }
}

/// Powers of ten grow with the exponent.
proof fn lemma_pow10_mono(a: nat, b: nat)
    requires
        a <= b,
    ensures
        pow10(a) <= pow10(b),
    decreases b,
{
    if a < b {
        lemma_pow10_mono(a, (b - 1) as nat);
        assert(pow10((b - 1) as nat) >= 1) by {
            lemma_pow10_pos((b - 1) as nat);
        }
    }
}

/// Powers of ten are positive.
proof fn lemma_pow10_pos(n: nat)
    ensures
        pow10(n) >= 1,
    decreases n,
{
    if n > 0 {
        lemma_pow10_pos((n - 1) as nat);
    }
}

/// A leading zero does not change the value of a digit sequence.
proof fn lemma_drop_leading_zero(s: Seq<char>)
    requires
        s.len() > 0,
        s[0] == '0',
        all_digits(s),
    ensures
        digits_val(s) == digits_val(s.drop_first()),
    decreases s.len(),
{
    if s.len() == 1 {
        assert(s.drop_first().len() == 0);
        assert(digits_val(s) == digits_val(s.drop_last()) * 10 + digit_val(s.last()));
        assert(digit_val(s[0]) == 0);
    } else {
        let t = s.drop_last();
        lemma_drop_leading_zero(t);
        assert(s.drop_first().drop_last() =~= t.drop_first());
        assert(s.drop_first().last() == s.last());
        assert(digits_val(s.drop_first()) == digits_val(t.drop_first()) * 10 + digit_val(s.last()));
    }
}

/// A digit sequence that starts with a nonzero digit is at least ten to
/// the power of one less than its length.
proof fn lemma_leading_nonzero_lower_bound(s: Seq<char>)
    requires
        s.len() > 0,
        s[0] != '0',
        all_digits(s),
    ensures
        digits_val(s) >= pow10((s.len() - 1) as nat),
    decreases s.len(),
{
    if s.len() == 1 {
        assert(digits_val(s) == digits_val(s.drop_last()) * 10 + digit_val(s.last()));
        assert(s[0] as u32 != 48) by {
            vstd::utf8::char_u32_cast(s[0], s[0] as u32);
            vstd::utf8::char_u32_cast('0', '0' as u32);
        }
    } else {
        let t = s.drop_last();
        lemma_leading_nonzero_lower_bound(t);
        lemma_digits_val_bounds(s);
    }
}

/// Parses a token as a base-10 signed 32-bit integer: an optional single
/// sign followed by at least one digit, with the value in range. Any
/// other token yields nothing.
pub fn parse_int(token: &str) -> (r: Option<i32>)
    ensures
        r == parse_int_spec(token@),
{
    let n = token.unicode_len();
    if n == 0 {
        return None;
    }
    let first = token.get_char(0);
    let negative = first == '-';
    let has_sign = negative || first == '+';
    let start: usize = if has_sign {
        1
    } else {
        0
    };
    if start == n {
        return None;
    }
    let ghost digits = token@.skip(start as int);
    proof {
        if start == 0 {
            assert(digits =~= token@);
        } else {
            assert(digits =~= token@.drop_first());
        }
    }
    let mut i: usize = start;
    while i < n
        invariant
            start <= i <= n,
            start <= 1,
            n == token@.len(),
            start == 1 ==> (token@[0] == '-' || token@[0] == '+'),
            start == 0 ==> !(token@[0] == '-' || token@[0] == '+'),
            negative == (token@[0] == '-'),
            digits == token@.skip(start as int),
            start == 0 ==> digits == token@,
            start == 1 ==> digits == token@.drop_first(),
            forall|k: int| start <= k < i ==> is_digit(#[trigger] token@[k]),
        decreases n - i,
    {
        let c = token.get_char(i);
        let u = c as u32;
        if u < 48 || u > 57 {
            proof {
                assert(!is_digit(token@[i as int]));
                assert(!all_digits(digits)) by {
                    assert(digits[i - start] == token@[i as int]);
                }
            }
            return None;
        }
        i = i + 1;
    }
    proof {
        assert(all_digits(digits)) by {
            assert forall|k: int| 0 <= k < digits.len() implies is_digit(#[trigger] digits[k]) by {
                assert(digits[k] == token@[k + start]);
            }
        }
        assert(int_token_value(token@) == Some(if negative {
            -digits_val(digits)
        } else {
            digits_val(digits)
        }));
    }
    let mut z: usize = start;
    loop
        invariant
            start <= z <= n,
            n == token@.len(),
            digits == token@.skip(start as int),
            all_digits(digits),
            digits_val(digits) == digits_val(token@.skip(z as int)),
        ensures
            start <= z <= n,
            digits_val(digits) == digits_val(token@.skip(z as int)),
            z < n ==> token@[z as int] != '0',
        decreases n - z,
    {
        if z == n {
            break;
        }
        let c = token.get_char(z);
        if c != '0' {
            break;
        }
        proof {
            let cur = token@.skip(z as int);
            assert(cur[0] == token@[z as int]);
            assert(all_digits(cur)) by {
                assert forall|k: int| 0 <= k < cur.len() implies is_digit(#[trigger] cur[k]) by {
                    assert(cur[k] == token@[k + z]);
                    assert(digits[k + z - start] == token@[k + z]);
                }
            }
            lemma_drop_leading_zero(cur);
            assert(cur.drop_first() =~= token@.skip(z + 1 as int));
        }
        z = z + 1;
    }
    let ghost tail = token@.skip(z as int);
    proof {
        assert(all_digits(tail)) by {
            assert forall|k: int| 0 <= k < tail.len() implies is_digit(#[trigger] tail[k]) by {
                assert(tail[k] == token@[k + z]);
                assert(digits[k + z - start] == token@[k + z]);
            }
        }
    }
    if z == n {
        proof {
            assert(tail.len() == 0);
            assert(digits_val(digits) == 0);
        }
        return Some(0);
    }
    proof {
        assert(tail[0] == token@[z as int]);
    }
    if n - z > 10 {
        proof {
            lemma_leading_nonzero_lower_bound(tail);
            lemma_pow10_mono(10, (tail.len() - 1) as nat);
            assert(pow10(10) == 10000000000) by {
                reveal_with_fuel(pow10, 11);
            }
            assert(digits_val(digits) >= 10000000000);
        }
        return None;
    }
    let mut acc: u64 = 0;
    let mut i: usize = z;
    proof {
        assert(token@.subrange(z as int, z as int) =~= Seq::<char>::empty());
    }
    while i < n
        invariant
            z <= i <= n,
            n == token@.len(),
            n - z <= 10,
            tail == token@.skip(z as int),
            all_digits(tail),
            digits_val(digits) == digits_val(tail),
            acc == digits_val(token@.subrange(z as int, i as int)),
            acc < pow10((i - z) as nat),
        decreases n - i,
    {
        let c = token.get_char(i);
        let u = c as u32;
        proof {
            assert(token@[i as int] == tail[i - z]);
            assert(is_digit(token@[i as int]));
            let pre = token@.subrange(z as int, i as int);
            let post = token@.subrange(z as int, i + 1 as int);
            assert(post.drop_last() =~= pre);
            assert(post.last() == token@[i as int]);
            lemma_pow10_mono((i - z + 1) as nat, 10);
            assert(pow10(10) == 10000000000) by {
                reveal_with_fuel(pow10, 11);
            }
        }
        acc = acc * 10 + ((u - 48) as u64);
        i = i + 1;
    }
    proof {
        assert(token@.subrange(z as int, n as int) =~= tail);
        assert(acc == digits_val(digits));
        lemma_digits_val_bounds(tail);
    }
    if negative {
        if acc <= 2147483648 {
            let v: i64 = -(acc as i64);
            Some(v as i32)
        } else {
            None
        }
    } else {
        if acc <= 2147483647 {
            Some(acc as i32)
        } else {
            None
        }
    }
}

/// What normalization leaves of a token: one trailing comma stripped,
/// the remainder lowercased.
pub open spec fn normalized(t: Seq<char>) -> Seq<char> {
    lower_of(strip_comma(t))
}

/// A token with a single trailing comma stripped, when one is present.
pub open spec fn strip_comma(s: Seq<char>) -> Seq<char> {
    if s.len() > 0 && s.last() == ',' {
        s.drop_last()
    } else {
        s
    }
}

/// The lowercase equivalent of a character sequence.
pub uninterp spec fn lower_of(s: Seq<char>) -> Seq<char>;

/// Relies on str::to_lowercase: the lowercase equivalent of the string,
/// a function of its characters alone.
#[verifier::external_body]
fn lowercase(s: &str) -> (r: String)
    ensures
        r@ == lower_of(s@),
{
    s.to_lowercase()
}

/// Normalizes a string token: strips a single trailing comma when one is
/// present and lowercases the remainder.
pub fn normalize_token(token: &str) -> (r: String)
    ensures
        r@ == normalized(token@),
{
    let n = token.unicode_len();
    if n > 0 && token.get_char(n - 1) == ',' {
        let stripped = token.substring_char(0, n - 1);
        proof {
            assert(stripped@ =~= strip_comma(token@));
        }
        lowercase(stripped)
    } else {
        lowercase(token)
    }
}

/// The first character of a token, when the token is not empty.
pub open spec fn first_char_of(t: Seq<char>) -> Option<char> {
    if t.len() > 0 {
        Some(t[0])
    } else {
        None
    }
}

/// The character a token contributes: its first one; an empty token
/// contributes nothing.
pub fn first_char(token: &str) -> (r: Option<char>)
    ensures
        r == first_char_of(token@),
{
    if token.unicode_len() > 0 {
        Some(token.get_char(0))
    } else {
        None
    }
}

} // verus!
