//! Decimal rendering and parsing of unsigned 64-bit integers, verified
//! against spec-level definitions, with a proved render/parse round trip.

use vstd::prelude::*;
use vstd::string::*;

verus! {

/// `c` is an ASCII decimal digit.
pub open spec fn is_digit(c: char) -> bool {
    48 <= c as u32 && c as u32 <= 57
}

/// The numeric value of a digit character.
pub open spec fn digit_val(c: char) -> nat
    recommends
        is_digit(c),
{
    (c as u32 - 48) as nat
}

pub open spec fn all_digits(s: Seq<char>) -> bool {
    forall|i: int| 0 <= i < s.len() ==> is_digit(#[trigger] s[i])
}

/// The value of a digit string read in base ten, most significant first.
pub open spec fn digits_val(s: Seq<char>) -> nat
    decreases s.len(),
{
    if s.len() == 0 {
        0
    } else {
        digits_val(s.drop_last()) * 10 + digit_val(s.last())
    }
}

/// The digit character for a value below ten.
pub open spec fn digit_char(d: int) -> char
    recommends
        0 <= d < 10,
{
    if d == 0 {
        '0'
    } else if d == 1 {
        '1'
    } else if d == 2 {
        '2'
    } else if d == 3 {
        '3'
    } else if d == 4 {
        '4'
    } else if d == 5 {
        '5'
    } else if d == 6 {
        '6'
    } else if d == 7 {
        '7'
    } else if d == 8 {
        '8'
    } else {
        '9'
    }
}

/// The canonical decimal form of `n`: no sign, no leading zero except for
/// zero itself.
pub open spec fn dec_of(n: nat) -> Seq<char>
    decreases n,
{
    if n < 10 {
        seq![digit_char(n as int)]
    } else {
        dec_of(n / 10).push(digit_char((n % 10) as int))
    }
}

/// What parsing a string as an unsigned 64-bit integer yields: an optional
/// leading `+`, then at least one decimal digit, and a value that fits.
/// Anything else is rejected.
pub open spec fn parse_u64_v(s: Seq<char>) -> Option<u64> {
    let ds = if s.len() > 0 && s[0] == '+' {
        s.drop_first()
    } else {
        s
    };
    if ds.len() > 0 && all_digits(ds) && digits_val(ds) <= u64::MAX {
        Some(digits_val(ds) as u64)
    } else {
        None
    }
}

/// The decimal form of `n` is a nonempty digit string whose value is `n`.
pub proof fn lemma_dec_of_digits(n: nat)
    ensures
        dec_of(n).len() >= 1,
        all_digits(dec_of(n)),
        digits_val(dec_of(n)) == n,
    decreases n,
{
    if n < 10 {
        let s = dec_of(n);
        assert(s.len() == 1);
        assert(s.drop_last() =~= Seq::<char>::empty());
        assert(digits_val(Seq::<char>::empty()) == 0);
        assert(s.last() == digit_char(n as int));
        assert(digits_val(s) == digit_val(digit_char(n as int)));
    } else {
        lemma_dec_of_digits(n / 10);
        let pre = dec_of(n / 10);
        let c = digit_char((n % 10) as int);
        let s = pre.push(c);
        assert(s.drop_last() =~= pre);
        assert(s.last() == c);
        assert(digit_val(c) == n % 10);
        assert(digits_val(s) == (n / 10) * 10 + n % 10);
        assert((n / 10) * 10 + n % 10 == n) by {
            vstd::arithmetic::div_mod::lemma_fundamental_div_mod(n as int, 10);
        }
        assert forall|i: int| 0 <= i < s.len() implies is_digit(#[trigger] s[i]) by {
            if i < pre.len() {
                assert(s[i] == pre[i]);
            }
        }
    }
}

/// Parsing the decimal form of `n` gives back exactly `n`.
pub proof fn lemma_parse_dec_round_trip(n: u64)
    ensures
        parse_u64_v(dec_of(n as nat)) == Some(n),
{
    lemma_dec_of_digits(n as nat);
    let s = dec_of(n as nat);
    assert(is_digit(s[0]));
    assert(s[0] != '+');
}

/// A digit string's value only grows when more digits are appended.
proof fn lemma_digits_val_prefix(s: Seq<char>, i: int)
    requires
        0 <= i <= s.len(),
    ensures
        digits_val(s.subrange(0, i)) <= digits_val(s),
    decreases s.len() - i,
{
    if i == s.len() {
        assert(s.subrange(0, i) =~= s);
    } else {
        lemma_digits_val_prefix(s, i + 1);
        let t = s.subrange(0, i + 1);
        assert(t.drop_last() =~= s.subrange(0, i));
        assert(t.last() == s[i]);
        assert(digits_val(s.subrange(0, i)) <= digits_val(t));
    }
}

/// The digit string for a value below ten.
fn digit_str(d: u64) -> (r: &'static str)
    requires
        d < 10,
    ensures
        r@ == seq![digit_char(d as int)],
{
    let r: &'static str = if d == 0 {
        "0"
    } else if d == 1 {
        "1"
    } else if d == 2 {
        "2"
    } else if d == 3 {
        "3"
    } else if d == 4 {
        "4"
    } else if d == 5 {
        "5"
    } else if d == 6 {
        "6"
    } else if d == 7 {
        "7"
    } else if d == 8 {
        "8"
    } else {
        "9"
    };
    proof {
        reveal_strlit("0");
        reveal_strlit("1");
        reveal_strlit("2");
        reveal_strlit("3");
        reveal_strlit("4");
        reveal_strlit("5");
        reveal_strlit("6");
        reveal_strlit("7");
        reveal_strlit("8");
        reveal_strlit("9");
        assert(r@ =~= seq![digit_char(d as int)]);
    }
    r
}

/// Renders `n` in its canonical decimal form.
pub fn u64_to_string(n: u64) -> (r: String)
    ensures
        r@ == dec_of(n as nat),
    decreases n,
{
    if n < 10 {
        String::from_str(digit_str(n))
    } else {
        let mut s = u64_to_string(n / 10);
        s.append(digit_str(n % 10));
        proof {
            assert(s@ =~= dec_of((n / 10) as nat).push(digit_char((n % 10) as int)));
        }
        s
    }
}

/// Parses a string as an unsigned 64-bit integer: an optional leading `+`,
/// then decimal digits; rejects anything else and values that do not fit.
pub fn parse_u64(s: &str) -> (r: Option<u64>)
    ensures
        r == parse_u64_v(s@),
{
    let len = s.unicode_len();
    let mut i: usize = 0;
    if len > 0 && s.get_char(0) == '+' {
        i = 1;
    }
    let ghost ds = if s@.len() > 0 && s@[0] == '+' {
        s@.drop_first()
    } else {
        s@
    };
    proof {
        assert(ds =~= s@.subrange(i as int, len as int));
    }
    if i == len {
        return None;
    }
    let mut val: u64 = 0;
    let mut j: usize = i;
    while j < len
        invariant
            len == s@.len(),
            i <= j <= len,
            i < len,
            ds == s@.subrange(i as int, len as int),
            ds == (if s@.len() > 0 && s@[0] == '+' {
                s@.drop_first()
            } else {
                s@
            }),
            forall|k: int| 0 <= k < j - i ==> is_digit(#[trigger] ds[k]),
            val == digits_val(ds.subrange(0, j - i)),
        decreases len - j,
    {
        let c = s.get_char(j);
        let cu = c as u32;
        if cu < 48 || cu > 57 {
            assert(!is_digit(ds[j - i]));
            return None;
        }
        let d = (cu - 48) as u64;
        let ghost pre = ds.subrange(0, j - i);
        let ghost cur = ds.subrange(0, j + 1 - i);
        proof {
            assert(cur.drop_last() =~= pre);
            assert(cur.last() == ds[j - i]);
            assert(ds[j - i] == s@[j as int]);
            assert(digits_val(cur) == digits_val(pre) * 10 + digit_val(s@[j as int]));
        }
        if val > (u64::MAX - d) / 10 {
            proof {
                let m = u64::MAX as int;
                assert(val * 10 + d > m) by (nonlinear_arith)
                    requires
                        val > (m - d) / 10,
                        0 <= d <= 9,
                        m == 0xffff_ffff_ffff_ffff,
                        val >= 0,
                ;
                assert(digits_val(cur) > u64::MAX);
                lemma_digits_val_prefix(ds, j + 1 - i);
            }
            return None;
        }
        val = val * 10 + d;
        j = j + 1;
    }
    proof {
        assert(ds.subrange(0, len - i) =~= ds);
        assert(all_digits(ds));
    }
    Some(val)
}

} // verus!
