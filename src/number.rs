//! Reading one side of a fraction: a whole number such as `356`, or a decimal
//! such as `35,6` or `35.6`, as an exact mantissa and decimal scale.
use vstd::prelude::*;
use crate::text::{is_digit, digit_value, digits_value, chars_of};

verus! {

/// Error code for a side that is neither a whole number nor a decimal.
pub const ERR_NUMBER_SHAPE: u8 = 22;

/// Error code for a side whose digits denote a value above `u64::MAX`.
pub const ERR_NUMBER_RANGE: u8 = 24;

/// Which side of the fraction a number stands on; used in error messages.
#[derive(PartialEq, Eq, Structural, Debug, Clone, Copy)]
pub enum FType {
    Num,
    Den,
}

/// The exact value `mnt / 10^exp`.
#[derive(PartialEq, Eq, Structural, Debug, Clone, Copy)]
pub struct MyNum {
    pub mnt: u64,
    pub exp: usize,
}

pub open spec fn is_separator(c: char) -> bool {
    c == ',' || c == '.'
}

/// One or more decimal digits and nothing else.
pub open spec fn all_digits(s: Seq<char>) -> bool {
    s.len() > 0 && forall|i: int| 0 <= i < s.len() ==> is_digit(#[trigger] s[i])
}

/// `s` is digits, a separator at index `k`, and digits.
pub open spec fn is_decimal_split(s: Seq<char>, k: int) -> bool {
    0 <= k < s.len() && is_separator(s[k]) && all_digits(s.take(k)) && all_digits(s.skip(k + 1))
}

/// Mantissa and scale that the text `s` denotes, or `None` where `s` is
/// neither a whole number nor a decimal.
pub open spec fn scaled_of(s: Seq<char>) -> Option<(nat, nat)> {
    if all_digits(s) {
        Some((digits_value(s), 0nat))
    } else if exists|k: int| is_decimal_split(s, k) {
        let k = choose|k: int| is_decimal_split(s, k);
        Some((digits_value(s.take(k) + s.skip(k + 1)), (s.len() - k - 1) as nat))
    } else {
        None
    }
}

/// What reading `s` gives: an error code, or the mantissa and scale.
pub open spec fn number_of(s: Seq<char>) -> Result<(nat, nat), u8> {
    match scaled_of(s) {
        None => Err(ERR_NUMBER_SHAPE),
        Some((m, e)) => if m > u64::MAX {
            Err(ERR_NUMBER_RANGE)
        } else {
            Ok((m, e))
        },
    }
}

/// Reading more digits never gives a smaller value.
proof fn lemma_digits_value_grows(s: Seq<char>, i: int)
    requires
        0 <= i <= s.len(),
    ensures
        digits_value(s.take(i)) <= digits_value(s),
    decreases s.len() - i,
{
    if i < s.len() {
        lemma_digits_value_grows(s, i + 1);
        assert(s.take(i + 1).drop_last() == s.take(i));
    } else {
        assert(s.take(i) == s);
    }
}

/// The value of the digit string `d`, or `None` where it exceeds `u64::MAX`.
fn digits_to_u64(d: &Vec<char>) -> (r: Option<u64>)
    requires
        forall|i: int| 0 <= i < d@.len() ==> is_digit(#[trigger] d@[i]),
    ensures
        r == (if digits_value(d@) <= u64::MAX {
            Some(digits_value(d@) as u64)
        } else {
            None::<u64>
        }),
{
    let mut acc: u64 = 0;
    let mut i: usize = 0;
    while i < d.len()
        invariant
            i <= d@.len(),
            forall|j: int| 0 <= j < d@.len() ==> is_digit(#[trigger] d@[j]),
            acc as nat == digits_value(d@.take(i as int)),
        decreases d@.len() - i,
    {
        let c = d[i];
        let dv = (c as u32 - '0' as u32) as u64;
        assert(d@.take(i + 1).drop_last() == d@.take(i as int));
        assert(dv as nat == digit_value(c));
        let next = match acc.checked_mul(10) {
            Some(t) => t.checked_add(dv),
            None => None,
        };
        match next {
            Some(n) => {
                acc = n;
            },
            None => {
                proof {
                    lemma_digits_value_grows(d@, i + 1);
                }
                return None;
            },
        }
        i = i + 1;
    }
    assert(d@.take(i as int) == d@);
    Some(acc)
}

/// A decimal has its separator at one place only: where its first run of
/// digits ends.
proof fn lemma_split_at_first_non_digit(s: Seq<char>, k: int, j: int)
    requires
        is_decimal_split(s, j),
        0 <= k <= s.len(),
        forall|i: int| 0 <= i < k ==> is_digit(#[trigger] s[i]),
        k < s.len() ==> !is_digit(s[k]),
    ensures
        j == k,
{
    if j < k {
        assert(is_digit(s[j]));
    } else if j > k {
        assert(s.take(j)[k] == s[k]);
    }
}

/// Whether every character of `c` from `start` on is a digit.
fn digits_from(c: &Vec<char>, start: usize) -> (r: bool)
    ensures
        r <==> forall|j: int| start <= j < c@.len() ==> is_digit(#[trigger] c@[j]),
{
    let mut i: usize = start;
    while i < c.len()
        invariant
            start <= i,
            forall|j: int| start <= j < i ==> is_digit(#[trigger] c@[j]),
        decreases c@.len() - i,
    {
        if !('0' <= c[i] && c[i] <= '9') {
            assert(!is_digit(c@[i as int]));
            return false;
        }
        i = i + 1;
    }
    true
}

/// The name of a side, as it appears in error messages.
fn side_name(p_type: FType) -> &'static str {
    match p_type {
        FType::Num => "Numerator",
        FType::Den => "Denominator",
    }
}

/// A message naming the side and quoting its text.
fn side_message(head: &str, p_type: FType, p_str: &String) -> String {
    let mut m = String::from_str(head);
    m.append(side_name(p_type));
    m.append(" = '");
    m.append(p_str.as_str());
    m.append("'");
    m
}

/// Reads `p_str` as a whole number (`356`) or a decimal with a comma or a
/// point (`35,6`, `35.6`): the mantissa is all its digits read as one
/// number, the scale the count of digits after the separator. Fails with
/// code 22 on any other text, and with code 24 where the mantissa exceeds
/// `u64::MAX`.
pub fn get_num(p_type: FType, p_str: &String) -> (r: Result<MyNum, (u8, String)>)
    ensures
        match r {
            Ok(v) => number_of(p_str@) == Ok::<(nat, nat), u8>((v.mnt as nat, v.exp as nat)),
            Err(e) => number_of(p_str@) == Err::<(nat, nat), u8>(e.0),
        },
{
    let c = chars_of(p_str.as_str());
    let ghost s = p_str@;
    let len = c.len();
    let mut k: usize = 0;
    while k < len && '0' <= c[k] && c[k] <= '9'
        invariant
            k <= len == s.len(),
            c@ == s,
            forall|i: int| 0 <= i < k ==> is_digit(#[trigger] s[i]),
        decreases len - k,
    {
        k = k + 1;
    }
    let mantissa: Vec<char>;
    let exp: usize;
    if k == len && len > 0 {
        assert(all_digits(s));
        mantissa = c;
        exp = 0;
    } else if k > 0 && k + 1 < len && (c[k] == ',' || c[k] == '.') && digits_from(&c, k + 1) {
        let ghost rest = s.skip(k + 1);
        assert forall|i: int| 0 <= i < rest.len() implies is_digit(#[trigger] rest[i]) by {
            assert(rest[i] == s[k + 1 + i]);
        }
        assert forall|i: int| 0 <= i < k implies is_digit(#[trigger] s.take(k as int)[i]) by {
            assert(s.take(k as int)[i] == s[i]);
        }
        assert(is_decimal_split(s, k as int));
        assert(!all_digits(s));
        let ghost j = choose|j: int| is_decimal_split(s, j);
        proof {
            lemma_split_at_first_non_digit(s, k as int, j);
        }
        let mut m: Vec<char> = Vec::new();
        let mut i: usize = 0;
        while i < len
            invariant
                k < len == s.len(),
                c@ == s,
                i <= len,
                m@ == if i <= k {
                    s.take(i as int)
                } else {
                    s.take(k as int) + s.subrange(k + 1, i as int)
                },
            decreases len - i,
        {
            if i != k {
                m.push(c[i]);
            }
            proof {
                if i < k {
                    assert(s.take(i + 1) == s.take(i as int).push(s[i as int]));
                } else if i > k {
                    assert(s.subrange(k + 1, i + 1) == s.subrange(k + 1, i as int).push(s[i as int]));
                } else {
                    assert(s.subrange(k + 1, k + 1) =~= Seq::<char>::empty());
                    assert(s.take(k as int) + Seq::<char>::empty() =~= s.take(k as int));
                }
            }
            i = i + 1;
        }
        assert(s.subrange(k + 1, len as int) == s.skip(k + 1));
        mantissa = m;
        exp = len - k - 1;
    } else {
        proof {
            if exists|j: int| is_decimal_split(s, j) {
                let j = choose|j: int| is_decimal_split(s, j);
                lemma_split_at_first_non_digit(s, k as int, j);
                assert(s.take(j).len() > 0 && s.skip(j + 1).len() > 0);
                assert forall|i: int| k + 1 <= i < len implies is_digit(#[trigger] s[i]) by {
                    assert(s[i] == s.skip(j + 1)[i - j - 1]);
                }
            }
            if len > 0 {
                assert(!is_digit(s[k as int]));
            }
        }
        return Err((ERR_NUMBER_SHAPE, side_message("Can't parse ", p_type, p_str)));
    }
    proof {
        assert forall|i: int| 0 <= i < mantissa@.len() implies is_digit(#[trigger] mantissa@[i]) by {
            if exp > 0 {
                if i < k {
                    assert(mantissa@[i] == s[i]);
                } else {
                    assert(mantissa@[i] == s[i + 1]);
                }
            }
        }
    }
    match digits_to_u64(&mantissa) {
        Some(v) => Ok(MyNum { mnt: v, exp }),
        None => Err((ERR_NUMBER_RANGE, side_message("Integer overflow ", p_type, p_str))),
    }
}

} // verus!
