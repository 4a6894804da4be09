//! The whole pipeline: split the text at its slash, read both sides, align
//! their decimal scales and reduce the resulting ratio.
use vstd::prelude::*;
use vstd::arithmetic::power::{pow, lemma_pow_increases, lemma_pow_positive};
use crate::text::{chars_of, decimal, is_digit, lemma_decimal_digits};
use crate::number::{FType, MyNum, get_num, number_of, all_digits};
use crate::fraction::{
    Fract, get_norm, reduced, agrees, gcd, lemma_reduce_fixpoint, lemma_divided_by_gcd_coprime,
    ERR_DIVISION_BY_ZERO,
};

verus! {

/// Error code for text that is not one or two non-empty parts around a slash.
pub const ERR_FRACTION_SHAPE: u8 = 14;

/// Error code for a power of ten, needed to align the scales, above `u64::MAX`.
pub const ERR_POWER_RANGE: u8 = 16;

/// Error code for a denominator that overflows when scaled up.
pub const ERR_DENOMINATOR_RANGE: u8 = 18;

/// Error code for a numerator that overflows when scaled up.
pub const ERR_NUMERATOR_RANGE: u8 = 20;

/// `s` is a non-empty part, a slash at index `k`, and a non-empty part, with
/// no other slash.
pub open spec fn is_slash_split(s: Seq<char>, k: int) -> bool {
    0 < k < s.len() - 1 && s[k] == '/' && !s.take(k).contains('/') && !s.skip(k + 1).contains(
        '/',
    )
}

/// The numerator and denominator texts of `s`: the whole of `s` over `1`
/// where it has no slash, the two parts around its one slash otherwise.
pub open spec fn split_of(s: Seq<char>) -> Option<(Seq<char>, Seq<char>)> {
    if s.len() > 0 && !s.contains('/') {
        Some((s, seq!['1']))
    } else if exists|k: int| is_slash_split(s, k) {
        let k = choose|k: int| is_slash_split(s, k);
        Some((s.take(k), s.skip(k + 1)))
    } else {
        None
    }
}

/// Brings `nm / 10^ne` over `dm / 10^de` to a ratio of integers by scaling
/// the side with the smaller scale by `10^|ne - de|`.
pub open spec fn aligned(nm: nat, ne: nat, dm: nat, de: nat) -> Result<(nat, nat), u8> {
    let diff: nat = if ne > de {
        (ne - de) as nat
    } else {
        (de - ne) as nat
    };
    let p = pow(10, diff);
    if p > u64::MAX {
        Err(ERR_POWER_RANGE)
    } else if ne > de {
        if dm * p > u64::MAX {
            Err(ERR_DENOMINATOR_RANGE)
        } else {
            Ok((nm, (dm * p) as nat))
        }
    } else {
        if nm * p > u64::MAX {
            Err(ERR_NUMERATOR_RANGE)
        } else {
            Ok(((nm * p) as nat, dm))
        }
    }
}

/// What parsing the text `s` gives: the first error met along the way, or
/// the reduced numerator and denominator.
pub open spec fn parse_fraction(s: Seq<char>) -> Result<(nat, nat), u8> {
    match split_of(s) {
        None => Err(ERR_FRACTION_SHAPE),
        Some((a, b)) => match number_of(a) {
            Err(e) => Err(e),
            Ok((nm, ne)) => match number_of(b) {
                Err(e) => Err(e),
                Ok((dm, de)) => match aligned(nm, ne, dm, de) {
                    Err(e) => Err(e),
                    Ok((n, d)) => reduced(n, d),
                },
            },
        },
    }
}

/// `10^e`, or `None` where it exceeds `u64::MAX`.
fn pow10_checked(e: usize) -> (r: Option<u64>)
    ensures
        r == (if pow(10, e as nat) <= u64::MAX {
            Some(pow(10, e as nat) as u64)
        } else {
            None::<u64>
        }),
{
    let mut acc: u64 = 1;
    let mut i: usize = 0;
    proof {
        reveal(pow);
    }
    while i < e
        invariant
            i <= e,
            acc == pow(10, i as nat),
        decreases e - i,
    {
        proof {
            reveal(pow);
        }
        match acc.checked_mul(10) {
            Some(t) => {
                acc = t;
            },
            None => {
                proof {
                    lemma_pow_increases(10, (i + 1) as nat, e as nat);
                }
                return None;
            },
        }
        i = i + 1;
    }
    Some(acc)
}

/// Whether no character of `c` from `start` on is a slash.
fn no_slash_from(c: &Vec<char>, start: usize) -> (r: bool)
    ensures
        r <==> forall|j: int| start <= j < c@.len() ==> c@[j] != '/',
{
    let mut i: usize = start;
    while i < c.len()
        invariant
            start <= i,
            forall|j: int| start <= j < i ==> c@[j] != '/',
        decreases c@.len() - i,
    {
        if c[i] == '/' {
            return false;
        }
        i = i + 1;
    }
    true
}

/// Splits `inp` into its numerator and denominator texts: the whole text
/// over `1` where it has no slash, the parts around its one slash where both
/// are non-empty, and `None` for any other text.
pub fn split_fraction(inp: &String) -> (r: Option<(String, String)>)
    ensures
        match r {
            Some((a, b)) => split_of(inp@) == Some((a@, b@)),
            None => split_of(inp@) is None,
        },
{
    let c = chars_of(inp.as_str());
    let ghost s = inp@;
    let len = c.len();
    let mut k: usize = 0;
    while k < len && c[k] != '/'
        invariant
            k <= len == s.len(),
            c@ == s,
            forall|i: int| 0 <= i < k ==> s[i] != '/',
        decreases len - k,
    {
        k = k + 1;
    }
    if k == len {
        if len == 0 {
            return None;
        }
        let one = String::from_str("1");
        proof {
            reveal_strlit("1");
            assert(!s.contains('/'));
        }
        return Some((String::from_str(inp.as_str()), one));
    }
    assert(s.contains('/') && s[k as int] == '/');
    if k > 0 && k + 1 < len && no_slash_from(&c, k + 1) {
        let a = inp.as_str().substring_char(0, k);
        let b = inp.as_str().substring_char(k + 1, len);
        proof {
            assert(!s.take(k as int).contains('/')) by {
                if s.take(k as int).contains('/') {
                    let i = choose|i: int| 0 <= i < k && #[trigger] s.take(k as int)[i] == '/';
                    assert(s[i] == '/');
                }
            }
            assert(!s.skip(k + 1).contains('/')) by {
                if s.skip(k + 1).contains('/') {
                    let i = choose|i: int| 0 <= i < s.skip(k + 1).len() && #[trigger] s.skip(k + 1)[i] == '/';
                    assert(c@[k + 1 + i] == '/');
                }
            }
            assert(is_slash_split(s, k as int));
            let j = choose|j: int| is_slash_split(s, j);
            if j > k {
                assert(s.take(j)[k as int] == '/');
            }
            assert(j == k);
            assert(s.subrange(0, k as int) == s.take(k as int));
            assert(s.subrange(k + 1, len as int) == s.skip(k + 1));
        }
        return Some((String::from_str(a), String::from_str(b)));
    }
    proof {
        if exists|j: int| is_slash_split(s, j) {
            let j = choose|j: int| is_slash_split(s, j);
            if j > k {
                assert(s.take(j)[k as int] == '/');
            }
            assert(j == k);
            assert forall|i: int| k + 1 <= i < len implies c@[i] != '/' by {
                assert(s[i] == s.skip(j + 1)[i - j - 1]);
            }
        }
    }
    None
}

/// Aligns the scales of the two sides: multiplies the side with the smaller
/// scale by `10^|num.exp - den.exp|`, failing with code 16 where that power
/// exceeds `u64::MAX`, and with code 18 or 20 where the scaled denominator
/// or numerator does.
pub fn get_aligned(num: &MyNum, den: &MyNum) -> (r: Result<Fract, (u8, String)>)
    ensures
        agrees(r, aligned(num.mnt as nat, num.exp as nat, den.mnt as nat, den.exp as nat)),
{
    let diff: usize = if num.exp > den.exp {
        num.exp - den.exp
    } else {
        den.exp - num.exp
    };
    let p = match pow10_checked(diff) {
        Some(p) => p,
        None => {
            let mut m = String::from_str("p10 overflow for 10 ^ ");
            m.append(diff.to_string().as_str());
            return Err((ERR_POWER_RANGE, m));
        },
    };
    proof {
        lemma_pow_positive(10, diff as nat);
    }
    if num.exp > den.exp {
        match den.mnt.checked_mul(p) {
            Some(d) => Ok(Fract { numer: num.mnt, denom: d }),
            None => {
                let mut m = String::from_str("Denominator overflow: ");
                m.append(den.mnt.to_string().as_str());
                m.append(" * ");
                m.append(p.to_string().as_str());
                Err((ERR_DENOMINATOR_RANGE, m))
            },
        }
    } else {
        match num.mnt.checked_mul(p) {
            Some(n) => Ok(Fract { numer: n, denom: den.mnt }),
            None => {
                let mut m = String::from_str("Numerator overflow: ");
                m.append(num.mnt.to_string().as_str());
                m.append(" * ");
                m.append(p.to_string().as_str());
                Err((ERR_NUMERATOR_RANGE, m))
            },
        }
    }
}

/// Parses a fraction such as `3/4`, `7` or `35,6/12` and returns it in
/// lowest terms. Each side is a whole number or a decimal with a comma or a
/// point; the first failure along the way gives the error code: 14 for the
/// shape of the whole, 22 and 24 for a side (numerator first), 16, 18 and 20
/// for aligning the scales, and 26 for a zero denominator.
pub fn get_fract(inp_fract: &String) -> (r: Result<Fract, (u8, String)>)
    ensures
        agrees(r, parse_fraction(inp_fract@)),
        r matches Ok(f) ==> f.is_reduced(),
{
    let (inp_num, inp_den) = match split_fraction(inp_fract) {
        Some(parts) => parts,
        None => {
            return Err((ERR_FRACTION_SHAPE, String::from_str("Could not parse fraction")));
        },
    };
    let val_num = match get_num(FType::Num, &inp_num) {
        Ok(v) => v,
        Err(e) => {
            return Err(e);
        },
    };
    let val_den = match get_num(FType::Den, &inp_den) {
        Ok(v) => v,
        Err(e) => {
            return Err(e);
        },
    };
    let mfr_dat = match get_aligned(&val_num, &val_den) {
        Ok(f) => f,
        Err(e) => {
            return Err(e);
        },
    };
    get_norm(&mfr_dat)
}

/// The decimal form of a number that fits in `u64` reads back as that
/// number, with scale zero.
pub proof fn lemma_number_of_decimal(v: nat)
    requires
        v <= u64::MAX,
    ensures
        number_of(decimal(v)) == Ok::<(nat, nat), u8>((v, 0)),
{
    lemma_decimal_digits(v);
    assert(all_digits(decimal(v)));
}

/// Two decimal forms joined by a slash split back into those two forms.
pub proof fn lemma_split_decimal_pair(n: nat, d: nat)
    ensures
        split_of(decimal(n) + seq!['/'] + decimal(d)) == Some((decimal(n), decimal(d))),
{
    let a = decimal(n);
    let b = decimal(d);
    let s = a + seq!['/'] + b;
    let k = a.len() as int;
    lemma_decimal_digits(n);
    lemma_decimal_digits(d);
    assert(s[k] == '/');
    assert(s.take(k) =~= a);
    assert(s.skip(k + 1) =~= b);
    assert(!a.contains('/')) by {
        if a.contains('/') {
            let i = choose|i: int| 0 <= i < a.len() && #[trigger] a[i] == '/';
            assert(is_digit(a[i]));
        }
    }
    assert(!b.contains('/')) by {
        if b.contains('/') {
            let i = choose|i: int| 0 <= i < b.len() && #[trigger] b[i] == '/';
            assert(is_digit(b[i]));
        }
    }
    assert(is_slash_split(s, k));
    let j = choose|j: int| is_slash_split(s, j);
    if j < k {
        assert(is_digit(a[j]));
        assert(s[j] == a[j]);
    } else if j > k {
        assert(s.take(j)[k] == '/');
    }
}

/// Writing a fraction in lowest terms as `n/d` and parsing it gives back
/// `n` and `d` exactly.
pub proof fn lemma_round_trip(n: nat, d: nat)
    requires
        n <= u64::MAX,
        1 <= d <= u64::MAX,
        gcd(n, d) == 1,
    ensures
        parse_fraction(decimal(n) + seq!['/'] + decimal(d)) == Ok::<(nat, nat), u8>((n, d)),
{
    lemma_split_decimal_pair(n, d);
    lemma_number_of_decimal(n);
    lemma_number_of_decimal(d);
    reveal(pow);
    assert(pow(10, 0) == 1);
    assert(aligned(n, 0, d, 0) == Ok::<(nat, nat), u8>((n, d)));
    lemma_reduce_fixpoint(n, d);
}

/// Whatever the sides read as, a ratio whose aligned denominator is zero is
/// refused with the division-by-zero code.
pub proof fn lemma_zero_denominator(s: Seq<char>, n: nat)
    requires
        split_of(s) matches Some((a, b)) && number_of(a) matches Ok((nm, ne)) && number_of(
            b,
        ) matches Ok((dm, de)) && aligned(nm, ne, dm, de) == Ok::<(nat, nat), u8>((n, 0)),
    ensures
        parse_fraction(s) == Err::<(nat, nat), u8>(ERR_DIVISION_BY_ZERO),
{
}

/// A whole number over a literal zero, such as `5/0`, is refused with the
/// division-by-zero code.
pub proof fn lemma_over_literal_zero(n: nat)
    requires
        n <= u64::MAX,
    ensures
        parse_fraction(decimal(n) + seq!['/'] + decimal(0)) == Err::<(nat, nat), u8>(
            ERR_DIVISION_BY_ZERO,
        ),
{
    lemma_split_decimal_pair(n, 0);
    lemma_number_of_decimal(n);
    lemma_number_of_decimal(0);
    reveal(pow);
    assert(pow(10, 0) == 1);
    assert(aligned(n, 0, 0, 0) == Ok::<(nat, nat), u8>((n, 0)));
}

/// Every fraction that parsing yields is in lowest terms, over a positive
/// denominator.
pub proof fn lemma_parse_result_reduced(s: Seq<char>)
    ensures
        parse_fraction(s) matches Ok((n, d)) ==> d >= 1 && gcd(n, d) == 1,
{
    if let Some((a, b)) = split_of(s) {
        if let (Ok((nm, ne)), Ok((dm, de))) = (number_of(a), number_of(b)) {
            if let Ok((n, d)) = aligned(nm, ne, dm, de) {
                if d > 0 {
                    if n == 0 {
                        assert(gcd(0, 1) == gcd(1, 0));
                    } else {
                        lemma_divided_by_gcd_coprime(n, d);
                    }
                }
            }
        }
    }
}

} // verus!
