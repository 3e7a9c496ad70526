use vstd::prelude::*;
use vstd::string::StrSliceExecFns;

verus! {

/// Prices are stored in units of `1e-8`.
pub const PRICE_SCALE: u64 = 100000000;

/// Why a numeric field failed to decode.
#[derive(Debug, PartialEq, Eq, Structural, Clone, Copy)]
pub enum ParseError {
    /// The text is not in the accepted format.
    BadFormat,
    /// The denoted value does not fit the target range.
    Overflow,
}

/// `c` is a decimal digit.
pub open spec fn is_digit(c: char) -> bool {
    '0' as int <= c as int && c as int <= '9' as int
}

/// Numeric value of a digit.
pub open spec fn digit_val(c: char) -> int {
    c as int - '0' as int
}

/// Every character of `s` is a decimal digit.
pub open spec fn all_digits(s: Seq<char>) -> bool {
    forall|i: int| 0 <= i < s.len() ==> is_digit(#[trigger] s[i])
}

/// The integer a digit string denotes, most significant digit first.
pub open spec fn digits_val(s: Seq<char>) -> int
    decreases s.len(),
{
    if s.len() == 0 {
        0
    } else {
        digits_val(s.drop_last()) * 10 + digit_val(s.last())
    }
}

/// `10^k`.
pub open spec fn pow10(k: nat) -> int
    decreases k,
{
    if k == 0 {
        1
    } else {
        10 * pow10((k - 1) as nat)
    }
}

/// Reading one more digit multiplies the prefix value by ten and adds it.
proof fn lemma_digits_take_step(s: Seq<char>, i: int)
    requires
        0 <= i < s.len(),
    ensures
        digits_val(s.take(i + 1)) == digits_val(s.take(i)) * 10 + digit_val(s[i]),
{
    let t1 = s.take(i + 1);
    assert(t1.drop_last() =~= s.take(i));
    assert(t1.last() == s[i]);
}

/// A digit string denotes a nonnegative value.
proof fn lemma_digits_nonneg(s: Seq<char>)
    requires
        all_digits(s),
    ensures
        digits_val(s) >= 0,
    decreases s.len(),
{
    if s.len() > 0 {
        lemma_digits_nonneg(s.drop_last());
    }
}

/// A digit string denotes at least as much as any of its prefixes.
proof fn lemma_digits_monotone(s: Seq<char>, j: int)
    requires
        all_digits(s),
        0 <= j <= s.len(),
    ensures
        digits_val(s) >= digits_val(s.take(j)),
    decreases s.len() - j,
{
    if j < s.len() {
        lemma_digits_take_step(s, j);
        lemma_digits_nonneg(s.take(j));
        lemma_digits_monotone(s, j + 1);
    } else {
        assert(s.take(j) =~= s);
    }
}

/// Parses a string of decimal digits into a `u64`, exactly.
///
/// `BadFormat` comes back if and only if the string is empty or holds a
/// non-digit; `Overflow` if and only if the digits denote a value above
/// `u64::MAX`.
pub fn parse_u64(s: &str) -> (r: Result<u64, ParseError>)
    ensures
        match r {
            Ok(v) => s@.len() >= 1 && all_digits(s@) && digits_val(s@) <= u64::MAX && v
                == digits_val(s@),
            Err(ParseError::BadFormat) => s@.len() == 0 || !all_digits(s@),
            Err(ParseError::Overflow) => s@.len() >= 1 && all_digits(s@) && digits_val(s@)
                > u64::MAX,
        },
{
    let n = s.unicode_len();
    if n == 0 {
        return Err(ParseError::BadFormat);
    }
    let mut val: u64 = 0;
    let mut i: usize = 0;
    proof {
        assert(s@.take(0) =~= Seq::<char>::empty());
    }
    while i < n
        invariant
            i <= n,
            n == s@.len(),
            all_digits(s@.take(i as int)),
            val == digits_val(s@.take(i as int)),
        decreases n - i,
    {
        let c = s.get_char(i);
        let u = c as u32;
        if u < 48 || u > 57 {
            proof {
                assert(!is_digit(s@[i as int]));
            }
            return Err(ParseError::BadFormat);
        }
        let d: u64 = (u - 48) as u64;
        let w: u128 = (val as u128) * 10 + (d as u128);
        proof {
            lemma_digits_take_step(s@, i as int);
        }
        if w > 18446744073709551615 {
            let ghost ip: int = i as int + 1;
            let mut j: usize = i + 1;
            while j < n
                invariant
                    j <= n,
                    n == s@.len(),
                    0 < ip <= j,
                    all_digits(s@.take(j as int)),
                    digits_val(s@.take(ip)) > u64::MAX,
                decreases n - j,
            {
                let c2 = s.get_char(j);
                let u2 = c2 as u32;
                if u2 < 48 || u2 > 57 {
                    proof {
                        assert(!is_digit(s@[j as int]));
                    }
                    return Err(ParseError::BadFormat);
                }
                j = j + 1;
            }
            proof {
                assert(s@.take(n as int) =~= s@);
                lemma_digits_monotone(s@, ip);
            }
            return Err(ParseError::Overflow);
        }
        val = w as u64;
        i = i + 1;
    }
    proof {
        assert(s@.take(n as int) =~= s@);
    }
    Ok(val)
}

/// `i` splits `s` into a nonempty integer part and, unless `i` is the
/// length, a dot followed by one to eight fraction digits.
pub open spec fn price_split_at(s: Seq<char>, i: int) -> bool {
    &&& 1 <= i <= s.len()
    &&& all_digits(s.take(i))
    &&& (i == s.len() || (s[i] == '.' && 1 <= s.len() - i - 1 <= 8 && all_digits(s.skip(i + 1))))
}

/// `s` is a well-formed decimal price literal.
pub open spec fn is_price(s: Seq<char>) -> bool {
    exists|i: int| price_split_at(s, i)
}

/// The value of `s` in `1e-8` units, read at split `i`.
pub open spec fn price_val_at(s: Seq<char>, i: int) -> int {
    if i == s.len() {
        digits_val(s.take(i)) * (PRICE_SCALE as int)
    } else {
        digits_val(s.take(i)) * (PRICE_SCALE as int) + digits_val(s.skip(i + 1)) * pow10(
            (8 - (s.len() - i - 1)) as nat,
        )
    }
}

/// The value in `1e-8` units that a well-formed price literal denotes.
pub open spec fn price_val_e8(s: Seq<char>) -> int {
    price_val_at(s, choose|i: int| price_split_at(s, i))
}

/// At most one position can split a price literal.
pub proof fn lemma_price_split_unique(s: Seq<char>, i1: int, i2: int)
    requires
        price_split_at(s, i1),
        price_split_at(s, i2),
    ensures
        i1 == i2,
{
    if i1 < i2 {
        assert(is_digit(s.take(i2)[i1]));
        assert(!is_digit('.'));
    }
    if i2 < i1 {
        assert(is_digit(s.take(i1)[i2]));
        assert(!is_digit('.'));
    }
}

/// A witnessed split fixes the denoted value.
proof fn lemma_price_val(s: Seq<char>, i: int)
    requires
        price_split_at(s, i),
    ensures
        is_price(s),
        price_val_e8(s) == price_val_at(s, i),
{
    let ci = choose|j: int| price_split_at(s, j);
    assert(price_split_at(s, ci));
    lemma_price_split_unique(s, i, ci);
}

/// The small powers of ten, spelled out.
proof fn lemma_pow10_vals()
    ensures
        pow10(0) == 1,
        pow10(1) == 10,
        pow10(2) == 100,
        pow10(3) == 1000,
        pow10(4) == 10000,
        pow10(5) == 100000,
        pow10(6) == 1000000,
        pow10(7) == 10000000,
        pow10(8) == 100000000,
{
}

/// Powers of ten up to the price scale stay within it.
proof fn lemma_pow10_le_8(t: nat)
    requires
        t <= 8,
    ensures
        1 <= pow10(t) <= 100000000,
{
    lemma_pow10_vals();
    if t == 0 {
    } else if t == 1 {
    } else if t == 2 {
    } else if t == 3 {
    } else if t == 4 {
    } else if t == 5 {
    } else if t == 6 {
    } else if t == 7 {
    } else {
        assert(t == 8);
    }
}

/// Powers of ten are positive.
proof fn lemma_pow10_pos(k: nat)
    ensures
        pow10(k) >= 1,
    decreases k,
{
    if k > 0 {
        lemma_pow10_pos((k - 1) as nat);
    }
}

/// Powers of ten grow with the exponent.
proof fn lemma_pow10_mono(t: nat, b: nat)
    requires
        t <= b,
    ensures
        pow10(t) <= pow10(b),
    decreases b,
{
    if t < b {
        lemma_pow10_mono(t, (b - 1) as nat);
        lemma_pow10_pos((b - 1) as nat);
    }
}

/// Parses a decimal price literal into `1e-8` units, exactly.
///
/// A price literal is a nonempty run of digits, optionally followed by a
/// dot and one to eight fraction digits.  `BadFormat` comes back if and
/// only if the text is not of that shape; `Overflow` if and only if the
/// denoted value, scaled by `1e8`, does not fit in `u64`.
pub fn parse_price(s: &str) -> (r: Result<u64, ParseError>)
    ensures
        match r {
            Ok(v) => is_price(s@) && price_val_e8(s@) <= u64::MAX && v == price_val_e8(s@),
            Err(ParseError::BadFormat) => !is_price(s@),
            Err(ParseError::Overflow) => is_price(s@) && price_val_e8(s@) > u64::MAX,
        },
{
    let n = s.unicode_len();
    if n == 0 {
        return Err(ParseError::BadFormat);
    }
    // Find the dot, checking every other character is a digit.
    let mut dot: usize = n;
    let mut j: usize = 0;
    while j < n
        invariant
            j <= n,
            n == s@.len(),
            n >= 1,
            dot == n || (1 <= dot && dot < j),
            dot == n ==> all_digits(s@.take(j as int)),
            dot < n ==> s@[dot as int] == '.',
            dot < n ==> all_digits(s@.take(dot as int)),
            dot < n ==> forall|t: int| dot < t < j ==> is_digit(#[trigger] s@[t]),
        decreases n - j,
    {
        let c = s.get_char(j);
        let u = c as u32;
        if u >= 48 && u <= 57 {
            proof {
                assert(is_digit(s@[j as int]));
            }
            j = j + 1;
        } else if u == 46 && dot == n && j >= 1 {
            proof {
                assert(s@[j as int] == '.');
            }
            dot = j;
            j = j + 1;
        } else {
            proof {
                assert(!is_digit(s@[j as int]));
                assert forall|i: int| !price_split_at(s@, i) by {
                    if price_split_at(s@, i) {
                        if dot == n && j == 0 {
                            assert(is_digit(s@.take(i)[0]));
                        } else if dot == n {
                            if i > j {
                                assert(is_digit(s@.take(i)[j as int]));
                            } else if i == j {
                                assert(s@[i] == '.');
                                assert(s@[j as int] != '.');
                            } else {
                                assert(is_digit(s@.take(j as int)[i]));
                                assert(s@[i] == '.');
                            }
                        } else {
                            if i > dot {
                                assert(is_digit(s@.take(i)[dot as int]));
                            } else if i < dot {
                                assert(is_digit(s@.take(dot as int)[i]));
                                assert(s@[i] == '.');
                            } else {
                                assert(is_digit(s@.skip(i + 1)[j - dot - 1]));
                            }
                        }
                    }
                }
            }
            return Err(ParseError::BadFormat);
        }
    }
    let fd: usize = if dot < n {
        n - dot - 1
    } else {
        0
    };
    if dot < n && (fd == 0 || fd > 8) {
        proof {
            assert forall|i: int| !price_split_at(s@, i) by {
                if price_split_at(s@, i) {
                    if i > dot {
                        assert(is_digit(s@.take(i)[dot as int]));
                    } else if i < dot {
                        assert(is_digit(s@.take(dot as int)[i]));
                        assert(s@[i] == '.');
                    }
                }
            }
        }
        return Err(ParseError::BadFormat);
    }
    let ilen: usize = if dot < n {
        dot
    } else {
        n
    };
    proof {
        if dot < n {
            assert(s@.skip(dot as int + 1) =~= s@.skip(dot as int + 1));
            assert forall|t: int| 0 <= t < s@.skip(dot as int + 1).len() implies is_digit(
                #[trigger] s@.skip(dot as int + 1)[t],
            ) by {
                assert(s@.skip(dot as int + 1)[t] == s@[dot + 1 + t]);
            }
        } else {
            assert(s@.take(n as int) =~= s@);
        }
        assert(price_split_at(s@, ilen as int));
    }
    // Integer part, with an early cut once it can no longer fit.
    let mut iv: u64 = 0;
    let mut p: usize = 0;
    proof {
        assert(s@.take(0) =~= Seq::<char>::empty());
    }
    while p < ilen
        invariant
            p <= ilen,
            ilen <= n,
            n == s@.len(),
            1 <= ilen,
            price_split_at(s@, ilen as int),
            all_digits(s@.take(ilen as int)),
            iv == digits_val(s@.take(p as int)),
            iv <= 184467440737,
        decreases ilen - p,
    {
        proof {
            assert(is_digit(s@.take(ilen as int)[p as int]));
        }
        let c = s.get_char(p);
        let u = c as u32;
        let d: u64 = (u - 48) as u64;
        let w: u128 = (iv as u128) * 10 + (d as u128);
        proof {
            lemma_digits_take_step(s@, p as int);
        }
        if w > 184467440737 {
            proof {
                let sint = s@.take(ilen as int);
                assert(sint.take(p as int + 1) =~= s@.take(p as int + 1));
                lemma_digits_monotone(sint, p as int + 1);
                assert(digits_val(sint) >= 184467440738);
                assert(digits_val(sint) * (PRICE_SCALE as int) >= 18446744073800000000int)
                    by (nonlinear_arith)
                    requires
                        digits_val(sint) >= 184467440738,
                        PRICE_SCALE as int == 100000000,
                ;
                if (ilen as int) < s@.len() {
                    lemma_digits_nonneg(s@.skip(ilen as int + 1));
                    lemma_pow10_pos((8 - (s@.len() - ilen - 1)) as nat);
                    assert(digits_val(s@.skip(ilen as int + 1)) * pow10(
                        (8 - (s@.len() - ilen - 1)) as nat,
                    ) >= 0) by (nonlinear_arith)
                        requires
                            digits_val(s@.skip(ilen as int + 1)) >= 0,
                            pow10((8 - (s@.len() - ilen - 1)) as nat) >= 1,
                    ;
                }
                lemma_price_val(s@, ilen as int);
            }
            return Err(ParseError::Overflow);
        }
        iv = w as u64;
        p = p + 1;
    }
    // Fraction part: at most eight digits.
    let mut fv: u64 = 0;
    if dot < n {
        let mut q: usize = dot + 1;
        proof {
            lemma_pow10_vals();
            assert(s@.skip(dot as int + 1).take(0) =~= Seq::<char>::empty());
        }
        while q < n
            invariant
                dot + 1 <= q <= n,
                n == s@.len(),
                dot < n,
                n - dot - 1 <= 8,
                all_digits(s@.skip(dot as int + 1)),
                fv == digits_val(s@.skip(dot as int + 1).take(q - dot - 1)),
                fv < pow10((q - dot - 1) as nat),
                fv <= 99999999,
            decreases n - q,
        {
            let ghost fseq = s@.skip(dot as int + 1);
            proof {
                assert(is_digit(fseq[q - dot - 1]));
                assert(fseq[q - dot - 1] == s@[q as int]);
            }
            let c = s.get_char(q);
            let u = c as u32;
            let d: u64 = (u - 48) as u64;
            proof {
                lemma_digits_take_step(fseq, q - dot - 1);
                lemma_pow10_le_8((q - dot) as nat);
                lemma_pow10_le_8((q - dot - 1) as nat);
            }
            fv = fv * 10 + d;
            q = q + 1;
        }
        proof {
            assert(s@.skip(dot as int + 1).take(n - dot - 1) =~= s@.skip(dot as int + 1));
        }
    }
    // Rescale the fraction to 1e-8 units.
    let mut mult: u64 = 1;
    if dot < n {
        let lim: usize = 8 - fd;
        let mut t: usize = 0;
        proof {
            lemma_pow10_vals();
        }
        while t < lim
            invariant
                t <= lim,
                lim <= 7,
                mult == pow10(t as nat),
                mult <= 10000000,
            decreases lim - t,
        {
            proof {
                lemma_pow10_vals();
                lemma_pow10_mono(t as nat, 6);
            }
            mult = mult * 10;
            t = t + 1;
        }
    }
    let ghost fracpow: nat = (8 - (s@.len() - ilen - 1)) as nat;
    proof {
        if (ilen as int) < s@.len() {
            assert(mult == pow10(fracpow));
        }
        assert((iv as int) * (PRICE_SCALE as int) <= 18446744073700000000int) by (nonlinear_arith)
            requires
                0 <= iv as int,
                iv as int <= 184467440737,
                PRICE_SCALE as int == 100000000,
        ;
        assert((fv as int) * (mult as int) <= 9999999900000000int) by (nonlinear_arith)
            requires
                0 <= fv as int,
                fv as int <= 99999999,
                0 <= mult as int,
                mult as int <= 100000000,
        ;
        assert((fv as int) * (mult as int) >= 0) by (nonlinear_arith)
            requires
                0 <= fv as int,
                0 <= mult as int,
        ;
    }
    let total: u128 = (iv as u128) * (PRICE_SCALE as u128) + (fv as u128) * (mult as u128);
    proof {
        lemma_price_val(s@, ilen as int);
        assert(total == price_val_at(s@, ilen as int));
    }
    if total > 18446744073709551615 {
        return Err(ParseError::Overflow);
    }
    Ok(total as u64)
}

} // verus!
