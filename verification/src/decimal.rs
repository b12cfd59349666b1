//! Parsing decimal number strings into scaled integers.
//!
//! Price and quantity fields arrive as strings such as `"101"`, `"2.0"` or
//! `"0.00012"`. The library stores them as `u64` values scaled by `10^8`:
//! `"101"` becomes `10_100_000_000`. The accepted grammar is one or more
//! digits, optionally followed by a dot and up to eight further digits; a
//! string outside the grammar, or one whose scaled value does not fit in
//! `u64`, is rejected.

use vstd::prelude::*;

verus! {

/// Number of fractional digits kept by the fixed scale.
pub const SCALE_DIGITS: u64 = 8;

/// The scale itself: `10^SCALE_DIGITS`.
pub const SCALE: u64 = 100_000_000;

pub open spec fn is_digit(c: char) -> bool {
    48 <= c as u32 <= 57
}

pub open spec fn digit_val(c: char) -> int {
    c as u32 - 48
}

pub open spec fn all_digits(s: Seq<char>) -> bool {
    forall|i: int| 0 <= i < s.len() ==> is_digit(#[trigger] s[i])
}

/// Value of a digit string read in base ten.
pub open spec fn digits_val(s: Seq<char>) -> int
    decreases s.len(),
{
    if s.len() == 0 {
        0
    } else {
        digits_val(s.drop_last()) * 10 + digit_val(s.last())
    }
}

/// Ten to the power `e`, for the small exponents the fixed scale uses.
pub open spec fn pow10(e: int) -> int {
    if e <= 0 {
        1
    } else if e == 1 {
        10
    } else if e == 2 {
        100
    } else if e == 3 {
        1000
    } else if e == 4 {
        10000
    } else if e == 5 {
        100000
    } else if e == 6 {
        1000000
    } else if e == 7 {
        10000000
    } else {
        100000000
    }
}

pub open spec fn dot_at(s: Seq<char>, i: int) -> bool {
    0 <= i < s.len() && s[i] as u32 == 46
}

/// A dot position that splits the string into a nonempty integer part and a
/// (possibly empty) fractional part, all digits.
pub open spec fn valid_split(s: Seq<char>, i: int) -> bool {
    dot_at(s, i) && i > 0 && all_digits(s.subrange(0, i)) && all_digits(
        s.subrange(i + 1, s.len() as int),
    )
}

/// The accepted grammar: digits, optionally a dot and more digits.
pub open spec fn is_decimal_str(s: Seq<char>) -> bool {
    (s.len() > 0 && all_digits(s)) || (exists|i: int| #[trigger] valid_split(s, i))
}

pub open spec fn split_pos(s: Seq<char>) -> int {
    choose|i: int| valid_split(s, i)
}

/// The scaled value of a string in the grammar, as a mathematical integer.
pub open spec fn dec_val(s: Seq<char>) -> int {
    if all_digits(s) {
        digits_val(s) * SCALE
    } else {
        let i = split_pos(s);
        digits_val(s.subrange(0, i)) * SCALE + digits_val(s.subrange(i + 1, s.len() as int))
            * pow10(SCALE_DIGITS - (s.len() - i - 1))
    }
}

/// The fractional part fits in the fixed scale.
pub open spec fn frac_fits(s: Seq<char>) -> bool {
    all_digits(s) || s.len() - split_pos(s) - 1 <= SCALE_DIGITS
}

/// The strings the parser accepts: grammar, scale and range all satisfied.
pub open spec fn parses_to_u64(s: Seq<char>) -> bool {
    is_decimal_str(s) && frac_fits(s) && dec_val(s) <= u64::MAX
}

/// A valid split is the only dot in the string, so it is unique.
pub proof fn lemma_split_unique(s: Seq<char>, i: int, j: int)
    requires
        valid_split(s, i),
        dot_at(s, j),
    ensures
        i == j,
{
    if j < i {
        assert(s.subrange(0, i)[j] == s[j]);
    } else if j > i {
        assert(s.subrange(i + 1, s.len() as int)[j - i - 1] == s[j]);
    }
}

pub proof fn lemma_digits_val_nonneg(s: Seq<char>)
    requires
        all_digits(s),
    ensures
        digits_val(s) >= 0,
    decreases s.len(),
{
    if s.len() > 0 {
        assert(all_digits(s.drop_last()));
        lemma_digits_val_nonneg(s.drop_last());
    }
}

/// A digit string of length `n` has value below `10^n`.
pub proof fn lemma_digits_val_bound(s: Seq<char>)
    requires
        all_digits(s),
        s.len() <= SCALE_DIGITS,
    ensures
        digits_val(s) < pow10(s.len() as int),
        digits_val(s) >= 0,
    decreases s.len(),
{
    if s.len() == 0 {
    } else {
        assert(all_digits(s.drop_last()));
        lemma_digits_val_bound(s.drop_last());
    }
}

/// Extending a digit string to the right never decreases its value.
pub proof fn lemma_digits_val_prefix(s: Seq<char>, j: int)
    requires
        all_digits(s),
        0 <= j <= s.len(),
    ensures
        digits_val(s.subrange(0, j)) <= digits_val(s),
        digits_val(s) >= 0,
    decreases s.len() - j,
{
    if j == s.len() {
        assert(s.subrange(0, j) =~= s);
        lemma_digits_val_nonneg(s);
    } else {
        let t = s.subrange(0, j + 1);
        assert(t.drop_last() =~= s.subrange(0, j));
        assert(all_digits(t)) by {
            assert(forall|k: int| 0 <= k < t.len() ==> t[k] == s[k]);
        }
        lemma_digits_val_nonneg(t.drop_last());
        assert(digits_val(t) == digits_val(s.subrange(0, j)) * 10 + digit_val(t.last()));
        assert(digits_val(s.subrange(0, j)) * 10 >= digits_val(s.subrange(0, j))) by {
            lemma_digits_val_nonneg(t.drop_last());
        }
        lemma_digits_val_prefix(s, j + 1);
    }
}

/// Parse a decimal string into its value scaled by `10^SCALE_DIGITS`.
pub fn parse_scaled(s: &str) -> (r: Option<u64>)
    ensures
        r is Some <==> parses_to_u64(s@),
        r is Some ==> r->Some_0 == dec_val(s@),
{
    let n = s.unicode_len();
    let mut dot: Option<usize> = None;
    let mut i: usize = 0;
    while i < n
        invariant
            n == s@.len(),
            i <= n,
            match dot {
                Some(d) => d < i && dot_at(s@, d as int) && forall|j: int|
                    0 <= j < i && j != d ==> is_digit(#[trigger] s@[j]),
                None => forall|j: int| 0 <= j < i ==> is_digit(#[trigger] s@[j]),
            },
        decreases n - i,
    {
        let c = s.get_char(i) as u32;
        if c == 46 {
            if dot.is_some() {
                proof {
                    let d = dot->Some_0 as int;
                    if is_decimal_str(s@) {
                        if all_digits(s@) {
                            assert(is_digit(s@[d]));
                        } else {
                            let w = choose|w: int| valid_split(s@, w);
                            lemma_split_unique(s@, w, d);
                            lemma_split_unique(s@, w, i as int);
                        }
                    }
                }
                return None;
            }
            dot = Some(i);
        } else if !(48 <= c && c <= 57) {
            proof {
                if is_decimal_str(s@) {
                    if all_digits(s@) {
                        assert(is_digit(s@[i as int]));
                    } else {
                        let w = choose|w: int| valid_split(s@, w);
                        if i as int != w {
                            if i < w {
                                assert(s@.subrange(0, w)[i as int] == s@[i as int]);
                            } else {
                                let ii = i as int;
                                assert(s@.subrange(w + 1, s@.len() as int)[ii - w - 1] == s@[ii]);
                            }
                        }
                    }
                }
            }
            return None;
        }
        i += 1;
    }
    let int_len: usize = match dot {
        Some(d) => d,
        None => n,
    };
    if int_len == 0 {
        proof {
            if is_decimal_str(s@) {
                if all_digits(s@) {
                    if n == 0 {
                    } else {
                        match dot {
                            Some(d) => {
                                assert(is_digit(s@[d as int]));
                            },
                            None => {
                                assert(false);
                            },
                        }
                    }
                } else {
                    let w = choose|w: int| valid_split(s@, w);
                    match dot {
                        Some(d) => {
                            lemma_split_unique(s@, w, d as int);
                        },
                        None => {
                            assert(dot_at(s@, w));
                            assert(false);
                        },
                    }
                }
            }
        }
        return None;
    }
    let ghost int_part = s@.subrange(0, int_len as int);
    let ghost frac_part = if int_len < n {
        s@.subrange(int_len + 1, n as int)
    } else {
        Seq::<char>::empty()
    };
    proof {
        assert(all_digits(int_part));
        if dot is Some {
            assert(all_digits(frac_part));
            assert(valid_split(s@, int_len as int));
            assert(!all_digits(s@)) by {
                assert(!is_digit(s@[int_len as int]));
            }
            assert(valid_split(s@, split_pos(s@))) by {
                assert(valid_split(s@, int_len as int));
            }
            lemma_split_unique(s@, split_pos(s@), int_len as int);
        } else {
            assert(int_part =~= s@);
        }
        if dot is Some {
            lemma_digits_val_nonneg(frac_part);
            assert(digits_val(frac_part) * pow10(SCALE_DIGITS - (s@.len() - int_len - 1)) >= 0)
                by (nonlinear_arith)
                requires
                    digits_val(frac_part) >= 0,
                    pow10(SCALE_DIGITS - (s@.len() - int_len - 1)) >= 0,
            ;
        }
        assert(dec_val(s@) >= digits_val(int_part) * SCALE);
    }
    let frac_len: usize = match dot {
        Some(_) => n - int_len - 1,
        None => 0,
    };
    if frac_len > 8 {
        proof {
            assert(!frac_fits(s@));
        }
        return None;
    }
    // Integer part, with overflow detection.
    let mut acc: u64 = 0;
    let mut k: usize = 0;
    while k < int_len
        invariant
            n == s@.len(),
            int_len <= n,
            k <= int_len,
            int_part == s@.subrange(0, int_len as int),
            all_digits(int_part),
            is_decimal_str(s@),
            frac_fits(s@),
            dec_val(s@) >= digits_val(int_part) * SCALE,
            forall|j: int| 0 <= j < int_len ==> is_digit(#[trigger] s@[j]),
            acc == digits_val(s@.subrange(0, k as int)),
        decreases int_len - k,
    {
        let c = s.get_char(k) as u32;
        let d = (c - 48) as u64;
        proof {
            let t = s@.subrange(0, k + 1);
            assert(t.drop_last() =~= s@.subrange(0, k as int));
            assert(t.last() == s@[k as int]);
        }
        if acc > (u64::MAX - d) / 10 {
            proof {
                let t = s@.subrange(0, k + 1);
                assert(digits_val(t) == acc * 10 + d);
                assert(digits_val(t) > u64::MAX);
                assert(int_part.subrange(0, k + 1) =~= t);
                lemma_digits_val_prefix(int_part, k + 1);
                assert(digits_val(int_part) > u64::MAX);
                assert(digits_val(int_part) * SCALE >= digits_val(int_part) * 1);
            }
            return None;
        }
        acc = acc * 10 + d;
        k += 1;
    }
    proof {
        assert(s@.subrange(0, int_len as int) == int_part);
    }
    // Fractional part: at most eight digits, so no overflow is possible.
    let mut facc: u64 = 0;
    let mut k2: usize = 0;
    while k2 < frac_len
        invariant
            n == s@.len(),
            int_len < n || frac_len == 0,
            frac_len <= 8,
            int_len + 1 + frac_len <= n || frac_len == 0,
            frac_len > 0 ==> frac_part == s@.subrange(int_len + 1, n as int) && frac_part.len()
                == frac_len && all_digits(frac_part),
            k2 <= frac_len,
            facc == digits_val(if frac_len > 0 {
                frac_part.subrange(0, k2 as int)
            } else {
                Seq::<char>::empty()
            }),
            facc < 100_000_000,
        decreases frac_len - k2,
    {
        let c = s.get_char(int_len + 1 + k2) as u32;
        proof {
            assert(frac_part[k2 as int] == s@[int_len + 1 + k2]);
            assert(is_digit(s@[int_len + 1 + k2]));
        }
        let d = (c - 48) as u64;
        proof {
            let t = frac_part.subrange(0, k2 + 1);
            assert(t.drop_last() =~= frac_part.subrange(0, k2 as int));
            assert(t.last() == frac_part[k2 as int]);
            assert(all_digits(t)) by {
                assert(forall|j: int| 0 <= j < t.len() ==> t[j] == frac_part[j]);
            }
            lemma_digits_val_bound(t);
        }
        facc = facc * 10 + d;
        k2 += 1;
    }
    let mult: u64 = pow10_exec(8 - frac_len as u64);
    proof {
        if frac_len > 0 {
            assert(frac_part.subrange(0, frac_len as int) =~= frac_part);
            lemma_digits_val_bound(frac_part);
        }
    }
    proof {
        assert(facc * mult < 10_000_000_000_000_000) by (nonlinear_arith)
            requires
                0 <= facc < 100_000_000,
                0 <= mult <= 100_000_000,
        ;
    }
    let total: u128 = (acc as u128) * (SCALE as u128) + (facc as u128) * (mult as u128);
    proof {
        if dot is Some {
            assert(split_pos(s@) == int_len as int);
            assert(dec_val(s@) == digits_val(int_part) * SCALE + digits_val(frac_part) * pow10(
                SCALE_DIGITS - frac_len,
            ));
            assert((facc as u128) * (mult as u128) == digits_val(frac_part) * pow10(
                SCALE_DIGITS - frac_len,
            ));
        } else {
            assert(digits_val(frac_part) == 0) by {
                assert(frac_part =~= Seq::<char>::empty());
            }
            assert(dec_val(s@) == digits_val(int_part) * SCALE);
        }
        assert(total == dec_val(s@));
    }
    if total > u64::MAX as u128 {
        return None;
    }
    Some(total as u64)
}

/// `10^e` for `e` up to eight.
fn pow10_exec(e: u64) -> (r: u64)
    requires
        e <= 8,
    ensures
        r == pow10(e as int),
{
    if e == 0 {
        1
    } else if e == 1 {
        10
    } else if e == 2 {
        100
    } else if e == 3 {
        1000
    } else if e == 4 {
        10000
    } else if e == 5 {
        100000
    } else if e == 6 {
        1000000
    } else if e == 7 {
        10000000
    } else {
        100000000
    }
}

} // verus!
