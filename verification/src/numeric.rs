//! Decimal rendering and parsing of integers, with exact character-level
//! specifications. The scanner, the serializer and the command engine all
//! rely on these to relate numeric tokens to their wire text.

use vstd::prelude::*;

verus! {

/// Is `c` one of the ten decimal digit characters?
pub open spec fn is_digit_char(c: char) -> bool {
    ('0' as int) <= (c as int) && (c as int) <= ('9' as int)
}

/// The numeric value of a decimal digit character.
pub open spec fn digit_val(c: char) -> int {
    (c as int) - ('0' as int)
}

/// The decimal digit character for a value in 0..=9.
pub open spec fn digit_char(d: int) -> char {
    if d == 0 {
        '0'
    } else if d == 1 {
        '1'
    } else if d == 2 {
        '2'
    } else if d == 3 {
        '3'
    } else if d == 4 {
        '4'
    } else if d == 5 {
        '5'
    } else if d == 6 {
        '6'
    } else if d == 7 {
        '7'
    } else if d == 8 {
        '8'
    } else {
        '9'
    }
}

/// The decimal digit string of a non-negative integer, without sign and
/// without leading zeros (except for zero itself, which is "0").
pub open spec fn dec_nat_chars(n: int) -> Seq<char>
    decreases n,
{
    if n < 10 {
        seq![digit_char(n)]
    } else {
        dec_nat_chars(n / 10) + seq![digit_char(n % 10)]
    }
}

/// The decimal string of an integer: a leading '-' for negative values.
pub open spec fn dec_int_chars(n: int) -> Seq<char> {
    if n < 0 {
        seq!['-'] + dec_nat_chars(-n)
    } else {
        dec_nat_chars(n)
    }
}

/// Every character of `s` is a decimal digit.
pub open spec fn all_digits(s: Seq<char>) -> bool {
    forall|i: int| 0 <= i < s.len() ==> is_digit_char(#[trigger] s[i])
}

/// The value of a digit string read in base 10.
pub open spec fn digits_val(s: Seq<char>) -> int
    decreases s.len(),
{
    if s.len() == 0 {
        0
    } else {
        digits_val(s.drop_last()) * 10 + digit_val(s.last())
    }
}

/// The length of the maximal run of digit characters at the front of `s`.
pub open spec fn digit_run(s: Seq<char>) -> int
    decreases s.len(),
{
    if s.len() > 0 && is_digit_char(s[0]) {
        1 + digit_run(s.skip(1))
    } else {
        0
    }
}

/// The digit run is within bounds, consists of digits, and is maximal.
pub proof fn lemma_digit_run(s: Seq<char>)
    ensures
        0 <= digit_run(s) <= s.len(),
        all_digits(s.take(digit_run(s))),
        digit_run(s) < s.len() ==> !is_digit_char(s[digit_run(s)]),
        s.len() > 0 && is_digit_char(s[0]) ==> digit_run(s) >= 1,
    decreases s.len(),
{
    if s.len() > 0 && is_digit_char(s[0]) {
        lemma_digit_run(s.skip(1));
        let r = digit_run(s);
        assert forall|i: int| 0 <= i < r implies is_digit_char(#[trigger] s.take(r)[i]) by {
            if i > 0 {
                assert(s.take(r)[i] == s.skip(1).take(r - 1)[i - 1]);
            }
        }
        if r < s.len() {
            assert(s[r] == s.skip(1)[r - 1]);
        }
    }
}

/// Pins the digit run down: a digit prefix of length `m` that is either
/// closed by a non-digit or reaches the end is exactly the run.
pub proof fn lemma_digit_run_is(u: Seq<char>, m: int)
    requires
        0 <= m <= u.len(),
        all_digits(u.take(m)),
        m < u.len() ==> !is_digit_char(u[m]),
    ensures
        digit_run(u) == m,
    decreases m,
{
    if m == 0 {
        if u.len() > 0 {
            assert(!is_digit_char(u[0]));
        }
    } else {
        assert(is_digit_char(u[0])) by {
            assert(u.take(m)[0] == u[0]);
        }
        assert(all_digits(u.skip(1).take(m - 1))) by {
            assert forall|i: int| 0 <= i < m - 1 implies is_digit_char(
                #[trigger] u.skip(1).take(m - 1)[i],
            ) by {
                assert(u.skip(1).take(m - 1)[i] == u.take(m)[i + 1]);
            }
        }
        if m - 1 < u.skip(1).len() {
            assert(u.skip(1)[m - 1] == u[m]);
        }
        lemma_digit_run_is(u.skip(1), m - 1);
    }
}

/// A digit prefix never extends past the maximal run.
pub proof fn lemma_digit_run_at_least(u: Seq<char>, m: int)
    requires
        0 <= m <= u.len(),
        all_digits(u.take(m)),
    ensures
        digit_run(u) >= m,
{
    lemma_digit_run(u);
    let r = digit_run(u);
    if r < m {
        assert(u.take(m)[r] == u[r]);
        assert(is_digit_char(u[r]));
        assert(false);
    }
}

/// Unfolding `digits_val` along a prefix, one character at a time.
pub proof fn lemma_digits_val_take_succ(s: Seq<char>, j: int)
    requires
        0 <= j < s.len(),
    ensures
        digits_val(s.take(j + 1)) == digits_val(s.take(j)) * 10 + digit_val(s[j]),
{
    assert(s.take(j + 1).drop_last() =~= s.take(j));
    assert(s.take(j + 1).last() == s[j]);
}

/// A digit string has a non-negative value.
pub proof fn lemma_digits_val_nonneg(s: Seq<char>)
    requires
        all_digits(s),
    ensures
        digits_val(s) >= 0,
    decreases s.len(),
{
    if s.len() > 0 {
        assert(all_digits(s.drop_last()));
        lemma_digits_val_nonneg(s.drop_last());
    }
}

/// Extending a digit string can only increase its value.
pub proof fn lemma_digits_val_prefix_le(s: Seq<char>, j: int)
    requires
        all_digits(s),
        0 <= j <= s.len(),
    ensures
        digits_val(s.take(j)) <= digits_val(s),
    decreases s.len() - j,
{
    if j < s.len() {
        lemma_digits_val_take_succ(s, j);
        assert(all_digits(s.take(j)));
        lemma_digits_val_nonneg(s.take(j));
        lemma_digits_val_prefix_le(s, j + 1);
    } else {
        assert(s.take(j) =~= s);
    }
}

/// The decimal rendering of a non-negative integer consists of digits,
/// is never empty, reads back to the same value, and has no leading zero
/// unless it is "0" itself.
pub proof fn lemma_dec_nat_chars(n: int)
    requires
        n >= 0,
    ensures
        all_digits(dec_nat_chars(n)),
        dec_nat_chars(n).len() >= 1,
        digits_val(dec_nat_chars(n)) == n,
        n > 0 ==> dec_nat_chars(n)[0] != '0',
        n == 0 ==> dec_nat_chars(n) == seq!['0'],
    decreases n,
{
    if n < 10 {
        let s = seq![digit_char(n)];
        assert(s.drop_last() =~= Seq::<char>::empty());
        assert(digits_val(Seq::<char>::empty()) == 0);
        assert(s.last() == digit_char(n));
        assert(digits_val(s) == digit_val(digit_char(n)));
    } else {
        vstd::arithmetic::div_mod::lemma_fundamental_div_mod(n, 10);
        assert(0 <= n % 10 < 10) by {
            vstd::arithmetic::div_mod::lemma_mod_bound(n, 10);
        }
        assert(1 <= n / 10 < n) by {
            vstd::arithmetic::div_mod::lemma_div_pos_is_pos(n, 10);
            vstd::arithmetic::div_mod::lemma_div_is_strictly_smaller(n, 10);
        }
        lemma_dec_nat_chars(n / 10);
        let a = dec_nat_chars(n / 10);
        let s = a + seq![digit_char(n % 10)];
        assert(s.drop_last() =~= a);
        assert(s.last() == digit_char(n % 10));
        assert(digit_val(digit_char(n % 10)) == n % 10);
        assert(digits_val(s) == (n / 10) * 10 + n % 10);
    }
}

/// The integer a piece of text denotes: an optional sign followed by at
/// least one digit. This mirrors how the standard library reads integers,
/// before any range check.
pub open spec fn int_from_chars(s: Seq<char>) -> Option<int> {
    if s.len() == 0 {
        None
    } else if s[0] == '+' || s[0] == '-' {
        let ds = s.skip(1);
        if ds.len() > 0 && all_digits(ds) {
            if s[0] == '-' {
                Some(-digits_val(ds))
            } else {
                Some(digits_val(ds))
            }
        } else {
            None
        }
    } else if all_digits(s) {
        Some(digits_val(s))
    } else {
        None
    }
}

/// As `int_from_chars`, further requiring the value to fit in an `i64`.
pub open spec fn parse_i64_spec(s: Seq<char>) -> Option<int> {
    match int_from_chars(s) {
        Some(v) => if i64::MIN <= v <= i64::MAX {
            Some(v)
        } else {
            None
        },
        None => None,
    }
}

/// Reads a decimal integer, with optional sign, from text.
#[verifier::loop_isolation(false)]
pub fn parse_i64(s: &str) -> (r: Option<i64>)
    ensures
        match r {
            Some(v) => parse_i64_spec(s@) == Some(v as int),
            None => parse_i64_spec(s@) is None,
        },
{
    let n = s.unicode_len();
    if n == 0 {
        return None;
    }
    let c0 = s.get_char(0);
    let neg = c0 == '-';
    let has_sign = neg || c0 == '+';
    let start: usize = if has_sign {
        1
    } else {
        0
    };
    if start >= n {
        return None;
    }
    let ghost ds = if has_sign {
        s@.skip(1)
    } else {
        s@
    };
    proof {
        assert(ds =~= s@.subrange(start as int, n as int));
    }
    let bound: u64 = if neg {
        9223372036854775808u64
    } else {
        9223372036854775807u64
    };
    let mut acc: u64 = 0;
    let mut idx = start;
    proof {
        assert(s@.subrange(start as int, start as int) =~= Seq::<char>::empty());
    }
    while idx < n
        invariant
            start <= idx <= n,
            all_digits(s@.subrange(start as int, idx as int)),
            acc == digits_val(s@.subrange(start as int, idx as int)),
            acc <= bound,
        decreases n - idx,
    {
        let c = s.get_char(idx);
        if !(c >= '0' && c <= '9') {
            proof {
                assert(ds[idx - start] == c);
                assert(!all_digits(ds));
            }
            return None;
        }
        let d: u64 = (c as u32 as u64) - 48;
        proof {
            let pre = s@.subrange(start as int, idx as int);
            let ext = s@.subrange(start as int, idx + 1);
            assert(ext.drop_last() =~= pre);
            assert(ext.last() == c);
            assert(all_digits(ext)) by {
                assert(forall|p: int|
                    0 <= p < ext.len() - 1 ==> ext[p] == #[trigger] pre[p]);
            }
        }
        if acc > (bound - d) / 10 {
            proof {
                let ext = s@.subrange(start as int, idx + 1);
                assert(digits_val(ext) == acc * 10 + d) by {
                    lemma_digits_val_take_succ_subrange(s@, start as int, idx as int);
                }
                assert(acc * 10 + d > bound) by {
                    vstd::arithmetic::div_mod::lemma_fundamental_div_mod((bound - d) as int, 10);
                    vstd::arithmetic::div_mod::lemma_mod_bound((bound - d) as int, 10);
                    assert(acc * 10 + d > bound) by (nonlinear_arith)
                        requires
                            acc > ((bound - d) as int) / 10,
                            (bound - d) as int == 10 * (((bound - d) as int) / 10) + ((bound
                                - d) as int) % 10,
                            0 <= ((bound - d) as int) % 10 < 10,
                    ;
                }
                if all_digits(ds) {
                    assert(ext =~= ds.take(idx + 1 - start));
                    lemma_digits_val_prefix_le(ds, idx + 1 - start);
                    assert(digits_val(ds) > bound);
                }
            }
            return None;
        }
        acc = acc * 10 + d;
        idx = idx + 1;
        proof {
            lemma_digits_val_take_succ_subrange(s@, start as int, idx - 1);
        }
    }
    proof {
        assert(s@.subrange(start as int, n as int) =~= ds);
        assert(acc == digits_val(ds));
        lemma_digits_val_nonneg(ds);
    }
    if neg {
        if acc == 9223372036854775808u64 {
            Some(i64::MIN)
        } else {
            Some(-(acc as i64))
        }
    } else {
        Some(acc as i64)
    }
}

/// `lemma_digits_val_take_succ`, phrased over a subrange.
proof fn lemma_digits_val_take_succ_subrange(s: Seq<char>, start: int, j: int)
    requires
        0 <= start <= j < s.len(),
    ensures
        digits_val(s.subrange(start, j + 1)) == digits_val(s.subrange(start, j)) * 10 + digit_val(
            s[j],
        ),
{
    assert(s.subrange(start, j + 1).drop_last() =~= s.subrange(start, j));
    assert(s.subrange(start, j + 1).last() == s[j]);
}

/// The digit character for a value below ten, as a string slice.
fn digit_str(d: u64) -> (r: &'static str)
    requires
        d < 10,
    ensures
        r@ == seq![digit_char(d as int)],
{
    proof {
        reveal_strlit("0");
        reveal_strlit("1");
        reveal_strlit("2");
        reveal_strlit("3");
        reveal_strlit("4");
        reveal_strlit("5");
        reveal_strlit("6");
        reveal_strlit("7");
        reveal_strlit("8");
        reveal_strlit("9");
    }
    let r = match d {
        0 => "0",
        1 => "1",
        2 => "2",
        3 => "3",
        4 => "4",
        5 => "5",
        6 => "6",
        7 => "7",
        8 => "8",
        _ => "9",
    };
    proof {
        assert(r@ =~= seq![digit_char(d as int)]);
    }
    r
}

/// Renders a non-negative integer in decimal.
pub fn u64_to_dec(n: u64) -> (s: String)
    ensures
        s@ == dec_nat_chars(n as int),
    decreases n,
{
    if n < 10 {
        String::from_str(digit_str(n))
    } else {
        let mut s = u64_to_dec(n / 10);
        s.append(digit_str(n % 10));
        proof {
            assert(s@ =~= dec_nat_chars(n as int));
        }
        s
    }
}

/// Renders a signed integer in decimal, with a leading '-' when negative.
pub fn i64_to_dec_string(n: i64) -> (s: String)
    ensures
        s@ == dec_int_chars(n as int),
{
    if n >= 0 {
        u64_to_dec(n as u64)
    } else {
        let mag: u64 = if n == i64::MIN {
            9223372036854775808u64
        } else {
            (-n) as u64
        };
        let digits = u64_to_dec(mag);
        let mut s = String::from_str("-");
        s.append(digits.as_str());
        proof {
            reveal_strlit("-");
            assert(s@ =~= dec_int_chars(n as int));
        }
        s
    }
}

} // verus!
