//! Verified text utilities: decimal rendering and parsing of `i32`,
//! string equality and lexicographic comparison over character views.

use vstd::prelude::*;

verus! {

/// Numeric value of a decimal digit character, or -1 for any other character.
pub open spec fn digit_val(c: char) -> int {
    if c == '0' {
        0
    } else if c == '1' {
        1
    } else if c == '2' {
        2
    } else if c == '3' {
        3
    } else if c == '4' {
        4
    } else if c == '5' {
        5
    } else if c == '6' {
        6
    } else if c == '7' {
        7
    } else if c == '8' {
        8
    } else if c == '9' {
        9
    } else {
        -1
    }
}

/// Whether `c` is a decimal digit.
pub open spec fn is_digit(c: char) -> bool {
    digit_val(c) >= 0
}

/// The decimal digit character for a value in 0..10.
pub open spec fn digit_char(d: int) -> char {
    if d == 0 {
        '0'
    } else if d == 1 {
        '1'
    } else if d == 2 {
        '2'
    } else if d == 3 {
        '3'
    } else if d == 4 {
        '4'
    } else if d == 5 {
        '5'
    } else if d == 6 {
        '6'
    } else if d == 7 {
        '7'
    } else if d == 8 {
        '8'
    } else {
        '9'
    }
}

/// Decimal digit sequence of a nonnegative integer, without leading zeros
/// (the single digit '0' for zero).
pub open spec fn spec_nat_chars(n: int) -> Seq<char>
    decreases n,
{
    if n < 10 {
        seq![digit_char(n)]
    } else {
        spec_nat_chars(n / 10).push(digit_char(n % 10))
    }
}

/// Decimal text of an integer: a leading '-' for negative values.
pub open spec fn spec_int_chars(n: int) -> Seq<char> {
    if n < 0 {
        seq!['-'] + spec_nat_chars(-n)
    } else {
        spec_nat_chars(n)
    }
}

/// Whether every character of `s` is a decimal digit.
pub open spec fn all_digits(s: Seq<char>) -> bool {
    forall|i: int| 0 <= i < s.len() ==> is_digit(s[i])
}

/// Value of a sequence of decimal digits, most significant first.
pub open spec fn spec_digits_val(s: Seq<char>) -> int
    decreases s.len(),
{
    if s.len() == 0 {
        0
    } else {
        spec_digits_val(s.drop_last()) * 10 + digit_val(s.last())
    }
}

/// The value `str::parse::<i32>` yields on `s`, or `None` where it fails:
/// an optional single sign, then at least one digit, and the value in range.
pub open spec fn spec_parse_i32(s: Seq<char>) -> Option<i32> {
    let has_sign = s.len() > 0 && (s[0] == '-' || s[0] == '+');
    let digits = if has_sign {
        s.skip(1)
    } else {
        s
    };
    if digits.len() > 0 && all_digits(digits) {
        let v = if has_sign && s[0] == '-' {
            -spec_digits_val(digits)
        } else {
            spec_digits_val(digits)
        };
        if i32::MIN <= v <= i32::MAX {
            Some(v as i32)
        } else {
            None
        }
    } else {
        None
    }
}

/// Lexicographic order on character sequences, compared from position `i` on.
pub open spec fn lex_lt_from(a: Seq<char>, b: Seq<char>, i: int) -> bool
    decreases a.len() - i,
{
    if i < 0 {
        false
    } else if i >= b.len() {
        false
    } else if i >= a.len() {
        true
    } else if (a[i] as int) < (b[i] as int) {
        true
    } else if (a[i] as int) > (b[i] as int) {
        false
    } else {
        lex_lt_from(a, b, i + 1)
    }
}

/// Strict lexicographic order on character sequences, by code point,
/// a proper prefix ordering before what extends it.
pub open spec fn lex_lt(a: Seq<char>, b: Seq<char>) -> bool {
    lex_lt_from(a, b, 0)
}

/// Non-strict lexicographic order.
pub open spec fn lex_ge(a: Seq<char>, b: Seq<char>) -> bool {
    !lex_lt(a, b)
}

/// Numeric value of a digit character, executable form.
fn digit_of(c: char) -> (r: i64)
    ensures
        r == digit_val(c),
{
    match c {
        '0' => 0,
        '1' => 1,
        '2' => 2,
        '3' => 3,
        '4' => 4,
        '5' => 5,
        '6' => 6,
        '7' => 7,
        '8' => 8,
        '9' => 9,
        _ => -1,
    }
}

/// The one-character text of a decimal digit.
fn digit_str(d: u64) -> (r: &'static str)
    requires
        d < 10,
    ensures
        r@ == seq![digit_char(d as int)],
{
    match d {
        0 => {
            proof {
                reveal_strlit("0");
                assert("0"@ =~= seq![digit_char(0)]);
            }
            "0"
        },
        1 => {
            proof {
                reveal_strlit("1");
                assert("1"@ =~= seq![digit_char(1)]);
            }
            "1"
        },
        2 => {
            proof {
                reveal_strlit("2");
                assert("2"@ =~= seq![digit_char(2)]);
            }
            "2"
        },
        3 => {
            proof {
                reveal_strlit("3");
                assert("3"@ =~= seq![digit_char(3)]);
            }
            "3"
        },
        4 => {
            proof {
                reveal_strlit("4");
                assert("4"@ =~= seq![digit_char(4)]);
            }
            "4"
        },
        5 => {
            proof {
                reveal_strlit("5");
                assert("5"@ =~= seq![digit_char(5)]);
            }
            "5"
        },
        6 => {
            proof {
                reveal_strlit("6");
                assert("6"@ =~= seq![digit_char(6)]);
            }
            "6"
        },
        7 => {
            proof {
                reveal_strlit("7");
                assert("7"@ =~= seq![digit_char(7)]);
            }
            "7"
        },
        8 => {
            proof {
                reveal_strlit("8");
                assert("8"@ =~= seq![digit_char(8)]);
            }
            "8"
        },
        _ => {
            proof {
                reveal_strlit("9");
                assert("9"@ =~= seq![digit_char(9)]);
            }
            "9"
        },
    }
}

/// Decimal text of a nonnegative integer.
pub fn nat_to_string(m: u64) -> (r: String)
    ensures
        r@ == spec_nat_chars(m as int),
    decreases m,
{
    if m < 10 {
        String::from_str(digit_str(m))
    } else {
        let mut s = nat_to_string(m / 10);
        s.append(digit_str(m % 10));
        proof {
            assert(s@ =~= spec_nat_chars(m as int));
        }
        s
    }
}

/// Decimal text of an `i32`, with a leading '-' for negative values.
pub fn i32_to_string(n: i32) -> (r: String)
    ensures
        r@ == spec_int_chars(n as int),
{
    if n >= 0 {
        nat_to_string(n as u64)
    } else {
        let mag: u64 = (-(n as i64)) as u64;
        let mut s = String::from_str("-");
        let digits = nat_to_string(mag);
        s.append(digits.as_str());
        proof {
            reveal_strlit("-");
            assert(s@ =~= spec_int_chars(n as int));
        }
        s
    }
}

/// Whether two strings hold the same characters.
pub fn str_eq(a: &str, b: &str) -> (r: bool)
    ensures
        r == (a@ == b@),
{
    let alen = a.unicode_len();
    let blen = b.unicode_len();
    if alen != blen {
        return false;
    }
    let mut i: usize = 0;
    while i < alen
        invariant
            alen == a@.len(),
            blen == b@.len(),
            alen == blen,
            i <= alen,
            forall|j: int| 0 <= j < i ==> a@[j] == b@[j],
        decreases alen - i,
    {
        if a.get_char(i) != b.get_char(i) {
            return false;
        }
        i += 1;
    }
    proof {
        assert(a@ =~= b@);
    }
    true
}

/// Whether `a` comes strictly before `b` in lexicographic order.
pub fn str_lt(a: &str, b: &str) -> (r: bool)
    ensures
        r == lex_lt(a@, b@),
{
    let alen = a.unicode_len();
    let blen = b.unicode_len();
    let mut i: usize = 0;
    loop
        invariant
            alen == a@.len(),
            blen == b@.len(),
            i <= alen,
            i <= blen,
            lex_lt(a@, b@) == lex_lt_from(a@, b@, i as int),
        decreases alen - i,
    {
        if i >= blen {
            proof {
                assert(!lex_lt_from(a@, b@, i as int));
            }
            return false;
        }
        if i >= alen {
            proof {
                assert(lex_lt_from(a@, b@, i as int));
            }
            return true;
        }
        let ca = a.get_char(i);
        let cb = b.get_char(i);
        if (ca as u32) < (cb as u32) {
            return true;
        }
        if (ca as u32) > (cb as u32) {
            return false;
        }
        proof {
            assert(lex_lt_from(a@, b@, i as int) == lex_lt_from(a@, b@, i as int + 1));
        }
        i += 1;
    }
}

/// Every digit sequence has a nonnegative value.
pub proof fn lemma_digits_val_nonneg(s: Seq<char>)
    requires
        all_digits(s),
    ensures
        spec_digits_val(s) >= 0,
    decreases s.len(),
{
    if s.len() > 0 {
        assert(all_digits(s.drop_last()));
        lemma_digits_val_nonneg(s.drop_last());
    }
}

/// The value of a digit sequence is no less than the value of any prefix.
pub proof fn lemma_digits_val_prefix_le(s: Seq<char>, i: int)
    requires
        0 <= i <= s.len(),
        all_digits(s),
    ensures
        spec_digits_val(s.take(i)) <= spec_digits_val(s),
    decreases s.len() - i,
{
    if i < s.len() {
        assert(s.drop_last().take(i) =~= s.take(i));
        assert(all_digits(s.drop_last()));
        lemma_digits_val_prefix_le(s.drop_last(), i);
        lemma_digits_val_nonneg(s.drop_last());
        assert(is_digit(s[s.len() - 1]));
        assert(digit_val(s.last()) >= 0);
        assert(spec_digits_val(s) == spec_digits_val(s.drop_last()) * 10 + digit_val(s.last()));
    } else {
        assert(s.take(i) =~= s);
    }
}

/// The decimal text of a nonnegative integer is nonempty, consists of
/// digits, and evaluates back to the integer.
pub proof fn lemma_nat_chars_digits(n: int)
    requires
        n >= 0,
    ensures
        all_digits(spec_nat_chars(n)),
        spec_nat_chars(n).len() >= 1,
        spec_digits_val(spec_nat_chars(n)) == n,
    decreases n,
{
    if n < 10 {
        assert(seq![digit_char(n)].drop_last() =~= Seq::<char>::empty());
        assert(spec_digits_val(Seq::<char>::empty()) == 0);
        assert(digit_val(digit_char(n)) == n);
        assert(spec_digits_val(seq![digit_char(n)]) == n);
    } else {
        lemma_nat_chars_digits(n / 10);
        let s = spec_nat_chars(n);
        assert(s.drop_last() =~= spec_nat_chars(n / 10));
        assert(s.last() == digit_char(n % 10));
        assert forall|i: int| 0 <= i < s.len() implies is_digit(s[i]) by {
            if i < s.len() - 1 {
                assert(s[i] == spec_nat_chars(n / 10)[i]);
            }
        }
    }
}

/// Parsing is a left inverse of decimal formatting on every `i32`.
pub proof fn lemma_parse_int_chars(n: int)
    requires
        i32::MIN <= n <= i32::MAX,
    ensures
        spec_parse_i32(spec_int_chars(n)) == Some(n as i32),
{
    if n >= 0 {
        lemma_nat_chars_digits(n);
        let s = spec_int_chars(n);
        assert(is_digit(s[0]));
        assert(s[0] != '-' && s[0] != '+');
    } else {
        lemma_nat_chars_digits(-n);
        let s = spec_int_chars(n);
        assert(s[0] == '-');
        assert(s.skip(1) =~= spec_nat_chars(-n));
    }
}

/// The decimal text of an `i32` never starts with a letter: its first
/// character is either '-' or a digit.
pub proof fn lemma_int_chars_head(n: int)
    requires
        i32::MIN <= n <= i32::MAX,
    ensures
        spec_int_chars(n).len() >= 1,
        spec_int_chars(n)[0] == '-' || is_digit(spec_int_chars(n)[0]),
{
    if n >= 0 {
        lemma_nat_chars_digits(n);
    } else {
        lemma_nat_chars_digits(-n);
    }
}

/// Parse the decimal text of an `i32`, as `str::parse::<i32>` does:
/// an optional sign, then one or more digits, rejecting values out of range.
pub fn parse_i32(s: &str) -> (r: Option<i32>)
    ensures
        r == spec_parse_i32(s@),
{
    let len = s.unicode_len();
    if len == 0 {
        return None;
    }
    let first = s.get_char(0);
    let has_sign = first == '-' || first == '+';
    let neg = first == '-';
    let start: usize = if has_sign {
        1
    } else {
        0
    };
    let ghost ds: Seq<char> = if has_sign {
        s@.skip(1)
    } else {
        s@
    };
    if start >= len {
        proof {
            assert(ds.len() == 0);
        }
        return None;
    }
    let mut i: usize = start;
    let mut m: i64 = 0;
    while i < len
        invariant
            len == s@.len(),
            0 < len,
            start <= i <= len,
            has_sign == (s@[0] == '-' || s@[0] == '+'),
            neg == (s@[0] == '-'),
            start == (if has_sign { 1int } else { 0int }),
            start < len,
            ds == (if has_sign { s@.skip(1) } else { s@ }),
            ds.len() == len - start,
            forall|j: int| 0 <= j < i - start ==> is_digit(ds[j]),
            m == spec_digits_val(ds.take(i - start)),
            0 <= m <= 2147483648,
        decreases len - i,
    {
        let c = s.get_char(i);
        proof {
            assert(ds[i - start] == c);
        }
        let dv = digit_of(c);
        if dv < 0 {
            proof {
                assert(!is_digit(ds[i - start]));
            }
            return None;
        }
        let m2: i64 = m * 10 + dv;
        let ghost k: int = i - start + 1;
        proof {
            assert(ds.take(k).drop_last() =~= ds.take(k - 1));
            assert(ds.take(k).last() == ds[k - 1]);
            assert(m2 == spec_digits_val(ds.take(k)));
        }
        if m2 > 2147483648 {
            proof {
                if all_digits(ds) {
                    lemma_digits_val_prefix_le(ds, k);
                }
            }
            return None;
        }
        m = m2;
        i += 1;
    }
    proof {
        assert(ds.take(len - start) =~= ds);
        assert(all_digits(ds));
        assert(m == spec_digits_val(ds));
    }
    if neg {
        let v: i64 = -m;
        proof {
            assert(i32::MIN <= v <= i32::MAX);
        }
        Some(v as i32)
    } else {
        if m > 2147483647 {
            return None;
        }
        Some(m as i32)
    }
}

} // verus!

