//! Decimal parsing for the two knobs callers hand the library: the number
//! of scramble moves and the random seed. A numeral is an optional leading
//! plus sign followed by one or more decimal digits; anything else, or a
//! value that does not fit the target type, is rejected.

use vstd::prelude::*;

verus! {

use vstd::string::StrSliceExecFns;

/// The numeric value of a decimal digit character; 10 marks a non-digit.
pub open spec fn digit_val(c: char) -> int {
    if c == '0' {
        0
    } else if c == '1' {
        1
    } else if c == '2' {
        2
    } else if c == '3' {
        3
    } else if c == '4' {
        4
    } else if c == '5' {
        5
    } else if c == '6' {
        6
    } else if c == '7' {
        7
    } else if c == '8' {
        8
    } else if c == '9' {
        9
    } else {
        10
    }
}

pub open spec fn is_digit(c: char) -> bool {
    digit_val(c) < 10
}

/// The value of a character sequence read as a base-10 numeral.
pub open spec fn digits_val(s: Seq<char>) -> int
    decreases s.len(),
{
    if s.len() == 0 {
        0
    } else {
        digits_val(s.drop_last()) * 10 + digit_val(s.last())
    }
}

pub open spec fn all_digits(s: Seq<char>) -> bool {
    forall|i: int| 0 <= i < s.len() ==> is_digit(#[trigger] s[i])
}

/// The digits of a numeral: everything after an optional leading plus sign.
pub open spec fn numeric_body(s: Seq<char>) -> Seq<char> {
    if s.len() > 0 && s[0] == '+' {
        s.drop_first()
    } else {
        s
    }
}

/// The string is a decimal numeral: an optional plus sign, then at least
/// one digit and nothing else.
pub open spec fn valid_decimal(s: Seq<char>) -> bool {
    numeric_body(s).len() > 0 && all_digits(numeric_body(s))
}

proof fn lemma_digits_val_nonneg(s: Seq<char>)
    ensures
        digits_val(s) >= 0,
    decreases s.len(),
{
    if s.len() > 0 {
        lemma_digits_val_nonneg(s.drop_last());
    }
}

/// Reading more digits never shrinks the value: every prefix of a numeral
/// is worth at most the whole.
proof fn lemma_digits_val_prefix(s: Seq<char>, k: int)
    requires
        0 <= k <= s.len(),
    ensures
        digits_val(s.take(k)) <= digits_val(s),
    decreases s.len(),
{
    if k == s.len() {
        assert(s.take(k) =~= s);
    } else {
        assert(s.drop_last().take(k) =~= s.take(k));
        lemma_digits_val_prefix(s.drop_last(), k);
        lemma_digits_val_nonneg(s.drop_last());
    }
}

/// The digit value of a character: 0 through 9 for digits, 10 otherwise.
fn digit_of(c: char) -> (r: u64)
    ensures
        r as int == digit_val(c),
{
    match c {
        '0' => 0,
        '1' => 1,
        '2' => 2,
        '3' => 3,
        '4' => 4,
        '5' => 5,
        '6' => 6,
        '7' => 7,
        '8' => 8,
        '9' => 9,
        _ => 10,
    }
}

/// Parses the scramble-move count: accepts exactly the decimal numerals
/// whose value fits in a `u8`, and reports every other string as an error.
pub fn parse_moves(s: &str) -> (r: Result<u8, &'static str>)
    ensures
        r is Ok <==> valid_decimal(s@) && digits_val(numeric_body(s@)) <= 255,
        r matches Ok(v) ==> v as int == digits_val(numeric_body(s@)),
        r matches Err(e) ==> e@ == "moves not a number"@,
{
    let n = s.unicode_len();
    let start: usize = if n > 0 && s.get_char(0) == '+' {
        1
    } else {
        0
    };
    proof {
        if start == 1 {
            assert(numeric_body(s@) =~= s@.drop_first());
        } else {
            assert(numeric_body(s@) =~= s@);
        }
    }
    if n == start {
        return Err("moves not a number");
    }
    let ghost body = numeric_body(s@);
    let mut acc: u64 = 0;
    let mut i: usize = start;
    while i < n
        invariant
            start <= i <= n,
            n == s@.len(),
            start <= 1,
            body == numeric_body(s@),
            body.len() == n - start,
            forall|j: int| 0 <= j < body.len() ==> body[j] == s@[start + j],
            all_digits(body.take(i - start)),
            acc as int == digits_val(body.take(i - start)),
            acc <= 255,
        decreases n - i,
    {
        let c = s.get_char(i);
        let d = digit_of(c);
        let ghost j = i - start;
        proof {
            assert(body[j] == s@[i as int]);
            assert(body.take(j + 1).drop_last() =~= body.take(j));
            assert(body.take(j + 1).last() == body[j]);
        }
        if d >= 10 {
            proof {
                assert(!is_digit(body[j]));
            }
            return Err("moves not a number");
        }
        let acc2 = acc * 10 + d;
        if acc2 > 255 {
            proof {
                assert(digits_val(body.take(j + 1)) == acc2);
                lemma_digits_val_prefix(body, j + 1);
            }
            return Err("moves not a number");
        }
        acc = acc2;
        i = i + 1;
        proof {
            assert(all_digits(body.take(i - start)));
        }
    }
    proof {
        assert(body.take(n - start) =~= body);
    }
    Ok(acc as u8)
}

/// Parses the scramble seed: accepts exactly the decimal numerals whose
/// value fits in a `u64`, and reports every other string as an error.
pub fn parse_seed(s: &str) -> (r: Result<u64, &'static str>)
    ensures
        r is Ok <==> valid_decimal(s@) && digits_val(numeric_body(s@)) <= u64::MAX,
        r matches Ok(v) ==> v as int == digits_val(numeric_body(s@)),
        r matches Err(e) ==> e@ == "seed not a number"@,
{
    let n = s.unicode_len();
    let start: usize = if n > 0 && s.get_char(0) == '+' {
        1
    } else {
        0
    };
    proof {
        if start == 1 {
            assert(numeric_body(s@) =~= s@.drop_first());
        } else {
            assert(numeric_body(s@) =~= s@);
        }
    }
    if n == start {
        return Err("seed not a number");
    }
    let ghost body = numeric_body(s@);
    let mut acc: u64 = 0;
    let mut i: usize = start;
    while i < n
        invariant
            start <= i <= n,
            n == s@.len(),
            start <= 1,
            body == numeric_body(s@),
            body.len() == n - start,
            forall|j: int| 0 <= j < body.len() ==> body[j] == s@[start + j],
            all_digits(body.take(i - start)),
            acc as int == digits_val(body.take(i - start)),
        decreases n - i,
    {
        let c = s.get_char(i);
        let d = digit_of(c);
        let ghost j = i - start;
        proof {
            assert(body[j] == s@[i as int]);
            assert(body.take(j + 1).drop_last() =~= body.take(j));
            assert(body.take(j + 1).last() == body[j]);
        }
        if d >= 10 {
            proof {
                assert(!is_digit(body[j]));
            }
            return Err("seed not a number");
        }
        let limit = (u64::MAX - d) / 10;
        if acc > limit {
            proof {
                vstd::arithmetic::div_mod::lemma_fundamental_div_mod((u64::MAX - d) as int, 10);
                assert(acc as int * 10 + d as int > u64::MAX);
                assert(digits_val(body.take(j + 1)) > u64::MAX);
                lemma_digits_val_prefix(body, j + 1);
            }
            return Err("seed not a number");
        }
        proof {
            vstd::arithmetic::div_mod::lemma_fundamental_div_mod((u64::MAX - d) as int, 10);
            assert(acc as int * 10 + d as int <= u64::MAX);
        }
        acc = acc * 10 + d;
        i = i + 1;
        proof {
            assert(all_digits(body.take(i - start)));
        }
    }
    proof {
        assert(body.take(n - start) =~= body);
    }
    Ok(acc)
}

} // verus!
