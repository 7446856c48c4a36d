use vstd::prelude::*;
use vstd::string::StrSliceExecFns;

verus! {

/// The character is one of the decimal digits.
pub open spec fn is_digit_char(c: char) -> bool {
    48 <= c as int && c as int <= 57
}

/// Numeric value of one decimal digit character.
pub open spec fn digit_char_val(c: char) -> int {
    c as int - 48
}

/// Every character of the sequence is a decimal digit.
pub open spec fn all_digit_chars(s: Seq<char>) -> bool {
    forall|i: int| 0 <= i < s.len() ==> is_digit_char(#[trigger] s[i])
}

/// Value of a non-empty run of decimal digits, most significant first.
pub open spec fn digits_value(s: Seq<char>) -> int
    decreases s.len(),
{
    if s.len() == 0 {
        0
    } else {
        digits_value(s.drop_last()) * 10 + digit_char_val(s.last())
    }
}

/// What a text field holds as a 32-bit integer: an optional sign followed
/// by at least one decimal digit, with the value in range; anything else
/// does not parse.
pub open spec fn parsed_i32(s: Seq<char>) -> Option<int> {
    if s.len() == 0 {
        Option::None
    } else {
        let neg = s[0] == '-';
        let body = if s[0] == '-' || s[0] == '+' {
            s.skip(1)
        } else {
            s
        };
        if body.len() == 0 || !all_digit_chars(body) {
            Option::None
        } else {
            let v = if neg {
                -digits_value(body)
            } else {
                digits_value(body)
            };
            if -2147483648 <= v && v <= 2147483647 {
                Option::Some(v)
            } else {
                Option::None
            }
        }
    }
}

/// The text parses as a 32-bit integer.
pub open spec fn parses_as_i32(s: Seq<char>) -> bool {
    parsed_i32(s) is Some
}

/// The parsed value of a text field (0 when it does not parse; rules only
/// read it on fields that do).
pub open spec fn parsed_value(s: Seq<char>) -> int {
    match parsed_i32(s) {
        Option::Some(v) => v,
        Option::None => 0,
    }
}

proof fn lemma_digits_value_nonneg(s: Seq<char>)
    requires
        all_digit_chars(s),
    ensures
        digits_value(s) >= 0,
    decreases s.len(),
{
    if s.len() > 0 {
        assert(is_digit_char(s[s.len() - 1]));
        lemma_digits_value_nonneg(s.drop_last());
    }
}

/// Appending more digits never shrinks the value of a digit run.
proof fn lemma_digits_value_grows(s: Seq<char>, m: int)
    requires
        all_digit_chars(s),
        0 <= m <= s.len(),
    ensures
        digits_value(s) >= digits_value(s.take(m)),
    decreases s.len() - m,
{
    if m == s.len() {
        assert(s.take(m) =~= s);
    } else {
        lemma_digits_value_grows(s, m + 1);
        assert(s.take(m + 1).drop_last() =~= s.take(m));
        assert(s.take(m + 1).last() == s[m]);
        assert(is_digit_char(s[m]));
        lemma_digits_value_nonneg(s.take(m));
        assert(digits_value(s.take(m + 1)) == digits_value(s.take(m)) * 10 + digit_char_val(
            s[m],
        ));
    }
}

/// Parses an optional sign followed by decimal digits as a 32-bit integer,
/// exactly as `parsed_i32` describes.
pub fn parse_i32(s: &str) -> (r: Option<i32>)
    ensures
        (r is None) == (parsed_i32(s@) is None),
        r is Some ==> parsed_i32(s@) == Option::Some(r.unwrap() as int),
{
    let n = s.unicode_len();
    if n == 0 {
        return None;
    }
    let c0 = s.get_char(0);
    let neg = c0 == '-';
    let start: usize = if c0 == '-' || c0 == '+' {
        1
    } else {
        0
    };
    if start == n {
        return None;
    }
    let ghost body = s@.subrange(start as int, n as int);
    proof {
        if start == 1 {
            assert(body =~= s@.skip(1));
        } else {
            assert(body =~= s@);
        }
    }
    let mut acc: i64 = 0;
    let mut i: usize = start;
    while i < n
        invariant
            s@.len() == n as int,
            start <= i <= n,
            start < n,
            body == s@.subrange(start as int, n as int),
            body == (if s@[0] == '-' || s@[0] == '+' {
                s@.skip(1)
            } else {
                s@
            }),
            neg == (s@[0] == '-'),
            body.len() > 0,
            all_digit_chars(s@.subrange(start as int, i as int)),
            acc == digits_value(s@.subrange(start as int, i as int)),
            0 <= acc <= 2147483648,
        decreases n - i,
    {
        let c = s.get_char(i);
        let d = c as u32;
        proof {
            assert(c as int == d as int);
        }
        if d < 48 || d > 57 {
            proof {
                assert(body[i - start] == s@[i as int]);
                assert(!is_digit_char(body[i - start]));
            }
            return None;
        }
        let dv: i64 = (d - 48) as i64;
        proof {
            let pre = s@.subrange(start as int, i as int);
            let cur = s@.subrange(start as int, i + 1);
            assert(cur.drop_last() =~= pre);
            assert(cur.last() == s@[i as int]);
            assert(digits_value(cur) == digits_value(pre) * 10 + digit_char_val(s@[i as int]));
            assert forall|j: int| 0 <= j < cur.len() implies is_digit_char(#[trigger] cur[j]) by {
                if j < cur.len() - 1 {
                    assert(cur[j] == pre[j]);
                }
            }
        }
        acc = acc * 10 + dv;
        if acc > 2147483648 {
            proof {
                if parsed_i32(s@) is Some {
                    assert(all_digit_chars(body));
                    lemma_digits_value_grows(body, i + 1 - start);
                    assert(body.take(i + 1 - start) =~= s@.subrange(start as int, i + 1));
                    lemma_digits_value_nonneg(body);
                    assert(digits_value(body) >= acc);
                }
            }
            return None;
        }
        i += 1;
    }
    proof {
        assert(s@.subrange(start as int, i as int) =~= body);
        if neg {
            assert(s@[0] == '-');
        }
    }
    if neg {
        Some((-acc) as i32)
    } else {
        if acc > 2147483647 {
            return None;
        }
        Some(acc as i32)
    }
}

} // verus!
