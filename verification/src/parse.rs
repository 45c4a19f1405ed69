use vstd::prelude::*;

verus! {

/// Numeric value of a digit character in the given radix, if it is one.
/// Letters `a`..`f` in either case carry the values 10 through 15.
pub open spec fn digit_val(c: char, radix: u64) -> Option<u64> {
    let base: Option<u64> = match c {
        '0' => Some(0u64),
        '1' => Some(1u64),
        '2' => Some(2u64),
        '3' => Some(3u64),
        '4' => Some(4u64),
        '5' => Some(5u64),
        '6' => Some(6u64),
        '7' => Some(7u64),
        '8' => Some(8u64),
        '9' => Some(9u64),
        'a' | 'A' => Some(10u64),
        'b' | 'B' => Some(11u64),
        'c' | 'C' => Some(12u64),
        'd' | 'D' => Some(13u64),
        'e' | 'E' => Some(14u64),
        'f' | 'F' => Some(15u64),
        _ => None,
    };
    match base {
        Some(v) => if v < radix {
            Some(v)
        } else {
            None
        },
        None => None,
    }
}

/// Unbounded value of a digit string: `None` when any character is not a
/// digit of the radix, otherwise the usual positional interpretation.
pub open spec fn digits_value(s: Seq<char>, radix: u64) -> Option<nat>
    decreases s.len(),
{
    if s.len() == 0 {
        Some(0)
    } else {
        match (digits_value(s.drop_last(), radix), digit_val(s.last(), radix)) {
            (Some(v), Some(d)) => Some((v * radix + d) as nat),
            _ => None,
        }
    }
}

/// What parsing an unsigned integer from a whole string yields: an optional
/// leading `+`, then at least one digit, and a value that fits in `u64`.
pub open spec fn parse_u64_radix(s: Seq<char>, radix: u64) -> Option<u64> {
    let digits = if s.len() > 0 && s[0] == '+' {
        s.drop_first()
    } else {
        s
    };
    if digits.len() == 0 {
        None
    } else {
        match digits_value(digits, radix) {
            Some(v) => if v <= u64::MAX {
                Some(v as u64)
            } else {
                None
            },
            None => None,
        }
    }
}

/// A defined digit string stays defined, and can only shrink in value, when
/// truncated.
proof fn lemma_digits_prefix(s: Seq<char>, i: int, radix: u64)
    requires
        0 <= i <= s.len(),
        1 <= radix,
        digits_value(s, radix) is Some,
    ensures
        digits_value(s.take(i), radix) is Some,
        digits_value(s.take(i), radix)->Some_0 <= digits_value(s, radix)->Some_0,
    decreases s.len() - i,
{
    if i == s.len() {
        assert(s.take(i) =~= s);
    } else {
        let t = s.take(i + 1);
        assert(t.drop_last() =~= s.take(i));
        assert(s.take(s.len() as int) =~= s);
        lemma_digits_prefix(s, i + 1, radix);
        assert(digits_value(t, radix) is Some);
        let v = digits_value(s.take(i), radix)->Some_0;
        let d = digit_val(t.last(), radix)->Some_0;
        assert(v <= v * radix + d) by (nonlinear_arith)
            requires
                1 <= radix,
                0 <= v,
                0 <= d,
        ;
    }
}

fn digit_of(c: char, radix: u64) -> (r: Option<u64>)
    ensures
        r == digit_val(c, radix),
{
    let base: Option<u64> = match c {
        '0' => Some(0u64),
        '1' => Some(1u64),
        '2' => Some(2u64),
        '3' => Some(3u64),
        '4' => Some(4u64),
        '5' => Some(5u64),
        '6' => Some(6u64),
        '7' => Some(7u64),
        '8' => Some(8u64),
        '9' => Some(9u64),
        'a' | 'A' => Some(10u64),
        'b' | 'B' => Some(11u64),
        'c' | 'C' => Some(12u64),
        'd' | 'D' => Some(13u64),
        'e' | 'E' => Some(14u64),
        'f' | 'F' => Some(15u64),
        _ => None,
    };
    match base {
        Some(v) => if v < radix {
            Some(v)
        } else {
            None
        },
        None => None,
    }
}

/// Parse a whole string as an unsigned integer in the given radix, as
/// `parse_u64_radix` describes.
pub fn parse_u64(s: &str, radix: u64) -> (r: Option<u64>)
    requires
        2 <= radix <= 16,
    ensures
        r == parse_u64_radix(s@, radix),
{
    let n = s.unicode_len();
    let start: usize = if n > 0 && s.get_char(0) == '+' {
        1
    } else {
        0
    };
    let ghost digits = if s@.len() > 0 && s@[0] == '+' {
        s@.drop_first()
    } else {
        s@
    };
    assert(digits =~= s@.subrange(start as int, s@.len() as int));
    if n == start {
        return None;
    }
    let mut acc: u64 = 0;
    let mut i: usize = start;
    while i < n
        invariant
            2 <= radix <= 16,
            start <= i <= n,
            n == s@.len(),
            digits =~= s@.subrange(start as int, s@.len() as int),
            digits == (if s@.len() > 0 && s@[0] == '+' {
                s@.drop_first()
            } else {
                s@
            }),
            digits_value(digits.take(i - start), radix) == Some(acc as nat),
        decreases n - i,
    {
        let c = s.get_char(i);
        let ghost pre = digits.take(i - start);
        let ghost cur = digits.take(i + 1 - start);
        proof {
            assert(cur.drop_last() =~= pre);
            assert(cur.last() == s@[i as int]);
        }
        match digit_of(c, radix) {
            None => {
                proof {
                    assert(digits_value(cur, radix) is None);
                    if digits_value(digits, radix) is Some {
                        lemma_digits_prefix(digits, i + 1 - start, radix);
                        assert(false);
                    }
                }
                return None;
            },
            Some(d) => {
                proof {
                    assert((acc as int) * (radix as int) + (d as int) <= (u64::MAX as int) * 16
                        + 15) by (nonlinear_arith)
                        requires
                            acc <= u64::MAX,
                            radix <= 16,
                            d < radix,
                    ;
                    assert(digits_value(cur, radix) == Some(
                        ((acc as nat) * (radix as nat) + (d as nat)) as nat,
                    ));
                }
                let wide: u128 = (acc as u128) * (radix as u128) + (d as u128);
                if wide > u64::MAX as u128 {
                    proof {
                        if digits_value(digits, radix) is Some {
                            lemma_digits_prefix(digits, i + 1 - start, radix);
                            assert(digits_value(digits, radix)->Some_0 > u64::MAX);
                        }
                    }
                    return None;
                }
                acc = wide as u64;
            },
        }
        i += 1;
    }
    proof {
        assert(digits.take(n - start) =~= digits);
    }
    Some(acc)
}

/// The decimal digit character for a value below ten.
pub open spec fn dec_digit(d: nat) -> char {
    if d == 0 {
        '0'
    } else if d == 1 {
        '1'
    } else if d == 2 {
        '2'
    } else if d == 3 {
        '3'
    } else if d == 4 {
        '4'
    } else if d == 5 {
        '5'
    } else if d == 6 {
        '6'
    } else if d == 7 {
        '7'
    } else if d == 8 {
        '8'
    } else {
        '9'
    }
}

/// The usual decimal rendering of a number, without sign or padding.
pub open spec fn dec_str(n: nat) -> Seq<char>
    decreases n,
{
    if n < 10 {
        seq![dec_digit(n)]
    } else {
        dec_str(n / 10) + seq![dec_digit(n % 10)]
    }
}

fn dec_digit_str(d: u64) -> (r: &'static str)
    requires
        d < 10,
    ensures
        r@ =~= seq![dec_digit(d as nat)],
{
    proof {
        reveal_strlit("0");
        reveal_strlit("1");
        reveal_strlit("2");
        reveal_strlit("3");
        reveal_strlit("4");
        reveal_strlit("5");
        reveal_strlit("6");
        reveal_strlit("7");
        reveal_strlit("8");
        reveal_strlit("9");
    }
    if d == 0 {
        "0"
    } else if d == 1 {
        "1"
    } else if d == 2 {
        "2"
    } else if d == 3 {
        "3"
    } else if d == 4 {
        "4"
    } else if d == 5 {
        "5"
    } else if d == 6 {
        "6"
    } else if d == 7 {
        "7"
    } else if d == 8 {
        "8"
    } else {
        "9"
    }
}

/// Render a number in decimal, as `dec_str` describes.
pub fn u64_to_dec(n: u64) -> (r: String)
    ensures
        r@ == dec_str(n as nat),
    decreases n,
{
    if n < 10 {
        String::from_str(dec_digit_str(n))
    } else {
        let mut s = u64_to_dec(n / 10);
        s.append(dec_digit_str(n % 10));
        s
    }
}

} // verus!
