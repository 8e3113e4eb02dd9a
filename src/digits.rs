//! Unsigned numbers written in base 10 or base 16.
use vstd::prelude::*;
use vstd::string::*;

verus! {

/// Whether `c` is a digit in base `radix`; base-16 digits may be of either case.
pub open spec fn is_digit(c: char, radix: nat) -> bool {
    if radix == 16 {
        ('0' <= c <= '9') || ('a' <= c <= 'f') || ('A' <= c <= 'F')
    } else {
        '0' <= c <= '9'
    }
}

/// The value of one digit character.
pub open spec fn digit_value(c: char) -> nat {
    if '0' <= c <= '9' {
        (c as u32 - '0' as u32) as nat
    } else if 'a' <= c <= 'f' {
        (c as u32 - 'a' as u32 + 10) as nat
    } else {
        (c as u32 - 'A' as u32 + 10) as nat
    }
}

/// The number that the digit string `s` writes in base `radix`, most significant digit first.
pub open spec fn value_of(s: Seq<char>, radix: nat) -> nat
    decreases s.len(),
{
    if s.len() == 0 {
        0
    } else {
        value_of(s.drop_last(), radix) * radix + digit_value(s.last())
    }
}

pub open spec fn all_digits(s: Seq<char>, radix: nat) -> bool {
    forall|i: int| 0 <= i < s.len() ==> #[trigger] is_digit(s[i], radix)
}

/// `s` without its leading `+`, if it has one.
pub open spec fn unsigned_part(s: Seq<char>) -> Seq<char> {
    if s.len() > 0 && s[0] == '+' {
        s.skip(1)
    } else {
        s
    }
}

/// The number that `s` writes in base `radix`, if `s` is an optional `+` followed by one or
/// more digits and the number is at most `max`.
pub open spec fn number_of(s: Seq<char>, radix: nat, max: nat) -> Option<nat> {
    let d = unsigned_part(s);
    if d.len() > 0 && all_digits(d, radix) && value_of(d, radix) <= max {
        Some(value_of(d, radix))
    } else {
        None
    }
}

fn digit_of(c: char, radix: u64) -> (r: Option<u64>)
    requires
        radix == 10 || radix == 16,
    ensures
        r == (if is_digit(c, radix as nat) {
            Some(digit_value(c) as u64)
        } else {
            None
        }),
{
    if '0' <= c && c <= '9' {
        Some((c as u32 - '0' as u32) as u64)
    } else if radix == 16 && 'a' <= c && c <= 'f' {
        Some((c as u32 - 'a' as u32 + 10) as u64)
    } else if radix == 16 && 'A' <= c && c <= 'F' {
        Some((c as u32 - 'A' as u32 + 10) as u64)
    } else {
        None
    }
}

/// Reads `s` as an unsigned number in base `radix` no larger than `max`.
pub fn parse_number(s: &str, radix: u64, max: u64) -> (r: Option<u64>)
    requires
        radix == 10 || radix == 16,
    ensures
        r == (match number_of(s@, radix as nat, max as nat) {
            Some(v) => Some(v as u64),
            None => None::<u64>,
        }),
{
    let n = s.unicode_len();
    let start: usize = if n > 0 && s.get_char(0) == '+' {
        1
    } else {
        0
    };
    let ghost d = unsigned_part(s@);
    assert(d =~= s@.subrange(start as int, n as int));
    if start == n {
        return None;
    }
    let mut i: usize = start;
    let mut v: u64 = 0;
    let mut over = false;
    while i < n
        invariant
            start <= i <= n,
            n == s@.len(),
            d == s@.subrange(start as int, n as int),
            d == unsigned_part(s@),
            radix == 10 || radix == 16,
            all_digits(d.subrange(0, i - start), radix as nat),
            !over ==> v == value_of(d.subrange(0, i - start), radix as nat) && v <= max,
            over ==> value_of(d.subrange(0, i - start), radix as nat) > max,
        decreases n - i,
    {
        let c = s.get_char(i);
        let k = i - start;
        let ghost p = d.subrange(0, k + 1);
        assert(p.drop_last() =~= d.subrange(0, k as int));
        assert(p.last() == c);
        match digit_of(c, radix) {
            None => {
                assert(d[k as int] == c);
                assert(!is_digit(d[k as int], radix as nat));
                return None;
            },
            Some(dv) => {
                let ghost x = value_of(d.subrange(0, k as int), radix as nat);
                if !over {
                    assert(v as int * radix as int <= 0xffff_ffff_ffff_ffff * 16) by (nonlinear_arith)
                        requires
                            v <= 0xffff_ffff_ffff_ffffu64,
                            radix <= 16,
                    ;
                    let w: u128 = v as u128 * radix as u128 + dv as u128;
                    if w > max as u128 {
                        over = true;
                    } else {
                        v = w as u64;
                    }
                } else {
                    assert(x <= x * radix + dv) by (nonlinear_arith)
                        requires
                            radix >= 1,
                    ;
                }
                i = i + 1;
                assert(all_digits(d.subrange(0, i - start), radix as nat)) by {
                    assert forall|j: int| 0 <= j < i - start implies #[trigger] is_digit(
                        d.subrange(0, i - start)[j],
                        radix as nat,
                    ) by {
                        if j < k {
                            assert(d.subrange(0, i - start)[j] == d.subrange(0, k as int)[j]);
                        }
                    }
                }
            },
        }
    }
    assert(d.subrange(0, n - start) =~= d);
    if over {
        None
    } else {
        Some(v)
    }
}

} // verus!
