use vstd::prelude::*;
use vstd::arithmetic::div_mod::lemma_fundamental_div_mod;
use crate::error::UsageError;

verus! {

/// `c` is an ASCII decimal digit.
pub open spec fn is_digit(c: char) -> bool {
    '0' <= c && c <= '9'
}

/// The value of the decimal digit `c`.
pub open spec fn digit_value(c: char) -> nat {
    (c as u32 - '0' as u32) as nat
}

/// The number that the digits of `s` spell in base ten, most significant first.
pub open spec fn decimal_value(s: Seq<char>) -> nat
    decreases s.len(),
{
    if s.len() == 0 {
        0
    } else {
        decimal_value(s.drop_last()) * 10 + digit_value(s.last())
    }
}

/// `s` is a non-empty run of decimal digits, with no sign and no other character.
pub open spec fn is_decimal(s: Seq<char>) -> bool {
    s.len() > 0 && forall|i: int| 0 <= i < s.len() ==> is_digit(#[trigger] s[i])
}

/// The 64-bit unsigned integer that `s` writes in decimal, if it writes one
/// that fits.
pub open spec fn spec_parse_number(s: Seq<char>) -> Option<u64> {
    if is_decimal(s) && decimal_value(s) <= u64::MAX {
        Some(decimal_value(s) as u64)
    } else {
        None
    }
}

/// A run of digits is worth at least as much as any of its prefixes.
proof fn lemma_decimal_prefix_le(s: Seq<char>, j: int)
    requires
        0 <= j <= s.len(),
    ensures
        decimal_value(s.subrange(0, j)) <= decimal_value(s),
    decreases s.len(),
{
    if j == s.len() {
        assert(s.subrange(0, j) =~= s);
    } else {
        let t = s.drop_last();
        lemma_decimal_prefix_le(t, j);
        assert(t.subrange(0, j) =~= s.subrange(0, j));
    }
}

/// Reads `s` as a base-ten 64-bit unsigned integer. Leading zeros are
/// accepted; a sign, any other character, an empty string or a value above
/// `u64::MAX` gives `None`.
pub fn parse_number(s: &str) -> (r: Option<u64>)
    ensures
        r == spec_parse_number(s@),
{
    let len = s.unicode_len();
    if len == 0 {
        return None;
    }
    let mut v: u64 = 0;
    let mut i: usize = 0;
    while i < len
        invariant
            len == s@.len(),
            i <= len,
            forall|j: int| 0 <= j < i ==> is_digit(#[trigger] s@[j]),
            v == decimal_value(s@.subrange(0, i as int)),
        decreases len - i,
    {
        let c = s.get_char(i);
        if !('0' <= c && c <= '9') {
            proof {
                assert(!is_digit(s@[i as int]));
            }
            return None;
        }
        let d: u64 = (c as u32 - '0' as u32) as u64;
        proof {
            assert(s@.subrange(0, i + 1).drop_last() =~= s@.subrange(0, i as int));
            assert(decimal_value(s@.subrange(0, i + 1)) == v * 10 + d);
            lemma_fundamental_div_mod((u64::MAX - d) as int, 10);
        }
        if v > (u64::MAX - d) / 10 {
            proof {
                let q = (u64::MAX - d) / 10;
                assert(v * 10 + d > u64::MAX) by (nonlinear_arith)
                    requires
                        v > q,
                        (u64::MAX - d) as int == 10 * q + (u64::MAX - d) as int % 10,
                        (u64::MAX - d) as int % 10 < 10,
                ;
                lemma_decimal_prefix_le(s@, i + 1);
            }
            return None;
        }
        proof {
            let q = (u64::MAX - d) / 10;
            assert(v * 10 + d <= u64::MAX) by (nonlinear_arith)
                requires
                    v <= q,
                    (u64::MAX - d) as int == 10 * q + (u64::MAX - d) as int % 10,
                    (u64::MAX - d) as int % 10 >= 0,
            ;
        }
        v = v * 10 + d;
        i = i + 1;
    }
    proof {
        assert(s@.subrange(0, len as int) =~= s@);
    }
    Some(v)
}

/// Reads every argument as a 64-bit unsigned decimal integer, in order.
/// An empty list gives `NoArguments`; otherwise the first argument that does
/// not read gives `InvalidNumber` with its position.
pub fn parse_numbers(args: &Vec<String>) -> (r: Result<Vec<u64>, UsageError>)
    ensures
        args@.len() == 0 <==> r == Err::<Vec<u64>, UsageError>(UsageError::NoArguments),
        r is Ok <==> args@.len() > 0 && forall|i: int|
            0 <= i < args@.len() ==> (#[trigger] spec_parse_number(args@[i]@)) is Some,
        r is Ok ==> r->Ok_0@.len() == args@.len() && forall|i: int|
            0 <= i < args@.len() ==> spec_parse_number(args@[i]@) == Some(#[trigger] r->Ok_0@[i]),
        r is Err && args@.len() > 0 ==> r->Err_0 is InvalidNumber,
        r matches Err(UsageError::InvalidNumber { index }) ==> index < args@.len()
            && spec_parse_number(args@[index as int]@) is None
            && forall|j: int| 0 <= j < index ==> (#[trigger] spec_parse_number(args@[j]@)) is Some,
{
    if args.len() == 0 {
        return Err(UsageError::NoArguments);
    }
    let mut out: Vec<u64> = Vec::new();
    let mut i: usize = 0;
    while i < args.len()
        invariant
            i <= args@.len(),
            out@.len() == i,
            forall|j: int|
                #![trigger out@[j]]
                #![trigger spec_parse_number(args@[j]@)]
                0 <= j < i ==> spec_parse_number(args@[j]@) == Some(out@[j]),
        decreases args@.len() - i,
    {
        match parse_number(args[i].as_str()) {
            Some(v) => out.push(v),
            None => {
                return Err(UsageError::InvalidNumber { index: i });
            },
        }
        i = i + 1;
    }
    Ok(out)
}

} // verus!
