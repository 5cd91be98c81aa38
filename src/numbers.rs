//! Decimal numbers: reading them from bytes and writing them as digits.
use vstd::prelude::*;

verus! {

pub open spec fn is_digit(b: u8) -> bool {
    48u8 <= b && b <= 57u8
}

pub open spec fn all_digits(s: Seq<u8>) -> bool {
    forall|i: int| 0 <= i < s.len() ==> is_digit(#[trigger] s[i])
}

/// The number that the decimal digits `s` spell (most significant first).
pub open spec fn digits_value(s: Seq<u8>) -> nat
    decreases s.len(),
{
    if s.len() == 0 {
        0
    } else {
        digits_value(s.drop_last()) * 10 + (s.last() - 48) as nat
    }
}

/// What reading `s` as an unsigned decimal gives: an optional `'+'`, then
/// one digit or more, of a value that fits in `max`.
pub open spec fn unsigned_of(s: Seq<u8>, max: nat) -> Option<nat> {
    let d = if s.len() > 0 && s[0] == 43u8 {
        s.subrange(1, s.len() as int)
    } else {
        s
    };
    if d.len() >= 1 && all_digits(d) && digits_value(d) <= max {
        Some(digits_value(d))
    } else {
        None
    }
}

/// What reading `s` as a signed 64-bit decimal gives: an optional sign,
/// then one digit or more, of a value in the range of `i64`.
pub open spec fn i64_of(s: Seq<u8>) -> Option<int> {
    if s.len() > 0 && s[0] == 45u8 {
        let d = s.subrange(1, s.len() as int);
        if d.len() >= 1 && all_digits(d) && digits_value(d) <= 0x8000_0000_0000_0000 {
            Some(-(digits_value(d) as int))
        } else {
            None
        }
    } else {
        match unsigned_of(s, 0x7fff_ffff_ffff_ffff) {
            Some(v) => Some(v as int),
            None => None,
        }
    }
}

proof fn lemma_digits_step(s: Seq<u8>, i: int)
    requires
        0 <= i < s.len(),
    ensures
        digits_value(s.subrange(0, i + 1)) == digits_value(s.subrange(0, i)) * 10 + (s[i] - 48) as nat,
{
    assert(s.subrange(0, i + 1).drop_last() =~= s.subrange(0, i));
}

/// The value of the digits `s[from..]`, or `None` where one of them is not a
/// digit, there is none, or the value exceeds `u64::MAX`.
fn digits_u64(s: &[u8], from: usize) -> (r: Option<u64>)
    requires
        from <= s@.len(),
    ensures
        ({
            let d = s@.subrange(from as int, s@.len() as int);
            match r {
                Some(v) => d.len() >= 1 && all_digits(d) && v == digits_value(d),
                None => !(d.len() >= 1 && all_digits(d) && digits_value(d) <= u64::MAX),
            }
        }),
{
    let n = s.len();
    let ghost d = s@.subrange(from as int, n as int);
    if from == n {
        return None;
    }
    let mut v: u64 = 0;
    let mut over = false;
    let mut i: usize = from;
    proof {
        assert(d.subrange(0, 0) =~= Seq::<u8>::empty());
    }
    while i < n
        invariant
            from <= i <= n == s@.len(),
            d == s@.subrange(from as int, n as int),
            all_digits(d.subrange(0, i - from)),
            !over ==> v == digits_value(d.subrange(0, i - from)),
            over ==> digits_value(d.subrange(0, i - from)) > u64::MAX,
        decreases n - i,
    {
        let b = s[i];
        if !(48u8 <= b && b <= 57u8) {
            proof {
                assert(!is_digit(d[i - from]));
            }
            return None;
        }
        proof {
            lemma_digits_step(d, i - from);
            assert(all_digits(d.subrange(0, i - from + 1)));
        }
        if !over {
            match v.checked_mul(10) {
                Some(m) => match m.checked_add((b - 48u8) as u64) {
                    Some(t) => {
                        v = t;
                    },
                    None => {
                        over = true;
                    },
                },
                None => {
                    over = true;
                },
            }
        }
        i = i + 1;
    }
    proof {
        assert(d.subrange(0, n - from) =~= d);
    }
    if over {
        None
    } else {
        Some(v)
    }
}

/// Reads an unsigned decimal from `s`, as `u64`'s `from_str` does: an
/// optional `'+'`, then digits, of a value that fits.
pub fn parse_u64(s: &[u8]) -> (r: Option<u64>)
    ensures
        match unsigned_of(s@, u64::MAX as nat) {
            Some(v) => r == Some(v as u64),
            None => r.is_none(),
        },
{
    let from: usize = if s.len() > 0 && s[0] == 43u8 {
        1
    } else {
        0
    };
    proof {
        if from == 0 {
            assert(s@.subrange(0, s@.len() as int) =~= s@);
        }
    }
    digits_u64(s, from)
}

/// Reads an unsigned decimal that must fit in `u32`.
pub fn parse_u32(s: &[u8]) -> (r: Option<u32>)
    ensures
        match unsigned_of(s@, u32::MAX as nat) {
            Some(v) => r == Some(v as u32),
            None => r.is_none(),
        },
{
    match parse_u64(s) {
        Some(v) => {
            if v <= u32::MAX as u64 {
                Some(v as u32)
            } else {
                None
            }
        },
        None => None,
    }
}

/// Reads a signed decimal that must fit in `i64`.
pub fn parse_i64(s: &[u8]) -> (r: Option<i64>)
    ensures
        match i64_of(s@) {
            Some(v) => r == Some(v as i64),
            None => r.is_none(),
        },
{
    if s.len() > 0 && s[0] == 45u8 {
        match digits_u64(s, 1) {
            Some(v) => {
                if v <= 0x8000_0000_0000_0000u64 {
                    if v == 0x8000_0000_0000_0000u64 {
                        Some(i64::MIN)
                    } else {
                        Some(-(v as i64))
                    }
                } else {
                    None
                }
            },
            None => None,
        }
    } else {
        match parse_u64(s) {
            Some(v) => {
                if v <= i64::MAX as u64 {
                    Some(v as i64)
                } else {
                    None
                }
            },
            None => None,
        }
    }
}

/// The value of the digits `s`, or `None` where one of them is not a digit,
/// there is none, or the value exceeds `u128::MAX`.
pub fn digits_u128(s: &[u8]) -> (r: Option<u128>)
    ensures
        match r {
            Some(v) => s@.len() >= 1 && all_digits(s@) && v == digits_value(s@),
            None => !(s@.len() >= 1 && all_digits(s@) && digits_value(s@) <= u128::MAX),
        },
{
    let n = s.len();
    if n == 0 {
        return None;
    }
    let mut v: u128 = 0;
    let mut over = false;
    let mut i: usize = 0;
    proof {
        assert(s@.subrange(0, 0) =~= Seq::<u8>::empty());
    }
    while i < n
        invariant
            i <= n == s@.len(),
            all_digits(s@.subrange(0, i as int)),
            !over ==> v == digits_value(s@.subrange(0, i as int)),
            over ==> digits_value(s@.subrange(0, i as int)) > u128::MAX,
        decreases n - i,
    {
        let b = s[i];
        if !(48u8 <= b && b <= 57u8) {
            return None;
        }
        proof {
            lemma_digits_step(s@, i as int);
            assert(all_digits(s@.subrange(0, i + 1)));
        }
        if !over {
            match v.checked_mul(10) {
                Some(m) => match m.checked_add((b - 48u8) as u128) {
                    Some(t) => {
                        v = t;
                    },
                    None => {
                        over = true;
                    },
                },
                None => {
                    over = true;
                },
            }
        }
        i = i + 1;
    }
    proof {
        assert(s@.subrange(0, n as int) =~= s@);
    }
    if over {
        None
    } else {
        Some(v)
    }
}

/// The decimal digits of `n`, most significant first, without leading
/// zeros (zero itself is one digit).
pub open spec fn decimal(n: nat) -> Seq<u8>
    decreases n,
{
    if n < 10 {
        seq![(48 + n) as u8]
    } else {
        decimal(n / 10).push((48 + n % 10) as u8)
    }
}

/// The decimal digits of `n`.
pub fn decimal_digits(n: u64) -> (r: Vec<u8>)
    ensures
        r@ == decimal(n as nat),
    decreases n,
{
    if n < 10 {
        let mut v: Vec<u8> = Vec::new();
        v.push((48 + n) as u8);
        proof {
            assert(v@ =~= decimal(n as nat));
        }
        v
    } else {
        let mut v = decimal_digits(n / 10);
        v.push((48 + n % 10) as u8);
        v
    }
}

} // verus!
