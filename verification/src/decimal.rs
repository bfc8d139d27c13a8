//! Decimal text of integers: the canonical form that the protocol writes and
//! reads, and the lenient form that `str::parse` accepts for stored values and
//! command arguments.
use vstd::prelude::*;

verus! {

/// Whether `b` is an ASCII decimal digit.
pub open spec fn is_digit(b: u8) -> bool {
    48 <= b <= 57
}

/// Whether every byte of `s` is an ASCII decimal digit.
pub open spec fn all_digits(s: Seq<u8>) -> bool {
    forall|i: int| 0 <= i < s.len() ==> is_digit(#[trigger] s[i])
}

/// The ASCII code of the digit `d` (for `0 <= d < 10`).
pub open spec fn digit_byte(d: int) -> u8 {
    (48 + d) as u8
}

/// The number that a string of decimal digits denotes (0 for the empty string).
pub open spec fn digits_value(s: Seq<u8>) -> nat
    decreases s.len(),
{
    if s.len() == 0 {
        0
    } else {
        digits_value(s.drop_last()) * 10 + (s.last() - 48) as nat
    }
}

/// Canonical decimal text of a natural number: no sign and no leading zeros.
pub open spec fn nat_text(n: nat) -> Seq<u8>
    decreases n,
{
    if n < 10 {
        seq![digit_byte(n as int)]
    } else {
        nat_text(n / 10) + seq![digit_byte((n % 10) as int)]
    }
}

/// Canonical decimal text of an integer: a `-` before negative numbers, no `+`,
/// no leading zeros, and no `-0`.
pub open spec fn int_text(i: int) -> Seq<u8> {
    if i < 0 {
        seq![45u8] + nat_text((-i) as nat)
    } else {
        nat_text(i as nat)
    }
}

/// The value of an optionally signed run of digits, read the way Rust's
/// integer `FromStr` reads it, before any range check: an optional `+` or `-`
/// followed by at least one digit. Leading zeros are allowed.
pub open spec fn signed_value(s: Seq<u8>) -> Option<int> {
    if s.len() == 0 {
        None
    } else if s[0] == 43 || s[0] == 45 {
        let d = s.subrange(1, s.len() as int);
        if d.len() > 0 && all_digits(d) {
            if s[0] == 45 {
                Some(-digits_value(d))
            } else {
                Some(digits_value(d) as int)
            }
        } else {
            None
        }
    } else if all_digits(s) {
        Some(digits_value(s) as int)
    } else {
        None
    }
}

/// What `str::parse::<i64>` gives on text whose bytes are `s`.
pub open spec fn parse_i64_text(s: Seq<u8>) -> Option<i64> {
    match signed_value(s) {
        Some(v) => if i64::MIN <= v <= i64::MAX {
            Some(v as i64)
        } else {
            None
        },
        None => None,
    }
}

/// What `str::parse::<u64>` gives on text whose bytes are `s`: as for `i64`,
/// but a leading `-` is refused even before zero.
pub open spec fn parse_u64_text(s: Seq<u8>) -> Option<u64> {
    if s.len() > 0 && s[0] == 45 {
        None
    } else {
        match signed_value(s) {
            Some(v) => if 0 <= v <= u64::MAX {
                Some(v as u64)
            } else {
                None
            },
            None => None,
        }
    }
}

/// The integer whose canonical text is exactly `s`, if it fits in an `i64`.
pub open spec fn canonical_i64(s: Seq<u8>) -> Option<i64> {
    match parse_i64_text(s) {
        Some(v) => if int_text(v as int) == s {
            Some(v)
        } else {
            None
        },
        None => None,
    }
}

// ---------------------------------------------------------------------------
// Lemmas
// ---------------------------------------------------------------------------
/// The canonical text of a natural number is a non-empty run of digits
/// without a leading zero (unless it is "0"), and it denotes that number.
pub proof fn lemma_nat_text(n: nat)
    ensures
        nat_text(n).len() > 0,
        all_digits(nat_text(n)),
        digits_value(nat_text(n)) == n,
        nat_text(n).len() > 1 ==> nat_text(n)[0] != 48,
        nat_text(n)[0] == 48 ==> n == 0,
    decreases n,
{
    let t = nat_text(n);
    if n >= 10 {
        lemma_nat_text(n / 10);
        assert(t.drop_last() =~= nat_text(n / 10));
        assert(t[0] == nat_text(n / 10)[0]);
        assert(t.last() == digit_byte((n % 10) as int));
        assert(digits_value(t) == digits_value(nat_text(n / 10)) * 10 + (t.last() - 48) as nat);
    } else {
        assert(t.drop_last() =~= Seq::<u8>::empty());
        assert(digits_value(t) == digits_value(t.drop_last()) * 10 + (t.last() - 48) as nat);
    }
}

/// A run of digits without a leading zero is the canonical text of its value.
pub proof fn lemma_canonical_digits(d: Seq<u8>)
    requires
        d.len() > 0,
        all_digits(d),
        d.len() > 1 ==> d[0] != 48,
    ensures
        nat_text(digits_value(d)) == d,
    decreases d.len(),
{
    if d.len() == 1 {
        assert(d.drop_last() =~= Seq::<u8>::empty());
        assert(digits_value(d) == digits_value(d.drop_last()) * 10 + (d.last() - 48) as nat);
        assert(is_digit(d[0]));
        assert(digit_byte(digits_value(d) as int) == d[0]);
        assert(nat_text(digits_value(d)) =~= d);
    } else {
        let p = d.drop_last();
        assert(p[0] == d[0]);
        lemma_canonical_digits(p);
        lemma_digits_value_positive(p);
        let v = digits_value(d);
        assert(v / 10 == digits_value(p));
        assert(v % 10 == (d.last() - 48) as nat);
        assert(nat_text(v) =~= d);
    }
}

/// A run of digits that does not start with zero denotes a positive number.
pub proof fn lemma_digits_value_positive(d: Seq<u8>)
    requires
        d.len() > 0,
        all_digits(d),
        d[0] != 48,
    ensures
        digits_value(d) > 0,
    decreases d.len(),
{
    if d.len() > 1 {
        let p = d.drop_last();
        assert(p[0] == d[0]);
        lemma_digits_value_positive(p);
    }
}

/// A prefix of a run of digits denotes no more than the whole run.
pub proof fn lemma_digits_value_prefix(s: Seq<u8>, i: int)
    requires
        all_digits(s),
        0 <= i <= s.len(),
    ensures
        digits_value(s.subrange(0, i)) <= digits_value(s),
    decreases s.len(),
{
    if i < s.len() {
        let p = s.drop_last();
        lemma_digits_value_prefix(p, i);
        assert(p.subrange(0, i) =~= s.subrange(0, i));
    } else {
        assert(s.subrange(0, i) =~= s);
    }
}

/// Reading the canonical text of an integer gives the integer back.
pub proof fn lemma_int_text_value(i: int)
    ensures
        signed_value(int_text(i)) == Some(i),
        int_text(i).len() > 0,
        int_text(i)[0] != 43,
{
    lemma_nat_text((if i < 0 {
        -i
    } else {
        i
    }) as nat);
    if i < 0 {
        let t = int_text(i);
        assert(t.subrange(1, t.len() as int) =~= nat_text((-i) as nat));
    }
}

/// The canonical text of an integer is ASCII.
pub proof fn lemma_int_text_ascii(i: int)
    ensures
        crate::text::ascii_bytes(int_text(i)),
{
    lemma_nat_text((if i < 0 {
        -i
    } else {
        i
    }) as nat);
    let t = int_text(i);
    assert forall|j: int| 0 <= j < t.len() implies #[trigger] t[j] < 128 by {
        if i < 0 && j > 0 {
            assert(t[j] == nat_text((-i) as nat)[j - 1]);
        }
    }
}

/// Law: the text that `format_i64` writes is read back by `str::parse::<i64>`
/// and by the protocol reader as the same number.
pub proof fn lemma_i64_text_roundtrip(n: i64)
    ensures
        parse_i64_text(int_text(n as int)) == Some(n),
        canonical_i64(int_text(n as int)) == Some(n),
{
    lemma_int_text_value(n as int);
}

/// Law: the canonical text of a `u64` is read back by `str::parse::<u64>` as
/// the same number.
pub proof fn lemma_u64_text_roundtrip(n: u64)
    ensures
        parse_u64_text(nat_text(n as nat)) == Some(n),
{
    lemma_int_text_value(n as int);
    lemma_nat_text(n as nat);
}

// ---------------------------------------------------------------------------
// Writing
// ---------------------------------------------------------------------------
/// Appends the decimal text of `n` to `out`.
pub fn push_nat_text(out: &mut Vec<u8>, n: u64)
    ensures
        final(out)@ == old(out)@ + nat_text(n as nat),
    decreases n,
{
    if n >= 10 {
        push_nat_text(out, n / 10);
    }
    let d: u8 = (n % 10) as u8;
    out.push(48 + d);
    assert(final(out)@ =~= old(out)@ + nat_text(n as nat));
}

/// Appends the canonical decimal text of `n` to `out`.
pub fn push_int_text(out: &mut Vec<u8>, n: i64)
    ensures
        final(out)@ == old(out)@ + int_text(n as int),
{
    if n < 0 {
        out.push(45u8);
        let magnitude: u64 = if n == i64::MIN {
            9223372036854775808u64
        } else {
            (-n) as u64
        };
        push_nat_text(out, magnitude);
        assert(final(out)@ =~= old(out)@ + int_text(n as int));
    } else {
        push_nat_text(out, n as u64);
    }
}

/// The canonical decimal text of `n`, as `i64::to_string` writes it.
pub fn format_i64(n: i64) -> (text: Vec<u8>)
    ensures
        text@ == int_text(n as int),
{
    let mut out: Vec<u8> = Vec::new();
    push_int_text(&mut out, n);
    assert(out@ =~= int_text(n as int));
    out
}

// ---------------------------------------------------------------------------
// Reading
// ---------------------------------------------------------------------------
/// The value of the digits `s[start..end]`, if they are all digits and the
/// value fits in a `u64`.
pub fn parse_digits(s: &[u8], start: usize, end: usize) -> (result: Option<u64>)
    requires
        start <= end <= s@.len(),
    ensures
        ({
            let d = s@.subrange(start as int, end as int);
            match result {
                Some(v) => all_digits(d) && v == digits_value(d),
                None => !all_digits(d) || digits_value(d) > u64::MAX,
            }
        }),
{
    let ghost d = s@.subrange(start as int, end as int);
    let mut value: u64 = 0;
    let mut i: usize = start;
    while i < end
        invariant
            start <= i <= end <= s@.len(),
            d == s@.subrange(start as int, end as int),
            all_digits(d.subrange(0, i - start)),
            value == digits_value(d.subrange(0, i - start)),
        decreases end - i,
    {
        let b = s[i];
        let ghost k = i - start;
        assert(d.subrange(0, k + 1).drop_last() =~= d.subrange(0, k));
        assert(d[k] == b);
        if b < 48 || b > 57 {
            return None;
        }
        assert(all_digits(d.subrange(0, k + 1))) by {
            assert forall|j: int| 0 <= j < k + 1 implies is_digit(#[trigger] d.subrange(0, k + 1)[j]) by {
                if j < k {
                    assert(d.subrange(0, k + 1)[j] == d.subrange(0, k)[j]);
                }
            }
        }
        let times_ten = value.checked_mul(10);
        match times_ten {
            None => {
                proof {
                    lemma_overflow_persists(d, k + 1);
                }
                return None;
            },
            Some(t) => {
                let next = t.checked_add((b - 48) as u64);
                match next {
                    None => {
                        proof {
                            lemma_overflow_persists(d, k + 1);
                        }
                        return None;
                    },
                    Some(n) => {
                        value = n;
                    },
                }
            },
        }
        i = i + 1;
    }
    assert(d.subrange(0, end - start) =~= d);
    Some(value)
}

/// If a prefix of `d` that is all digits already exceeds `u64::MAX`, then `d`
/// is either not all digits or exceeds `u64::MAX` too.
proof fn lemma_overflow_persists(d: Seq<u8>, k: int)
    requires
        0 <= k <= d.len(),
        all_digits(d.subrange(0, k)),
        digits_value(d.subrange(0, k)) > u64::MAX,
    ensures
        !all_digits(d) || digits_value(d) > u64::MAX,
{
    if all_digits(d) {
        lemma_digits_value_prefix(d, k);
    }
}

/// The magnitude and sign of an optionally signed run of digits in
/// `s[start..end]`, or `None` where `signed_value` has none or the magnitude
/// does not fit in a `u64`.
fn parse_signed_parts(s: &[u8], start: usize, end: usize) -> (result: Option<(bool, u64)>)
    requires
        start <= end <= s@.len(),
    ensures
        ({
            let t = s@.subrange(start as int, end as int);
            match result {
                Some((neg, m)) => signed_value(t) == Some(if neg {
                    -(m as int)
                } else {
                    m as int
                }) && (neg <==> t[0] == 45),
                None => signed_value(t) is None || (signed_value(t) matches Some(v) && (v
                    > u64::MAX || v < -(u64::MAX as int))),
            }
        }),
{
    let ghost t = s@.subrange(start as int, end as int);
    if start == end {
        return None;
    }
    let first = s[start];
    assert(t[0] == first);
    if first == 43u8 || first == 45u8 {
        if start + 1 == end {
            return None;
        }
        assert(t.subrange(1, t.len() as int) =~= s@.subrange(start + 1, end as int));
        match parse_digits(s, start + 1, end) {
            Some(m) => Some((first == 45u8, m)),
            None => None,
        }
    } else {
        match parse_digits(s, start, end) {
            Some(m) => Some((false, m)),
            None => None,
        }
    }
}

/// `str::parse::<i64>` on the text whose bytes are `s[start..end]`.
pub fn parse_i64(s: &[u8], start: usize, end: usize) -> (result: Option<i64>)
    requires
        start <= end <= s@.len(),
    ensures
        result == parse_i64_text(s@.subrange(start as int, end as int)),
{
    match parse_signed_parts(s, start, end) {
        None => None,
        Some((neg, m)) => {
            if neg {
                if m <= 9223372036854775807u64 {
                    Some(-(m as i64))
                } else if m == 9223372036854775808u64 {
                    Some(i64::MIN)
                } else {
                    None
                }
            } else {
                if m <= 9223372036854775807u64 {
                    Some(m as i64)
                } else {
                    None
                }
            }
        },
    }
}

/// `str::parse::<u64>` on the text whose bytes are `s[start..end]`.
pub fn parse_u64(s: &[u8], start: usize, end: usize) -> (result: Option<u64>)
    requires
        start <= end <= s@.len(),
    ensures
        result == parse_u64_text(s@.subrange(start as int, end as int)),
{
    if start < end && s[start] == 45u8 {
        return None;
    }
    match parse_signed_parts(s, start, end) {
        None => None,
        Some((neg, m)) => {
            if neg {
                if m == 0 {
                    Some(0)
                } else {
                    None
                }
            } else {
                Some(m)
            }
        },
    }
}

/// The integer whose canonical decimal text is exactly `s[start..end]`, if it
/// fits in an `i64`; the protocol writes integers and lengths this way.
pub fn parse_canonical_i64(s: &[u8], start: usize, end: usize) -> (result: Option<i64>)
    requires
        start <= end <= s@.len(),
    ensures
        result == canonical_i64(s@.subrange(start as int, end as int)),
{
    let ghost t = s@.subrange(start as int, end as int);
    let parsed = parse_i64(s, start, end);
    match parsed {
        None => None,
        Some(v) => {
            // Where the value was read, the text is a sign-less or `-`-led run of digits.
            let first = s[start];
            assert(t[0] == first);
            let digits_start: usize = if first == 45u8 || first == 43u8 {
                start + 1
            } else {
                start
            };
            let ghost d = s@.subrange(digits_start as int, end as int);
            let leading_zero = end - digits_start > 1 && s[digits_start] == 48u8;
            let negative_zero = first == 45u8 && v == 0;
            proof {
                lemma_int_text_value(v as int);
                lemma_nat_text((if v < 0 {
                    -(v as int)
                } else {
                    v as int
                }) as nat);
                if first == 45u8 || first == 43u8 {
                    assert(t.subrange(1, t.len() as int) =~= d);
                } else {
                    assert(t =~= d);
                }
                if d.len() > 0 {
                    assert(d[0] == s@[digits_start as int]);
                }
            }
            if first == 43u8 || leading_zero || negative_zero {
                proof {
                    let it = int_text(v as int);
                    if it == t {
                        if v < 0 {
                            assert(it.subrange(1, it.len() as int) =~= nat_text((-v) as nat));
                            assert(d =~= nat_text((-v) as nat));
                        } else {
                            assert(d =~= nat_text(v as nat));
                        }
                    }
                }
                None
            } else {
                proof {
                    lemma_canonical_digits(d);
                    if v < 0 {
                        assert(digits_value(d) == -v);
                        assert(int_text(v as int) =~= t);
                    } else {
                        assert(int_text(v as int) =~= t);
                    }
                }
                Some(v)
            }
        },
    }
}

} // verus!
