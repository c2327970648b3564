//! Verified decimal parsing and formatting.
//!
//! The wire formats carry numbers as ASCII decimal tokens: byte-level
//! tokens inside GLOG sections and character-level tokens inside already
//! decoded text.  Parsing mirrors Rust's standard integer grammar: an
//! optional sign (`+` for unsigned types, `+`/`-` for signed ones)
//! followed by one or more digits, rejecting anything else and values out
//! of the target type's range.

use vstd::prelude::*;

verus! {

pub open spec fn is_digit_byte(b: u8) -> bool {
    48 <= b <= 57
}

pub open spec fn is_digit_char(c: char) -> bool {
    48 <= c as u32 <= 57
}

pub open spec fn all_digit_bytes(s: Seq<u8>) -> bool {
    forall|i: int| 0 <= i < s.len() ==> is_digit_byte(#[trigger] s[i])
}

pub open spec fn all_digit_chars(s: Seq<char>) -> bool {
    forall|i: int| 0 <= i < s.len() ==> is_digit_char(#[trigger] s[i])
}

/// The value of a string of decimal digit bytes, most significant first.
pub open spec fn digits_val_bytes(s: Seq<u8>) -> int
    decreases s.len(),
{
    if s.len() == 0 {
        0
    } else {
        digits_val_bytes(s.drop_last()) * 10 + (s.last() - 48)
    }
}

/// The value of a string of decimal digit characters, most significant first.
pub open spec fn digits_val_chars(s: Seq<char>) -> int
    decreases s.len(),
{
    if s.len() == 0 {
        0
    } else {
        digits_val_chars(s.drop_last()) * 10 + (s.last() as u32 - 48)
    }
}

/// Strips one leading `+`, the sign Rust's unsigned parse accepts.
pub open spec fn strip_plus_bytes(s: Seq<u8>) -> Seq<u8> {
    if s.len() > 0 && s[0] == 43 {
        s.drop_first()
    } else {
        s
    }
}

pub open spec fn spec_parse_u64_bytes(s: Seq<u8>) -> Option<u64> {
    let body = strip_plus_bytes(s);
    if body.len() > 0 && all_digit_bytes(body) && digits_val_bytes(body) <= u64::MAX {
        Some(digits_val_bytes(body) as u64)
    } else {
        None
    }
}

pub open spec fn spec_parse_u32_bytes(s: Seq<u8>) -> Option<u32> {
    let body = strip_plus_bytes(s);
    if body.len() > 0 && all_digit_bytes(body) && digits_val_bytes(body) <= u32::MAX {
        Some(digits_val_bytes(body) as u32)
    } else {
        None
    }
}

pub open spec fn spec_parse_i32_bytes(s: Seq<u8>) -> Option<i32> {
    if s.len() > 0 && s[0] == 45 {
        let body = s.drop_first();
        if body.len() > 0 && all_digit_bytes(body) && digits_val_bytes(body) <= 0x8000_0000 {
            Some((-(digits_val_bytes(body) as int)) as i32)
        } else {
            None
        }
    } else {
        let body = strip_plus_bytes(s);
        if body.len() > 0 && all_digit_bytes(body) && digits_val_bytes(body) <= i32::MAX {
            Some(digits_val_bytes(body) as i32)
        } else {
            None
        }
    }
}

pub open spec fn spec_parse_i64_chars(s: Seq<char>) -> Option<i64> {
    if s.len() > 0 && s[0] == '-' {
        let body = s.drop_first();
        if body.len() > 0 && all_digit_chars(body) && digits_val_chars(body) <= 0x8000_0000_0000_0000 {
            Some((-(digits_val_chars(body) as int)) as i64)
        } else {
            None
        }
    } else {
        let body = if s.len() > 0 && s[0] == '+' {
            s.drop_first()
        } else {
            s
        };
        if body.len() > 0 && all_digit_chars(body) && digits_val_chars(body) <= i64::MAX {
            Some(digits_val_chars(body) as i64)
        } else {
            None
        }
    }
}

/// A string of digits has a non-negative value.
pub proof fn lemma_digits_val_bytes_nonneg(s: Seq<u8>)
    requires
        all_digit_bytes(s),
    ensures
        digits_val_bytes(s) >= 0,
    decreases s.len(),
{
    if s.len() > 0 {
        assert forall|j: int| 0 <= j < s.drop_last().len() implies is_digit_byte(
            #[trigger] s.drop_last()[j],
        ) by {
            assert(s.drop_last()[j] == s[j]);
        }
        lemma_digits_val_bytes_nonneg(s.drop_last());
    }
}

pub proof fn lemma_digits_val_chars_nonneg(s: Seq<char>)
    requires
        all_digit_chars(s),
    ensures
        digits_val_chars(s) >= 0,
    decreases s.len(),
{
    if s.len() > 0 {
        assert forall|j: int| 0 <= j < s.drop_last().len() implies is_digit_char(
            #[trigger] s.drop_last()[j],
        ) by {
            assert(s.drop_last()[j] == s[j]);
        }
        lemma_digits_val_chars_nonneg(s.drop_last());
    }
}

/// A run of `n` digits is worth less than ten to the `n`.
pub open spec fn pow10(n: nat) -> int
    decreases n,
{
    if n == 0 {
        1
    } else {
        10 * pow10((n - 1) as nat)
    }
}

/// Small powers of ten, spelled out for callers.
pub proof fn lemma_pow10_values()
    ensures
        pow10(4) == 10_000,
        pow10(6) == 1_000_000,
        pow10(9) == 1_000_000_000,
{
    assert(pow10(0) == 1);
    assert(pow10(1) == 10);
    assert(pow10(2) == 100);
    assert(pow10(3) == 1_000);
    assert(pow10(4) == 10_000);
    assert(pow10(5) == 100_000);
    assert(pow10(6) == 1_000_000);
    assert(pow10(7) == 10_000_000);
    assert(pow10(8) == 100_000_000);
    assert(pow10(9) == 1_000_000_000);
}

/// `pow10` is monotone.
pub proof fn lemma_pow10_le(a: nat, b: nat)
    requires
        a <= b,
    ensures
        1 <= pow10(a) <= pow10(b),
    decreases b,
{
    if a == b {
        if a > 0 {
            lemma_pow10_le((a - 1) as nat, (b - 1) as nat);
        }
    } else {
        lemma_pow10_le(a, (b - 1) as nat);
    }
}

pub proof fn lemma_digits_val_chars_bound(s: Seq<char>)
    requires
        all_digit_chars(s),
    ensures
        0 <= digits_val_chars(s) < pow10(s.len()),
    decreases s.len(),
{
    if s.len() == 0 {
    } else {
        assert forall|j: int| 0 <= j < s.drop_last().len() implies is_digit_char(
            #[trigger] s.drop_last()[j],
        ) by {
            assert(s.drop_last()[j] == s[j]);
        }
        lemma_digits_val_chars_bound(s.drop_last());
    }
}

/// Appending a digit multiplies the value by ten and adds the digit.
pub proof fn lemma_digits_val_bytes_take(s: Seq<u8>, i: int)
    requires
        0 <= i < s.len(),
    ensures
        digits_val_bytes(s.take(i + 1)) == digits_val_bytes(s.take(i)) * 10 + (s[i] - 48),
{
    assert(s.take(i + 1).drop_last() =~= s.take(i));
    assert(s.take(i + 1).last() == s[i]);
}

/// A digit string is worth at least any of its prefixes.
pub proof fn lemma_digits_val_bytes_prefix_le(s: Seq<u8>, i: int)
    requires
        0 <= i <= s.len(),
        all_digit_bytes(s),
    ensures
        digits_val_bytes(s.take(i)) <= digits_val_bytes(s),
    decreases s.len() - i,
{
    if i == s.len() {
        assert(s.take(i) =~= s);
    } else {
        lemma_digits_val_bytes_take(s, i);
        assert forall|j: int| 0 <= j < s.take(i).len() implies is_digit_byte(
            #[trigger] s.take(i)[j],
        ) by {
            assert(s.take(i)[j] == s[j]);
        }
        lemma_digits_val_bytes_nonneg(s.take(i));
        lemma_digits_val_bytes_prefix_le(s, i + 1);
    }
}

pub proof fn lemma_digits_val_chars_take(s: Seq<char>, i: int)
    requires
        0 <= i < s.len(),
    ensures
        digits_val_chars(s.take(i + 1)) == digits_val_chars(s.take(i)) * 10 + (s[i] as u32 - 48),
{
    assert(s.take(i + 1).drop_last() =~= s.take(i));
    assert(s.take(i + 1).last() == s[i]);
}

pub proof fn lemma_digits_val_chars_prefix_le(s: Seq<char>, i: int)
    requires
        0 <= i <= s.len(),
        all_digit_chars(s),
    ensures
        digits_val_chars(s.take(i)) <= digits_val_chars(s),
    decreases s.len() - i,
{
    if i == s.len() {
        assert(s.take(i) =~= s);
    } else {
        lemma_digits_val_chars_take(s, i);
        assert forall|j: int| 0 <= j < s.take(i).len() implies is_digit_char(
            #[trigger] s.take(i)[j],
        ) by {
            assert(s.take(i)[j] == s[j]);
        }
        lemma_digits_val_chars_nonneg(s.take(i));
        lemma_digits_val_chars_prefix_le(s, i + 1);
    }
}

/// Parses a run of decimal digit bytes; `None` on an empty or non-digit
/// run or a value above `u64::MAX`.
fn parse_digits_u64(s: &[u8], from: usize, to: usize) -> (r: Option<u64>)
    requires
        from <= to <= s@.len(),
    ensures
        r == (if to - from > 0 && all_digit_bytes(s@.subrange(from as int, to as int))
            && digits_val_bytes(s@.subrange(from as int, to as int)) <= u64::MAX {
            Some(digits_val_bytes(s@.subrange(from as int, to as int)) as u64)
        } else {
            None::<u64>
        }),
{
    let ghost body = s@.subrange(from as int, to as int);
    if to == from {
        return None;
    }
    let mut acc: u64 = 0;
    let mut i: usize = from;
    while i < to
        invariant
            from <= i <= to <= s@.len(),
            body == s@.subrange(from as int, to as int),
            all_digit_bytes(body.take(i - from)),
            acc == digits_val_bytes(body.take(i - from)),
        decreases to - i,
    {
        let b = s[i];
        if b < 48 || b > 57 {
            proof {
                assert(body[i - from] == s@[i as int]);
                assert(!all_digit_bytes(body));
            }
            return None;
        }
        let d: u64 = (b - 48) as u64;
        proof {
            lemma_digits_val_bytes_take(body, i - from);
        }
        let step = match acc.checked_mul(10) {
            Some(m) => m.checked_add(d),
            None => None,
        };
        match step {
            Some(v) => {
                acc = v;
            },
            None => {
                proof {
                    assert(digits_val_bytes(body.take(i - from + 1)) > u64::MAX);
                    if all_digit_bytes(body) {
                        lemma_digits_val_bytes_prefix_le(body, i - from + 1);
                    }
                }
                return None;
            },
        }
        i = i + 1;
        proof {
            assert(body.take(i - from)[i - from - 1] == s@[i - 1]);
            assert(forall|j: int| 0 <= j < i - from ==> body.take(i as int - from)[j]
                == #[trigger] body.take(i - from - 1)[j] || j == i - from - 1);
        }
    }
    proof {
        assert(body.take(to - from) =~= body);
    }
    Some(acc)
}

/// Parses a decimal `u64` token (optional `+`, then digits) from a byte
/// slice range, as Rust's `u64` parse would.
pub fn parse_u64_bytes(s: &[u8], from: usize, to: usize) -> (r: Option<u64>)
    requires
        from <= to <= s@.len(),
    ensures
        r == spec_parse_u64_bytes(s@.subrange(from as int, to as int)),
{
    let ghost whole = s@.subrange(from as int, to as int);
    if to > from && s[from] == 43 {
        proof {
            assert(whole.drop_first() =~= s@.subrange(from + 1, to as int));
        }
        parse_digits_u64(s, from + 1, to)
    } else {
        parse_digits_u64(s, from, to)
    }
}

/// Parses a decimal `u32` token from a byte slice range.
pub fn parse_u32_bytes(s: &[u8], from: usize, to: usize) -> (r: Option<u32>)
    requires
        from <= to <= s@.len(),
    ensures
        r == spec_parse_u32_bytes(s@.subrange(from as int, to as int)),
{
    match parse_u64_bytes(s, from, to) {
        Some(v) => {
            proof {
                lemma_digits_val_bytes_nonneg(strip_plus_bytes(s@.subrange(from as int, to as int)));
            }
            if v <= u32::MAX as u64 {
                Some(v as u32)
            } else {
                None
            }
        },
        None => {
            proof {
                let body = strip_plus_bytes(s@.subrange(from as int, to as int));
                if body.len() > 0 && all_digit_bytes(body) && digits_val_bytes(body) <= u32::MAX {
                    lemma_digits_val_bytes_nonneg(body);
                    assert(digits_val_bytes(body) <= u64::MAX);
                }
            }
            None
        },
    }
}

/// Parses a decimal `i32` token (optional sign, then digits) from a byte
/// slice range.
pub fn parse_i32_bytes(s: &[u8], from: usize, to: usize) -> (r: Option<i32>)
    requires
        from <= to <= s@.len(),
    ensures
        r == spec_parse_i32_bytes(s@.subrange(from as int, to as int)),
{
    let ghost whole = s@.subrange(from as int, to as int);
    if to > from && s[from] == 45 {
        proof {
            assert(whole.drop_first() =~= s@.subrange(from + 1, to as int));
        }
        match parse_digits_u64(s, from + 1, to) {
            Some(v) => {
                proof {
                    lemma_digits_val_bytes_nonneg(whole.drop_first());
                }
                if v <= 0x8000_0000u64 {
                    if v == 0x8000_0000u64 {
                        Some(i32::MIN)
                    } else {
                        Some(-(v as i32))
                    }
                } else {
                    None
                }
            },
            None => {
                proof {
                    let body = whole.drop_first();
                    if body.len() > 0 && all_digit_bytes(body) && digits_val_bytes(body)
                        <= 0x8000_0000 {
                        lemma_digits_val_bytes_nonneg(body);
                        assert(digits_val_bytes(body) <= u64::MAX);
                    }
                }
                None
            },
        }
    } else {
        match parse_u64_bytes(s, from, to) {
            Some(v) => {
                proof {
                    lemma_digits_val_bytes_nonneg(strip_plus_bytes(whole));
                }
                if v <= i32::MAX as u64 {
                    Some(v as i32)
                } else {
                    None
                }
            },
            None => {
                proof {
                    let body = strip_plus_bytes(whole);
                    if body.len() > 0 && all_digit_bytes(body) && digits_val_bytes(body)
                        <= i32::MAX {
                        lemma_digits_val_bytes_nonneg(body);
                        assert(digits_val_bytes(body) <= u64::MAX);
                    }
                }
                None
            },
        }
    }
}

} // verus!
