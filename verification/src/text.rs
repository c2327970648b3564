//! Verified character-level text utilities.
//!
//! The parsers work on decoded text as sequences of characters: prefix
//! and suffix tests, token scanning, ASCII-case-insensitive comparison
//! and ordering, decimal token parsing and decimal rendering.  The one
//! trusted item is the lossy UTF-8 decoder used to turn raw GLOG value
//! bytes into text.

use vstd::prelude::*;
use vstd::string::StrSliceExecFns;
use vstd::string::StringExecFns;

use crate::numbers::all_digit_chars;
use crate::numbers::digits_val_chars;
use crate::numbers::is_digit_char;
use crate::numbers::lemma_digits_val_chars_nonneg;
use crate::numbers::lemma_digits_val_chars_prefix_le;
use crate::numbers::lemma_digits_val_chars_take;
use crate::numbers::spec_parse_i64_chars;

verus! {

pub open spec fn all_ascii(b: Seq<u8>) -> bool {
    forall|i: int| 0 <= i < b.len() ==> #[trigger] b[i] < 128
}

/// The characters of a pure-ASCII byte string.
pub open spec fn ascii_chars(b: Seq<u8>) -> Seq<char> {
    b.map(|i: int, x: u8| x as char)
}

/// What `String::from_utf8_lossy` returns for a byte string: invalid
/// UTF-8 sequences replaced, everything else decoded.  A function of the
/// bytes alone.
pub uninterp spec fn lossy_of(b: Seq<u8>) -> Seq<char>;

/// Relies on `String::from_utf8_lossy`: decodes UTF-8, substituting
/// U+FFFD for invalid sequences; valid UTF-8 (in particular ASCII) is
/// decoded unchanged.
#[verifier::external_body]
pub(crate) fn lossy_decode(bytes: &[u8]) -> (r: String)
    ensures
        r@ == lossy_of(bytes@),
        all_ascii(bytes@) ==> r@ == ascii_chars(bytes@),
{
    String::from_utf8_lossy(bytes).into_owned()
}

pub open spec fn spec_starts_with(s: Seq<char>, p: Seq<char>) -> bool {
    s.len() >= p.len() && s.take(p.len() as int) == p
}

pub open spec fn spec_ends_with(s: Seq<char>, p: Seq<char>) -> bool {
    s.len() >= p.len() && s.skip((s.len() - p.len()) as int) == p
}

pub fn str_starts_with(s: &str, p: &str) -> (r: bool)
    ensures
        r == spec_starts_with(s@, p@),
{
    let n = p.unicode_len();
    let m = s.unicode_len();
    if m < n {
        return false;
    }
    let mut i: usize = 0;
    while i < n
        invariant
            0 <= i <= n,
            n == p@.len(),
            m == s@.len(),
            n <= m,
            forall|j: int| 0 <= j < i ==> s@[j] == p@[j],
        decreases n - i,
    {
        if s.get_char(i) != p.get_char(i) {
            proof {
                assert(s@.take(p@.len() as int)[i as int] == s@[i as int]);
            }
            return false;
        }
        i = i + 1;
    }
    proof {
        assert(s@.take(p@.len() as int) =~= p@);
    }
    true
}

pub fn str_ends_with(s: &str, p: &str) -> (r: bool)
    ensures
        r == spec_ends_with(s@, p@),
{
    let n = p.unicode_len();
    let m = s.unicode_len();
    if m < n {
        return false;
    }
    let off = m - n;
    let mut i: usize = 0;
    while i < n
        invariant
            0 <= i <= n,
            n == p@.len(),
            m == s@.len(),
            n <= m,
            off == m - n,
            forall|j: int| 0 <= j < i ==> s@[off + j] == p@[j],
        decreases n - i,
    {
        if s.get_char(off + i) != p.get_char(i) {
            proof {
                assert(s@.skip(off as int)[i as int] == s@[off + i]);
            }
            return false;
        }
        i = i + 1;
    }
    proof {
        assert(s@.skip(off as int) =~= p@);
    }
    true
}

/// First position at or after `i` where the two-character pattern
/// `c1 c2` starts.
pub open spec fn spec_find_pair(s: Seq<char>, c1: char, c2: char, i: int) -> Option<int>
    decreases s.len() - i,
{
    if i + 1 >= s.len() {
        None
    } else if s[i] == c1 && s[i + 1] == c2 {
        Some(i)
    } else {
        spec_find_pair(s, c1, c2, i + 1)
    }
}

/// First position at or after `i` holding character `c`.
pub open spec fn spec_find_char(s: Seq<char>, c: char, i: int) -> Option<int>
    decreases s.len() - i,
{
    if i >= s.len() {
        None
    } else if s[i] == c {
        Some(i)
    } else {
        spec_find_char(s, c, i + 1)
    }
}

/// Finds the first occurrence of the two-character pattern `c1 c2`.
pub fn find_pair(s: &str, c1: char, c2: char) -> (r: Option<usize>)
    ensures
        match r {
            Some(i) => i + 1 < s@.len() && spec_find_pair(s@, c1, c2, 0) == Some(i as int),
            None => spec_find_pair(s@, c1, c2, 0) is None,
        },
{
    let m = s.unicode_len();
    if m < 2 {
        return None;
    }
    let mut i: usize = 0;
    while i < m - 1
        invariant
            0 <= i <= m - 1,
            m == s@.len(),
            m >= 2,
            spec_find_pair(s@, c1, c2, 0) == spec_find_pair(s@, c1, c2, i as int),
        decreases m - i,
    {
        if s.get_char(i) == c1 && s.get_char(i + 1) == c2 {
            return Some(i);
        }
        i = i + 1;
    }
    None
}

/// Finds the first occurrence of `c` at or after `from`.
pub fn find_char_from(s: &str, from: usize, c: char) -> (r: Option<usize>)
    requires
        from <= s@.len(),
    ensures
        match r {
            Some(i) => from <= i < s@.len() && spec_find_char(s@, c, from as int) == Some(
                i as int,
            ),
            None => spec_find_char(s@, c, from as int) is None,
        },
{
    let m = s.unicode_len();
    let mut i: usize = from;
    while i < m
        invariant
            from <= i <= m,
            m == s@.len(),
            spec_find_char(s@, c, from as int) == spec_find_char(s@, c, i as int),
        decreases m - i,
    {
        if s.get_char(i) == c {
            return Some(i);
        }
        i = i + 1;
    }
    None
}

/// Copies the character range `[from, to)` into an owned string.
pub fn substring_string(s: &str, from: usize, to: usize) -> (r: String)
    requires
        from <= to <= s@.len(),
    ensures
        r@ == s@.subrange(from as int, to as int),
{
    String::from_str(s.substring_char(from, to))
}

/// The ASCII-lowercased code point of a character: `A`..`Z` fold to
/// `a`..`z`, every other character keeps its code.
pub open spec fn lower_code(c: char) -> u32 {
    if 65 <= c as u32 <= 90 {
        (c as u32 + 32) as u32
    } else {
        c as u32
    }
}

pub open spec fn lower_codes(s: Seq<char>) -> Seq<u32> {
    s.map(|i: int, c: char| lower_code(c))
}

/// Equality up to ASCII case.
pub open spec fn eq_ignore_case(a: Seq<char>, b: Seq<char>) -> bool {
    lower_codes(a) == lower_codes(b)
}

pub fn str_eq_ignore_case(a: &str, b: &str) -> (r: bool)
    ensures
        r == eq_ignore_case(a@, b@),
{
    let n = a.unicode_len();
    let m = b.unicode_len();
    if n != m {
        proof {
            assert(lower_codes(a@).len() == a@.len());
            assert(lower_codes(b@).len() == b@.len());
        }
        return false;
    }
    let mut i: usize = 0;
    while i < n
        invariant
            0 <= i <= n,
            n == a@.len(),
            n == b@.len(),
            forall|j: int| 0 <= j < i ==> lower_code(a@[j]) == lower_code(b@[j]),
        decreases n - i,
    {
        let ca = a.get_char(i) as u32;
        let cb = b.get_char(i) as u32;
        let la = if 65 <= ca && ca <= 90 {
            ca + 32
        } else {
            ca
        };
        let lb = if 65 <= cb && cb <= 90 {
            cb + 32
        } else {
            cb
        };
        if la != lb {
            proof {
                assert(lower_codes(a@)[i as int] == lower_code(a@[i as int]));
                assert(lower_codes(b@)[i as int] == lower_code(b@[i as int]));
            }
            return false;
        }
        i = i + 1;
    }
    proof {
        assert(lower_codes(a@) =~= lower_codes(b@));
    }
    true
}

/// Lexicographic order on code sequences.
pub open spec fn lex_le(x: Seq<u32>, y: Seq<u32>) -> bool
    decreases x.len(),
{
    if x.len() == 0 {
        true
    } else if y.len() == 0 {
        false
    } else if x[0] < y[0] {
        true
    } else if x[0] > y[0] {
        false
    } else {
        lex_le(x.drop_first(), y.drop_first())
    }
}

/// Case-insensitive "not above" order on names: lexicographic on
/// ASCII-lowercased code points.
pub open spec fn name_le(a: Seq<char>, b: Seq<char>) -> bool {
    lex_le(lower_codes(a), lower_codes(b))
}

proof fn lemma_lex_le_skip(x: Seq<u32>, y: Seq<u32>, i: int)
    requires
        0 <= i <= x.len(),
        i <= y.len(),
        forall|j: int| 0 <= j < i ==> x[j] == y[j],
    ensures
        lex_le(x, y) == lex_le(x.skip(i), y.skip(i)),
    decreases i,
{
    if i == 0 {
        assert(x.skip(0) =~= x);
        assert(y.skip(0) =~= y);
    } else {
        assert(x[0] == y[0]);
        assert forall|j: int| 0 <= j < i - 1 implies x.drop_first()[j] == y.drop_first()[j] by {
            assert(x.drop_first()[j] == x[j + 1]);
        }
        lemma_lex_le_skip(x.drop_first(), y.drop_first(), i - 1);
        assert(x.drop_first().skip(i - 1) =~= x.skip(i));
        assert(y.drop_first().skip(i - 1) =~= y.skip(i));
    }
}

pub fn name_le_str(a: &str, b: &str) -> (r: bool)
    ensures
        r == name_le(a@, b@),
{
    let n = a.unicode_len();
    let m = b.unicode_len();
    let min = if n < m {
        n
    } else {
        m
    };
    let ghost x = lower_codes(a@);
    let ghost y = lower_codes(b@);
    let mut i: usize = 0;
    while i < min
        invariant
            0 <= i <= min,
            n == a@.len(),
            m == b@.len(),
            min == if n < m { n } else { m },
            x == lower_codes(a@),
            y == lower_codes(b@),
            forall|j: int| 0 <= j < i ==> x[j] == y[j],
        decreases min - i,
    {
        let ca = a.get_char(i) as u32;
        let cb = b.get_char(i) as u32;
        let la = if 65 <= ca && ca <= 90 {
            ca + 32
        } else {
            ca
        };
        let lb = if 65 <= cb && cb <= 90 {
            cb + 32
        } else {
            cb
        };
        proof {
            assert(x[i as int] == lower_code(a@[i as int]));
            assert(y[i as int] == lower_code(b@[i as int]));
            lemma_lex_le_skip(x, y, i as int);
        }
        if la < lb {
            proof {
                assert(x.skip(i as int)[0] == x[i as int]);
                assert(y.skip(i as int)[0] == y[i as int]);
            }
            return true;
        }
        if la > lb {
            proof {
                assert(x.skip(i as int)[0] == x[i as int]);
                assert(y.skip(i as int)[0] == y[i as int]);
            }
            return false;
        }
        i = i + 1;
    }
    proof {
        lemma_lex_le_skip(x, y, min as int);
        if n <= m {
            assert(x.skip(min as int).len() == 0);
        } else {
            assert(x.skip(min as int).len() > 0);
            assert(y.skip(min as int).len() == 0);
        }
    }
    n <= m
}

/// Parses a run of decimal digit characters from the range `[from, to)`;
/// `None` on an empty or non-digit run or a value above `u64::MAX`.
pub fn parse_digits_u64_str(s: &str, from: usize, to: usize) -> (r: Option<u64>)
    requires
        from <= to <= s@.len(),
    ensures
        r == (if to - from > 0 && all_digit_chars(s@.subrange(from as int, to as int))
            && digits_val_chars(s@.subrange(from as int, to as int)) <= u64::MAX {
            Some(digits_val_chars(s@.subrange(from as int, to as int)) as u64)
        } else {
            None::<u64>
        }),
{
    let ghost body = s@.subrange(from as int, to as int);
    if to == from {
        return None;
    }
    let mut acc: u64 = 0;
    let mut i: usize = from;
    while i < to
        invariant
            from <= i <= to <= s@.len(),
            body == s@.subrange(from as int, to as int),
            all_digit_chars(body.take(i - from)),
            acc == digits_val_chars(body.take(i - from)),
        decreases to - i,
    {
        let c = s.get_char(i) as u32;
        if c < 48 || c > 57 {
            proof {
                assert(body[i - from] == s@[i as int]);
                assert(!all_digit_chars(body));
            }
            return None;
        }
        let d: u64 = (c - 48) as u64;
        proof {
            lemma_digits_val_chars_take(body, i - from);
        }
        let step = match acc.checked_mul(10) {
            Some(m) => m.checked_add(d),
            None => None,
        };
        match step {
            Some(v) => {
                acc = v;
            },
            None => {
                proof {
                    assert(digits_val_chars(body.take(i - from + 1)) > u64::MAX);
                    if all_digit_chars(body) {
                        lemma_digits_val_chars_prefix_le(body, i - from + 1);
                    }
                }
                return None;
            },
        }
        i = i + 1;
        proof {
            assert(body.take(i - from)[i - from - 1] == s@[i - 1]);
            assert(forall|j: int|
                0 <= j < i - from ==> body.take(i as int - from)[j] == #[trigger] body.take(
                    i - from - 1,
                )[j] || j == i - from - 1);
        }
    }
    proof {
        assert(body.take(to - from) =~= body);
    }
    Some(acc)
}

/// Parses a decimal `i64` token (optional sign, then digits) from the
/// character range `[from, to)`, as Rust's `i64` parse would.
pub fn parse_i64_str(s: &str, from: usize, to: usize) -> (r: Option<i64>)
    requires
        from <= to <= s@.len(),
    ensures
        r == spec_parse_i64_chars(s@.subrange(from as int, to as int)),
{
    let ghost whole = s@.subrange(from as int, to as int);
    if to == from {
        return None;
    }
    let first = s.get_char(from);
    if first == '-' {
        proof {
            assert(whole[0] == s@[from as int]);
            assert(whole.drop_first() =~= s@.subrange(from + 1, to as int));
        }
        match parse_digits_u64_str(s, from + 1, to) {
            Some(v) => {
                proof {
                    lemma_digits_val_chars_nonneg(whole.drop_first());
                }
                if v <= 0x8000_0000_0000_0000u64 {
                    if v == 0x8000_0000_0000_0000u64 {
                        Some(i64::MIN)
                    } else {
                        Some(-(v as i64))
                    }
                } else {
                    None
                }
            },
            None => {
                proof {
                    let bd = whole.drop_first();
                    if bd.len() > 0 && all_digit_chars(bd) && digits_val_chars(bd)
                        <= 0x8000_0000_0000_0000 {
                        lemma_digits_val_chars_nonneg(bd);
                        assert(digits_val_chars(bd) <= u64::MAX);
                    }
                }
                None
            },
        }
    } else {
        let start = if first == '+' {
            from + 1
        } else {
            from
        };
        proof {
            assert(whole[0] == s@[from as int]);
            if first == '+' {
                assert(whole.drop_first() =~= s@.subrange(from + 1, to as int));
            }
        }
        match parse_digits_u64_str(s, start, to) {
            Some(v) => {
                proof {
                    lemma_digits_val_chars_nonneg(s@.subrange(start as int, to as int));
                }
                if v <= i64::MAX as u64 {
                    Some(v as i64)
                } else {
                    None
                }
            },
            None => {
                proof {
                    let bd = s@.subrange(start as int, to as int);
                    if bd.len() > 0 && all_digit_chars(bd) && digits_val_chars(bd) <= i64::MAX {
                        lemma_digits_val_chars_nonneg(bd);
                        assert(digits_val_chars(bd) <= u64::MAX);
                    }
                }
                None
            },
        }
    }
}

pub open spec fn digit_char(d: int) -> char {
    if d == 0 {
        '0'
    } else if d == 1 {
        '1'
    } else if d == 2 {
        '2'
    } else if d == 3 {
        '3'
    } else if d == 4 {
        '4'
    } else if d == 5 {
        '5'
    } else if d == 6 {
        '6'
    } else if d == 7 {
        '7'
    } else if d == 8 {
        '8'
    } else {
        '9'
    }
}

/// The decimal digit string of a non-negative number, no padding.
pub open spec fn spec_dec(n: int) -> Seq<char>
    decreases n,
{
    if n < 10 {
        seq![digit_char(n)]
    } else {
        spec_dec(n / 10).push(digit_char(n % 10))
    }
}

fn append_digit(s: &mut String, d: u64)
    requires
        d < 10,
    ensures
        final(s)@ == old(s)@ + seq![digit_char(d as int)],
{
    if d == 0 {
        s.append("0");
        proof {
            reveal_strlit("0");
            assert("0"@ =~= seq![digit_char(0)]);
        }
    } else if d == 1 {
        s.append("1");
        proof {
            reveal_strlit("1");
            assert("1"@ =~= seq![digit_char(1)]);
        }
    } else if d == 2 {
        s.append("2");
        proof {
            reveal_strlit("2");
            assert("2"@ =~= seq![digit_char(2)]);
        }
    } else if d == 3 {
        s.append("3");
        proof {
            reveal_strlit("3");
            assert("3"@ =~= seq![digit_char(3)]);
        }
    } else if d == 4 {
        s.append("4");
        proof {
            reveal_strlit("4");
            assert("4"@ =~= seq![digit_char(4)]);
        }
    } else if d == 5 {
        s.append("5");
        proof {
            reveal_strlit("5");
            assert("5"@ =~= seq![digit_char(5)]);
        }
    } else if d == 6 {
        s.append("6");
        proof {
            reveal_strlit("6");
            assert("6"@ =~= seq![digit_char(6)]);
        }
    } else if d == 7 {
        s.append("7");
        proof {
            reveal_strlit("7");
            assert("7"@ =~= seq![digit_char(7)]);
        }
    } else if d == 8 {
        s.append("8");
        proof {
            reveal_strlit("8");
            assert("8"@ =~= seq![digit_char(8)]);
        }
    } else {
        s.append("9");
        proof {
            reveal_strlit("9");
            assert("9"@ =~= seq![digit_char(9)]);
        }
    }
}

/// Appends the decimal rendering of `n`.
pub fn append_dec(s: &mut String, n: u64)
    ensures
        final(s)@ == old(s)@ + spec_dec(n as int),
    decreases n,
{
    if n >= 10 {
        append_dec(s, n / 10);
        append_digit(s, n % 10);
        proof {
            assert(s@ =~= old(s)@ + spec_dec(n as int));
        }
    } else {
        append_digit(s, n);
    }
}

} // verus!
