//! The search filter predicate.
//!
//! Consumers filter the normalized log by whether an entry's message
//! contains the search text, either exactly or up to ASCII case.  Only
//! the predicate is defined here; the store that applies it and the
//! widgets that drive it are outside the log model.

use vstd::prelude::*;
use vstd::string::StrSliceExecFns;

use crate::text::eq_ignore_case;
use crate::text::lower_code;
use crate::text::lower_codes;

verus! {

/// The window of `s` at position `i` equals `p`, up to ASCII case when
/// `fold_case` is set.
pub open spec fn window_matches(s: Seq<char>, p: Seq<char>, i: int, fold_case: bool) -> bool {
    if fold_case {
        eq_ignore_case(s.subrange(i, i + p.len()), p)
    } else {
        s.subrange(i, i + p.len()) == p
    }
}

/// `p` occurs somewhere in `s`, up to ASCII case when `fold_case` is set.
pub open spec fn spec_matches(s: Seq<char>, p: Seq<char>, fold_case: bool) -> bool {
    exists|i: int|
        0 <= i && i + p.len() <= s.len() && #[trigger] window_matches(s, p, i, fold_case)
}

/// Compares one window of `s` against `p`.
fn window_eq(s: &str, at: usize, p: &str, fold_case: bool) -> (r: bool)
    requires
        at + p@.len() <= s@.len(),
        s@.len() <= usize::MAX,
    ensures
        r == window_matches(s@, p@, at as int, fold_case),
{
    let ghost w = s@.subrange(at as int, at + p@.len());
    let n = p.unicode_len();
    let mut j: usize = 0;
    while j < n
        invariant
            0 <= j <= n,
            n == p@.len(),
            at + n <= s@.len() <= usize::MAX,
            w == s@.subrange(at as int, at + p@.len()),
            fold_case ==> forall|k: int|
                0 <= k < j ==> lower_code(s@[at + k]) == lower_code(p@[k]),
            !fold_case ==> forall|k: int| 0 <= k < j ==> s@[at + k] == p@[k],
        decreases n - j,
    {
        let cs = s.get_char(at + j);
        let cp = p.get_char(j);
        if fold_case {
            let a = cs as u32;
            let b = cp as u32;
            let la = if 65 <= a && a <= 90 {
                a + 32
            } else {
                a
            };
            let lb = if 65 <= b && b <= 90 {
                b + 32
            } else {
                b
            };
            if la != lb {
                proof {
                    assert(w[j as int] == s@[at + j]);
                    assert(lower_codes(w)[j as int] == lower_code(w[j as int]));
                    assert(lower_codes(p@)[j as int] == lower_code(p@[j as int]));
                }
                return false;
            }
        } else {
            if cs != cp {
                proof {
                    assert(w[j as int] == s@[at + j]);
                }
                return false;
            }
        }
        j = j + 1;
    }
    proof {
        if fold_case {
            assert forall|k: int| 0 <= k < w.len() implies lower_codes(w)[k] == lower_codes(
                p@,
            )[k] by {
                assert(w[k] == s@[at + k]);
                assert(lower_codes(w)[k] == lower_code(w[k]));
                assert(lower_codes(p@)[k] == lower_code(p@[k]));
            }
            assert(lower_codes(w) =~= lower_codes(p@));
        } else {
            assert(w =~= p@);
        }
    }
    true
}

/// Whether a message matches the search text: plain substring search, or
/// ASCII-case-insensitive substring search when `fold_case` is set.  An
/// empty search text matches everything.
pub fn message_matches(message: &str, needle: &str, fold_case: bool) -> (r: bool)
    ensures
        r == spec_matches(message@, needle@, fold_case),
{
    let n = needle.unicode_len();
    let m = message.unicode_len();
    if n > m {
        return false;
    }
    if n == 0 {
        proof {
            assert(message@.subrange(0, 0) =~= needle@);
            assert(window_matches(message@, needle@, 0, fold_case)) by {
                assert(lower_codes(message@.subrange(0, 0)) =~= lower_codes(needle@));
            }
        }
        return true;
    }
    let mut i: usize = 0;
    while i <= m - n
        invariant
            0 <= i <= m - n + 1,
            n == needle@.len(),
            m == message@.len(),
            1 <= n <= m,
            forall|k: int| 0 <= k < i ==> !window_matches(message@, needle@, k, fold_case),
        decreases m - n - i + 1,
    {
        if window_eq(message, i, needle, fold_case) {
            return true;
        }
        i = i + 1;
    }
    proof {
        assert forall|k: int|
            0 <= k && k + needle@.len() <= message@.len() implies !window_matches(
            message@,
            needle@,
            k,
            fold_case,
        ) by {
            assert(k < i);
        }
    }
    false
}

} // verus!
