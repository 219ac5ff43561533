//! Finding an `<n>msps` hint in a file name.
//!
//! RF captures are named like `..._8-bit_20msps.flac`. The hint is a number
//! (digits with at most one `.`) immediately followed by `msps` in any case.
//! The scan consumes each number whole; numbers not followed by `msps` are
//! skipped.

use vstd::prelude::*;
use crate::text::{is_digit, eq_ignore_ascii_case, matches_ignore_case_at};

verus! {

/// `msps`.
pub open spec fn msps_word() -> Seq<u8> {
    seq![0x6Du8, 0x73u8, 0x70u8, 0x73u8]
}

/// End of the number that starts at `i`: digits and at most one `.`.
pub open spec fn number_end(s: Seq<u8>, i: int, seen_dot: bool) -> int
    decreases s.len() - i,
{
    if i < 0 || i >= s.len() {
        i
    } else if is_digit(s[i]) {
        number_end(s, i + 1, seen_dot)
    } else if s[i] == 0x2E && !seen_dot {
        number_end(s, i + 1, true)
    } else {
        i
    }
}

/// `msps` (any case) starts at `i`.
pub open spec fn msps_at(s: Seq<u8>, i: int) -> bool {
    i + 4 <= s.len() && eq_ignore_ascii_case(s.subrange(i, i + 4), msps_word())
}

/// The first number at or after `i`, in scan order, that `msps` follows:
/// its start and end.
pub open spec fn spec_next_msps(s: Seq<u8>, i: int) -> Option<(int, int)>
    decreases s.len() - i,
{
    if i < 0 || i >= s.len() {
        None
    } else if !is_digit(s[i]) {
        spec_next_msps(s, i + 1)
    } else {
        let e = number_end(s, i, false);
        if msps_at(s, e) {
            Some((i, e))
        } else if i < e <= s.len() {
            spec_next_msps(s, e)
        } else {
            None
        }
    }
}

proof fn lemma_number_end(s: Seq<u8>, i: int, seen_dot: bool)
    requires
        0 <= i <= s.len(),
    ensures
        i <= number_end(s, i, seen_dot) <= s.len(),
    decreases s.len() - i,
{
    if i < s.len() {
        if is_digit(s[i]) {
            lemma_number_end(s, i + 1, seen_dot);
        } else if s[i] == 0x2E && !seen_dot {
            lemma_number_end(s, i + 1, true);
        }
    }
}

fn scan_number(s: &[u8], start: usize) -> (r: usize)
    requires
        start <= s.len(),
    ensures
        r == number_end(s@, start as int, false),
{
    let mut i = start;
    let mut seen_dot = false;
    while i < s.len()
        invariant_except_break
            start <= i <= s.len(),
            number_end(s@, start as int, false) == number_end(s@, i as int, seen_dot),
        ensures
            number_end(s@, start as int, false) == i,
        decreases s.len() - i,
    {
        let c = s[i];
        if 0x30 <= c && c <= 0x39 {
            i = i + 1;
        } else if c == 0x2E && !seen_dot {
            seen_dot = true;
            i = i + 1;
        } else {
            break;
        }
    }
    i
}

/// The next `<number>msps` at or after `from`, in scan order: the span of
/// the number (see [`spec_next_msps`]).
pub fn next_msps_number(s: &[u8], from: usize) -> (r: Option<(usize, usize)>)
    requires
        from <= s.len(),
    ensures
        match spec_next_msps(s@, from as int) {
            Some((a, b)) => r == Some((a as usize, b as usize)),
            None => r is None,
        },
{
    let mut i = from;
    while i < s.len()
        invariant
            from <= i <= s.len(),
            spec_next_msps(s@, from as int) == spec_next_msps(s@, i as int),
        decreases s.len() - i,
    {
        if 0x30 <= s[i] && s[i] <= 0x39 {
            let start = i;
            let e = scan_number(s, i);
            proof {
                lemma_number_end(s@, i + 1, false);
            }
            let word: [u8; 4] = [0x6D, 0x73, 0x70, 0x73];
            assert(word@ =~= msps_word());
            if matches_ignore_case_at(s, e, &word) {
                return Some((start, e));
            }
            i = e;
        } else {
            i = i + 1;
        }
    }
    None
}

} // verus!
