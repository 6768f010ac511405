//! Removal of leading ISO-8601 timestamp tokens (`YYYY-MM-DDTHH:MM:SS[.frac]Z `)
//! that some log variants embed before each record. Stripping is unconditional
//! and format-agnostic: every occurrence of the token anywhere in the text is
//! removed, scanning left to right over non-overlapping matches.

use vstd::prelude::*;
use vstd::string::StrSliceExecFns;
use vstd::string::StringExecFns;

verus! {

pub open spec fn is_digit(c: char) -> bool {
    0x30 <= c as u32 <= 0x39
}

/// The fixed `YYYY-MM-DDTHH:MM:SS` template starting at position `i`.
pub open spec fn base_match(s: Seq<char>, i: int) -> bool {
    &&& i + 19 <= s.len()
    &&& is_digit(s[i])
    &&& is_digit(s[i + 1])
    &&& is_digit(s[i + 2])
    &&& is_digit(s[i + 3])
    &&& s[i + 4] == '-'
    &&& is_digit(s[i + 5])
    &&& is_digit(s[i + 6])
    &&& s[i + 7] == '-'
    &&& is_digit(s[i + 8])
    &&& is_digit(s[i + 9])
    &&& s[i + 10] == 'T'
    &&& is_digit(s[i + 11])
    &&& is_digit(s[i + 12])
    &&& s[i + 13] == ':'
    &&& is_digit(s[i + 14])
    &&& is_digit(s[i + 15])
    &&& s[i + 16] == ':'
    &&& is_digit(s[i + 17])
    &&& is_digit(s[i + 18])
}

/// Length of the run of decimal digits starting at `i`.
pub open spec fn digit_run(s: Seq<char>, i: int) -> int
    decreases s.len() - i,
{
    if 0 <= i < s.len() && is_digit(s[i]) {
        1 + digit_run(s, i + 1)
    } else {
        0
    }
}

/// Length of the timestamp token starting at position `i`, or 0 when none
/// starts there. The fractional part is taken greedily: after `.` the whole
/// digit run must be followed by `Z` and a space.
pub open spec fn match_len_at(s: Seq<char>, i: int) -> int {
    if !base_match(s, i) {
        0
    } else if i + 21 <= s.len() && s[i + 19] == 'Z' && s[i + 20] == ' ' {
        21
    } else if i + 20 < s.len() && s[i + 19] == '.' && digit_run(s, i + 20) >= 1 && i + 22
        + digit_run(s, i + 20) <= s.len() && s[i + 20 + digit_run(s, i + 20)] == 'Z' && s[i + 21
        + digit_run(s, i + 20)] == ' ' {
        22 + digit_run(s, i + 20)
    } else {
        0
    }
}

proof fn lemma_digit_run_bounds(s: Seq<char>, i: int)
    requires
        0 <= i <= s.len(),
    ensures
        0 <= digit_run(s, i),
        i + digit_run(s, i) <= s.len(),
    decreases s.len() - i,
{
    if i < s.len() && is_digit(s[i]) {
        lemma_digit_run_bounds(s, i + 1);
    }
}

/// The text from position `i` on, with every timestamp token removed.
pub open spec fn strip_from(s: Seq<char>, i: int) -> Seq<char>
    decreases s.len() - i,
{
    if !(0 <= i < s.len()) {
        Seq::empty()
    } else {
        let l = match_len_at(s, i);
        if 1 <= l && i + l <= s.len() {
            strip_from(s, i + l)
        } else {
            seq![s[i]] + strip_from(s, i + 1)
        }
    }
}

/// `s` with every timestamp token removed.
pub open spec fn strip_spec(s: Seq<char>) -> Seq<char> {
    strip_from(s, 0)
}

fn is_digit_at(s: &str, j: usize) -> (r: bool)
    requires
        j < s@.len(),
    ensures
        r == is_digit(s@[j as int]),
{
    let u = s.get_char(j) as u32;
    0x30 <= u && u <= 0x39
}

/// Length of the timestamp token starting at `i`, or 0 when none starts there.
fn match_len(s: &str, i: usize, n: usize) -> (l: usize)
    requires
        n == s@.len(),
        i < n,
    ensures
        l as int == match_len_at(s@, i as int),
        i + l <= n,
{
    if n - i < 19 {
        return 0;
    }
    let base = is_digit_at(s, i) && is_digit_at(s, i + 1) && is_digit_at(s, i + 2) && is_digit_at(
        s,
        i + 3,
    ) && s.get_char(i + 4) == '-' && is_digit_at(s, i + 5) && is_digit_at(s, i + 6) && s.get_char(
        i + 7,
    ) == '-' && is_digit_at(s, i + 8) && is_digit_at(s, i + 9) && s.get_char(i + 10) == 'T'
        && is_digit_at(s, i + 11) && is_digit_at(s, i + 12) && s.get_char(i + 13) == ':'
        && is_digit_at(s, i + 14) && is_digit_at(s, i + 15) && s.get_char(i + 16) == ':'
        && is_digit_at(s, i + 17) && is_digit_at(s, i + 18);
    if !base {
        return 0;
    }
    if n - i >= 21 && s.get_char(i + 19) == 'Z' && s.get_char(i + 20) == ' ' {
        return 21;
    }
    if n - i >= 21 && s.get_char(i + 19) == '.' {
        let run_start = i + 20;
        let mut d: usize = 0;
        proof {
            lemma_digit_run_bounds(s@, run_start as int);
        }
        while run_start + d < n && is_digit_at(s, run_start + d)
            invariant
                n == s@.len(),
                run_start + d <= n,
                digit_run(s@, run_start as int) == d + digit_run(s@, run_start + d),
            decreases n - run_start - d,
        {
            proof {
                assert(digit_run(s@, run_start + d) == 1 + digit_run(s@, run_start + d + 1));
            }
            d += 1;
        }
        proof {
            assert(digit_run(s@, run_start + d) == 0);
            assert(digit_run(s@, run_start as int) == d);
        }
        if d >= 1 && n - (run_start + d) >= 2 && s.get_char(run_start + d) == 'Z' && s.get_char(
            run_start + d + 1,
        ) == ' ' {
            return 22 + d;
        }
        return 0;
    }
    return 0;
}

/// Remove every embedded leading-timestamp token from the text.
pub fn strip_timestamps(input: &str) -> (r: String)
    ensures
        r@ == strip_spec(input@),
{
    let n = input.unicode_len();
    let mut out = String::new();
    let mut i: usize = 0;
    while i < n
        invariant
            i <= n,
            n == input@.len(),
            out@ + strip_from(input@, i as int) == strip_spec(input@),
        decreases n - i,
    {
        let l = match_len(input, i, n);
        if l > 0 {
            proof {
                assert(strip_from(input@, i as int) == strip_from(input@, i + l));
            }
            i += l;
        } else {
            let piece = input.substring_char(i, i + 1);
            proof {
                assert(piece@ =~= seq![input@[i as int]]);
                assert((out@ + piece@) + strip_from(input@, i + 1) =~= out@ + (seq![
                    input@[i as int],
                ] + strip_from(input@, i + 1)));
            }
            out.append(piece);
            i += 1;
        }
    }
    proof {
        assert(out@ + strip_from(input@, i as int) =~= out@);
    }
    out
}

} // verus!
