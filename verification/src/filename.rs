//! Filename sanitization. A recording is stored under the final path
//! component of its supplied name, so the object keys derived from it cannot
//! carry directory prefixes; a name with no final component (empty, only
//! separators, only `.` components, or ending in `..`) fails the recording.

use crate::fmt::{bytes_as_chars, dec_digits, lemma_dec_digits_ascii};
use vstd::prelude::*;
use vstd::string::StrSliceExecFns;
use vstd::string::StringExecFns;

verus! {

/// The `/`-separated components of the name from position `i` on, `cur`
/// being the part of the current component already scanned; empty components
/// are kept and filtered later.
pub open spec fn comps_acc(s: Seq<char>, i: int, cur: Seq<char>) -> Seq<Seq<char>>
    decreases s.len() - i,
{
    if !(0 <= i < s.len()) {
        seq![cur]
    } else if s[i] == '/' {
        seq![cur] + comps_acc(s, i + 1, Seq::empty())
    } else {
        comps_acc(s, i + 1, cur.push(s[i]))
    }
}

/// A component that names something: nonempty and not the current-directory
/// marker.
pub open spec fn real_component(c: Seq<char>) -> bool {
    c.len() > 0 && c != "."@
}

/// The last real component, scanning from the end.
pub open spec fn last_real(comps: Seq<Seq<char>>) -> Option<Seq<char>>
    decreases comps.len(),
{
    if comps.len() == 0 {
        None
    } else if real_component(comps.last()) {
        Some(comps.last())
    } else {
        last_real(comps.drop_last())
    }
}

/// The final path component of the name, when it has one: separators, empty
/// components and `.` components are dropped, and a name whose last real
/// component is the parent-directory marker has none.
pub open spec fn file_name_of(s: Seq<char>) -> Option<Seq<char>> {
    match last_real(comps_acc(s, 0, Seq::empty())) {
        None => None,
        Some(c) => if c == ".."@ {
            None
        } else {
            Some(c)
        },
    }
}

/// Reduce a supplied recording name to its final path component.
pub fn file_name(s: &str) -> (r: Option<String>)
    ensures
        r is Some <==> file_name_of(s@) is Some,
        r matches Some(name) ==> file_name_of(s@) matches Some(c) && name@ == c,
{
    let n = s.unicode_len();
    let mut st: usize = 0;
    let mut i: usize = 0;
    let mut best_start: usize = 0;
    let mut best_end: usize = 0;
    let mut have: bool = false;
    let ghost mut closed = Seq::<Seq<char>>::empty();
    proof {
        assert(s@.subrange(0, 0) =~= Seq::<char>::empty());
        assert(Seq::<Seq<char>>::empty() + comps_acc(s@, 0, Seq::<char>::empty()) =~= comps_acc(
            s@,
            0,
            Seq::<char>::empty(),
        ));
    }
    while i < n
        invariant
            st <= i <= n,
            n == s@.len(),
            comps_acc(s@, 0, Seq::empty()) == closed + comps_acc(
                s@,
                i as int,
                s@.subrange(st as int, i as int),
            ),
            (match last_real(closed) {
                None => !have,
                Some(c) => have && best_start <= best_end <= n && c == s@.subrange(
                    best_start as int,
                    best_end as int,
                ),
            }),
        decreases n - i,
    {
        let c = s.get_char(i);
        if c == '/' {
            let ghost cur = s@.subrange(st as int, i as int);
            let keeps = i - st > 0 && !(i - st == 1 && s.get_char(st) == '.');
            proof {
                reveal_strlit(".");
                if i - st == 1 && s@[st as int] == '.' {
                    assert(cur =~= "."@);
                }
                if cur == "."@ {
                    assert(cur.len() == 1 && cur[0] == '.');
                }
                assert(keeps == real_component(cur));
            }
            if keeps {
                best_start = st;
                best_end = i;
                have = true;
            }
            proof {
                assert(closed.push(cur).drop_last() =~= closed);
                assert(closed.push(cur).last() == cur);
                assert(comps_acc(s@, i as int, cur) == seq![cur] + comps_acc(
                    s@,
                    i + 1,
                    Seq::<char>::empty(),
                ));
                assert(closed + (seq![cur] + comps_acc(s@, i + 1, Seq::<char>::empty()))
                    =~= closed.push(cur) + comps_acc(s@, i + 1, Seq::<char>::empty()));
                closed = closed.push(cur);
            }
            st = i + 1;
            i = i + 1;
            proof {
                assert(s@.subrange(st as int, i as int) =~= Seq::<char>::empty());
            }
        } else {
            proof {
                assert(s@.subrange(st as int, i + 1) =~= s@.subrange(st as int, i as int).push(
                    s@[i as int],
                ));
            }
            i = i + 1;
        }
    }
    let ghost cur = s@.subrange(st as int, n as int);
    let ghost all = comps_acc(s@, 0, Seq::empty());
    let tail_real = n - st > 0 && !(n - st == 1 && s.get_char(st) == '.');
    proof {
        reveal_strlit(".");
        if n - st == 1 && s@[st as int] == '.' {
            assert(cur =~= "."@);
        }
        if cur == "."@ {
            assert(cur.len() == 1 && cur[0] == '.');
        }
        assert(tail_real == real_component(cur));
        assert(comps_acc(s@, n as int, cur) == seq![cur]);
        assert(closed + seq![cur] =~= closed.push(cur));
        assert(all == closed.push(cur));
        assert(closed.push(cur).drop_last() =~= closed);
        assert(closed.push(cur).last() == cur);
    }
    let (a, b): (usize, usize) = if tail_real {
        (st, n)
    } else if have {
        (best_start, best_end)
    } else {
        proof {
            assert(last_real(all) is None);
        }
        return None;
    };
    let ghost cand = s@.subrange(a as int, b as int);
    proof {
        assert(last_real(all) == Some(cand));
    }
    let is_parent = b - a == 2 && s.get_char(a) == '.' && s.get_char(a + 1) == '.';
    proof {
        reveal_strlit("..");
        if b - a == 2 && s@[a as int] == '.' && s@[a + 1] == '.' {
            assert(cand =~= ".."@);
        }
        if cand == ".."@ {
            assert(cand.len() == 2 && cand[0] == '.' && cand[1] == '.');
        }
        assert(is_parent == (cand == ".."@));
    }
    if is_parent {
        return None;
    }
    let piece = s.substring_char(a, b);
    Some(piece.to_owned())
}

proof fn lemma_comps_no_slash(s: Seq<char>, i: int, cur: Seq<char>)
    requires
        0 <= i <= s.len(),
        forall|k: int| i <= k < s.len() ==> s[k] != '/',
    ensures
        comps_acc(s, i, cur) == seq![cur + s.subrange(i, s.len() as int)],
    decreases s.len() - i,
{
    if i >= s.len() {
        assert(cur + s.subrange(i, s.len() as int) =~= cur);
    } else {
        lemma_comps_no_slash(s, i + 1, cur.push(s[i]));
        assert(cur.push(s[i]) + s.subrange(i + 1, s.len() as int) =~= cur + s.subrange(
            i,
            s.len() as int,
        ));
    }
}

/// A name without separators that is not a directory marker is its own final
/// path component.
pub proof fn lemma_plain_name_identity(s: Seq<char>)
    requires
        s.len() > 0,
        forall|k: int| 0 <= k < s.len() ==> s[k] != '/',
        s != "."@,
        s != ".."@,
    ensures
        file_name_of(s) == Some(s),
{
    lemma_comps_no_slash(s, 0, Seq::empty());
    assert(Seq::<char>::empty() + s.subrange(0, s.len() as int) =~= s);
    let comps = seq![s];
    assert(comps.last() == s);
    assert(real_component(s));
}

/// A decimal-digit recording name sanitizes to itself.
pub proof fn lemma_digit_name_identity(n: nat)
    ensures
        file_name_of(bytes_as_chars(dec_digits(n))) == Some(bytes_as_chars(dec_digits(n))),
{
    lemma_dec_digits_ascii(n);
    let s = bytes_as_chars(dec_digits(n));
    assert(s.len() == dec_digits(n).len());
    assert forall|k: int| 0 <= k < s.len() implies s[k] != '/' by {
        assert(s[k] == dec_digits(n)[k] as char);
        assert(0x30 <= dec_digits(n)[k] <= 0x39);
        assert(dec_digits(n)[k] as char as u32 == dec_digits(n)[k] as u32);
    }
    reveal_strlit(".");
    reveal_strlit("..");
    assert(s[0] == dec_digits(n)[0] as char);
    assert(dec_digits(n)[0] as char as u32 == dec_digits(n)[0] as u32);
    if s == "."@ {
        assert(s[0] == '.');
    }
    if s == ".."@ {
        assert(s[0] == '.');
    }
    lemma_plain_name_identity(s);
}

} // verus!
