//! Runs of one byte inside a byte string.
//!
//! The encoder has to know the longest run of a closing byte inside a
//! string; this module says what that is and computes it.

use vstd::prelude::*;

verus! {

/// Whether `s` holds the byte `c` at each of the `n` positions from `at` on.
pub open spec fn is_run(s: Seq<u8>, c: u8, at: int, n: int) -> bool {
    &&& 0 <= at
    &&& 0 <= n
    &&& at + n <= s.len()
    &&& forall|k: int| at <= k < at + n ==> s[k] == c
}

/// The length of the run of `c` that `s` ends with (0 where `s` is empty or
/// ends with another byte).
pub open spec fn trailing_run(s: Seq<u8>, c: u8) -> nat
    decreases s.len(),
{
    if s.len() == 0 || s.last() != c {
        0
    } else {
        1 + trailing_run(s.drop_last(), c)
    }
}

/// The length of the longest run of `c` anywhere in `s` (0 where `c` does
/// not occur).
pub open spec fn longest_run(s: Seq<u8>, c: u8) -> nat
    decreases s.len(),
{
    if s.len() == 0 {
        0
    } else {
        let before = longest_run(s.drop_last(), c);
        let here = trailing_run(s, c);
        if here > before {
            here
        } else {
            before
        }
    }
}

/// The run a string ends with lies inside the string, and really is a run.
pub proof fn lemma_trailing_run_is_run(s: Seq<u8>, c: u8)
    ensures
        trailing_run(s, c) <= s.len(),
        is_run(s, c, s.len() - trailing_run(s, c), trailing_run(s, c) as int),
    decreases s.len(),
{
    if s.len() != 0 && s.last() == c {
        let t = s.drop_last();
        lemma_trailing_run_is_run(t, c);
        let n = trailing_run(s, c) as int;
        assert forall|k: int| s.len() - n <= k < s.len() implies s[k] == c by {
            if k < t.len() {
                assert(t[k] == c);
            }
        }
    }
}

/// No run that reaches the end of a string is longer than its trailing run.
pub proof fn lemma_trailing_run_is_longest(s: Seq<u8>, c: u8, n: int)
    requires
        is_run(s, c, s.len() - n, n),
    ensures
        n <= trailing_run(s, c),
    decreases s.len(),
{
    if n > 0 {
        let t = s.drop_last();
        assert forall|k: int| t.len() - (n - 1) <= k < t.len() implies t[k] == c by {}
        lemma_trailing_run_is_longest(t, c, n - 1);
    }
}

/// The longest run is a run: the string holds that many `c` in a row
/// somewhere, and it is no longer than the string.
pub proof fn lemma_longest_run_attained(s: Seq<u8>, c: u8)
    ensures
        longest_run(s, c) <= s.len(),
        exists|at: int| is_run(s, c, at, longest_run(s, c) as int),
    decreases s.len(),
{
    if s.len() == 0 {
        assert(is_run(s, c, 0, 0));
    } else {
        let t = s.drop_last();
        lemma_longest_run_attained(t, c);
        lemma_trailing_run_is_run(s, c);
        if trailing_run(s, c) <= longest_run(t, c) {
            let n = longest_run(t, c) as int;
            let at = choose|at: int| is_run(t, c, at, n);
            assert forall|k: int| at <= k < at + n implies s[k] == c by {
                assert(t[k] == c);
            }
            assert(is_run(s, c, at, n));
        }
    }
}

/// No run in a string is longer than the longest run.
pub proof fn lemma_longest_run_bounds(s: Seq<u8>, c: u8, at: int, n: int)
    requires
        is_run(s, c, at, n),
    ensures
        n <= longest_run(s, c),
    decreases s.len(),
{
    if s.len() != 0 {
        if at + n == s.len() {
            lemma_trailing_run_is_longest(s, c, n);
        } else {
            let t = s.drop_last();
            assert forall|k: int| at <= k < at + n implies t[k] == c by {}
            lemma_longest_run_bounds(t, c, at, n);
        }
    }
}

/// A string that ends with another byte than `c` has room for one more
/// than its longest run of `c`.
pub proof fn lemma_longest_run_below_len(s: Seq<u8>, c: u8)
    requires
        s.len() > 0,
        s.last() != c,
    ensures
        longest_run(s, c) < s.len(),
{
    lemma_longest_run_attained(s.drop_last(), c);
}

/// Computes the length of the longest run of `c` in `s`.
pub fn longest_run_of(s: &[u8], c: u8) -> (best: usize)
    ensures
        best == longest_run(s@, c),
{
    let mut best: usize = 0;
    let mut current: usize = 0;
    let mut i: usize = 0;
    while i < s.len()
        invariant
            i <= s.len(),
            current <= i,
            best <= i,
            current == trailing_run(s@.take(i as int), c),
            best == longest_run(s@.take(i as int), c),
        decreases s.len() - i,
    {
        if s[i] == c {
            current = current + 1;
        } else {
            current = 0;
        }
        if current > best {
            best = current;
        }
        i = i + 1;
        proof {
            assert(s@.take(i as int).drop_last() =~= s@.take(i - 1));
        }
    }
    proof {
        assert(s@.take(i as int) =~= s@);
    }
    best
}

} // verus!
