//! Small general-purpose helpers: counting and summing over index ranges,
//! and duplicate detection in byte slices.

use vstd::prelude::*;

verus! {

/// Number of indices `i` in `0..n` for which `f(i)` holds.
pub open spec fn count_match(f: spec_fn(int) -> bool, n: nat) -> nat
    decreases n,
{
    if n == 0 {
        0
    } else {
        count_match(f, (n - 1) as nat) + if f(n - 1) {
            1nat
        } else {
            0nat
        }
    }
}

/// Sum of `f(i)` over the indices `i` in `0..n`.
pub open spec fn sum_over(f: spec_fn(int) -> nat, n: nat) -> nat
    decreases n,
{
    if n == 0 {
        0
    } else {
        sum_over(f, (n - 1) as nat) + f(n - 1)
    }
}

pub proof fn lemma_count_match_le(f: spec_fn(int) -> bool, n: nat)
    ensures
        count_match(f, n) <= n,
    decreases n,
{
    if n > 0 {
        lemma_count_match_le(f, (n - 1) as nat);
    }
}

/// Counting is determined by the values of `f` on `0..n` alone.
pub proof fn lemma_count_match_same(f: spec_fn(int) -> bool, g: spec_fn(int) -> bool, n: nat)
    requires
        forall|i: int| 0 <= i < n ==> #[trigger] f(i) == g(i),
    ensures
        count_match(f, n) == count_match(g, n),
    decreases n,
{
    if n > 0 {
        lemma_count_match_same(f, g, (n - 1) as nat);
    }
}

/// Turning one held index off lowers the count by exactly one.
pub proof fn lemma_count_match_flip(
    f: spec_fn(int) -> bool,
    g: spec_fn(int) -> bool,
    j: int,
    n: nat,
)
    requires
        0 <= j < n,
        f(j),
        !g(j),
        forall|i: int| 0 <= i < n && i != j ==> #[trigger] f(i) == g(i),
    ensures
        count_match(g, n) + 1 == count_match(f, n),
    decreases n,
{
    if j == n - 1 {
        lemma_count_match_same(f, g, (n - 1) as nat);
    } else {
        lemma_count_match_flip(f, g, j, (n - 1) as nat);
    }
}

pub proof fn lemma_count_match_pos(f: spec_fn(int) -> bool, j: int, n: nat)
    requires
        0 <= j < n,
        f(j),
    ensures
        count_match(f, n) >= 1,
    decreases n,
{
    if j < n - 1 {
        lemma_count_match_pos(f, j, (n - 1) as nat);
    }
}

/// Two distinct held indices force a count of at least two.
pub proof fn lemma_count_match_two(f: spec_fn(int) -> bool, a: int, b: int, n: nat)
    requires
        0 <= a < b < n,
        f(a),
        f(b),
    ensures
        count_match(f, n) >= 2,
    decreases n,
{
    if b == n - 1 {
        lemma_count_match_pos(f, a, (n - 1) as nat);
    } else {
        lemma_count_match_two(f, a, b, (n - 1) as nat);
    }
}

pub proof fn lemma_sum_over_same(f: spec_fn(int) -> nat, g: spec_fn(int) -> nat, n: nat)
    requires
        forall|i: int| 0 <= i < n ==> #[trigger] f(i) == g(i),
    ensures
        sum_over(f, n) == sum_over(g, n),
    decreases n,
{
    if n > 0 {
        lemma_sum_over_same(f, g, (n - 1) as nat);
    }
}

/// Lowering one summand by exactly one lowers the sum by exactly one.
pub proof fn lemma_sum_over_drop(f: spec_fn(int) -> nat, g: spec_fn(int) -> nat, j: int, n: nat)
    requires
        0 <= j < n,
        g(j) + 1 == f(j),
        forall|i: int| 0 <= i < n && i != j ==> #[trigger] f(i) == g(i),
    ensures
        sum_over(g, n) + 1 == sum_over(f, n),
    decreases n,
{
    if j == n - 1 {
        lemma_sum_over_same(f, g, (n - 1) as nat);
    } else {
        lemma_sum_over_drop(f, g, j, (n - 1) as nat);
    }
}

/// A sum of `n` terms, each at most `m`, is at most `m * n`.
pub proof fn lemma_sum_over_bound(f: spec_fn(int) -> nat, m: nat, n: nat)
    requires
        forall|i: int| 0 <= i < n ==> #[trigger] f(i) <= m,
    ensures
        sum_over(f, n) <= m * n,
    decreases n,
{
    if n > 0 {
        lemma_sum_over_bound(f, m, (n - 1) as nat);
        assert(m * (n - 1) + m == m * n) by (nonlinear_arith);
    }
}

/// Some value occurs at two different positions of `s`.
pub open spec fn spec_has_duplicates(s: Seq<u8>) -> bool {
    exists|i: int, j: int| 0 <= i < j < s.len() && s[i] == s[j]
}

/// True iff some value occurs at two different positions of `arr`.
pub fn has_duplicates(arr: &[u8]) -> (r: bool)
    ensures
        r == spec_has_duplicates(arr@),
{
    let n = arr.len();
    let mut i: usize = 0;
    while i < n
        invariant
            i <= n,
            n == arr@.len(),
            forall|a: int, b: int| 0 <= a < b < n && a < i ==> arr@[a] != arr@[b],
        decreases n - i,
    {
        let mut j: usize = i + 1;
        while j < n
            invariant
                i < n,
                i < j <= n,
                n == arr@.len(),
                forall|b: int| i < b < j ==> arr@[i as int] != arr@[b],
            decreases n - j,
        {
            if arr[i] == arr[j] {
                assert(spec_has_duplicates(arr@));
                return true;
            }
            j += 1;
        }
        i += 1;
    }
    false
}

} // verus!
