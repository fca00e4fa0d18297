//! How a tree of words is split in two: the lower part takes the largest
//! power of two of words that leaves at least one word for the upper part.

use vstd::prelude::*;

verus! {

/// The result of doubling `l` for as long as twice `l` stays below `n`.
pub open spec fn doubled(n: nat, l: nat) -> nat
    decreases n - l,
{
    if 0 < l && 2 * l < n {
        doubled(n, 2 * l)
    } else {
        l
    }
}

/// The number of words in the lower part of a tree of `n` words.
pub open spec fn lower_half(n: nat) -> nat {
    doubled(n, 1)
}

/// Whether `n` is a power of two.
pub open spec fn power_of_two(n: nat) -> bool
    decreases n,
{
    n == 1 || (n >= 2 && n % 2 == 0 && power_of_two(n / 2))
}

/// Doubling from below `n` ends below `n`, no more than a factor of two
/// away from it; and it ends on a power of two if it began on one.
pub proof fn lemma_doubled(n: nat, l: nat)
    requires
        1 <= l < n,
    ensures
        l <= doubled(n, l) < n <= 2 * doubled(n, l),
        power_of_two(l) ==> power_of_two(doubled(n, l)),
    decreases n - l,
{
    if 2 * l < n {
        lemma_doubled(n, 2 * l);
        if power_of_two(l) {
            assert((2 * l) / 2 == l);
            assert(power_of_two(2 * l));
        }
    }
}

/// The lower part of a tree of at least two words: a power of two of
/// words, fewer than all, and at least half of them.
pub proof fn lemma_lower_half(n: nat)
    requires
        n >= 2,
    ensures
        1 <= lower_half(n) < n <= 2 * lower_half(n),
        power_of_two(lower_half(n)),
{
    lemma_doubled(n, 1);
}

/// Doubling towards a larger bound ends no lower.
pub proof fn lemma_doubled_grows(m: nat, n: nat, l: nat)
    requires
        1 <= l < m <= n,
    ensures
        doubled(m, l) <= doubled(n, l),
    decreases n - l,
{
    if 2 * l < m {
        lemma_doubled_grows(m, n, 2 * l);
    } else {
        lemma_doubled(n, l);
    }
}

/// The number of times a tree of `n` words is split on the way to its
/// lowest word: the number of select lines it takes.
pub open spec fn depth(n: nat) -> nat
    decreases n,
{
    if n <= 1 {
        0
    } else {
        proof {
            lemma_lower_half(n);
        }
        depth(lower_half(n)) + 1
    }
}

/// A tree of fewer words is no deeper.
pub proof fn lemma_depth_grows(m: nat, n: nat)
    requires
        m <= n,
    ensures
        depth(m) <= depth(n),
    decreases n,
{
    if m >= 2 {
        lemma_lower_half(m);
        lemma_lower_half(n);
        lemma_doubled_grows(m, n, 1);
        lemma_depth_grows(lower_half(m), lower_half(n));
    }
}

/// The upper part of a tree is no deeper than its lower part.
pub proof fn lemma_upper_is_shallower(n: nat)
    requires
        n >= 2,
    ensures
        depth((n - lower_half(n)) as nat) <= depth(lower_half(n)),
        depth(n) == depth(lower_half(n)) + 1,
{
    lemma_lower_half(n);
    lemma_depth_grows((n - lower_half(n)) as nat, lower_half(n));
}

/// The number of words in the lower part of a tree of `word_count` words.
pub fn lower_size(word_count: usize) -> (l: usize)
    requires
        word_count >= 2,
    ensures
        l == lower_half(word_count as nat),
        1 <= l < word_count,
        word_count - l <= l,
{
    let mut lower_size: usize = 1;
    while lower_size < word_count - lower_size
        invariant
            1 <= lower_size < word_count,
            doubled(word_count as nat, lower_size as nat) == lower_half(word_count as nat),
        decreases word_count - lower_size,
    {
        lower_size = lower_size * 2;
    }
    lower_size
}

} // verus!
