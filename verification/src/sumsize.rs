//! Summing the sizes of the files under the destination tree.

use vstd::prelude::*;

verus! {

/// The exact sum of a sequence of file sizes.
pub open spec fn seq_sum(s: Seq<u64>) -> int
    decreases s.len(),
{
    if s.len() == 0 {
        0
    } else {
        s[0] + seq_sum(s.drop_first())
    }
}

/// Appending one size adds it to the sum.
proof fn lemma_seq_sum_push(s: Seq<u64>, x: u64)
    ensures
        seq_sum(s.push(x)) == seq_sum(s) + x,
    decreases s.len(),
{
    if s.len() == 0 {
        assert(s.push(x)[0] == x);
        assert(s.push(x).drop_first() =~= Seq::<u64>::empty());
        assert(seq_sum(Seq::<u64>::empty()) == 0);
    } else {
        assert(s.push(x)[0] == s[0]);
        assert(s.push(x).drop_first() =~= s.drop_first().push(x));
        lemma_seq_sum_push(s.drop_first(), x);
    }
}

/// The sum of the prefix grows one element at a time.
proof fn lemma_take_succ(s: Seq<u64>, i: int)
    requires
        0 <= i < s.len(),
    ensures
        s.take(i + 1) == s.take(i).push(s[i]),
{
    assert(s.take(i + 1) =~= s.take(i).push(s[i]));
}

/// Adds up file sizes. Returns the exact total, or `None` when it would not
/// fit in a `u64`.
pub fn sum_sizes(sizes: &Vec<u64>) -> (r: Option<u64>)
    ensures
        r is Some <==> seq_sum(sizes@) <= u64::MAX,
        r matches Some(t) ==> t == seq_sum(sizes@),
{
    let mut total: u64 = 0;
    let mut i: usize = 0;
    proof {
        assert(sizes@.take(0) =~= Seq::<u64>::empty());
    }
    while i < sizes.len()
        invariant
            i <= sizes@.len(),
            total == seq_sum(sizes@.take(i as int)),
        decreases sizes@.len() - i,
    {
        let x = sizes[i];
        proof {
            lemma_take_succ(sizes@, i as int);
            lemma_seq_sum_push(sizes@.take(i as int), x);
        }
        if x > u64::MAX - total {
            proof {
                lemma_seq_sum_prefix_bound(sizes@, i as int + 1);
            }
            return None;
        }
        total = total + x;
        i = i + 1;
    }
    proof {
        assert(sizes@.take(sizes@.len() as int) =~= sizes@);
    }
    Some(total)
}

/// Sizes are nonnegative, so the whole sum is at least the sum of any
/// prefix.
proof fn lemma_seq_sum_prefix_bound(s: Seq<u64>, i: int)
    requires
        0 <= i <= s.len(),
    ensures
        seq_sum(s) >= seq_sum(s.take(i)),
    decreases s.len(),
{
    if i == 0 {
        assert(s.take(0) =~= Seq::<u64>::empty());
        lemma_seq_sum_nonneg(s);
    } else {
        assert(s.take(i)[0] == s[0]);
        assert(s.take(i).drop_first() =~= s.drop_first().take(i - 1));
        lemma_seq_sum_prefix_bound(s.drop_first(), i - 1);
    }
}

/// A sum of unsigned sizes is nonnegative.
proof fn lemma_seq_sum_nonneg(s: Seq<u64>)
    ensures
        seq_sum(s) >= 0,
    decreases s.len(),
{
    if s.len() > 0 {
        lemma_seq_sum_nonneg(s.drop_first());
    }
}

} // verus!
