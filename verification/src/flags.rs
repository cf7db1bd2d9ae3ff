//! Sets of small numbers kept as one flag per number.

use vstd::arithmetic::power2::{lemma_pow2_pos, lemma_pow2_unfold, pow2};
use vstd::prelude::*;
use vstd::set_lib::{lemma_int_range, lemma_len_subset, set_int_range};

verus! {

/// The positions of `flags` that are set.
pub open spec fn flagged(flags: Seq<bool>) -> Set<int> {
    Set::new(|q: int| 0 <= q < flags.len() && flags[q])
}

/// How many positions of `flags` are clear.
pub open spec fn count_clear(flags: Seq<bool>) -> nat
    decreases flags.len(),
{
    if flags.len() == 0 {
        0
    } else {
        count_clear(flags.drop_last()) + if flags.last() {
            0nat
        } else {
            1nat
        }
    }
}

/// Setting a clear flag leaves one clear flag fewer.
pub proof fn lemma_set_flag(flags: Seq<bool>, q: int)
    requires
        0 <= q < flags.len(),
        !flags[q],
    ensures
        count_clear(flags.update(q, true)) + 1 == count_clear(flags),
    decreases flags.len(),
{
    if q == flags.len() - 1 {
        assert(flags.update(q, true).drop_last() =~= flags.drop_last());
    } else {
        lemma_set_flag(flags.drop_last(), q);
        assert(flags.update(q, true).drop_last() =~= flags.drop_last().update(q, true));
    }
}

/// Sequences of flags of one length with the same set flags are the same.
pub proof fn lemma_flagged_injective(a: Seq<bool>, b: Seq<bool>)
    requires
        a.len() == b.len(),
        flagged(a) == flagged(b),
    ensures
        a == b,
{
    assert forall|q: int| 0 <= q < a.len() implies a[q] == b[q] by {
        assert(flagged(a).contains(q) == a[q]);
        assert(flagged(b).contains(q) == b[q]);
    }
    assert(a =~= b);
}

/// The flags read as a number in base two.
pub open spec fn code(flags: Seq<bool>) -> nat
    decreases flags.len(),
{
    if flags.len() == 0 {
        0
    } else {
        2 * code(flags.drop_last()) + if flags.last() {
            1nat
        } else {
            0nat
        }
    }
}

/// `n` flags read as a number below `2^n`.
pub proof fn lemma_code_bound(flags: Seq<bool>)
    ensures
        code(flags) < pow2(flags.len()),
    decreases flags.len(),
{
    if flags.len() == 0 {
        lemma_pow2_pos(0);
    } else {
        lemma_code_bound(flags.drop_last());
        lemma_pow2_unfold(flags.len());
    }
}

/// Different flags of one length read as different numbers.
pub proof fn lemma_code_injective(a: Seq<bool>, b: Seq<bool>)
    requires
        a.len() == b.len(),
        code(a) == code(b),
    ensures
        a == b,
    decreases a.len(),
{
    if a.len() > 0 {
        lemma_code_injective(a.drop_last(), b.drop_last());
        assert(a =~= a.drop_last().push(a.last()));
        assert(b =~= b.drop_last().push(b.last()));
    } else {
        assert(a =~= b);
    }
}

/// There are at most `2^n` different sequences of `n` flags.
pub proof fn lemma_distinct_flags_bound(table: Seq<Seq<bool>>, n: nat)
    requires
        forall|j: int| 0 <= j < table.len() ==> (#[trigger] table[j]).len() == n,
        forall|a: int, b: int|
            0 <= a < b < table.len() ==> #[trigger] table[a] != #[trigger] table[b],
    ensures
        table.len() <= pow2(n),
{
    let codes = Seq::new(table.len(), |j: int| code(table[j]) as int);
    assert forall|a: int, b: int| 0 <= a < codes.len() && 0 <= b < codes.len() && a
        != b implies codes[a] != codes[b] by {
        if codes[a] == codes[b] {
            lemma_code_injective(table[a], table[b]);
            if a < b {
                assert(table[a] != table[b]);
            } else {
                assert(table[b] != table[a]);
            }
        }
    }
    assert(codes.no_duplicates());
    codes.unique_seq_to_set();
    let range = set_int_range(0, pow2(n) as int);
    lemma_int_range(0, pow2(n) as int);
    assert forall|x: int| codes.to_set().contains(x) implies range.contains(x) by {
        let j = choose|j: int| 0 <= j < codes.len() && codes[j] == x;
        lemma_code_bound(table[j]);
    }
    lemma_len_subset(codes.to_set(), range);
}

/// `n` clear flags.
pub fn clear_flags(n: usize) -> (flags: Vec<bool>)
    ensures
        flags.len() == n,
        forall|q: int| 0 <= q < n ==> !flags[q],
{
    let mut flags: Vec<bool> = Vec::new();
    while flags.len() < n
        invariant
            flags.len() <= n,
            forall|q: int| 0 <= q < flags.len() ==> !flags[q],
        decreases n - flags.len(),
    {
        flags.push(false);
    }
    flags
}

/// Whether `a` and `b` are the same flags.
pub fn same_flags(a: &Vec<bool>, b: &Vec<bool>) -> (same: bool)
    ensures
        same == (a@ == b@),
{
    if a.len() != b.len() {
        return false;
    }
    let mut q: usize = 0;
    while q < a.len()
        invariant
            a.len() == b.len(),
            q <= a.len(),
            forall|x: int| 0 <= x < q ==> a[x] == b[x],
        decreases a.len() - q,
    {
        if a[q] != b[q] {
            return false;
        }
        q += 1;
    }
    assert(a@ =~= b@);
    true
}

/// Sets in `into` every flag that is set in `from`.
pub fn merge_flags(into: &mut Vec<bool>, from: &Vec<bool>)
    requires
        old(into).len() == from.len(),
    ensures
        final(into).len() == from.len(),
        forall|q: int|
            0 <= q < from.len() ==> #[trigger] final(into)[q] == (old(into)[q] || from[q]),
{
    let ghost before = into@;
    let mut q: usize = 0;
    while q < from.len()
        invariant
            into.len() == from.len(),
            before.len() == from.len(),
            q <= from.len(),
            forall|x: int| 0 <= x < q ==> #[trigger] into[x] == (before[x] || from[x]),
            forall|x: int| q <= x < from.len() ==> #[trigger] into[x] == before[x],
        decreases from.len() - q,
    {
        if from[q] {
            into[q] = true;
        }
        q += 1;
    }
}

} // verus!
