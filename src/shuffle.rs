use vstd::arithmetic::div_mod::{lemma_fundamental_div_mod, lemma_mod_multiples_vanish};
use vstd::prelude::*;

verus! {

/// `s` with the entries at `i` and `j` exchanged.
pub open spec fn swap_seq(s: Seq<u32>, i: int, j: int) -> Seq<u32> {
    s.update(i, s[j]).update(j, s[i])
}

/// The entropy byte read at step `t` (counted from 0): the block is read cyclically.
pub open spec fn entropy_byte(e: Seq<u8>, t: int) -> int {
    e[t % (e.len() as int)] as int
}

/// The sequence after the first `m` steps of the Fisher–Yates shuffle.
/// Step `m` (counted from 1) handles index `i = len - m` and exchanges it with
/// index `entropy_byte(e, m - 1) % (i + 1)`.
pub open spec fn shuffle_steps(s: Seq<u32>, e: Seq<u8>, m: nat) -> Seq<u32>
    decreases m,
{
    if m == 0 {
        s
    } else {
        let prev = shuffle_steps(s, e, (m - 1) as nat);
        let i = s.len() - m;
        swap_seq(prev, i, entropy_byte(e, m - 1) % (i + 1))
    }
}

/// The Fisher–Yates shuffle of `s` driven by the entropy block `e`: indices from
/// the last one down to 1, one entropy byte per index.
pub open spec fn shuffled(s: Seq<u32>, e: Seq<u8>) -> Seq<u32> {
    if s.len() <= 1 {
        s
    } else {
        shuffle_steps(s, e, (s.len() - 1) as nat)
    }
}

proof fn lemma_swap_same_multiset(s: Seq<u32>, i: int, j: int)
    requires
        0 <= i < s.len(),
        0 <= j < s.len(),
    ensures
        swap_seq(s, i, j).to_multiset() =~= s.to_multiset(),
        swap_seq(s, i, j).len() == s.len(),
{
    broadcast use vstd::seq_lib::to_multiset_update;
    broadcast use vstd::multiset::group_multiset_axioms;

    let t = s.update(i, s[j]);
    assert(t.to_multiset() == s.to_multiset().insert(s[j]).remove(s[i]));
    assert(t[j] == s[j]);
    assert(t.update(j, s[i]).to_multiset() == t.to_multiset().insert(s[i]).remove(s[j]));
    let ms = s.to_multiset();
    assert(s.contains(s[i]));
    vstd::seq_lib::to_multiset_contains(s, s[i]);
    assert forall|x: u32|
        #[trigger] ms.insert(s[j]).remove(s[i]).insert(s[i]).remove(s[j]).count(x) == ms.count(x) by {}
    assert(ms.insert(s[j]).remove(s[i]).insert(s[i]).remove(s[j]) =~= ms);
}

proof fn lemma_steps_same_multiset(s: Seq<u32>, e: Seq<u8>, m: nat)
    requires
        e.len() > 0,
        m < s.len(),
    ensures
        shuffle_steps(s, e, m).to_multiset() =~= s.to_multiset(),
        shuffle_steps(s, e, m).len() == s.len(),
    decreases m,
{
    if m > 0 {
        lemma_steps_same_multiset(s, e, (m - 1) as nat);
        let prev = shuffle_steps(s, e, (m - 1) as nat);
        let i = s.len() - m;
        let j = entropy_byte(e, m - 1) % (i + 1);
        assert(0 <= j <= i);
        lemma_swap_same_multiset(prev, i, j);
    }
}

/// The shuffle only rearranges: it keeps the length and every value with its multiplicity.
pub proof fn lemma_shuffle_is_permutation(s: Seq<u32>, e: Seq<u8>)
    requires
        e.len() > 0,
    ensures
        shuffled(s, e).len() == s.len(),
        shuffled(s, e).to_multiset() =~= s.to_multiset(),
{
    if s.len() > 1 {
        lemma_steps_same_multiset(s, e, (s.len() - 1) as nat);
    }
}

/// A shuffle of a sequence without duplicates has none, and holds the same values.
pub proof fn lemma_shuffle_keeps_distinct_values(s: Seq<u32>, e: Seq<u8>)
    requires
        e.len() > 0,
        s.no_duplicates(),
    ensures
        shuffled(s, e).len() == s.len(),
        shuffled(s, e).no_duplicates(),
        forall|x: u32| shuffled(s, e).contains(x) <==> s.contains(x),
{
    broadcast use vstd::seq_lib::to_multiset_contains;

    lemma_shuffle_is_permutation(s, e);
    s.lemma_multiset_has_no_duplicates();
    shuffled(s, e).lemma_multiset_has_no_duplicates_conv();
    assert forall|x: u32| shuffled(s, e).contains(x) <==> s.contains(x) by {
        vstd::seq_lib::to_multiset_contains(s, x);
        vstd::seq_lib::to_multiset_contains(shuffled(s, e), x);
    }
}

/// Shuffles `seq` in place with the Fisher–Yates method, reading `entropy` cyclically.
pub fn shuffle_with_entropy(seq: &mut Vec<u32>, entropy: &Vec<u8>)
    requires
        entropy.len() > 0,
    ensures
        final(seq)@ == shuffled(old(seq)@, entropy@),
{
    let n = seq.len();
    if n <= 1 {
        return;
    }
    let ghost s0 = seq@;
    let elen = entropy.len();
    let mut i: usize = n - 1;
    let mut k: usize = 0;
    let ghost mut m: nat = 0;
    while i >= 1
        invariant
            elen == entropy.len(),
            elen > 0,
            n == s0.len(),
            n > 1,
            seq.len() == n,
            i + m == n - 1,
            k == (m as int) % (elen as int),
            seq@ == shuffle_steps(s0, entropy@, m),
        decreases i,
    {
        let j = (entropy[k] as usize) % (i + 1);
        let a = seq[i];
        let b = seq[j];
        seq.set(i, b);
        seq.set(j, a);
        proof {
            lemma_fundamental_div_mod(m as int, elen as int);
            lemma_mod_multiples_vanish(m as int / elen as int, k as int + 1, elen as int);
            assert(m as int + 1 == elen as int * (m as int / elen as int) + (k as int + 1));
            m = m + 1;
            assert(seq@ =~= shuffle_steps(s0, entropy@, m));
        }
        k = (k + 1) % elen;
        i -= 1;
    }
}

} // verus!
