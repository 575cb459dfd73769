use vstd::arithmetic::power2::{lemma2_to64, lemma_pow2_strictly_increases, lemma_pow2_unfold, pow2};
use vstd::prelude::*;

use crate::assignments::{keys_unique, lemma_to_map, to_map, Assignments};

verus! {

/// Bit `p` of `i`, bit 0 being the least significant.
pub open spec fn bit(i: nat, p: nat) -> bool
    decreases p,
{
    if p == 0 {
        i % 2 == 1
    } else {
        bit(i / 2, (p - 1) as nat)
    }
}

/// Row `i` of the enumeration over `vars`: the variable at position `p` is
/// bound to bit `p` of `i`, in the order of `vars`.
pub open spec fn row_entries(vars: Seq<char>, i: nat) -> Seq<(char, bool)> {
    Seq::new(vars.len(), |p: int| (vars[p], bit(i, p as nat)))
}

/// Row `i` of the enumeration over `vars`, as a map.
pub open spec fn row(vars: Seq<char>, i: nat) -> Map<char, bool> {
    to_map(row_entries(vars, i))
}

/// `2^n` for `n < 64`.
pub(crate) fn row_count(n: usize) -> (r: u64)
    requires
        n < 64,
    ensures
        r == pow2(n as nat),
{
    let mut rows: u64 = 1;
    let mut k: usize = 0;
    proof {
        lemma2_to64();
    }
    while k < n
        invariant
            k <= n < 64,
            rows == pow2(k as nat),
        decreases n - k,
    {
        proof {
            lemma_pow2_unfold((k + 1) as nat);
            lemma_pow2_strictly_increases((k + 1) as nat, 64);
            lemma2_to64();
        }
        rows = rows * 2;
        k = k + 1;
    }
    rows
}

/// Builds row `i` of the enumeration over `vars`.
pub(crate) fn assignment_row(vars: &Vec<char>, i: u64) -> (r: Assignments)
    requires
        vars@.no_duplicates(),
    ensures
        r.wf(),
        r.entries() == row_entries(vars@, i as nat),
{
    let mut a = Assignments::new();
    let mut x: u64 = i;
    let mut p: usize = 0;
    while p < vars.len()
        invariant
            p <= vars@.len(),
            vars@.no_duplicates(),
            a.wf(),
            a.entries() == Seq::new(p as nat, |q: int| (vars@[q], bit(i as nat, q as nat))),
            forall|q: nat| #[trigger] bit(x as nat, q) == bit(i as nat, (p + q) as nat),
        decreases vars@.len() - p,
    {
        proof {
            lemma_to_map(a.entries());
            if a@.contains_key(vars@[p as int]) {
                let k = choose|k: int| 0 <= k < a.entries().len() && #[trigger] a.entries()[k].0 == vars@[p as int];
                assert(vars@[k] == vars@[p as int]);
            }
            assert(bit(x as nat, 0) == bit(i as nat, p as nat));
        }
        let value = x % 2 == 1;
        a.push_new(vars[p], value);
        proof {
            assert forall|q: nat| #[trigger] bit((x / 2) as nat, q) == bit(i as nat, (p + 1 + q) as nat) by {
                assert(bit(x as nat, (q + 1) as nat) == bit(i as nat, (p + (q + 1)) as nat));
            }
            assert(a.entries() =~= Seq::new((p + 1) as nat, |q: int| (vars@[q], bit(i as nat, q as nat))));
        }
        x = x / 2;
        p = p + 1;
    }
    proof {
        assert(a.entries() =~= row_entries(vars@, i as nat));
    }
    a
}

} // verus!
