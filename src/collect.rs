use vstd::prelude::*;
use vstd::set_lib::{lemma_int_range, lemma_len_subset, set_int_range};

use crate::ast::{is_symbol, occurrences, ASTNode};

verus! {

/// `acc` followed by the symbols of `s` that are not already present, each
/// kept at its first occurrence.
pub open spec fn dedup_onto(acc: Seq<char>, s: Seq<char>) -> Seq<char>
    decreases s.len(),
{
    if s.len() == 0 {
        acc
    } else {
        let prev = dedup_onto(acc, s.drop_last());
        if prev.contains(s.last()) {
            prev
        } else {
            prev.push(s.last())
        }
    }
}

/// The distinct variables of `e` in order of first occurrence.
pub open spec fn distinct_variables(e: ASTNode) -> Seq<char> {
    dedup_onto(Seq::empty(), occurrences(e))
}

/// Deduplicating a concatenation is deduplicating its parts in turn.
pub proof fn lemma_dedup_append(acc: Seq<char>, s1: Seq<char>, s2: Seq<char>)
    ensures
        dedup_onto(acc, s1 + s2) == dedup_onto(dedup_onto(acc, s1), s2),
    decreases s2.len(),
{
    if s2.len() == 0 {
        assert(s1 + s2 =~= s1);
    } else {
        lemma_dedup_append(acc, s1, s2.drop_last());
        assert((s1 + s2).drop_last() =~= s1 + s2.drop_last());
    }
}

/// Deduplication keeps exactly the symbols of both inputs and adds no repeat.
pub proof fn lemma_dedup_props(acc: Seq<char>, s: Seq<char>)
    ensures
        forall|c: char| #[trigger] dedup_onto(acc, s).contains(c) <==> acc.contains(c) || s.contains(c),
        acc.no_duplicates() ==> dedup_onto(acc, s).no_duplicates(),
    decreases s.len(),
{
    if s.len() > 0 {
        let p = s.drop_last();
        lemma_dedup_props(acc, p);
        let prev = dedup_onto(acc, p);
        assert forall|c: char| #[trigger] dedup_onto(acc, s).contains(c) <==> acc.contains(c) || s.contains(c) by {
            if s.contains(c) && !p.contains(c) {
                let i = choose|i: int| 0 <= i < s.len() && s[i] == c;
                if i < s.len() - 1 {
                    assert(p[i] == c);
                }
            }
            if p.contains(c) {
                let i = choose|i: int| 0 <= i < p.len() && p[i] == c;
                assert(s[i] == c);
            }
            if !prev.contains(s.last()) {
                assert(prev.push(s.last())[prev.len() as int] == s.last());
                if prev.contains(c) {
                    let i = choose|i: int| 0 <= i < prev.len() && prev[i] == c;
                    assert(prev.push(s.last())[i] == c);
                }
                if prev.push(s.last()).contains(c) && c != s.last() {
                    let i = choose|i: int| 0 <= i < prev.len() + 1 && prev.push(s.last())[i] == c;
                    assert(prev[i] == c);
                }
            }
            assert(s[s.len() - 1] == s.last());
        }
    }
}

/// A list of distinct variable symbols has at most 26 entries.
pub proof fn lemma_symbols_bound(s: Seq<char>)
    requires
        s.no_duplicates(),
        forall|i: int| 0 <= i < s.len() ==> is_symbol(#[trigger] s[i]),
    ensures
        s.len() <= 26,
{
    let t = Seq::new(s.len(), |i: int| s[i] as int);
    assert(t.no_duplicates()) by {
        assert forall|i: int, j: int| 0 <= i < t.len() && 0 <= j < t.len() && i != j implies t[i] != t[j] by {
            assert(s[i] != s[j]);
        }
    }
    t.unique_seq_to_set();
    lemma_int_range('a' as int, 'z' as int + 1);
    assert(t.to_set().subset_of(set_int_range('a' as int, 'z' as int + 1))) by {
        assert forall|x: int| t.to_set().contains(x) implies set_int_range('a' as int, 'z' as int + 1).contains(x) by {
            let i = choose|i: int| 0 <= i < t.len() && t[i] == x;
            assert(is_symbol(s[i]));
        }
    }
    lemma_len_subset(t.to_set(), set_int_range('a' as int, 'z' as int + 1));
}

/// Whether `v` holds `c`.
fn contains_char(v: &Vec<char>, c: char) -> (r: bool)
    ensures
        r == v@.contains(c),
{
    let mut i: usize = 0;
    while i < v.len()
        invariant
            i <= v@.len(),
            forall|j: int| 0 <= j < i ==> v@[j] != c,
        decreases v@.len() - i,
    {
        if v[i] == c {
            assert(v@[i as int] == c);
            return true;
        }
        i = i + 1;
    }
    false
}

/// Appends to `acc` the variables of `e` that it does not hold yet, in
/// order of first occurrence.
pub(crate) fn collect_into(e: &ASTNode, acc: &mut Vec<char>)
    ensures
        final(acc)@ == dedup_onto(old(acc)@, occurrences(*e)),
    decreases e,
{
    match e {
        ASTNode::Variable(s) => {
            proof {
                assert(seq![*s].drop_last() =~= Seq::<char>::empty());
                assert(dedup_onto(acc@, seq![*s].drop_last()) == acc@);
                assert(seq![*s].last() == *s);
            }
            if !contains_char(acc, *s) {
                acc.push(*s);
            }
        },
        ASTNode::Literal(_) => {},
        ASTNode::Not(x) => collect_into(x, acc),
        ASTNode::Paren(x) => collect_into(x, acc),
        ASTNode::And(l, r) | ASTNode::Or(l, r) | ASTNode::Implies(l, r) | ASTNode::Equivalent(l, r) => {
            let ghost start = acc@;
            collect_into(l, acc);
            collect_into(r, acc);
            proof {
                lemma_dedup_append(start, occurrences(**l), occurrences(**r));
            }
        },
    }
}

} // verus!
