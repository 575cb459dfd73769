use vstd::prelude::*;

verus! {

/// The map that a list of bindings denotes; a later binding of a symbol
/// overrides an earlier one.
pub open spec fn to_map(s: Seq<(char, bool)>) -> Map<char, bool>
    decreases s.len(),
{
    if s.len() == 0 {
        Map::empty()
    } else {
        to_map(s.drop_last()).insert(s.last().0, s.last().1)
    }
}

/// No symbol is bound twice.
pub open spec fn keys_unique(s: Seq<(char, bool)>) -> bool {
    forall|i: int, j: int| 0 <= i < j < s.len() ==> s[i].0 != s[j].0
}

/// The domain of `to_map(s)` is the set of symbols listed in `s`, and with
/// unique symbols each binding is what the map holds.
pub proof fn lemma_to_map(s: Seq<(char, bool)>)
    ensures
        forall|c: char|
            #[trigger] to_map(s).contains_key(c) <==> exists|i: int|
                0 <= i < s.len() && #[trigger] s[i].0 == c,
        keys_unique(s) ==> forall|i: int|
            0 <= i < s.len() ==> to_map(s)[#[trigger] s[i].0] == s[i].1,
    decreases s.len(),
{
    if s.len() > 0 {
        let p = s.drop_last();
        lemma_to_map(p);
        assert forall|c: char|
            to_map(s).contains_key(c) implies exists|i: int| 0 <= i < s.len() && #[trigger] s[i].0 == c by {
            if c != s.last().0 {
                assert(to_map(p).contains_key(c));
                let i = choose|i: int| 0 <= i < p.len() && #[trigger] p[i].0 == c;
                assert(s[i].0 == c);
            } else {
                assert(s[s.len() - 1].0 == c);
            }
        }
        assert forall|c: char|
            (exists|i: int| 0 <= i < s.len() && #[trigger] s[i].0 == c) implies to_map(s).contains_key(c) by {
            let i = choose|i: int| 0 <= i < s.len() && #[trigger] s[i].0 == c;
            if i < s.len() - 1 {
                assert(p[i].0 == c);
                assert(to_map(p).contains_key(c));
            }
        }
        if keys_unique(s) {
            assert(keys_unique(p));
            assert forall|i: int| 0 <= i < s.len() implies to_map(s)[#[trigger] s[i].0] == s[i].1 by {
                if i < s.len() - 1 {
                    assert(p[i].0 == s[i].0);
                }
            }
        }
    }
}

/// A variable assignment: a finite map from symbols to truth values, kept as
/// a list of bindings in a fixed order with each symbol bound once. Two
/// assignments compare equal, and hash alike, when they list the same
/// bindings in the same order.
#[derive(Debug, PartialEq, Eq, Hash, Clone)]
pub struct Assignments {
    entries: Vec<(char, bool)>,
}

impl View for Assignments {
    type V = Map<char, bool>;

    open spec fn view(&self) -> Map<char, bool> {
        to_map(self.entries())
    }
}

impl Assignments {
    /// The bindings, in their order.
    pub closed spec fn entries(&self) -> Seq<(char, bool)> {
        self.entries@
    }

    /// Each symbol is bound at most once.
    pub open spec fn wf(&self) -> bool {
        keys_unique(self.entries())
    }

    /// The empty assignment.
    pub fn new() -> (r: Assignments)
        ensures
            r.wf(),
            r.entries() == Seq::<(char, bool)>::empty(),
            r@ == Map::<char, bool>::empty(),
    {
        Assignments { entries: Vec::new() }
    }

    /// The bindings, in their order.
    pub fn bindings(&self) -> (r: &[(char, bool)])
        ensures
            r@ == self.entries(),
    {
        self.entries.as_slice()
    }

    /// The value bound to `symbol`, if any.
    pub fn get(&self, symbol: char) -> (r: Option<bool>)
        requires
            self.wf(),
        ensures
            r == (if self@.contains_key(symbol) {
                Some(self@[symbol])
            } else {
                None::<bool>
            }),
    {
        proof {
            lemma_to_map(self.entries@);
        }
        let mut i: usize = 0;
        while i < self.entries.len()
            invariant
                i <= self.entries@.len(),
                keys_unique(self.entries@),
                forall|j: int| 0 <= j < i ==> self.entries@[j].0 != symbol,
            decreases self.entries@.len() - i,
        {
            if self.entries[i].0 == symbol {
                proof {
                    lemma_to_map(self.entries@);
                    assert(self.entries@[i as int].0 == symbol);
                    assert(self@.contains_key(symbol));
                }
                return Some(self.entries[i].1);
            }
            i = i + 1;
        }
        proof {
            lemma_to_map(self.entries@);
        }
        None
    }

    /// Appends a binding for a symbol that is not bound yet.
    pub(crate) fn push_new(&mut self, symbol: char, value: bool)
        requires
            old(self).wf(),
            !old(self)@.contains_key(symbol),
        ensures
            final(self).wf(),
            final(self).entries() == old(self).entries().push((symbol, value)),
            final(self)@ == old(self)@.insert(symbol, value),
    {
        proof {
            lemma_to_map(self.entries@);
        }
        self.entries.push((symbol, value));
        proof {
            assert(self.entries@.drop_last() =~= old(self).entries@);
        }
    }

    /// Binds `symbol` to `value`, replacing an earlier binding of it in place.
    pub fn insert(&mut self, symbol: char, value: bool)
        requires
            old(self).wf(),
        ensures
            final(self).wf(),
            final(self)@ == old(self)@.insert(symbol, value),
    {
        proof {
            lemma_to_map(self.entries@);
        }
        let mut i: usize = 0;
        while i < self.entries.len()
            invariant
                i <= self.entries@.len(),
                self.entries@ == old(self).entries@,
                keys_unique(self.entries@),
                forall|j: int| 0 <= j < i ==> self.entries@[j].0 != symbol,
            decreases self.entries@.len() - i,
        {
            if self.entries[i].0 == symbol {
                let ghost before = self.entries@;
                self.entries.set(i, (symbol, value));
                proof {
                    let after = self.entries@;
                    lemma_to_map(after);
                    lemma_to_map(before);
                    assert(after[i as int].0 == before[i as int].0);
                    assert(forall|j: int| 0 <= j < after.len() && j != i ==> after[j] == before[j]);
                    assert(keys_unique(after));
                    assert forall|c: char| #[trigger] to_map(after).contains_key(c) == old(self)@.insert(
                        symbol,
                        value,
                    ).contains_key(c) by {
                        if c != symbol && to_map(before).contains_key(c) {
                            assert(to_map(before).contains_key(c));
                            let k = choose|k: int| 0 <= k < before.len() && #[trigger] before[k].0 == c;
                            assert(after[k].0 == c);
                        }
                        if to_map(after).contains_key(c) {
                            let k = choose|k: int| 0 <= k < after.len() && #[trigger] after[k].0 == c;
                            if k != i {
                                assert(before[k].0 == c);
                            }
                        }
                    }
                    assert forall|c: char| #[trigger] to_map(after).contains_key(c) implies to_map(after)[c]
                        == old(self)@.insert(symbol, value)[c] by {
                        let k = choose|k: int| 0 <= k < after.len() && #[trigger] after[k].0 == c;
                        if k != i {
                            assert(before[k] == after[k]);
                        }
                    }
                    assert(to_map(after) =~= old(self)@.insert(symbol, value));
                }
                return;
            }
            i = i + 1;
        }
        self.push_new(symbol, value);
    }
}

impl Default for Assignments {
    fn default() -> (r: Assignments)
        ensures
            r.wf(),
            r@ == Map::<char, bool>::empty(),
    {
        Assignments::new()
    }
}

} // verus!
