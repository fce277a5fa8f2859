use vstd::prelude::*;
use crate::board::BitboardState;

verus! {

/// How many times each position has occurred in the game, for the repetition rules.
pub struct PositionCounts {
    entries: Vec<(BitboardState, usize)>,
}

/// The map that a list of (position, count) entries describes.
pub open spec fn entries_map(es: Seq<(BitboardState, usize)>) -> Map<BitboardState, nat>
    decreases es.len(),
{
    if es.len() == 0 {
        Map::empty()
    } else {
        entries_map(es.drop_last()).insert(es.last().0, es.last().1 as nat)
    }
}

/// No position is listed twice and every listed count is at least one.
pub open spec fn entries_wf(es: Seq<(BitboardState, usize)>) -> bool {
    &&& forall|i: int, j: int| 0 <= i < j < es.len() ==> (#[trigger] es[i]).0 != (#[trigger] es[j]).0
    &&& forall|i: int| 0 <= i < es.len() ==> (#[trigger] es[i]).1 >= 1
}

proof fn lemma_entries_map(es: Seq<(BitboardState, usize)>)
    requires
        entries_wf(es),
    ensures
        forall|k: BitboardState|
            #[trigger] entries_map(es).dom().contains(k) <==> exists|i: int|
                0 <= i < es.len() && es[i].0 == k,
        forall|i: int|
            0 <= i < es.len() ==> entries_map(es)[(#[trigger] es[i]).0] == es[i].1 as nat,
        forall|k: BitboardState| #[trigger] entries_map(es).dom().contains(k) ==> entries_map(es)[k] >= 1,
    decreases es.len(),
{
    if es.len() > 0 {
        let rest = es.drop_last();
        assert(entries_wf(rest)) by {
            assert forall|i: int, j: int| 0 <= i < j < rest.len() implies (#[trigger] rest[i]).0
                != (#[trigger] rest[j]).0 by {
                assert(rest[i] == es[i] && rest[j] == es[j]);
            }
            assert forall|i: int| 0 <= i < rest.len() implies (#[trigger] rest[i]).1 >= 1 by {
                assert(rest[i] == es[i]);
            }
        }
        lemma_entries_map(rest);
        let last = es.len() - 1;
        assert forall|k: BitboardState| #[trigger] entries_map(es).dom().contains(k) <==> exists|i: int|
            0 <= i < es.len() && es[i].0 == k by {
            if entries_map(es).dom().contains(k) {
                if k == es[last].0 {
                } else {
                    assert(entries_map(rest).dom().contains(k));
                    let i = choose|i: int| 0 <= i < rest.len() && rest[i].0 == k;
                    assert(es[i] == rest[i]);
                }
            }
            if exists|i: int| 0 <= i < es.len() && es[i].0 == k {
                let i = choose|i: int| 0 <= i < es.len() && es[i].0 == k;
                if i < last {
                    assert(rest[i] == es[i]);
                }
            }
        }
        assert forall|i: int| 0 <= i < es.len() implies entries_map(es)[(#[trigger] es[i]).0]
            == es[i].1 as nat by {
            if i < last {
                assert(rest[i] == es[i]);
                assert(es[i].0 != es[last].0);
            }
        }
    }
}

impl PositionCounts {
    /// The count of every position (positions not listed are absent).
    pub closed spec fn view(&self) -> Map<BitboardState, nat> {
        entries_map(self.entries@)
    }

    pub closed spec fn wf(&self) -> bool {
        entries_wf(self.entries@)
    }

    /// The count of a position, zero when absent.
    pub open spec fn count(&self, s: BitboardState) -> nat {
        if self@.dom().contains(s) {
            self@[s]
        } else {
            0
        }
    }

    pub proof fn lemma_wf(&self)
        requires
            self.wf(),
        ensures
            self@.dom().finite(),
            forall|k: BitboardState| #[trigger] self@.dom().contains(k) ==> self@[k] >= 1,
    {
        lemma_entries_map(self.entries@);
        self.lemma_finite();
    }

    proof fn lemma_finite(&self)
        ensures
            self@.dom().finite(),
    {
        lemma_entries_finite(self.entries@);
    }

    /// No position counted.
    pub fn new() -> (r: Self)
        ensures
            r.wf(),
            r@ == Map::<BitboardState, nat>::empty(),
    {
        PositionCounts { entries: Vec::new() }
    }

    /// Whether every count is below `usize::MAX`, so that one more occurrence can be counted.
    pub fn all_below_max(&self) -> (r: bool)
        requires
            self.wf(),
        ensures
            r == forall|k: BitboardState| #[trigger] self@.dom().contains(k) ==> self@[k] < usize::MAX,
    {
        proof {
            lemma_entries_map(self.entries@);
        }
        let mut i: usize = 0;
        while i < self.entries.len()
            invariant
                0 <= i <= self.entries@.len(),
                entries_wf(self.entries@),
                forall|j: int| 0 <= j < i ==> self.entries@[j].1 < usize::MAX,
            decreases self.entries.len() - i,
        {
            if self.entries[i].1 == usize::MAX {
                proof {
                    lemma_entries_map(self.entries@);
                }
                assert(self.entries@[i as int].1 == usize::MAX);
                assert(self@.dom().contains(self.entries@[i as int].0));
                return false;
            }
            i = i + 1;
        }
        assert forall|k: BitboardState| #[trigger] self@.dom().contains(k) implies self@[k] < usize::MAX by {
            let j = choose|j: int| 0 <= j < self.entries@.len() && self.entries@[j].0 == k;
            assert(self@[self.entries@[j].0] == self.entries@[j].1);
        }
        true
    }

    /// Forgets every count.
    pub fn clear(&mut self)
        ensures
            final(self).wf(),
            final(self)@ == Map::<BitboardState, nat>::empty(),
    {
        self.entries.clear();
    }

    fn find(&self, s: &BitboardState) -> (r: Option<usize>)
        requires
            self.wf(),
        ensures
            match r {
                Some(i) => i < self.entries@.len() && self.entries@[i as int].0 == *s,
                None => forall|i: int| 0 <= i < self.entries@.len() ==> self.entries@[i].0 != *s,
            },
    {
        let mut i: usize = 0;
        while i < self.entries.len()
            invariant
                0 <= i <= self.entries@.len(),
                forall|j: int| 0 <= j < i ==> self.entries@[j].0 != *s,
            decreases self.entries.len() - i,
        {
            if self.entries[i].0 == *s {
                return Some(i);
            }
            i = i + 1;
        }
        None
    }

    /// The count of `s`, when it has occurred.
    pub fn get(&self, s: &BitboardState) -> (r: Option<usize>)
        requires
            self.wf(),
        ensures
            match r {
                Some(c) => self@.dom().contains(*s) && self@[*s] == c && c >= 1,
                None => !self@.dom().contains(*s),
            },
    {
        proof {
            lemma_entries_map(self.entries@);
        }
        match self.find(s) {
            Some(i) => Some(self.entries[i].1),
            None => None,
        }
    }

    /// Sets the count of `s` to `n` (at least one).
    pub fn insert(&mut self, s: BitboardState, n: usize)
        requires
            old(self).wf(),
            n >= 1,
        ensures
            final(self).wf(),
            final(self)@ == old(self)@.insert(s, n as nat),
    {
        proof {
            lemma_entries_map(self.entries@);
        }
        match self.find(&s) {
            Some(i) => {
                let ghost before = self.entries@;
                self.entries.set(i, (s, n));
                proof {
                    lemma_entries_map(self.entries@);
                    assert(entries_wf(self.entries@)) by {
                        assert forall|a: int, b: int| 0 <= a < b < self.entries@.len() implies (
                        #[trigger] self.entries@[a]).0 != (#[trigger] self.entries@[b]).0 by {
                            assert(before[a].0 != before[b].0);
                        }
                    }
                    lemma_entries_map(self.entries@);
                    assert(entries_map(self.entries@) =~= entries_map(before).insert(s, n as nat))
                        by {
                        assert forall|k: BitboardState| #[trigger] entries_map(self.entries@).dom().contains(k)
                            <==> entries_map(before).insert(s, n as nat).dom().contains(k) by {
                            assert(self.entries@[i as int].0 == s);
                            if k != s && entries_map(before).dom().contains(k) {
                                let j = choose|j: int| 0 <= j < before.len() && before[j].0 == k;
                                assert(self.entries@[j] == before[j]);
                            }
                            if entries_map(self.entries@).dom().contains(k) && k != s {
                                let j = choose|j: int| 0 <= j < self.entries@.len() && self.entries@[j].0 == k;
                                assert(self.entries@[j] == before[j]);
                            }
                        }
                        assert forall|k: BitboardState| #[trigger] entries_map(self.entries@).dom().contains(k)
                            implies entries_map(self.entries@)[k] == entries_map(before).insert(s, n as nat)[k] by {
                            let j = choose|j: int| 0 <= j < self.entries@.len() && self.entries@[j].0 == k;
                            if k != s {
                                assert(self.entries@[j] == before[j]);
                            }
                        }
                    }
                }
            },
            None => {
                let ghost before = self.entries@;
                self.entries.push((s, n));
                proof {
                    assert(self.entries@.drop_last() =~= before);
                    assert(entries_wf(self.entries@)) by {
                        assert forall|a: int, b: int| 0 <= a < b < self.entries@.len() implies (
                        #[trigger] self.entries@[a]).0 != (#[trigger] self.entries@[b]).0 by {
                            if b < before.len() {
                                assert(before[a].0 != before[b].0);
                            } else {
                                assert(self.entries@[a] == before[a]);
                            }
                        }
                        assert forall|a: int| 0 <= a < self.entries@.len() implies (
                        #[trigger] self.entries@[a]).1 >= 1 by {
                            if a < before.len() {
                                assert(self.entries@[a] == before[a]);
                            }
                        }
                    }
                }
            },
        }
    }

    /// Adds one to the count of `s` (which starts at zero).
    pub fn increment(&mut self, s: BitboardState)
        requires
            old(self).wf(),
            old(self).count(s) < usize::MAX,
        ensures
            final(self).wf(),
            final(self)@ == old(self)@.insert(s, old(self).count(s) + 1),
    {
        let n = match self.get(&s) {
            Some(c) => c + 1,
            None => 1,
        };
        self.insert(s, n);
    }

    /// Takes one from the count of `s`, forgetting `s` when it reaches zero; nothing when `s`
    /// has not occurred.
    pub fn decrement(&mut self, s: BitboardState)
        requires
            old(self).wf(),
        ensures
            final(self).wf(),
            final(self)@ == (if !old(self)@.dom().contains(s) {
                old(self)@
            } else if old(self)@[s] == 1 {
                old(self)@.remove(s)
            } else {
                old(self)@.insert(s, (old(self)@[s] - 1) as nat)
            }),
    {
        proof {
            lemma_entries_map(self.entries@);
        }
        match self.find(&s) {
            None => {},
            Some(i) => {
                let c = self.entries[i].1;
                if c > 1 {
                    self.insert(s, c - 1);
                } else {
                    let ghost before = self.entries@;
                    self.entries.remove(i);
                    proof {
                        assert(entries_wf(self.entries@)) by {
                            assert forall|a: int, b: int| 0 <= a < b < self.entries@.len() implies (
                            #[trigger] self.entries@[a]).0 != (#[trigger] self.entries@[b]).0 by {
                                let a0 = if a < i { a } else { a + 1 };
                                let b0 = if b < i { b } else { b + 1 };
                                assert(self.entries@[a] == before[a0]);
                                assert(self.entries@[b] == before[b0]);
                            }
                            assert forall|a: int| 0 <= a < self.entries@.len() implies (
                            #[trigger] self.entries@[a]).1 >= 1 by {
                                let a0 = if a < i { a } else { a + 1 };
                                assert(self.entries@[a] == before[a0]);
                            }
                        }
                        lemma_entries_map(self.entries@);
                        lemma_entries_map(before);
                        assert(entries_map(self.entries@) =~= entries_map(before).remove(s)) by {
                            assert forall|k: BitboardState| #[trigger] entries_map(self.entries@).dom().contains(k)
                                <==> entries_map(before).remove(s).dom().contains(k) by {
                                if entries_map(self.entries@).dom().contains(k) {
                                    let j = choose|j: int| 0 <= j < self.entries@.len() && self.entries@[j].0 == k;
                                    let j0 = if j < i { j } else { j + 1 };
                                    assert(self.entries@[j] == before[j0]);
                                }
                                if entries_map(before).remove(s).dom().contains(k) {
                                    let j = choose|j: int| 0 <= j < before.len() && before[j].0 == k;
                                    assert(j != i);
                                    let j1 = if j < i { j } else { j - 1 };
                                    assert(self.entries@[j1] == before[j]);
                                }
                            }
                            assert forall|k: BitboardState| #[trigger] entries_map(self.entries@).dom().contains(k)
                                implies entries_map(self.entries@)[k] == entries_map(before).remove(s)[k] by {
                                let j = choose|j: int| 0 <= j < self.entries@.len() && self.entries@[j].0 == k;
                                let j0 = if j < i { j } else { j + 1 };
                                assert(self.entries@[j] == before[j0]);
                            }
                        }
                    }
                }
            },
        }
    }
}

proof fn lemma_entries_finite(es: Seq<(BitboardState, usize)>)
    ensures
        entries_map(es).dom().finite(),
    decreases es.len(),
{
    if es.len() > 0 {
        lemma_entries_finite(es.drop_last());
    }
}

} // verus!
