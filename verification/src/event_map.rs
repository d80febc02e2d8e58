//! The announced events of one switch: a map from moments to relay states
//! that is kept in the order of its keys.

use vstd::prelude::*;
use crate::timespec::Timespec;
use crate::tracker::Context;

verus! {

/// The keys of `s` rise strictly from one entry to the next.
pub open spec fn rising(s: Seq<(Timespec, Context)>) -> bool {
    forall|i: int, j: int| 0 <= i < j < s.len() ==> (#[trigger] s[i]).0.before((#[trigger] s[j]).0)
}

/// Some entry of `s` has the key `key`.
pub open spec fn has_key(s: Seq<(Timespec, Context)>, key: Timespec) -> bool {
    exists|i: int| 0 <= i < s.len() && (#[trigger] s[i]).0 == key
}

/// The map that the entries of `s` spell out.
pub open spec fn as_map(s: Seq<(Timespec, Context)>) -> Map<Timespec, Context> {
    Map::new(
        |k: Timespec| has_key(s, k),
        |k: Timespec| s[choose|i: int| 0 <= i < s.len() && (#[trigger] s[i]).0 == k].1,
    )
}

/// The moments that lie strictly after `ts`.
pub open spec fn later_than(ts: Timespec) -> Set<Timespec> {
    Set::new(|k: Timespec| ts.before(k))
}

/// In a rising sequence each entry is the one that the map holds for its key.
pub proof fn lemma_as_map(s: Seq<(Timespec, Context)>)
    requires
        rising(s),
    ensures
        forall|i: int|
            0 <= i < s.len() ==> as_map(s).contains_key((#[trigger] s[i]).0) && as_map(s)[s[i].0]
                == s[i].1,
        forall|k: Timespec| #[trigger] as_map(s).contains_key(k) <==> has_key(s, k),
{
    assert forall|i: int| 0 <= i < s.len() implies as_map(s).contains_key((#[trigger] s[i]).0)
        && as_map(s)[s[i].0] == s[i].1 by {
        let k = s[i].0;
        assert(has_key(s, k));
        let j = choose|j: int| 0 <= j < s.len() && (#[trigger] s[j]).0 == k;
        if j < i {
            assert(s[j].0.before(s[i].0));
        } else if i < j {
            assert(s[i].0.before(s[j].0));
        }
    }
}

/// A map from moments to relay states, listed in the order of the moments.
#[derive(Debug)]
pub struct EventMap {
    entries: Vec<(Timespec, Context)>,
}

impl View for EventMap {
    type V = Map<Timespec, Context>;

    closed spec fn view(&self) -> Map<Timespec, Context> {
        as_map(self.entries@)
    }
}

impl EventMap {
    /// The entries in the order of their keys.
    pub closed spec fn entries(&self) -> Seq<(Timespec, Context)> {
        self.entries@
    }

    #[verifier::type_invariant]
    spec fn ordered(self) -> bool {
        rising(self.entries@)
    }

    pub fn new() -> (m: EventMap)
        ensures
            m@ == Map::<Timespec, Context>::empty(),
    {
        let m = EventMap { entries: Vec::new() };
        assert(m@ =~= Map::<Timespec, Context>::empty());
        m
    }

    /// The index of the first entry whose key is not before `key`.
    fn position(&self, key: &Timespec) -> (p: usize)
        ensures
            p <= self.entries@.len(),
            forall|i: int| 0 <= i < p ==> (#[trigger] self.entries@[i]).0.before(*key),
            forall|i: int|
                p <= i < self.entries@.len() ==> key.not_after((#[trigger] self.entries@[i]).0),
    {
        proof {
            use_type_invariant(self);
        }
        let mut p: usize = 0;
        while p < self.entries.len() && self.entries[p].0.is_before(key)
            invariant
                p <= self.entries@.len(),
                forall|i: int| 0 <= i < p ==> (#[trigger] self.entries@[i]).0.before(*key),
            decreases self.entries@.len() - p,
        {
            p += 1;
        }
        assert forall|i: int| p <= i < self.entries@.len() implies key.not_after(
            (#[trigger] self.entries@[i]).0,
        ) by {
            if p < i {
                assert(self.entries@[p as int].0.before(self.entries@[i].0));
            }
        }
        p
    }

    pub fn len(&self) -> (n: usize)
        ensures
            n == self@.len(),
            self@.dom().finite(),
    {
        proof {
            use_type_invariant(self);
            lemma_len(self.entries@);
        }
        self.entries.len()
    }

    pub fn contains_key(&self, key: &Timespec) -> (found: bool)
        ensures
            found == self@.contains_key(*key),
    {
        proof {
            use_type_invariant(self);
            lemma_as_map(self.entries@);
        }
        let p = self.position(key);
        let found = p < self.entries.len() && self.entries[p].0 == *key;
        proof {
            if !found && has_key(self.entries@, *key) {
                let i = choose|i: int|
                    0 <= i < self.entries@.len() && (#[trigger] self.entries@[i]).0 == *key;
                if i < p {
                    assert(self.entries@[i].0.before(*key));
                } else if i > p {
                    assert(self.entries@[p as int].0.before(self.entries@[i].0));
                }
            }
        }
        found
    }

    /// The state announced for `key`, if there is one.
    pub fn get(&self, key: &Timespec) -> (value: Option<Context>)
        ensures
            value == (if self@.contains_key(*key) {
                Some(self@[*key])
            } else {
                None
            }),
    {
        proof {
            use_type_invariant(self);
            lemma_as_map(self.entries@);
        }
        if self.contains_key(key) {
            let p = self.position(key);
            proof {
                let i = choose|i: int|
                    0 <= i < self.entries@.len() && (#[trigger] self.entries@[i]).0 == *key;
                if i < p {
                    assert(self.entries@[i].0.before(*key));
                } else if i > p {
                    assert(self.entries@[p as int].0.before(self.entries@[i].0));
                }
            }
            Some(self.entries[p].1)
        } else {
            None
        }
    }

    /// Sets the state for `key`, in place of an earlier one for the same key.
    pub fn insert(&mut self, key: Timespec, value: Context)
        ensures
            final(self)@ == old(self)@.insert(key, value),
    {
        proof {
            use_type_invariant(&*self);
            lemma_as_map(self.entries@);
        }
        let p = self.position(&key);
        let ghost before = self.entries@;
        let mut entries: Vec<(Timespec, Context)> = Vec::new();
        std::mem::swap(&mut self.entries, &mut entries);
        if p < entries.len() && entries[p].0 == key {
            entries.set(p, (key, value));
            proof {
                let after = entries@;
                assert(rising(after)) by {
                    assert forall|i: int, j: int| 0 <= i < j < after.len() implies (
                    #[trigger] after[i]).0.before((#[trigger] after[j]).0) by {
                        assert(before[i].0.before(before[j].0));
                    }
                }
                lemma_as_map(after);
                assert forall|k: Timespec| has_key(after, k) <==> has_key(before, k) || k
                    == key by {
                    if has_key(after, k) {
                        let i = choose|i: int| 0 <= i < after.len() && (#[trigger] after[i]).0 == k;
                        assert(before[i].0 == k);
                    }
                    if has_key(before, k) {
                        let i = choose|i: int|
                            0 <= i < before.len() && (#[trigger] before[i]).0 == k;
                        assert(after[i].0 == k);
                    }
                }
                assert forall|k: Timespec| #[trigger] has_key(after, k) implies as_map(after)[k]
                    == as_map(before).insert(key, value)[k] by {
                    let i = choose|i: int| 0 <= i < after.len() && (#[trigger] after[i]).0 == k;
                    assert(as_map(after)[after[i].0] == after[i].1);
                    if k != key {
                        assert(before[i] == after[i]);
                        assert(as_map(before)[before[i].0] == before[i].1);
                    }
                }
                assert(as_map(after) =~= as_map(before).insert(key, value));
            }
        } else {
            entries.insert(p, (key, value));
            proof {
                let after = entries@;
                assert(rising(after)) by {
                    assert forall|i: int, j: int| 0 <= i < j < after.len() implies (
                    #[trigger] after[i]).0.before((#[trigger] after[j]).0) by {
                        if j < p {
                            assert(before[i].0.before(before[j].0));
                        } else if j == p {
                            assert(before[i].0.before(key));
                        } else if i < p {
                            assert(before[i].0.before(before[j - 1].0));
                        } else if i == p {
                            assert(key.not_after(before[j - 1].0));
                        } else {
                            assert(before[i - 1].0.before(before[j - 1].0));
                        }
                    }
                }
                lemma_as_map(after);
                assert forall|k: Timespec| has_key(after, k) <==> has_key(before, k) || k
                    == key by {
                    if has_key(after, k) {
                        let i = choose|i: int| 0 <= i < after.len() && (#[trigger] after[i]).0 == k;
                        if i < p {
                            assert(before[i].0 == k);
                        } else if i > p {
                            assert(before[i - 1].0 == k);
                        }
                    }
                    if has_key(before, k) {
                        let i = choose|i: int|
                            0 <= i < before.len() && (#[trigger] before[i]).0 == k;
                        if i < p {
                            assert(after[i].0 == k);
                        } else {
                            assert(after[i + 1].0 == k);
                        }
                    }
                    if k == key {
                        assert(after[p as int].0 == k);
                    }
                }
                assert forall|k: Timespec| #[trigger] has_key(after, k) implies as_map(after)[k]
                    == as_map(before).insert(key, value)[k] by {
                    let i = choose|i: int| 0 <= i < after.len() && (#[trigger] after[i]).0 == k;
                    assert(as_map(after)[after[i].0] == after[i].1);
                    if i < p {
                        assert(before[i] == after[i]);
                        assert(as_map(before)[before[i].0] == before[i].1);
                    } else if i > p {
                        assert(before[i - 1] == after[i]);
                        assert(as_map(before)[before[i - 1].0] == before[i - 1].1);
                    }
                }
                assert(as_map(after) =~= as_map(before).insert(key, value));
            }
        }
        self.entries = entries;
    }

    /// Drops every entry whose key is `ts` or earlier.
    pub fn remove_through(&mut self, ts: &Timespec)
        ensures
            final(self)@ == old(self)@.restrict(later_than(*ts)),
    {
        proof {
            use_type_invariant(&*self);
            lemma_as_map(self.entries@);
        }
        let ghost before = self.entries@;
        let mut p: usize = 0;
        while p < self.entries.len() && self.entries[p].0.is_not_after(ts)
            invariant
                self.entries@ == before,
                p <= before.len(),
                forall|i: int| 0 <= i < p ==> (#[trigger] before[i]).0.not_after(*ts),
            decreases before.len() - p,
        {
            p += 1;
        }
        let mut kept: Vec<(Timespec, Context)> = Vec::new();
        let mut i: usize = p;
        while i < self.entries.len()
            invariant
                self.entries@ == before,
                p <= i <= before.len(),
                kept@ == before.subrange(p as int, i as int),
            decreases before.len() - i,
        {
            kept.push(self.entries[i]);
            i += 1;
            assert(kept@ =~= before.subrange(p as int, i as int));
        }
        proof {
            let after = kept@;
            assert(after =~= before.skip(p as int));
            assert forall|j: int| p <= j < before.len() implies ts.before((#[trigger] before[j]).0) by {
                if p < j {
                    assert(before[p as int].0.before(before[j].0));
                }
            }
            assert(rising(after)) by {
                assert forall|a: int, b: int| 0 <= a < b < after.len() implies (
                #[trigger] after[a]).0.before((#[trigger] after[b]).0) by {
                    assert(before[a + p].0.before(before[b + p].0));
                }
            }
            lemma_as_map(after);
            assert forall|k: Timespec| has_key(after, k) <==> has_key(before, k) && ts.before(
                k,
            ) by {
                if has_key(after, k) {
                    let a = choose|a: int| 0 <= a < after.len() && (#[trigger] after[a]).0 == k;
                    assert(before[a + p].0 == k);
                }
                if has_key(before, k) && ts.before(k) {
                    let b = choose|b: int| 0 <= b < before.len() && (#[trigger] before[b]).0 == k;
                    if b < p {
                        assert(before[b].0.not_after(*ts));
                    }
                    assert(after[b - p].0 == k);
                }
            }
            assert forall|k: Timespec| #[trigger] has_key(after, k) implies as_map(after)[k]
                == as_map(before)[k] by {
                let a = choose|a: int| 0 <= a < after.len() && (#[trigger] after[a]).0 == k;
                assert(as_map(after)[after[a].0] == after[a].1);
                assert(before[a + p] == after[a]);
                assert(as_map(before)[before[a + p].0] == before[a + p].1);
            }
            assert(as_map(after) =~= as_map(before).restrict(later_than(*ts)));
        }
        self.entries = kept;
    }

    /// The entries in the order of their keys.
    pub fn to_vec(&self) -> (list: Vec<(Timespec, Context)>)
        ensures
            list@ == self.entries(),
            rising(list@),
            as_map(list@) == self@,
            list@.len() == self@.len(),
    {
        proof {
            use_type_invariant(self);
            lemma_len(self.entries@);
        }
        let mut list: Vec<(Timespec, Context)> = Vec::new();
        let mut i: usize = 0;
        while i < self.entries.len()
            invariant
                i <= self.entries@.len(),
                list@ == self.entries@.take(i as int),
            decreases self.entries@.len() - i,
        {
            list.push(self.entries[i]);
            i += 1;
            assert(list@ =~= self.entries@.take(i as int));
        }
        assert(list@ =~= self.entries@);
        list
    }

    /// A copy with the same entries.
    pub fn duplicate(&self) -> (copy: EventMap)
        ensures
            copy@ == self@,
    {
        let list = self.to_vec();
        EventMap { entries: list }
    }
}

/// A rising sequence spells out a map with one key for each entry.
pub proof fn lemma_len(s: Seq<(Timespec, Context)>)
    requires
        rising(s),
    ensures
        as_map(s).dom().finite(),
        as_map(s).len() == s.len(),
    decreases s.len(),
{
    if s.len() == 0 {
        assert(as_map(s) =~= Map::<Timespec, Context>::empty());
    } else {
        let head = s.drop_last();
        let last = s.last();
        assert(rising(head)) by {
            assert forall|i: int, j: int| 0 <= i < j < head.len() implies (#[trigger] head[i]).0.before(
                (#[trigger] head[j]).0,
            ) by {
                assert(s[i].0.before(s[j].0));
            }
        }
        lemma_len(head);
        lemma_as_map(s);
        lemma_as_map(head);
        assert(!has_key(head, last.0)) by {
            if has_key(head, last.0) {
                let i = choose|i: int| 0 <= i < head.len() && (#[trigger] head[i]).0 == last.0;
                assert(s[i].0.before(s[s.len() - 1].0));
            }
        }
        assert forall|k: Timespec| has_key(s, k) <==> has_key(head, k) || k == last.0 by {
            if has_key(s, k) {
                let i = choose|i: int| 0 <= i < s.len() && (#[trigger] s[i]).0 == k;
                if i < head.len() {
                    assert(head[i].0 == k);
                }
            }
            if has_key(head, k) {
                let i = choose|i: int| 0 <= i < head.len() && (#[trigger] head[i]).0 == k;
                assert(s[i].0 == k);
            }
            if k == last.0 {
                assert(s[s.len() - 1].0 == k);
            }
        }
        assert(as_map(s).dom() =~= as_map(head).dom().insert(last.0));
    }
}

} // verus!
