//! The source facts behind temporary inline atoms.

use vstd::prelude::*;

use crate::chars::str_same;
use crate::types::{TextItem, TextItemId};

verus! {

/// The source facts of one atom.
#[derive(Debug)]
pub struct Entry {
    pub id: TextItemId,
    pub items: Vec<TextItem>,
}

/// Source facts by the identity of the atom that stands for them.
#[derive(Debug)]
pub struct Originals {
    entries: Vec<Entry>,
}

/// Position of the first entry for `id`, from `i` on.
pub open spec fn entry_from(entries: Seq<Entry>, i: int, id: Seq<char>) -> Option<int>
    decreases entries.len() - i,
{
    if i >= entries.len() || i < 0 {
        None
    } else if entries[i].id@ == id {
        Some(i)
    } else {
        entry_from(entries, i + 1, id)
    }
}

/// Whether no two entries share an identity.
pub open spec fn no_repeats(entries: Seq<Entry>) -> bool {
    forall|i: int, j: int|
        #![trigger entries[i], entries[j]]
        0 <= i < j < entries.len() ==> entries[i].id@ != entries[j].id@
}

impl View for Originals {
    type V = Map<Seq<char>, Seq<TextItem>>;

    closed spec fn view(&self) -> Map<Seq<char>, Seq<TextItem>> {
        Map::new(
            |id: Seq<char>| entry_from(self.entries@, 0, id) is Some,
            |id: Seq<char>| self.entries@[entry_from(self.entries@, 0, id)->0].items@,
        )
    }
}

/// An entry found is the one asked for, and none before it is.
proof fn lemma_entry_from(entries: Seq<Entry>, i: int, id: Seq<char>)
    requires
        0 <= i,
    ensures
        entry_from(entries, i, id) matches Some(at) ==> i <= at < entries.len() && entries[at].id@
            == id,
        entry_from(entries, i, id) is None ==> forall|k: int|
            i <= k < entries.len() ==> (#[trigger] entries[k]).id@ != id,
        forall|k: int|
            i <= k < entries.len() && (#[trigger] entries[k]).id@ == id ==> (entry_from(
                entries,
                i,
                id,
            ) is Some),
    decreases entries.len() - i,
{
    if i < entries.len() && entries[i].id@ != id {
        lemma_entry_from(entries, i + 1, id);
    }
}

/// Without repeats, an entry with the identity is the one found.
proof fn lemma_entry_at(entries: Seq<Entry>, at: int)
    requires
        no_repeats(entries),
        0 <= at < entries.len(),
    ensures
        entry_from(entries, 0, entries[at].id@) == Some(at),
{
    lemma_entry_from(entries, 0, entries[at].id@);
}

impl Originals {
    /// Whether no two entries share an identity.
    pub closed spec fn wf(&self) -> bool {
        no_repeats(self.entries@)
    }

    /// No facts.
    pub fn new() -> (originals: Originals)
        ensures
            originals.wf(),
            originals@ == Map::<Seq<char>, Seq<TextItem>>::empty(),
    {
        let originals: Originals = Originals { entries: Vec::new() };
        assert(originals@ =~= Map::<Seq<char>, Seq<TextItem>>::empty());
        originals
    }

    /// Position of the entry for `id`.
    fn find(&self, id: &TextItemId) -> (found: Option<usize>)
        ensures
            match found {
                None => entry_from(self.entries@, 0, id@) is None,
                Some(at) => entry_from(self.entries@, 0, id@) == Some(at as int) && at
                    < self.entries@.len(),
            },
    {
        let mut i: usize = 0;
        while i < self.entries.len()
            invariant
                i <= self.entries@.len(),
                entry_from(self.entries@, 0, id@) == entry_from(self.entries@, i as int, id@),
            decreases self.entries@.len() - i,
        {
            if str_same(self.entries[i].id.as_str(), id.as_str()) {
                return Some(i);
            }
            i = i + 1;
        }
        None
    }

    /// Whether there are facts for `id`.
    pub fn contains(&self, id: &TextItemId) -> (yes: bool)
        ensures
            yes == self@.contains_key(id@),
    {
        self.find(id).is_some()
    }

    /// Records the facts for `id` in place of any earlier ones.
    pub fn insert(&mut self, id: TextItemId, items: Vec<TextItem>)
        requires
            old(self).wf(),
        ensures
            final(self).wf(),
            final(self)@ == old(self)@.insert(id@, items@),
    {
        let ghost before = self.entries@;
        let ghost key = id@;
        match self.find(&id) {
            Some(at) => {
                self.entries.set(at, Entry { id, items });
                proof {
                    lemma_entry_from(before, 0, key);
                    let after = self.entries@;
                    assert forall|k: Seq<char>| entry_from(after, 0, k) == #[trigger] entry_from(
                        before,
                        0,
                        k,
                    ) by {
                        lemma_entry_from(before, 0, k);
                        lemma_entry_from(after, 0, k);
                        if entry_from(before, 0, k) is Some {
                            let p = entry_from(before, 0, k)->0;
                            assert(after[p].id@ == k);
                            lemma_entry_at(after, p);
                        } else if entry_from(after, 0, k) is Some {
                            let p = entry_from(after, 0, k)->0;
                            assert(before[p].id@ == k);
                        }
                    }
                    assert forall|k: Seq<char>|
                        k != key && #[trigger] entry_from(before, 0, k) is Some implies after[entry_from(
                        before,
                        0,
                        k,
                    )->0] == before[entry_from(before, 0, k)->0] by {
                        lemma_entry_from(before, 0, k);
                    }
                    assert(self@ =~= old(self)@.insert(key, items@));
                }
            },
            None => {
                self.entries.push(Entry { id, items });
                proof {
                    lemma_entry_from(before, 0, key);
                    let after = self.entries@;
                    assert(no_repeats(after));
                    assert forall|k: Seq<char>| k != key implies entry_from(after, 0, k)
                        == #[trigger] entry_from(before, 0, k) by {
                        lemma_entry_from(before, 0, k);
                        lemma_entry_from(after, 0, k);
                        if entry_from(before, 0, k) is Some {
                            let p = entry_from(before, 0, k)->0;
                            assert(after[p].id@ == k);
                            lemma_entry_at(after, p);
                        } else if entry_from(after, 0, k) is Some {
                            let p = entry_from(after, 0, k)->0;
                            assert(before[p].id@ == k);
                        }
                    }
                    lemma_entry_at(after, before.len() as int);
                    assert forall|k: Seq<char>|
                        k != key && #[trigger] entry_from(before, 0, k) is Some implies after[entry_from(
                        before,
                        0,
                        k,
                    )->0] == before[entry_from(before, 0, k)->0] by {
                        lemma_entry_from(before, 0, k);
                    }
                    assert(self@ =~= old(self)@.insert(key, items@));
                }
            },
        }
    }

    /// Takes the facts for `id` out.
    pub fn remove(&mut self, id: &TextItemId) -> (items: Option<Vec<TextItem>>)
        requires
            old(self).wf(),
        ensures
            final(self).wf(),
            final(self)@ == old(self)@.remove(id@),
            match items {
                None => !old(self)@.contains_key(id@),
                Some(list) => old(self)@.contains_key(id@) && list@ == old(self)@[id@],
            },
    {
        let ghost before = self.entries@;
        let ghost key = id@;
        match self.find(id) {
            None => {
                assert(self@ =~= old(self)@.remove(key));
                None
            },
            Some(at) => {
                let entry: Entry = self.entries.remove(at);
                proof {
                    lemma_entry_from(before, 0, key);
                    let after = self.entries@;
                    assert forall|k: Seq<char>| k != key implies (entry_from(after, 0, k) is Some)
                        == (#[trigger] entry_from(before, 0, k) is Some) && (entry_from(
                        before,
                        0,
                        k,
                    ) is Some ==> after[entry_from(after, 0, k)->0] == before[entry_from(
                        before,
                        0,
                        k,
                    )->0]) by {
                        lemma_entry_from(before, 0, k);
                        lemma_entry_from(after, 0, k);
                        if entry_from(before, 0, k) is Some {
                            let p = entry_from(before, 0, k)->0;
                            let q = if p < at {
                                p
                            } else {
                                p - 1
                            };
                            assert(after[q] == before[p]);
                            lemma_entry_at(after, q);
                        } else if entry_from(after, 0, k) is Some {
                            let q = entry_from(after, 0, k)->0;
                            let p = if q < at {
                                q
                            } else {
                                q + 1
                            };
                            assert(before[p] == after[q]);
                        }
                    }
                    lemma_entry_from(after, 0, key);
                    assert(entry_from(after, 0, key) is None) by {
                        if entry_from(after, 0, key) is Some {
                            let q = entry_from(after, 0, key)->0;
                            let p = if q < at {
                                q
                            } else {
                                q + 1
                            };
                            assert(before[p] == after[q]);
                            assert(before[at as int].id@ == key);
                        }
                    }
                    assert(self@ =~= old(self)@.remove(key));
                }
                Some(entry.items)
            },
        }
    }
}

} // verus!
