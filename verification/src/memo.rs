//! Memo of merge bases, keyed by unordered pairs of commits.
//!
//! A pair is stored under its canonical form, the later identifier first, so
//! that a question asked as `(a, b)` and as `(b, a)` finds the same answer and
//! the oracle behind the memo is consulted once per pair.

use crate::commit::{id_less, lemma_id_order, Commit};
use vstd::prelude::*;

verus! {

/// Canonical form of an unordered pair: the identifier that comes later in
/// byte order stands first.
pub open spec fn canonical(a: Seq<char>, b: Seq<char>) -> (Seq<char>, Seq<char>) {
    if id_less(a, b) {
        (b, a)
    } else {
        (a, b)
    }
}

/// Both orders of a pair have the same canonical form.
pub proof fn lemma_canonical_symmetric(a: Seq<char>, b: Seq<char>)
    ensures
        canonical(a, b) == canonical(b, a),
        !id_less(canonical(a, b).0, canonical(a, b).1),
{
    lemma_id_order(a, b);
}

/// One recorded answer: the merge base of the pair `(first, second)`.
pub struct MemoEntry {
    first: Commit,
    second: Commit,
    base: Commit,
}

impl MemoEntry {
    /// The pair that the answer belongs to.
    pub closed spec fn key(self) -> (Seq<char>, Seq<char>) {
        (self.first@, self.second@)
    }

    /// The recorded merge base.
    pub closed spec fn value(self) -> Seq<char> {
        self.base@
    }
}

/// The map that a sequence of recorded answers stands for.
pub open spec fn entries_map(entries: Seq<MemoEntry>) -> Map<(Seq<char>, Seq<char>), Seq<char>>
    decreases entries.len(),
{
    if entries.len() == 0 {
        Map::empty()
    } else {
        entries_map(entries.drop_last()).insert(entries.last().key(), entries.last().value())
    }
}

/// A key is in the map exactly when some entry holds it; where keys are
/// distinct, the entry's value is the map's.
pub proof fn lemma_entries_map(entries: Seq<MemoEntry>, key: (Seq<char>, Seq<char>))
    requires
        forall|i: int, j: int|
            0 <= i < j < entries.len() ==> (#[trigger] entries[i]).key() != (
            #[trigger] entries[j]).key(),
    ensures
        entries_map(entries).contains_key(key) <==> exists|i: int|
            0 <= i < entries.len() && (#[trigger] entries[i]).key() == key,
        forall|i: int|
            0 <= i < entries.len() && (#[trigger] entries[i]).key() == key ==> entries_map(
                entries,
            )[key] == entries[i].value(),
    decreases entries.len(),
{
    if entries.len() > 0 {
        let front = entries.drop_last();
        let last = entries.len() - 1;
        lemma_entries_map(front, key);
        if entries[last].key() == key {
            assert forall|i: int|
                0 <= i < entries.len() && (#[trigger] entries[i]).key() == key implies entries_map(
                entries,
            )[key] == entries[i].value() by {
                if i < last {
                    assert(entries[i].key() != entries[last].key());
                }
            }
        } else {
            if entries_map(front).contains_key(key) {
                let i = choose|i: int| 0 <= i < front.len() && (#[trigger] front[i]).key() == key;
                assert(entries[i].key() == key);
            }
            if exists|i: int| 0 <= i < entries.len() && (#[trigger] entries[i]).key() == key {
                let i = choose|i: int|
                    0 <= i < entries.len() && (#[trigger] entries[i]).key() == key;
                assert(front[i].key() == key);
            }
            assert forall|i: int|
                0 <= i < entries.len() && (#[trigger] entries[i]).key() == key implies entries_map(
                entries,
            )[key] == entries[i].value() by {
                assert(front[i].key() == key);
            }
        }
    }
}

/// Entries with distinct keys stand for a map with as many keys.
pub proof fn lemma_entries_count(entries: Seq<MemoEntry>)
    requires
        forall|i: int, j: int|
            0 <= i < j < entries.len() ==> (#[trigger] entries[i]).key() != (
            #[trigger] entries[j]).key(),
    ensures
        entries_map(entries).dom().finite(),
        entries_map(entries).dom().len() == entries.len(),
    decreases entries.len(),
{
    if entries.len() > 0 {
        let front = entries.drop_last();
        let last = entries.len() - 1;
        lemma_entries_count(front);
        lemma_entries_map(front, entries[last].key());
        if entries_map(front).contains_key(entries[last].key()) {
            let i = choose|i: int|
                0 <= i < front.len() && (#[trigger] front[i]).key() == entries[last].key();
            assert(entries[i].key() != entries[last].key());
        }
        assert(entries_map(entries).dom() =~= entries_map(front).dom().insert(
            entries[last].key(),
        ));
    }
}

/// The recorded merge bases of one run. Its view maps canonical pairs to
/// merge bases.
pub struct MergeBaseMemo {
    entries: Vec<MemoEntry>,
}

impl View for MergeBaseMemo {
    type V = Map<(Seq<char>, Seq<char>), Seq<char>>;

    closed spec fn view(&self) -> Map<(Seq<char>, Seq<char>), Seq<char>> {
        entries_map(self.entries@)
    }
}

impl MergeBaseMemo {
    /// Every key is canonical and no pair is recorded twice.
    pub closed spec fn wf(&self) -> bool {
        &&& forall|i: int|
            0 <= i < self.entries.len() ==> !id_less(
                (#[trigger] self.entries[i]).first@,
                self.entries[i].second@,
            )
        &&& forall|i: int, j: int|
            0 <= i < j < self.entries.len() ==> (#[trigger] self.entries[i]).key() != (
            #[trigger] self.entries[j]).key()
    }

    /// Number of recorded answers.
    pub closed spec fn count(&self) -> nat {
        self.entries.len() as nat
    }

    /// Every key of a well-formed memo is canonical.
    pub proof fn lemma_keys_canonical(&self)
        requires
            self.wf(),
        ensures
            forall|key: (Seq<char>, Seq<char>)| #[trigger]
                self@.contains_key(key) ==> !id_less(key.0, key.1),
    {
        assert forall|key: (Seq<char>, Seq<char>)| #[trigger]
            self@.contains_key(key) implies !id_less(key.0, key.1) by {
            lemma_entries_map(self.entries@, key);
            let i = choose|i: int|
                0 <= i < self.entries.len() && (#[trigger] self.entries[i]).key() == key;
            assert(!id_less(self.entries[i].first@, self.entries[i].second@));
        }
    }

    /// The recorded answers are as many as the pairs they are for.
    pub proof fn lemma_count(&self)
        requires
            self.wf(),
        ensures
            self@.dom().finite(),
            self@.dom().len() == self.count(),
    {
        lemma_entries_count(self.entries@);
    }

    /// An empty memo.
    pub fn new() -> (memo: MergeBaseMemo)
        ensures
            memo.wf(),
            memo@ == Map::<(Seq<char>, Seq<char>), Seq<char>>::empty(),
            memo.count() == 0,
    {
        MergeBaseMemo { entries: Vec::new() }
    }

    /// Number of answers recorded so far: one for each question that had to
    /// be put to the oracle.
    pub fn len(&self) -> (n: usize)
        ensures
            n == self.count(),
    {
        self.entries.len()
    }

    /// The pair in the order in which it is stored and put to the oracle.
    pub fn canonical_pair(a: &Commit, b: &Commit) -> (pair: (Commit, Commit))
        ensures
            (pair.0@, pair.1@) == canonical(a@, b@),
    {
        if a.precedes(b) {
            (b.clone(), a.clone())
        } else {
            (a.clone(), b.clone())
        }
    }

    /// The recorded merge base of `a` and `b`, asked in either order.
    pub fn merge_base(&self, a: &Commit, b: &Commit) -> (known: Option<Commit>)
        requires
            self.wf(),
        ensures
            known is Some <==> self@.contains_key(canonical(a@, b@)),
            known matches Some(base) ==> base@ == self@[canonical(a@, b@)],
    {
        let swap = a.precedes(b);
        let first = if swap { b } else { a };
        let second = if swap { a } else { b };
        let ghost key = canonical(a@, b@);
        let mut i: usize = 0;
        while i < self.entries.len()
            invariant
                i <= self.entries.len(),
                key == (first@, second@),
                key == canonical(a@, b@),
                self.wf(),
                forall|j: int| 0 <= j < i ==> (#[trigger] self.entries[j]).key() != key,
            decreases self.entries.len() - i,
        {
            let entry = &self.entries[i];
            if entry.first == *first && entry.second == *second {
                proof {
                    assert(self.entries[i as int].key() == key);
                    lemma_entries_map(self.entries@, key);
                }
                return Some(entry.base.clone());
            }
            i += 1;
        }
        proof {
            lemma_entries_map(self.entries@, key);
        }
        None
    }

    /// Records `base` as the merge base of `a` and `b`, unless the pair is
    /// known already: a recorded answer is never replaced. Returns whether the
    /// answer was new.
    pub fn record(&mut self, a: &Commit, b: &Commit, base: Commit) -> (fresh: bool)
        requires
            old(self).wf(),
        ensures
            final(self).wf(),
            fresh == !old(self)@.contains_key(canonical(a@, b@)),
            fresh ==> final(self)@ == old(self)@.insert(canonical(a@, b@), base@),
            fresh ==> final(self).count() == old(self).count() + 1,
            !fresh ==> final(self)@ == old(self)@ && final(self).count() == old(self).count(),
    {
        if self.merge_base(a, b).is_some() {
            return false;
        }
        let pair = Self::canonical_pair(a, b);
        let entry = MemoEntry { first: pair.0, second: pair.1, base };
        proof {
            lemma_canonical_symmetric(a@, b@);
            lemma_entries_map(self.entries@, canonical(a@, b@));
            assert(self.entries@.push(entry).drop_last() =~= self.entries@);
        }
        self.entries.push(entry);
        true
    }
}

} // verus!
