//! The mapping from keys to values that a text buffer parses to.

use crate::model::{mapping_of, EntryView, ValueView};
use crate::value::Value;
use vstd::prelude::*;
use vstd::string::*;

verus! {

/// Tests whether two strings are made of the same bytes.
pub fn same_text(a: &str, b: &str) -> (r: bool)
    ensures
        r == (a.spec_bytes() == b.spec_bytes()),
{
    let x = a.as_bytes();
    let y = b.as_bytes();
    if x.len() != y.len() {
        return false;
    }
    let mut i: usize = 0;
    while i < x.len()
        invariant
            i <= x.len(),
            x@ == a.spec_bytes(),
            y@ == b.spec_bytes(),
            x@.len() == y@.len(),
            forall|j: int| 0 <= j < i ==> x@[j] == y@[j],
        decreases x.len() - i,
    {
        if x[i] != y[i] {
            return false;
        }
        i = i + 1;
    }
    assert(x@ =~= y@);
    true
}

/// The key and the payload of one stored entry, as mathematics.
pub open spec fn entry_view<'a>(entry: (&'a str, Value<'a>)) -> EntryView {
    (entry.0.spec_bytes(), entry.1@)
}

/// The views of a list of entries, in order.
pub open spec fn entry_views<'a>(entries: Seq<(&'a str, Value<'a>)>) -> Seq<EntryView> {
    Seq::new(entries.len(), |i: int| entry_view(entries[i]))
}

/// No key occurs twice in `entries`.
pub open spec fn distinct_keys(entries: Seq<EntryView>) -> bool {
    forall|i: int, j: int|
        0 <= i < entries.len() && 0 <= j < entries.len() && i != j ==> (#[trigger] entries[i]).0
            != (#[trigger] entries[j]).0
}

/// Where `key` stands in `entries`, if it does.
pub open spec fn has_key(entries: Seq<EntryView>, key: Seq<u8>) -> bool {
    exists|i: int| 0 <= i < entries.len() && (#[trigger] entries[i]).0 == key
}

/// The index at which `key` stands in `entries`, where it does.
pub open spec fn index_of(entries: Seq<EntryView>, key: Seq<u8>) -> int {
    choose|i: int| 0 <= i < entries.len() && (#[trigger] entries[i]).0 == key
}

/// `entries` after `entry` was stored: in place of the entry with its key
/// if there is one, else at the end.
pub open spec fn store(entries: Seq<EntryView>, entry: EntryView) -> Seq<EntryView> {
    if has_key(entries, entry.0) {
        entries.update(index_of(entries, entry.0), entry)
    } else {
        entries.push(entry)
    }
}

/// What a mapping holds after `entries` were stored in it one by one: for
/// each key its last payload, at the place where the key first came.
pub open spec fn stored(entries: Seq<EntryView>) -> Seq<EntryView>
    decreases entries.len(),
{
    if entries.len() == 0 {
        Seq::empty()
    } else {
        store(stored(entries.drop_last()), entries.last())
    }
}

/// Where keys are distinct, the mapping has as many keys as there are
/// entries.
pub proof fn lemma_mapping_len(entries: Seq<EntryView>)
    requires
        distinct_keys(entries),
    ensures
        mapping_of(entries).dom().finite(),
        mapping_of(entries).len() == entries.len(),
    decreases entries.len(),
{
    if entries.len() > 0 {
        let front = entries.drop_last();
        assert(distinct_keys(front)) by {
            assert forall|a: int, b: int|
                0 <= a < front.len() && 0 <= b < front.len() && a != b implies (#[trigger] front[a]).0
                != (#[trigger] front[b]).0 by {
                assert(entries[a].0 != entries[b].0);
            }
        }
        lemma_mapping_len(front);
        lemma_mapping_domain(front, entries.last().0);
        if has_key(front, entries.last().0) {
            let i = choose|i: int| 0 <= i < front.len() && (#[trigger] front[i]).0
                == entries.last().0;
            assert(entries[i].0 == entries[entries.len() - 1].0);
        }
        assert(mapping_of(entries).dom() =~= mapping_of(front).dom().insert(entries.last().0));
    }
}

/// The mapping of a list of entries holds exactly the keys of the list.
pub proof fn lemma_mapping_domain(entries: Seq<EntryView>, key: Seq<u8>)
    ensures
        mapping_of(entries).contains_key(key) <==> has_key(entries, key),
    decreases entries.len(),
{
    if entries.len() > 0 {
        let front = entries.drop_last();
        lemma_mapping_domain(front, key);
        if has_key(front, key) {
            let i = choose|i: int| 0 <= i < front.len() && (#[trigger] front[i]).0 == key;
            assert(entries[i].0 == key);
        }
        if has_key(entries, key) {
            let i = choose|i: int| 0 <= i < entries.len() && (#[trigger] entries[i]).0 == key;
            if i < front.len() {
                assert(front[i].0 == key);
            }
        }
        if mapping_of(entries).contains_key(key) && entries.last().0 == key {
            assert(entries[entries.len() - 1].0 == key);
        }
    }
}

/// Where keys are distinct, the mapping gives each key the payload that
/// stands beside it.
pub proof fn lemma_mapping_lookup(entries: Seq<EntryView>, i: int)
    requires
        distinct_keys(entries),
        0 <= i < entries.len(),
    ensures
        mapping_of(entries).contains_key(entries[i].0),
        mapping_of(entries)[entries[i].0] == entries[i].1,
    decreases entries.len(),
{
    let front = entries.drop_last();
    if i < entries.len() - 1 {
        assert(distinct_keys(front)) by {
            assert forall|a: int, b: int|
                0 <= a < front.len() && 0 <= b < front.len() && a != b implies (#[trigger] front[a]).0
                != (#[trigger] front[b]).0 by {
                assert(entries[a].0 != entries[b].0);
            }
        }
        lemma_mapping_lookup(front, i);
        assert(front[i] == entries[i]);
        assert(entries[i].0 != entries[entries.len() - 1].0);
    }
}

/// Replacing the payload of a key that is there changes the mapping as an
/// insertion does.
pub proof fn lemma_mapping_update(entries: Seq<EntryView>, i: int, value: ValueView)
    requires
        distinct_keys(entries),
        0 <= i < entries.len(),
    ensures
        mapping_of(entries.update(i, (entries[i].0, value))) == mapping_of(entries).insert(
            entries[i].0,
            value,
        ),
    decreases entries.len(),
{
    let key = entries[i].0;
    let after = entries.update(i, (key, value));
    let front = entries.drop_last();
    if i == entries.len() - 1 {
        assert(after.drop_last() =~= front);
        assert(mapping_of(after) =~= mapping_of(entries).insert(key, value));
    } else {
        assert(distinct_keys(front)) by {
            assert forall|a: int, b: int|
                0 <= a < front.len() && 0 <= b < front.len() && a != b implies (#[trigger] front[a]).0
                != (#[trigger] front[b]).0 by {
                assert(entries[a].0 != entries[b].0);
            }
        }
        lemma_mapping_update(front, i, value);
        assert(front[i] == entries[i]);
        assert(after.drop_last() =~= front.update(i, (key, value)));
        assert(after.last() == entries.last());
        assert(entries[i].0 != entries[entries.len() - 1].0);
        assert(mapping_of(after) =~= mapping_of(entries).insert(key, value));
    }
}

/// Storing an entry keeps keys distinct, changes the mapping as an
/// insertion does, and brings in nothing but the entry.
pub proof fn lemma_store(entries: Seq<EntryView>, entry: EntryView)
    requires
        distinct_keys(entries),
    ensures
        distinct_keys(store(entries, entry)),
        mapping_of(store(entries, entry)) == mapping_of(entries).insert(entry.0, entry.1),
        forall|i: int|
            0 <= i < store(entries, entry).len() ==> (#[trigger] store(entries, entry)[i]) == entry
                || entries.contains(store(entries, entry)[i]),
{
    let after = store(entries, entry);
    if has_key(entries, entry.0) {
        let at = index_of(entries, entry.0);
        lemma_mapping_update(entries, at, entry.1);
        assert(after =~= entries.update(at, (entries[at].0, entry.1)));
        assert forall|i: int, j: int|
            0 <= i < after.len() && 0 <= j < after.len() && i != j implies (#[trigger] after[i]).0
            != (#[trigger] after[j]).0 by {
            assert(after[i].0 == entries[i].0);
            assert(after[j].0 == entries[j].0);
        }
        assert forall|i: int| 0 <= i < after.len() implies (#[trigger] after[i]) == entry
            || entries.contains(after[i]) by {
            if i != at {
                assert(after[i] == entries[i]);
            }
        }
    } else {
        assert(after.drop_last() =~= entries);
        assert forall|i: int, j: int|
            0 <= i < after.len() && 0 <= j < after.len() && i != j implies (#[trigger] after[i]).0
            != (#[trigger] after[j]).0 by {
            if i < entries.len() {
                assert(entries[i].0 == after[i].0);
            }
            if j < entries.len() {
                assert(entries[j].0 == after[j].0);
            }
        }
        assert forall|i: int| 0 <= i < after.len() implies (#[trigger] after[i]) == entry
            || entries.contains(after[i]) by {
            if i < entries.len() {
                assert(after[i] == entries[i]);
            }
        }
    }
}

/// What is stored of a list of entries has distinct keys, amounts to the
/// same mapping as the list, and holds entries of the list only.
pub proof fn lemma_stored(entries: Seq<EntryView>)
    ensures
        distinct_keys(stored(entries)),
        mapping_of(stored(entries)) == mapping_of(entries),
        forall|i: int|
            0 <= i < stored(entries).len() ==> entries.contains(#[trigger] stored(entries)[i]),
    decreases entries.len(),
{
    if entries.len() > 0 {
        let front = entries.drop_last();
        lemma_stored(front);
        lemma_store(stored(front), entries.last());
        let after = stored(entries);
        assert forall|i: int| 0 <= i < after.len() implies entries.contains(
            #[trigger] after[i],
        ) by {
            if after[i] == entries.last() {
                assert(entries[entries.len() - 1] == after[i]);
            } else {
                assert(stored(front).contains(after[i]));
                let j = choose|j: int| 0 <= j < stored(front).len() && stored(front)[j] == after[i];
                assert(front.contains(stored(front)[j]));
                let k = choose|k: int| 0 <= k < front.len() && front[k] == after[i];
                assert(entries[k] == after[i]);
            }
        }
    }
}

/// A list without a repeated key is stored as it is.
pub proof fn lemma_stored_distinct(entries: Seq<EntryView>)
    requires
        distinct_keys(entries),
    ensures
        stored(entries) == entries,
    decreases entries.len(),
{
    if entries.len() > 0 {
        let front = entries.drop_last();
        assert(distinct_keys(front)) by {
            assert forall|a: int, b: int|
                0 <= a < front.len() && 0 <= b < front.len() && a != b implies (#[trigger] front[a]).0
                != (#[trigger] front[b]).0 by {
                assert(entries[a].0 != entries[b].0);
            }
        }
        lemma_stored_distinct(front);
        if has_key(front, entries.last().0) {
            let i = choose|i: int| 0 <= i < front.len() && (#[trigger] front[i]).0
                == entries.last().0;
            assert(entries[i].0 == entries[entries.len() - 1].0);
        }
        assert(front.push(entries.last()) =~= entries);
    } else {
        assert(entries =~= Seq::<EntryView>::empty());
    }
}

/// A mapping from keys to values. No key occurs twice; inserting under a
/// key that is there replaces its value.
#[derive(Debug)]
pub struct Mapping<'a> {
    entries: Vec<(&'a str, Value<'a>)>,
}

impl<'a> View for Mapping<'a> {
    type V = Map<Seq<u8>, ValueView>;

    closed spec fn view(&self) -> Map<Seq<u8>, ValueView> {
        mapping_of(entry_views(self.entries@))
    }
}

impl<'a> Mapping<'a> {
    #[verifier::type_invariant]
    spec fn well_formed(self) -> bool {
        distinct_keys(entry_views(self.entries@))
    }

    /// The entries in the order in which their keys were first inserted.
    pub closed spec fn entries_view(&self) -> Seq<EntryView> {
        entry_views(self.entries@)
    }

    /// An empty mapping.
    pub fn new() -> (mapping: Self)
        ensures
            mapping@ == Map::<Seq<u8>, ValueView>::empty(),
            mapping.entries_view() == Seq::<EntryView>::empty(),
    {
        let mapping = Mapping { entries: Vec::new() };
        assert(entry_views(mapping.entries@) =~= Seq::<EntryView>::empty());
        mapping
    }

    /// The index at which `key` is stored, if it is.
    fn position(&self, key: &str) -> (r: Option<usize>)
        ensures
            match r {
                Some(i) => i < self.entries@.len() && self.entries_view()[i as int].0
                    == key.spec_bytes(),
                None => !has_key(self.entries_view(), key.spec_bytes()),
            },
    {
        let mut i: usize = 0;
        while i < self.entries.len()
            invariant
                i <= self.entries@.len(),
                forall|j: int|
                    0 <= j < i ==> (#[trigger] entry_views(self.entries@)[j]).0 != key.spec_bytes(),
            decreases self.entries.len() - i,
        {
            if same_text(self.entries[i].0, key) {
                return Some(i);
            }
            i = i + 1;
        }
        None
    }

    /// The number of keys.
    pub fn len(&self) -> (n: usize)
        ensures
            n == self@.len(),
            n == self.entries_view().len(),
    {
        proof {
            use_type_invariant(self);
            lemma_mapping_len(self.entries_view());
        }
        self.entries.len()
    }

    /// The value stored under `key`, if there is one.
    pub fn get(&self, key: &str) -> (r: Option<&Value<'a>>)
        ensures
            match r {
                Some(value) => self@.contains_key(key.spec_bytes()) && value@
                    == self@[key.spec_bytes()],
                None => !self@.contains_key(key.spec_bytes()),
            },
    {
        proof {
            use_type_invariant(self);
            lemma_mapping_domain(self.entries_view(), key.spec_bytes());
        }
        match self.position(key) {
            Some(i) => {
                proof {
                    lemma_mapping_lookup(self.entries_view(), i as int);
                }
                Some(&self.entries[i].1)
            },
            None => None,
        }
    }

    /// Stores `value` under `key`, in place of what was stored there. A
    /// key that is new comes behind the keys that are there.
    pub fn insert(&mut self, key: &'a str, value: Value<'a>)
        ensures
            final(self)@ == old(self)@.insert(key.spec_bytes(), value@),
            final(self).entries_view() == store(
                old(self).entries_view(),
                (key.spec_bytes(), value@),
            ),
    {
        proof {
            use_type_invariant(&*self);
        }
        let ghost before = self.entries_view();
        let found = self.position(key);
        let mut entries: Vec<(&'a str, Value<'a>)> = Vec::new();
        assert(distinct_keys(entry_views(entries@)));
        core::mem::swap(&mut self.entries, &mut entries);
        match found {
            Some(i) => {
                proof {
                    lemma_mapping_update(before, i as int, value@);
                    assert(has_key(before, key.spec_bytes()));
                    assert(index_of(before, key.spec_bytes()) == i);
                }
                entries.set(i, (key, value));
                assert(entry_views(entries@) =~= before.update(
                    i as int,
                    (key.spec_bytes(), value@),
                ));
            },
            None => {
                entries.push((key, value));
                assert(entry_views(entries@) =~= before.push((key.spec_bytes(), value@)));
                assert(before.push((key.spec_bytes(), value@)).drop_last() =~= before);
            },
        }
        self.entries = entries;
    }

    /// The entries, in the order in which their keys were first inserted.
    pub fn entries(&self) -> (r: &[(&'a str, Value<'a>)])
        ensures
            entry_views(r@) == self.entries_view(),
            distinct_keys(entry_views(r@)),
    {
        proof {
            use_type_invariant(self);
        }
        self.entries.as_slice()
    }
}

} // verus!
