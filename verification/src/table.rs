//! A small map from texts to values.

use vstd::prelude::*;
use crate::text;

verus! {

/// Entries with a key and a value each, in the order in which their keys came in.
#[derive(Debug)]
pub struct Table<T> {
    entries: Vec<(String, T)>,
}

/// What stands under `key`.
pub open spec fn lookup<T>(entries: Seq<(Seq<char>, T)>, key: Seq<char>) -> Option<T>
    decreases entries.len(),
{
    if entries.len() == 0 {
        None
    } else if entries[0].0 == key {
        Some(entries[0].1)
    } else {
        lookup(entries.drop_first(), key)
    }
}

/// The entries with `value` under `key`: in the place of what stood there, or at the end.
pub open spec fn put<T>(entries: Seq<(Seq<char>, T)>, key: Seq<char>, value: T) -> Seq<
    (Seq<char>, T),
>
    decreases entries.len(),
{
    if entries.len() == 0 {
        seq![(key, value)]
    } else if entries[0].0 == key {
        seq![(key, value)] + entries.drop_first()
    } else {
        seq![entries[0]] + put(entries.drop_first(), key, value)
    }
}

/// The entries whose values pass, as they stood.
pub open spec fn passing<T>(entries: Seq<(Seq<char>, T)>, pass: spec_fn(T) -> bool) -> Seq<
    (Seq<char>, T),
>
    decreases entries.len(),
{
    if entries.len() == 0 {
        Seq::empty()
    } else if pass(entries.last().1) {
        passing(entries.drop_last(), pass).push(entries.last())
    } else {
        passing(entries.drop_last(), pass)
    }
}

/// The entries under other keys than `key`.
pub open spec fn dropped<T>(entries: Seq<(Seq<char>, T)>, key: Seq<char>) -> Seq<(Seq<char>, T)>
    decreases entries.len(),
{
    if entries.len() == 0 {
        Seq::empty()
    } else if entries.last().0 == key {
        dropped(entries.drop_last(), key)
    } else {
        dropped(entries.drop_last(), key).push(entries.last())
    }
}

/// No key stands twice.
pub open spec fn keys_distinct<T>(entries: Seq<(Seq<char>, T)>) -> bool {
    forall|i: int, j: int|
        0 <= i < j < entries.len() ==> (#[trigger] entries[i]).0 != (#[trigger] entries[j]).0
}

impl<T: View> View for Table<T> {
    type V = Seq<(Seq<char>, T::V)>;

    closed spec fn view(&self) -> Seq<(Seq<char>, T::V)> {
        self.entries@.map_values(|e: (String, T)| (e.0@, e.1@))
    }
}

proof fn lemma_lookup<T>(entries: Seq<(Seq<char>, T)>, key: Seq<char>, k: int)
    requires
        0 <= k <= entries.len(),
        forall|j: int| 0 <= j < k ==> (#[trigger] entries[j]).0 != key,
        k < entries.len() ==> entries[k].0 == key,
    ensures
        k < entries.len() ==> lookup(entries, key) == Some(entries[k].1),
        k == entries.len() ==> lookup(entries, key) is None,
        forall|value: T|
            #[trigger] put(entries, key, value) == (if k < entries.len() {
                entries.update(k, (key, value))
            } else {
                entries.push((key, value))
            }),
    decreases entries.len(),
{
    let rest = entries.drop_first();
    if entries.len() > 0 && k > 0 {
        assert(entries[0].0 != key);
        assert forall|j: int| 0 <= j < k - 1 implies (#[trigger] rest[j]).0 != key by {
            assert(entries[j + 1].0 != key);
        }
        lemma_lookup(rest, key, k - 1);
    }
    assert forall|value: T|
        #[trigger] put(entries, key, value) == (if k < entries.len() {
            entries.update(k, (key, value))
        } else {
            entries.push((key, value))
        }) by {
        if entries.len() == 0 {
            assert(seq![(key, value)] =~= entries.push((key, value)));
        } else if k == 0 {
            assert(seq![(key, value)] + rest =~= entries.update(k, (key, value)));
        } else {
            let tail = put(rest, key, value);
            if k < entries.len() {
                assert(seq![entries[0]] + tail =~= entries.update(k, (key, value)));
            } else {
                assert(seq![entries[0]] + tail =~= entries.push((key, value)));
            }
        }
    }
}

impl<T: View> Table<T> {
    /// A table without entries.
    pub fn new() -> (table: Self)
        ensures
            table@ == Seq::<(Seq<char>, T::V)>::empty(),
    {
        let table = Table { entries: Vec::new() };
        assert(table@ =~= Seq::empty());
        table
    }

    /// How many entries there are.
    pub fn len(&self) -> (n: usize)
        ensures
            n == self@.len(),
    {
        self.entries.len()
    }

    /// The key of the entry in place `i`.
    pub fn key(&self, i: usize) -> (key: &str)
        requires
            i < self@.len(),
        ensures
            key@ == self@[i as int].0,
    {
        self.entries[i].0.as_str()
    }

    /// The value of the entry in place `i`.
    pub fn value(&self, i: usize) -> (value: &T)
        requires
            i < self@.len(),
        ensures
            value@ == self@[i as int].1,
    {
        &self.entries[i].1
    }

    fn place(&self, key: &str) -> (k: usize)
        ensures
            k <= self.entries@.len(),
            forall|j: int| 0 <= j < k ==> (#[trigger] self@[j]).0 != key@,
            k < self.entries@.len() ==> self@[k as int].0 == key@,
    {
        let mut k: usize = 0;
        while k < self.entries.len()
            invariant
                k <= self.entries@.len(),
                forall|j: int| 0 <= j < k ==> (#[trigger] self@[j]).0 != key@,
            decreases self.entries@.len() - k,
        {
            if text::same(self.entries[k].0.as_str(), key) {
                return k;
            }
            k += 1;
        }
        k
    }

    /// What stands under `key`.
    pub fn get(&self, key: &str) -> (value: Option<&T>)
        ensures
            match value {
                Some(v) => lookup(self@, key@) == Some(v@),
                None => lookup(self@, key@) is None,
            },
    {
        let k = self.place(key);
        proof {
            lemma_lookup(self@, key@, k as int);
        }
        if k < self.entries.len() {
            Some(&self.entries[k].1)
        } else {
            None
        }
    }

    /// Whether something stands under `key`.
    pub fn contains_key(&self, key: &str) -> (yes: bool)
        ensures
            yes == (lookup(self@, key@) is Some),
    {
        match self.get(key) {
            Some(_) => true,
            None => false,
        }
    }

    /// Puts `value` under `key`, in the place of what stood there.
    pub fn insert(&mut self, key: String, value: T)
        ensures
            final(self)@ == put(old(self)@, key@, value@),
    {
        let ghost before = self@;
        let ghost name = key@;
        let ghost content = value@;
        let k = self.place(key.as_str());
        proof {
            lemma_lookup(before, name, k as int);
        }
        if k < self.entries.len() {
            self.entries.set(k, (key, value));
            assert(self@ =~= before.update(k as int, (name, content)));
        } else {
            self.entries.push((key, value));
            assert(self@ =~= before.push((name, content)));
        }
    }

    /// Takes away what stands under `key`.
    pub fn remove(&mut self, key: &str)
        ensures
            final(self)@ == dropped(old(self)@, key@),
    {
        let ghost before = self@;
        let mut taken: Vec<(String, T)> = Vec::new();
        core::mem::swap(&mut self.entries, &mut taken);
        let ghost source = taken@;
        assert(before =~= source.map_values(|e: (String, T)| (e.0@, e.1@)));
        assert(self@ =~= dropped(before.take(0), key@));
        for entry in it: taken
            invariant
                it.seq() == source,
                before == source.map_values(|e: (String, T)| (e.0@, e.1@)),
                self@ == dropped(before.take(it.index() as int), key@),
        {
            let ghost done = self@;
            proof {
                let next = before.take(it.index() + 1);
                assert(next.drop_last() =~= before.take(it.index() as int));
                assert(next.last() == (entry.0@, entry.1@));
            }
            if !text::same(entry.0.as_str(), key) {
                let ghost fresh = (entry.0@, entry.1@);
                self.entries.push(entry);
                assert(self@ =~= done.push(fresh));
            }
        }
        assert(before.take(before.len() as int) =~= before);
    }

    /// Keeps the entries whose values pass.
    pub(crate) fn retain<F: Fn(&T) -> bool>(
        &mut self,
        keep: F,
        Ghost(pass): Ghost<spec_fn(T::V) -> bool>,
    )
        requires
            forall|v: T| #[trigger] keep.requires((&v,)),
            forall|v: T, yes: bool| #[trigger] keep.ensures((&v,), yes) ==> yes == pass(v@),
        ensures
            final(self)@ == passing(old(self)@, pass),
    {
        let ghost before = self@;
        let mut taken: Vec<(String, T)> = Vec::new();
        core::mem::swap(&mut self.entries, &mut taken);
        let ghost source = taken@;
        assert(before =~= source.map_values(|e: (String, T)| (e.0@, e.1@)));
        assert(self@ =~= passing(before.take(0), pass));
        for entry in it: taken
            invariant
                it.seq() == source,
                before == source.map_values(|e: (String, T)| (e.0@, e.1@)),
                self@ == passing(before.take(it.index() as int), pass),
                forall|v: T| #[trigger] keep.requires((&v,)),
                forall|v: T, yes: bool| #[trigger] keep.ensures((&v,), yes) ==> yes == pass(v@),
        {
            let ghost done = self@;
            proof {
                let next = before.take(it.index() + 1);
                assert(next.drop_last() =~= before.take(it.index() as int));
                assert(next.last() == (entry.0@, entry.1@));
            }
            if keep(&entry.1) {
                let ghost fresh = (entry.0@, entry.1@);
                self.entries.push(entry);
                assert(self@ =~= done.push(fresh));
            }
        }
        assert(before.take(before.len() as int) =~= before);
    }
}

// ---------------------------------------------------------------------------------------
// Laws
// ---------------------------------------------------------------------------------------

/// What was put under a key is found under it, and what stands under other keys stays.
pub proof fn lookup_after_put<T>(
    entries: Seq<(Seq<char>, T)>,
    key: Seq<char>,
    value: T,
    other: Seq<char>,
)
    ensures
        lookup(put(entries, key, value), key) == Some(value),
        other != key ==> lookup(put(entries, key, value), other) == lookup(entries, other),
        put(entries, key, value).len() == entries.len() + if lookup(entries, key) is Some {
            0int
        } else {
            1int
        },
    decreases entries.len(),
{
    if entries.len() == 0 {
        let s = seq![(key, value)];
        assert(s[0].0 == key);
        assert(s.drop_first() =~= entries);
    } else if entries[0].0 == key {
        let s = seq![(key, value)] + entries.drop_first();
        assert(s.drop_first() =~= entries.drop_first());
    } else {
        lookup_after_put(entries.drop_first(), key, value, other);
        let s = seq![entries[0]] + put(entries.drop_first(), key, value);
        assert(s.drop_first() =~= put(entries.drop_first(), key, value));
    }
}

/// What is found after an entry was added at the end.
pub proof fn lookup_push<T>(
    entries: Seq<(Seq<char>, T)>,
    entry: (Seq<char>, T),
    key: Seq<char>,
)
    ensures
        lookup(entries.push(entry), key) == (if lookup(entries, key) is Some {
            lookup(entries, key)
        } else if entry.0 == key {
            Some(entry.1)
        } else {
            None
        }),
    decreases entries.len(),
{
    let s = entries.push(entry);
    if entries.len() == 0 {
        assert(s.drop_first() =~= entries);
    } else {
        assert(s.drop_first() =~= entries.drop_first().push(entry));
        lookup_push(entries.drop_first(), entry, key);
    }
}

/// What was taken away is no longer found, and what stands under other keys stays.
pub proof fn lookup_after_drop<T>(
    entries: Seq<(Seq<char>, T)>,
    key: Seq<char>,
    other: Seq<char>,
)
    ensures
        lookup(dropped(entries, key), key) is None,
        other != key ==> lookup(dropped(entries, key), other) == lookup(entries, other),
        dropped(entries, key).len() <= entries.len(),
    decreases entries.len(),
{
    if entries.len() > 0 {
        let shorter = entries.drop_last();
        lookup_after_drop(shorter, key, other);
        assert(entries =~= shorter.push(entries.last()));
        lookup_push(shorter, entries.last(), other);
        lookup_push(dropped(shorter, key), entries.last(), other);
        lookup_push(dropped(shorter, key), entries.last(), key);
    }
}

/// Where no key stands twice, what is found after a selection is what passes of what was
/// found before it.
pub proof fn lookup_after_passing<T>(
    entries: Seq<(Seq<char>, T)>,
    pass: spec_fn(T) -> bool,
    key: Seq<char>,
)
    requires
        keys_distinct(entries),
    ensures
        lookup(passing(entries, pass), key) == (match lookup(entries, key) {
            Some(v) if pass(v) => Some(v),
            _ => None,
        }),
        passing(entries, pass).len() <= entries.len(),
    decreases entries.len(),
{
    if entries.len() > 0 {
        let shorter = entries.drop_last();
        assert(keys_distinct(shorter)) by {
            assert forall|i: int, j: int| 0 <= i < j < shorter.len() implies (
            #[trigger] shorter[i]).0 != (#[trigger] shorter[j]).0 by {
                assert(entries[i].0 != entries[j].0);
            }
        }
        lookup_after_passing(shorter, pass, key);
        assert(entries =~= shorter.push(entries.last()));
        lookup_push(shorter, entries.last(), key);
        lookup_push(passing(shorter, pass), entries.last(), key);
        if entries.last().0 == key {
            assert forall|j: int| 0 <= j < shorter.len() implies (#[trigger] shorter[j]).0
                != key by {
                assert(entries[j].0 != entries[entries.len() - 1].0);
            }
            lemma_lookup(shorter, key, shorter.len() as int);
        }
    }
}

proof fn lemma_lookup_finds<T>(entries: Seq<(Seq<char>, T)>, i: int)
    requires
        0 <= i < entries.len(),
    ensures
        lookup(entries, entries[i].0) is Some,
    decreases i,
{
    if i > 0 {
        if entries[0].0 != entries[i].0 {
            assert(entries.drop_first()[i - 1] == entries[i]);
            lemma_lookup_finds(entries.drop_first(), i - 1);
        }
    }
}

proof fn lemma_push_distinct<T>(entries: Seq<(Seq<char>, T)>, entry: (Seq<char>, T))
    requires
        keys_distinct(entries),
        lookup(entries, entry.0) is None,
    ensures
        keys_distinct(entries.push(entry)),
{
    let s = entries.push(entry);
    assert forall|i: int, j: int| 0 <= i < j < s.len() implies (#[trigger] s[i]).0 != (
    #[trigger] s[j]).0 by {
        if j == entries.len() {
            lemma_lookup_finds(entries, i);
        } else {
            assert(entries[i].0 != entries[j].0);
        }
    }
}

/// No operation makes a key stand twice.
pub proof fn keys_stay_distinct<T>(
    entries: Seq<(Seq<char>, T)>,
    key: Seq<char>,
    value: T,
    pass: spec_fn(T) -> bool,
)
    requires
        keys_distinct(entries),
    ensures
        keys_distinct(put(entries, key, value)),
        keys_distinct(dropped(entries, key)),
        keys_distinct(passing(entries, pass)),
    decreases entries.len(),
{
    if entries.len() > 0 {
        let shorter = entries.drop_last();
        let last = entries.last();
        assert(entries =~= shorter.push(last));
        assert forall|i: int, j: int| 0 <= i < j < shorter.len() implies (
        #[trigger] shorter[i]).0 != (#[trigger] shorter[j]).0 by {
            assert(entries[i].0 != entries[j].0);
        }
        keys_stay_distinct(shorter, key, value, pass);
        assert forall|j: int| 0 <= j < shorter.len() implies (#[trigger] shorter[j]).0
            != last.0 by {
            assert(entries[j].0 != entries[entries.len() - 1].0);
        }
        lemma_lookup(shorter, last.0, shorter.len() as int);
        lookup_after_passing(shorter, pass, last.0);
        lookup_after_drop(shorter, key, last.0);
        if pass(last.1) {
            lemma_push_distinct(passing(shorter, pass), last);
        }
        if last.0 != key {
            lemma_push_distinct(dropped(shorter, key), last);
        }
    }
    let k = first_place(entries, key);
    lemma_first_place(entries, key);
    lemma_lookup(entries, key, k);
    let s = put(entries, key, value);
    assert forall|i: int, j: int| 0 <= i < j < s.len() implies (#[trigger] s[i]).0 != (
    #[trigger] s[j]).0 by {
        if j < entries.len() {
            assert(entries[i].0 != entries[j].0);
        } else {
            assert(entries[i].0 != key);
        }
    }
}

spec fn first_place<T>(entries: Seq<(Seq<char>, T)>, key: Seq<char>) -> int
    decreases entries.len(),
{
    if entries.len() == 0 || entries[0].0 == key {
        0
    } else {
        1 + first_place(entries.drop_first(), key)
    }
}

proof fn lemma_first_place<T>(entries: Seq<(Seq<char>, T)>, key: Seq<char>)
    ensures
        0 <= first_place(entries, key) <= entries.len(),
        forall|j: int|
            0 <= j < first_place(entries, key) ==> (#[trigger] entries[j]).0 != key,
        first_place(entries, key) < entries.len() ==> entries[first_place(entries, key)].0 == key,
    decreases entries.len(),
{
    if entries.len() > 0 && entries[0].0 != key {
        let rest = entries.drop_first();
        lemma_first_place(rest, key);
        assert forall|j: int| 0 <= j < first_place(entries, key) implies (
        #[trigger] entries[j]).0 != key by {
            if j > 0 {
                assert(rest[j - 1].0 != key);
            }
        }
    }
}

/// What is found is an entry.
pub proof fn lookup_is_entry<T>(entries: Seq<(Seq<char>, T)>, key: Seq<char>)
    requires
        lookup(entries, key) is Some,
    ensures
        exists|i: int|
            0 <= i < entries.len() && (#[trigger] entries[i]).0 == key && Some(entries[i].1)
                == lookup(entries, key),
{
    lemma_first_place(entries, key);
    lemma_lookup(entries, key, first_place(entries, key));
    let i = first_place(entries, key);
    assert(entries[i].0 == key);
}

/// Where no key stands twice, every entry is found.
pub proof fn distinct_entry_is_found<T>(entries: Seq<(Seq<char>, T)>, k: int)
    requires
        keys_distinct(entries),
        0 <= k < entries.len(),
    ensures
        lookup(entries, entries[k].0) == Some(entries[k].1),
{
    assert forall|j: int| 0 <= j < k implies (#[trigger] entries[j]).0 != entries[k].0 by {
    }
    lemma_lookup(entries, entries[k].0, k);
}

/// A new key comes in at the end.
pub proof fn new_key_comes_last<T>(entries: Seq<(Seq<char>, T)>, key: Seq<char>, value: T)
    requires
        lookup(entries, key) is None,
    ensures
        put(entries, key, value) == entries.push((key, value)),
{
    lemma_first_place(entries, key);
    lemma_lookup(entries, key, first_place(entries, key));
}

} // verus!
