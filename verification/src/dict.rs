//! Small dictionaries keyed by text.

use crate::model::{lemma_views_push, views};
use vstd::prelude::*;
use vstd::string::*;

verus! {

/// The map that a list of entries stands for: of two entries with one key, the
/// first counts.
pub open spec fn entries_map<V>(entries: Seq<(String, V)>) -> Map<Seq<char>, V>
    decreases entries.len(),
{
    if entries.len() == 0 {
        Map::empty()
    } else {
        entries_map(entries.drop_first()).insert(entries[0].0@, entries[0].1)
    }
}

/// A key stands at `i`, and not before.
spec fn first_at<V>(entries: Seq<(String, V)>, key: Seq<char>, i: int) -> bool {
    &&& 0 <= i < entries.len()
    &&& entries[i].0@ == key
    &&& forall|j: int| 0 <= j < i ==> (#[trigger] entries[j]).0@ != key
}

/// A key stands nowhere.
spec fn nowhere<V>(entries: Seq<(String, V)>, key: Seq<char>) -> bool {
    forall|j: int| 0 <= j < entries.len() ==> (#[trigger] entries[j]).0@ != key
}

proof fn lemma_first<V>(entries: Seq<(String, V)>, key: Seq<char>, i: int, new: (String, V))
    requires
        first_at(entries, key, i),
        new.0@ == key,
    ensures
        entries_map(entries).contains_key(key),
        entries_map(entries)[key] == entries[i].1,
        entries_map(entries.update(i, new)) == entries_map(entries).insert(key, new.1),
    decreases entries.len(),
{
    let rest = entries.drop_first();
    let changed = entries.update(i, new);
    if i == 0 {
        assert(changed.drop_first() =~= rest);
        assert(entries_map(changed) =~= entries_map(entries).insert(key, new.1));
    } else {
        assert forall|j: int| 0 <= j < i - 1 implies (#[trigger] rest[j]).0@ != key by {
            assert(entries[j + 1].0@ != key);
        }
        lemma_first(rest, key, i - 1, new);
        assert(changed.drop_first() =~= rest.update(i - 1, new));
        assert(entries[0].0@ != key);
        assert(entries_map(changed) =~= entries_map(entries).insert(key, new.1));
    }
}

proof fn lemma_nowhere<V>(entries: Seq<(String, V)>, key: Seq<char>)
    requires
        nowhere(entries, key),
    ensures
        !entries_map(entries).contains_key(key),
    decreases entries.len(),
{
    if entries.len() > 0 {
        let rest = entries.drop_first();
        assert forall|j: int| 0 <= j < rest.len() implies (#[trigger] rest[j]).0@ != key by {
            assert(entries[j + 1].0@ != key);
        }
        lemma_nowhere(rest, key);
        assert(entries[0].0@ != key);
    }
}

proof fn lemma_pushed<V>(entries: Seq<(String, V)>, new: (String, V))
    requires
        nowhere(entries, new.0@),
    ensures
        entries_map(entries.push(new)) == entries_map(entries).insert(new.0@, new.1),
    decreases entries.len(),
{
    let longer = entries.push(new);
    if entries.len() > 0 {
        let rest = entries.drop_first();
        assert forall|j: int| 0 <= j < rest.len() implies (#[trigger] rest[j]).0@ != new.0@ by {
            assert(entries[j + 1].0@ != new.0@);
        }
        lemma_pushed(rest, new);
        assert(longer.drop_first() =~= rest.push(new));
        assert(entries[0].0@ != new.0@);
        assert(longer[0] == entries[0]);
        assert(entries_map(longer) =~= entries_map(entries).insert(new.0@, new.1));
    } else {
        assert(longer.drop_first() =~= Seq::empty());
        assert(entries_map(Seq::<(String, V)>::empty()) =~= Map::empty());
        assert(entries_map(longer) =~= entries_map(entries).insert(new.0@, new.1));
    }
}

proof fn lemma_dropped<V>(entries: Seq<(String, V)>, i: int)
    requires
        0 <= i < entries.len(),
    ensures
        entries_map(entries.remove(i)).remove(entries[i].0@) == entries_map(entries).remove(
            entries[i].0@,
        ),
    decreases entries.len(),
{
    let key = entries[i].0@;
    let rest = entries.drop_first();
    let shorter = entries.remove(i);
    if i == 0 {
        assert(shorter =~= rest);
    } else {
        lemma_dropped(rest, i - 1);
        assert(shorter.drop_first() =~= rest.remove(i - 1));
        assert(shorter[0] == entries[0]);
        let a = entries_map(shorter.drop_first());
        let b = entries_map(rest);
        assert(a.remove(key) == b.remove(key));
        let (k0, v0) = (entries[0].0@, entries[0].1);
        let p = a.insert(k0, v0).remove(key);
        let q = b.insert(k0, v0).remove(key);
        assert forall|k: Seq<char>| #![trigger p.contains_key(k)] #![trigger q.contains_key(k)]
            (p.contains_key(k) <==> q.contains_key(k)) && (p.contains_key(k) ==> p[k] == q[k]) by {
            assert(a.remove(key).contains_key(k) <==> b.remove(key).contains_key(k));
            if k != key && a.contains_key(k) {
                assert(a.remove(key)[k] == a[k]);
                assert(b.remove(key)[k] == b[k]);
            }
        }
        assert(p =~= q);
    }
    assert(entries_map(shorter).remove(key) =~= entries_map(entries).remove(key));
}

/// A small dictionary keyed by text.
#[derive(Debug, Clone)]
#[verifier::reject_recursive_types(V)]
pub struct TextMap<V> {
    entries: Vec<(String, V)>,
}

impl<V> View for TextMap<V> {
    type V = Map<Seq<char>, V>;

    closed spec fn view(&self) -> Map<Seq<char>, V> {
        entries_map(self.entries@)
    }
}

impl<V> TextMap<V> {
    pub fn new() -> (r: Self)
        ensures
            r@ == Map::<Seq<char>, V>::empty(),
    {
        TextMap { entries: Vec::new() }
    }

    /// Where a key stands first; `None` where it stands nowhere.
    fn find(&self, key: &str) -> (r: Option<usize>)
        ensures
            match r {
                Some(i) => first_at(self.entries@, key@, i as int),
                None => nowhere(self.entries@, key@),
            },
    {
        let wanted = key.to_owned();
        let mut i: usize = 0;
        while i < self.entries.len()
            invariant
                i <= self.entries@.len(),
                wanted@ == key@,
                forall|j: int| 0 <= j < i ==> (#[trigger] self.entries@[j]).0@ != key@,
            decreases self.entries@.len() - i,
        {
            if self.entries[i].0 == wanted {
                return Some(i);
            }
            i = i + 1;
        }
        None
    }

    pub fn get(&self, key: &str) -> (r: Option<&V>)
        ensures
            r == (if self@.contains_key(key@) {
                Some(&self@[key@])
            } else {
                None
            }),
    {
        match self.find(key) {
            Some(i) => {
                proof {
                    lemma_first(self.entries@, key@, i as int, self.entries@[i as int]);
                }
                Some(&self.entries[i].1)
            },
            None => {
                proof {
                    lemma_nowhere(self.entries@, key@);
                }
                None
            },
        }
    }

    pub fn contains_key(&self, key: &str) -> (b: bool)
        ensures
            b == self@.contains_key(key@),
    {
        self.get(key).is_some()
    }

    /// Sets the value of a key.
    pub fn insert(&mut self, key: String, value: V)
        ensures
            final(self)@ == old(self)@.insert(key@, value),
    {
        match self.find(key.as_str()) {
            Some(i) => {
                proof {
                    lemma_first(self.entries@, key@, i as int, (key, value));
                }
                self.entries.set(i, (key, value));
            },
            None => {
                proof {
                    lemma_pushed(self.entries@, (key, value));
                }
                self.entries.push((key, value));
            },
        }
    }

    /// Takes a key out, and tells whether it was there.
    pub fn remove(&mut self, key: &str) -> (b: bool)
        ensures
            final(self)@ == old(self)@.remove(key@),
            b == old(self)@.contains_key(key@),
    {
        let b = self.contains_key(key);
        let wanted = key.to_owned();
        let mut i: usize = 0;
        while i < self.entries.len()
            invariant
                i <= self.entries@.len(),
                wanted@ == key@,
                entries_map(self.entries@).remove(key@) == old(self)@.remove(key@),
                forall|j: int| 0 <= j < i ==> (#[trigger] self.entries@[j]).0@ != key@,
            decreases self.entries@.len() - i,
        {
            if self.entries[i].0 == wanted {
                proof {
                    lemma_dropped(self.entries@, i as int);
                }
                self.entries.remove(i);
            } else {
                i = i + 1;
            }
        }
        proof {
            lemma_nowhere(self.entries@, key@);
            assert(self@.remove(key@) =~= self@);
        }
        b
    }

    /// Takes a key out, and returns the value that it had.
    pub fn take(&mut self, key: &str) -> (r: Option<V>)
        ensures
            final(self)@ == old(self)@.remove(key@),
            r == (if old(self)@.contains_key(key@) {
                Some(old(self)@[key@])
            } else {
                None
            }),
    {
        match self.find(key) {
            Some(i) => {
                proof {
                    lemma_first(self.entries@, key@, i as int, self.entries@[i as int]);
                    lemma_dropped(self.entries@, i as int);
                }
                let (_, v) = self.entries.remove(i);
                self.remove(key);
                Some(v)
            },
            None => {
                proof {
                    lemma_nowhere(self.entries@, key@);
                    assert(self@.remove(key@) =~= self@);
                }
                None
            },
        }
    }

    /// The keys, each once.
    pub fn keys(&self) -> (r: Vec<String>)
        ensures
            views(r@).no_duplicates(),
            forall|k: Seq<char>| #[trigger] views(r@).contains(k) <==> self@.contains_key(k),
    {
        broadcast use lemma_views_push;

        let mut r: Vec<String> = Vec::new();
        let mut i: usize = 0;
        while i < self.entries.len()
            invariant
                i <= self.entries@.len(),
                views(r@).no_duplicates(),
                views(r@).to_set() == entries_map(self.entries@.take(i as int)).dom(),
            decreases self.entries@.len() - i,
        {
            proof {
                assert(self.entries@.take(i + 1) =~= self.entries@.take(i as int).push(
                    self.entries@[i as int],
                ));
                lemma_key_pushed(self.entries@.take(i as int), self.entries@[i as int]);
            }
            let ghost before = views(r@);
            if !contains_text(&r, self.entries[i].0.as_str()) {
                r.push(self.entries[i].0.clone());
                proof {
                    assert(views(r@) =~= before.push(self.entries@[i as int].0@));
                    assert(views(r@).no_duplicates());
                    assert(views(r@).to_set() =~= before.to_set().insert(
                        self.entries@[i as int].0@,
                    )) by {
                        assert forall|k: Seq<char>| views(r@).contains(k) <==> before.contains(k)
                            || k == self.entries@[i as int].0@ by {
                            if views(r@).contains(k) {
                                let j = choose|j: int|
                                    0 <= j < views(r@).len() && views(r@)[j] == k;
                                if j < before.len() {
                                    assert(before[j] == k);
                                }
                            }
                            if before.contains(k) {
                                let j = choose|j: int| 0 <= j < before.len() && before[j] == k;
                                assert(views(r@)[j] == k);
                            }
                            assert(views(r@)[before.len() as int] == self.entries@[i as int].0@);
                        }
                    }
                }
            } else {
                proof {
                    assert(before.to_set().contains(self.entries@[i as int].0@));
                    assert(before.to_set() =~= before.to_set().insert(
                        self.entries@[i as int].0@,
                    ));
                }
            }
            i = i + 1;
        }
        proof {
            assert(self.entries@.take(i as int) =~= self.entries@);
            assert forall|k: Seq<char>| #[trigger] views(r@).contains(k)
                <==> self@.contains_key(k) by {
                assert(views(r@).to_set().contains(k) <==> self@.dom().contains(k));
            }
        }
        r
    }
}

proof fn lemma_key_pushed<V>(entries: Seq<(String, V)>, new: (String, V))
    ensures
        entries_map(entries.push(new)).dom() == entries_map(entries).dom().insert(new.0@),
    decreases entries.len(),
{
    let longer = entries.push(new);
    if entries.len() > 0 {
        let rest = entries.drop_first();
        lemma_key_pushed(rest, new);
        assert(longer.drop_first() =~= rest.push(new));
        assert(longer[0] == entries[0]);
        assert(entries_map(longer) == entries_map(rest.push(new)).insert(
            entries[0].0@,
            entries[0].1,
        ));
        assert(entries_map(entries) == entries_map(rest).insert(entries[0].0@, entries[0].1));
    } else {
        assert(longer.drop_first() =~= Seq::empty());
        assert(entries_map(Seq::<(String, V)>::empty()) =~= Map::empty());
    }
    assert(entries_map(longer).dom() =~= entries_map(entries).dom().insert(new.0@));
}

/// Does a list of strings hold a text?
pub fn contains_text(list: &[String], text: &str) -> (b: bool)
    ensures
        b == views(list@).contains(text@),
{
    let wanted = text.to_owned();
    let mut i: usize = 0;
    while i < list.len()
        invariant
            i <= list@.len(),
            wanted@ == text@,
            forall|j: int| 0 <= j < i ==> views(list@)[j] != text@,
        decreases list@.len() - i,
    {
        if list[i] == wanted {
            proof {
                assert(views(list@)[i as int] == text@);
            }
            return true;
        }
        i = i + 1;
    }
    false
}

} // verus!
