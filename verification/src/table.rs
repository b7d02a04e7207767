//! Tables and sets keyed by 64-bit ids, listed in ascending order.

use std::collections::BTreeMap;
use vstd::prelude::*;
use vstd::std_specs::cmp::OrdSpec;
use vstd::std_specs::iter::IteratorSpec;

verus! {

broadcast use {vstd::std_specs::btree::group_btree_axioms, vstd::laws_cmp::group_laws_cmp};

/// The items of a sequence rise from each to the next.
pub open spec fn rises(s: Seq<u64>) -> bool {
    forall|i: int, j: int| 0 <= i < j < s.len() ==> s[i] < s[j]
}

/// A sequence lists a set: each member once, in ascending order.
pub open spec fn lists(s: Seq<u64>, d: Set<u64>) -> bool {
    &&& rises(s)
    &&& forall|k: u64| #![trigger d.contains(k)] #![trigger s.contains(k)]
        s.contains(k) <==> d.contains(k)
}

/// The members of a set in ascending order.
pub open spec fn ascending(d: Set<u64>) -> Seq<u64> {
    choose|s: Seq<u64>| lists(s, d)
}

/// There is one ascending list of a set.
pub proof fn lemma_lists_unique(s: Seq<u64>, t: Seq<u64>, d: Set<u64>)
    requires
        lists(s, d),
        lists(t, d),
    ensures
        s == t,
    decreases s.len(),
{
    if s.len() == 0 {
        if t.len() > 0 {
            assert(t.contains(t[0]));
            assert(d.contains(t[0]));
            assert(s.contains(t[0]));
        }
        assert(s =~= t);
    } else {
        assert(s.contains(s.last()));
        assert(d.contains(s.last()));
        assert(t.contains(s.last()));
        assert(t.contains(t.last()));
        assert(d.contains(t.last()));
        assert(s.contains(t.last()));
        assert(s.last() == t.last());
        let d1 = d.remove(s.last());
        assert(lists(s.drop_last(), d1)) by {
            assert forall|k: u64| s.drop_last().contains(k) <==> d1.contains(k) by {
                if s.drop_last().contains(k) {
                    let i = choose|i: int| 0 <= i < s.len() - 1 && s.drop_last()[i] == k;
                    assert(s[i] == k);
                    assert(s.contains(k));
                }
                if d1.contains(k) {
                    assert(s.contains(k));
                    let i = choose|i: int| 0 <= i < s.len() && s[i] == k;
                    assert(s.drop_last()[i] == k);
                }
            }
        }
        assert(lists(t.drop_last(), d1)) by {
            assert forall|k: u64| t.drop_last().contains(k) <==> d1.contains(k) by {
                if t.drop_last().contains(k) {
                    let i = choose|i: int| 0 <= i < t.len() - 1 && t.drop_last()[i] == k;
                    assert(t[i] == k);
                    assert(t.contains(k));
                }
                if d1.contains(k) {
                    assert(t.contains(k));
                    let i = choose|i: int| 0 <= i < t.len() && t[i] == k;
                    assert(t.drop_last()[i] == k);
                }
            }
        }
        lemma_lists_unique(s.drop_last(), t.drop_last(), d1);
        assert(s =~= s.drop_last().push(s.last()));
        assert(t =~= t.drop_last().push(t.last()));
    }
}

/// A list of a set is its ascending list, as long as the set.
pub proof fn lemma_lists(s: Seq<u64>, d: Set<u64>)
    requires
        lists(s, d),
    ensures
        s == ascending(d),
        s.no_duplicates(),
        s.to_set() == d,
        s.len() == d.len(),
{
    lemma_lists_unique(s, ascending(d), d);
    assert(s.to_set() =~= d);
    s.unique_seq_to_set();
}

/// An ascending list with one more member.
proof fn lemma_entered(s: Seq<u64>, x: u64) -> (r: Seq<u64>)
    requires
        rises(s),
        !s.contains(x),
    ensures
        rises(r),
        forall|k: u64| #[trigger] r.contains(k) <==> s.contains(k) || k == x,
    decreases s.len(),
{
    if s.len() == 0 {
        let r = seq![x];
        assert(r[0] == x);
        r
    } else if s.last() < x {
        let r = s.push(x);
        assert forall|k: u64| #[trigger] r.contains(k) <==> s.contains(k) || k == x by {
            if s.contains(k) {
                let i = choose|i: int| 0 <= i < s.len() && s[i] == k;
                assert(r[i] == k);
            }
            assert(r[s.len() as int] == x);
        }
        r
    } else {
        let init = s.drop_last();
        assert forall|k: u64| #[trigger] init.contains(k) implies s.contains(k) && k < s.last() by {
            let i = choose|i: int| 0 <= i < init.len() && init[i] == k;
            assert(s[i] == k);
        }
        assert(s.contains(s.last()));
        let r0 = lemma_entered(init, x);
        let r = r0.push(s.last());
        assert forall|i: int, j: int| 0 <= i < j < r.len() implies r[i] < r[j] by {
            assert(r0.contains(r0[i]));
        }
        assert forall|k: u64| #[trigger] r.contains(k) <==> s.contains(k) || k == x by {
            if r.contains(k) {
                let i = choose|i: int| 0 <= i < r.len() && r[i] == k;
                if i < r0.len() {
                    assert(r0.contains(k));
                }
            }
            if s.contains(k) {
                let i = choose|i: int| 0 <= i < s.len() && s[i] == k;
                if i < init.len() {
                    assert(init[i] == k);
                    assert(init.contains(k));
                }
            }
            if r0.contains(k) {
                let i = choose|i: int| 0 <= i < r0.len() && r0[i] == k;
                assert(r[i] == k);
            }
            assert(r[r0.len() as int] == s.last());
        }
        r
    }
}

/// A finite set has an ascending list.
pub proof fn lemma_ascending(d: Set<u64>)
    requires
        d.finite(),
    ensures
        lists(ascending(d), d),
        ascending(d).len() == d.len(),
    decreases d.len(),
{
    if d.len() == 0 {
        assert(d =~= Set::empty());
        assert(lists(Seq::empty(), d));
    } else {
        let x = d.choose();
        let rest = d.remove(x);
        lemma_ascending(rest);
        let r = lemma_entered(ascending(rest), x);
        assert(lists(r, d));
    }
    lemma_lists(ascending(d), d);
}

proof fn lemma_increasing(keys: Seq<u64>)
    requires
        vstd::std_specs::btree::increasing_seq(keys),
    ensures
        rises(keys),
{
    assert(vstd::laws_cmp::obeys_cmp::<u64>());
    assert forall|i: int, j: int| 0 <= i < j < keys.len() implies keys[i] < keys[j] by {
        assert(keys[i].cmp_spec(&keys[j]) is Less);
    }
}

/// A table from 64-bit ids to values.
#[derive(Debug)]
#[verifier::reject_recursive_types(V)]
pub struct IdMap<V> {
    m: BTreeMap<u64, V>,
}

impl<V> View for IdMap<V> {
    type V = Map<u64, V>;

    closed spec fn view(&self) -> Map<u64, V> {
        self.m@
    }
}

impl<V> IdMap<V> {
    /// A table is finite.
    pub proof fn lemma_finite(&self)
        ensures
            self@.dom().finite(),
    {
    }

    pub fn new() -> (r: Self)
        ensures
            r@ == Map::<u64, V>::empty(),
    {
        IdMap { m: BTreeMap::new() }
    }

    pub fn len(&self) -> (n: usize)
        ensures
            n == self@.dom().len(),
            n == self@.len(),
    {
        self.m.len()
    }

    pub fn is_empty(&self) -> (b: bool)
        ensures
            b == (self@.dom() =~= Set::<u64>::empty()),
    {
        let n: usize = self.m.len();
        proof {
            if n == 0 {
                assert(self@.dom() =~= Set::<u64>::empty());
            }
        }
        n == 0
    }

    pub fn contains(&self, k: u64) -> (b: bool)
        ensures
            b == self@.contains_key(k),
    {
        self.m.contains_key(&k)
    }

    pub fn get(&self, k: u64) -> (r: Option<&V>)
        ensures
            r == (if self@.contains_key(k) {
                Some(&self@[k])
            } else {
                None
            }),
    {
        self.m.get(&k)
    }

    /// Sets the value of a key.
    pub fn insert(&mut self, k: u64, v: V)
        ensures
            final(self)@ == old(self)@.insert(k, v),
    {
        self.m.insert(k, v);
    }

    /// Takes a key out, and returns the value that it had.
    pub fn remove(&mut self, k: u64) -> (r: Option<V>)
        ensures
            final(self)@ == old(self)@.remove(k),
            r == (if old(self)@.contains_key(k) {
                Some(old(self)@[k])
            } else {
                None
            }),
    {
        self.m.remove(&k)
    }

    /// The keys in ascending order.
    pub fn keys(&self) -> (r: Vec<u64>)
        ensures
            lists(r@, self@.dom()),
            r@ == ascending(self@.dom()),
            r@.len() == self@.dom().len(),
    {
        let mut r: Vec<u64> = Vec::new();
        let iter = self.m.iter();
        let ghost items = iter.remaining();
        let ghost keys = items.map_values(|kv: (&u64, &V)| *kv.0);
        proof {
            lemma_increasing(keys);
            assert(lists(keys, self@.dom())) by {
                assert forall|k: u64| keys.contains(k) <==> self@.dom().contains(k) by {
                    if keys.contains(k) {
                        let i = choose|i: int| 0 <= i < keys.len() && keys[i] == k;
                        assert(self.m@.contains_key(*items[i].0));
                    }
                    if self@.dom().contains(k) {
                        assert(items.contains((&k, &self.m@[k])));
                        let i = choose|i: int|
                            0 <= i < items.len() && items[i] == (&k, &self.m@[k]);
                        assert(keys[i] == k);
                    }
                }
            }
        }
        for kv in it: iter
            invariant
                it.seq() == items,
                keys == items.map_values(|kv: (&u64, &V)| *kv.0),
                r@ == keys.take(it.index() as int),
        {
            r.push(*kv.0);
            proof {
                assert(keys.take(it.index() + 1) =~= keys.take(it.index() as int).push(*kv.0));
            }
        }
        proof {
            assert(r@ =~= keys);
            lemma_lists(r@, self@.dom());
        }
        r
    }
}

/// A set of 64-bit ids.
#[derive(Debug)]
pub struct IdSet {
    m: IdMap<()>,
}

impl View for IdSet {
    type V = Set<u64>;

    closed spec fn view(&self) -> Set<u64> {
        self.m@.dom()
    }
}

impl IdSet {
    /// A set is finite.
    pub proof fn lemma_finite(&self)
        ensures
            self@.finite(),
    {
        self.m.lemma_finite();
    }

    pub fn new() -> (r: Self)
        ensures
            r@ == Set::<u64>::empty(),
    {
        let r = IdSet { m: IdMap::new() };
        proof {
            assert(r@ =~= Set::<u64>::empty());
        }
        r
    }

    pub fn len(&self) -> (n: usize)
        ensures
            n == self@.len(),
    {
        self.m.len()
    }

    pub fn is_empty(&self) -> (b: bool)
        ensures
            b == (self@ =~= Set::<u64>::empty()),
            b == (self@.len() == 0),
    {
        self.m.is_empty()
    }

    pub fn contains(&self, k: u64) -> (b: bool)
        ensures
            b == self@.contains(k),
    {
        self.m.contains(k)
    }

    /// Adds a member, and tells whether it is new.
    pub fn insert(&mut self, k: u64) -> (b: bool)
        ensures
            final(self)@ == old(self)@.insert(k),
            b == !old(self)@.contains(k),
    {
        let b = !self.m.contains(k);
        self.m.insert(k, ());
        proof {
            assert(self@ =~= old(self)@.insert(k));
        }
        b
    }

    /// Takes a member out, and tells whether it was there.
    pub fn remove(&mut self, k: u64) -> (b: bool)
        ensures
            final(self)@ == old(self)@.remove(k),
            b == old(self)@.contains(k),
    {
        let r = self.m.remove(k);
        proof {
            assert(self@ =~= old(self)@.remove(k));
        }
        r.is_some()
    }

    /// The members in ascending order.
    pub fn items(&self) -> (r: Vec<u64>)
        ensures
            lists(r@, self@),
            r@ == ascending(self@),
            r@.len() == self@.len(),
    {
        self.m.keys()
    }

    /// The members that another set does not have, in ascending order.
    pub fn difference(&self, other: &IdSet) -> (r: Vec<u64>)
        ensures
            r@ == ascending(self@.difference(other@)),
            lists(r@, self@.difference(other@)),
    {
        let all = self.items();
        let mut r: Vec<u64> = Vec::new();
        let mut i: usize = 0;
        while i < all.len()
            invariant
                i <= all@.len(),
                lists(all@, self@),
                rises(r@),
                forall|k: u64| #[trigger]
                    r@.contains(k) <==> all@.take(i as int).contains(k) && !other@.contains(k),
            decreases all@.len() - i,
        {
            let k: u64 = all[i];
            let ghost before = r@;
            let ghost a = all@.take(i as int);
            let ghost b = all@.take(i + 1);
            proof {
                assert(b =~= a.push(k));
                assert forall|x: u64| b.contains(x) <==> a.contains(x) || x == k by {
                    if a.contains(x) {
                        let j = choose|j: int| 0 <= j < a.len() && a[j] == x;
                        assert(b[j] == x);
                    }
                    if b.contains(x) {
                        let j = choose|j: int| 0 <= j < b.len() && b[j] == x;
                        if j < a.len() {
                            assert(a[j] == x);
                        }
                    }
                    assert(b[i as int] == k);
                }
                assert forall|j: int| 0 <= j < before.len() implies before[j] < k by {
                    assert(before.contains(before[j]));
                    assert(a.contains(before[j]));
                    let x = choose|x: int| 0 <= x < a.len() && a[x] == before[j];
                    assert(all@[x] < all@[i as int]);
                }
            }
            if !other.contains(k) {
                r.push(k);
                proof {
                    assert forall|x: u64| #[trigger] r@.contains(x) <==> before.contains(x) || x
                        == k by {
                        if before.contains(x) {
                            let j = choose|j: int| 0 <= j < before.len() && before[j] == x;
                            assert(r@[j] == x);
                        }
                        if r@.contains(x) {
                            let j = choose|j: int| 0 <= j < r@.len() && r@[j] == x;
                            if j < before.len() {
                                assert(before[j] == x);
                            }
                        }
                        assert(r@[before.len() as int] == k);
                    }
                }
            }
            i = i + 1;
        }
        proof {
            assert(all@.take(i as int) =~= all@);
            assert forall|k: u64| #![trigger self@.difference(other@).contains(k)] #![trigger r@.contains(k)]
                r@.contains(k) <==> self@.difference(other@).contains(k) by {
                assert(all@.contains(k) <==> self@.contains(k));
            }
            lemma_lists(r@, self@.difference(other@));
        }
        r
    }

    /// Another set with the same members.
    pub fn duplicate(&self) -> (r: IdSet)
        ensures
            r@ == self@,
    {
        IdSet { m: IdMap { m: self.m.m.clone() } }
    }
}

} // verus!
