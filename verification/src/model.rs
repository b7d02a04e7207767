//! Models of collections: what their items stand for, in contracts.

use vstd::prelude::*;

verus! {

/// The models of the items of a sequence, in order.
pub open spec fn views<T: View>(s: Seq<T>) -> Seq<T::V> {
    Seq::new(s.len(), |i: int| s[i]@)
}

/// The model of an optional value.
pub open spec fn opt_view<T: View>(o: Option<T>) -> Option<T::V> {
    match o {
        Some(t) => Some(t@),
        None => None,
    }
}

/// A count as large as a word holds.
pub open spec fn capped(n: int) -> int {
    if n > usize::MAX {
        usize::MAX as int
    } else {
        n
    }
}

pub broadcast proof fn lemma_views_push<T: View>(s: Seq<T>, t: T)
    ensures
        #[trigger] views(s.push(t)) == views(s).push(t@),
{
    assert(views(s.push(t)) =~= views(s).push(t@));
}

/// The models of the values of a map.
pub open spec fn map_views<K, T: View>(m: Map<K, T>) -> Map<K, T::V> {
    Map::new(|k: K| m.contains_key(k), |k: K| m[k]@)
}

pub broadcast proof fn lemma_map_views_insert<K, T: View>(m: Map<K, T>, k: K, t: T)
    ensures
        #[trigger] map_views(m.insert(k, t)) == map_views(m).insert(k, t@),
{
    assert(map_views(m.insert(k, t)) =~= map_views(m).insert(k, t@));
}

pub broadcast proof fn lemma_map_views_remove<K, T: View>(m: Map<K, T>, k: K)
    ensures
        #[trigger] map_views(m.remove(k)) == map_views(m).remove(k),
{
    assert(map_views(m.remove(k)) =~= map_views(m).remove(k));
}

pub broadcast proof fn lemma_map_views_empty<K, T: View>()
    ensures
        #[trigger] map_views(Map::<K, T>::empty()) == Map::<K, T::V>::empty(),
{
    assert(map_views(Map::<K, T>::empty()) =~= Map::<K, T::V>::empty());
}

/// The models of the optional values of a map.
pub open spec fn opt_views<K, T: View>(m: Map<K, Option<T>>) -> Map<K, Option<T::V>> {
    Map::new(|k: K| m.contains_key(k), |k: K| opt_view(m[k]))
}

pub broadcast proof fn lemma_opt_views_insert<K, T: View>(m: Map<K, Option<T>>, k: K, t: Option<T>)
    ensures
        #[trigger] opt_views(m.insert(k, t)) == opt_views(m).insert(k, opt_view(t)),
{
    assert(opt_views(m.insert(k, t)) =~= opt_views(m).insert(k, opt_view(t)));
}

pub broadcast proof fn lemma_opt_views_remove<K, T: View>(m: Map<K, Option<T>>, k: K)
    ensures
        #[trigger] opt_views(m.remove(k)) == opt_views(m).remove(k),
{
    assert(opt_views(m.remove(k)) =~= opt_views(m).remove(k));
}

pub broadcast proof fn lemma_opt_views_empty<K, T: View>()
    ensures
        #[trigger] opt_views(Map::<K, Option<T>>::empty()) == Map::<K, Option<T::V>>::empty(),
{
    assert(opt_views(Map::<K, Option<T>>::empty()) =~= Map::<K, Option<T::V>>::empty());
}

/// To take a key out and put it back is to set it.
pub broadcast proof fn lemma_remove_insert<K, T>(m: Map<K, T>, k: K, t: T)
    ensures
        #[trigger] m.remove(k).insert(k, t) == m.insert(k, t),
{
    assert(m.remove(k).insert(k, t) =~= m.insert(k, t));
}

/// To set a key to the value that it has changes nothing.
pub proof fn lemma_insert_same<K, T>(m: Map<K, T>, k: K)
    requires
        m.contains_key(k),
    ensures
        m.insert(k, m[k]) == m,
{
    assert(m.insert(k, m[k]) =~= m);
}

pub broadcast group group_models {
    lemma_views_push,
    lemma_map_views_insert,
    lemma_map_views_remove,
    lemma_map_views_empty,
    lemma_opt_views_insert,
    lemma_opt_views_remove,
    lemma_opt_views_empty,
    lemma_remove_insert,
}

/// A count is told as it is, up to the largest that there is.
pub proof fn law_counts_stop_at_the_largest(n: int)
    requires
        0 <= n,
    ensures
        n <= usize::MAX ==> capped(n) == n,
        n > usize::MAX ==> capped(n) == usize::MAX,
{
}

/// What a filter holds of is kept.
pub proof fn lemma_filter_keeps<A>(s: Seq<A>, f: spec_fn(A) -> bool, a: int)
    requires
        0 <= a < s.len(),
        f(s[a]),
    ensures
        s.filter(f).contains(s[a]),
    decreases s.len(),
{
    reveal(Seq::filter);
    let init = s.drop_last().filter(f);
    if a == s.len() - 1 {
        assert(s.filter(f)[init.len() as int] == s[a]);
    } else {
        lemma_filter_keeps(s.drop_last(), f, a);
        assert(s.drop_last()[a] == s[a]);
        let i = choose|i: int| 0 <= i < init.len() && init[i] == s[a];
        assert(s.filter(f)[i] == s[a]);
    }
}

/// What is kept was there, and the filter holds of it.
pub proof fn lemma_filter_from<A>(s: Seq<A>, f: spec_fn(A) -> bool, i: int)
    requires
        0 <= i < s.filter(f).len(),
    ensures
        s.contains(s.filter(f)[i]),
        f(s.filter(f)[i]),
    decreases s.len(),
{
    reveal(Seq::filter);
    let init = s.drop_last();
    if i < init.filter(f).len() {
        lemma_filter_from(init, f, i);
        assert(s.filter(f)[i] == init.filter(f)[i]);
        let a = choose|a: int| 0 <= a < init.len() && init[a] == init.filter(f)[i];
        assert(s[a] == init[a]);
    } else {
        assert(s[s.len() - 1] == s.last());
    }
}

} // verus!
