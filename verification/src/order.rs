//! Texts in the order of their bytes.

use crate::model::views;
use vstd::prelude::*;
use vstd::string::*;
use vstd::utf8::{encode_utf8, encode_utf8_decode_utf8};

verus! {

/// One sequence of bytes comes before another: at the first difference its byte
/// is smaller, or it ends first.
pub open spec fn bytes_before(a: Seq<u8>, b: Seq<u8>) -> bool
    decreases a.len(),
{
    if b.len() == 0 {
        false
    } else if a.len() == 0 {
        true
    } else if a[0] != b[0] {
        a[0] < b[0]
    } else {
        bytes_before(a.drop_first(), b.drop_first())
    }
}

/// One text comes before another, by their bytes.
pub open spec fn before(a: Seq<char>, b: Seq<char>) -> bool {
    bytes_before(encode_utf8(a), encode_utf8(b))
}

/// Does one text come before another?
pub fn is_before(a: &str, b: &str) -> (r: bool)
    ensures
        r == before(a@, b@),
{
    let x = a.as_bytes();
    let y = b.as_bytes();
    let mut i: usize = 0;
    proof {
        assert(x@.skip(0) =~= x@);
        assert(y@.skip(0) =~= y@);
    }
    while i < x.len() && i < y.len()
        invariant
            i <= x@.len(),
            i <= y@.len(),
            x@ == encode_utf8(a@),
            y@ == encode_utf8(b@),
            bytes_before(x@, y@) == bytes_before(x@.skip(i as int), y@.skip(i as int)),
        decreases x@.len() - i,
    {
        let ghost p = x@.skip(i as int);
        let ghost q = y@.skip(i as int);
        proof {
            assert(p[0] == x@[i as int]);
            assert(q[0] == y@[i as int]);
            assert(p.drop_first() =~= x@.skip(i + 1));
            assert(q.drop_first() =~= y@.skip(i + 1));
        }
        if x[i] != y[i] {
            return x[i] < y[i];
        }
        i = i + 1;
    }
    i < y.len()
}

proof fn lemma_bytes_before_irreflexive(a: Seq<u8>)
    ensures
        !bytes_before(a, a),
    decreases a.len(),
{
    if a.len() > 0 {
        lemma_bytes_before_irreflexive(a.drop_first());
    }
}

proof fn lemma_bytes_before_transitive(a: Seq<u8>, b: Seq<u8>, c: Seq<u8>)
    requires
        bytes_before(a, b),
        bytes_before(b, c),
    ensures
        bytes_before(a, c),
    decreases a.len(),
{
    if a.len() > 0 && b.len() > 0 && c.len() > 0 && a[0] == b[0] && b[0] == c[0] {
        lemma_bytes_before_transitive(a.drop_first(), b.drop_first(), c.drop_first());
    }
}

proof fn lemma_bytes_before_total(a: Seq<u8>, b: Seq<u8>)
    ensures
        bytes_before(a, b) || a == b || bytes_before(b, a),
    decreases a.len(),
{
    if a.len() > 0 && b.len() > 0 && a[0] == b[0] {
        lemma_bytes_before_total(a.drop_first(), b.drop_first());
        if a.drop_first() == b.drop_first() {
            assert(a =~= seq![a[0]] + a.drop_first());
            assert(b =~= seq![b[0]] + b.drop_first());
        }
    } else if a.len() == 0 && b.len() == 0 {
        assert(a =~= b);
    }
}

/// The order is strict and leaves no two different texts unordered.
pub proof fn lemma_order(a: Seq<char>, b: Seq<char>, c: Seq<char>)
    ensures
        !before(a, a),
        before(a, b) && before(b, c) ==> before(a, c),
        before(a, b) || a == b || before(b, a),
{
    lemma_bytes_before_irreflexive(encode_utf8(a));
    if before(a, b) && before(b, c) {
        lemma_bytes_before_transitive(encode_utf8(a), encode_utf8(b), encode_utf8(c));
    }
    lemma_bytes_before_total(encode_utf8(a), encode_utf8(b));
    if encode_utf8(a) == encode_utf8(b) {
        encode_utf8_decode_utf8(a);
        encode_utf8_decode_utf8(b);
    }
}

/// How many texts at the head of a list come before `t`.
pub open spec fn place(list: Seq<Seq<char>>, t: Seq<char>) -> int
    decreases list.len(),
{
    if list.len() > 0 && before(list[0], t) {
        1 + place(list.drop_first(), t)
    } else {
        0
    }
}

/// A list with a text at its place.
pub open spec fn placed(list: Seq<Seq<char>>, t: Seq<char>) -> Seq<Seq<char>> {
    list.insert(place(list, t), t)
}

/// A list with a text at its place, unless it is there.
pub open spec fn placed_once(list: Seq<Seq<char>>, t: Seq<char>) -> Seq<Seq<char>> {
    let p = place(list, t);
    if p < list.len() && list[p] == t {
        list
    } else {
        list.insert(p, t)
    }
}

/// Texts in order.
pub open spec fn sorted_texts(list: Seq<Seq<char>>) -> Seq<Seq<char>>
    decreases list.len(),
{
    if list.len() == 0 {
        Seq::empty()
    } else {
        placed(sorted_texts(list.drop_last()), list.last())
    }
}

/// The distinct texts among some, in order.
pub open spec fn distinct_texts(list: Seq<Seq<char>>) -> Seq<Seq<char>>
    decreases list.len(),
{
    if list.len() == 0 {
        Seq::empty()
    } else {
        placed_once(distinct_texts(list.drop_last()), list.last())
    }
}

pub proof fn lemma_place(list: Seq<Seq<char>>, t: Seq<char>)
    ensures
        0 <= place(list, t) <= list.len(),
        forall|i: int| 0 <= i < place(list, t) ==> before(#[trigger] list[i], t),
        place(list, t) < list.len() ==> !before(list[place(list, t)], t),
    decreases list.len(),
{
    if list.len() > 0 && before(list[0], t) {
        let rest = list.drop_first();
        lemma_place(rest, t);
        assert forall|i: int| 0 <= i < place(list, t) implies before(#[trigger] list[i], t) by {
            if i > 0 {
                assert(list[i] == rest[i - 1]);
            }
        }
    }
}

/// The place of a text in a list.
fn find_place(list: &Vec<String>, t: &str) -> (p: usize)
    ensures
        p == place(views(list@), t@),
        p <= list@.len(),
{
    let ghost all = views(list@);
    let mut p: usize = 0;
    proof {
        assert(all.skip(0) =~= all);
    }
    while p < list.len()
        invariant
            p <= list@.len(),
            all == views(list@),
            place(all, t@) == p + place(all.skip(p as int), t@),
        decreases list@.len() - p,
    {
        proof {
            assert(all.skip(p as int)[0] == list@[p as int]@);
            assert(all.skip(p as int).drop_first() =~= all.skip(p + 1));
        }
        if !is_before(list[p].as_str(), t) {
            return p;
        }
        p = p + 1;
    }
    p
}

/// Sorts texts.
pub fn sort_texts(list: &Vec<String>) -> (r: Vec<String>)
    ensures
        views(r@) == sorted_texts(views(list@)),
{
    let ghost all = views(list@);
    let mut r: Vec<String> = Vec::new();
    let mut i: usize = 0;
    proof {
        assert(views(r@) =~= sorted_texts(all.take(0)));
    }
    while i < list.len()
        invariant
            i <= list@.len(),
            all == views(list@),
            views(r@) == sorted_texts(all.take(i as int)),
        decreases list@.len() - i,
    {
        let p: usize = find_place(&r, list[i].as_str());
        let ghost r0 = views(r@);
        r.insert(p, list[i].clone());
        proof {
            assert(all.take(i + 1).drop_last() =~= all.take(i as int));
            assert(views(r@) =~= r0.insert(p as int, list@[i as int]@));
        }
        i = i + 1;
    }
    proof {
        assert(all.take(i as int) =~= all);
    }
    r
}

/// Sorts texts and keeps each once.
pub fn sort_distinct_texts(list: &Vec<String>) -> (r: Vec<String>)
    ensures
        views(r@) == distinct_texts(views(list@)),
{
    let ghost all = views(list@);
    let mut r: Vec<String> = Vec::new();
    let mut i: usize = 0;
    proof {
        assert(views(r@) =~= distinct_texts(all.take(0)));
    }
    while i < list.len()
        invariant
            i <= list@.len(),
            all == views(list@),
            views(r@) == distinct_texts(all.take(i as int)),
        decreases list@.len() - i,
    {
        let p: usize = find_place(&r, list[i].as_str());
        let ghost r0 = views(r@);
        proof {
            assert(all.take(i + 1).drop_last() =~= all.take(i as int));
        }
        if !(p < r.len() && r[p] == list[i]) {
            r.insert(p, list[i].clone());
            proof {
                assert(views(r@) =~= r0.insert(p as int, list@[i as int]@));
            }
        }
        i = i + 1;
    }
    proof {
        assert(all.take(i as int) =~= all);
    }
    r
}

/// Each text comes before the next.
pub open spec fn strictly_ordered(list: Seq<Seq<char>>) -> bool {
    forall|i: int, j: int| 0 <= i < j < list.len() ==> before(#[trigger] list[i], #[trigger] list[j])
}

/// No text comes before an earlier one.
pub open spec fn ordered(list: Seq<Seq<char>>) -> bool {
    forall|i: int, j: int|
        0 <= i < j < list.len() ==> !before(#[trigger] list[j], #[trigger] list[i])
}

/// Distinct texts come out in strict order, and are the ones that went in.
pub proof fn law_distinct_texts(list: Seq<Seq<char>>)
    ensures
        strictly_ordered(distinct_texts(list)),
        forall|t: Seq<char>| #[trigger] distinct_texts(list).contains(t) <==> list.contains(t),
    decreases list.len(),
{
    if list.len() > 0 {
        let init = list.drop_last();
        let t = list.last();
        law_distinct_texts(init);
        let d = distinct_texts(init);
        lemma_place(d, t);
        let p = place(d, t);
        let r = placed_once(d, t);
        if !(p < d.len() && d[p] == t) {
            assert forall|i: int, j: int| 0 <= i < j < r.len() implies before(
                #[trigger] r[i],
                #[trigger] r[j],
            ) by {
                if j == p {
                    assert(before(d[i], t));
                } else if i == p {
                    let x = d[j - 1];
                    assert(!before(d[p], t));
                    lemma_order(d[p], t, t);
                    if p < j - 1 {
                        assert(before(d[p], x));
                    }
                    lemma_order(t, d[p], x);
                } else {
                    let a = if i < p {
                        i
                    } else {
                        i - 1
                    };
                    let b = if j < p {
                        j
                    } else {
                        j - 1
                    };
                    assert(before(d[a], d[b]));
                }
            }
            assert(r[p] == t);
        }
        assert forall|x: Seq<char>| #[trigger] r.contains(x) <==> list.contains(x) by {
            if r.contains(x) {
                let i = choose|i: int| 0 <= i < r.len() && r[i] == x;
                if x != t {
                    let y = if r == d || i < p {
                        i
                    } else {
                        i - 1
                    };
                    assert(d[y] == x);
                    assert(d.contains(x));
                    let z = choose|z: int| 0 <= z < init.len() && init[z] == x;
                    assert(list[z] == x);
                } else {
                    assert(list[list.len() - 1] == x);
                }
            }
            if list.contains(x) {
                let i = choose|i: int| 0 <= i < list.len() && list[i] == x;
                if i < init.len() {
                    assert(init[i] == x);
                    assert(d.contains(x));
                    let y = choose|y: int| 0 <= y < d.len() && d[y] == x;
                    if r != d {
                        if y < p {
                            assert(r[y] == x);
                        } else {
                            assert(r[y + 1] == x);
                        }
                    }
                } else {
                    assert(r[p] == x);
                }
            }
        }
    }
}

/// Sorted texts are in order, and as many of each as went in.
pub proof fn law_sorted_texts(list: Seq<Seq<char>>)
    ensures
        ordered(sorted_texts(list)),
        sorted_texts(list).to_multiset() == list.to_multiset(),
    decreases list.len(),
{
    broadcast use vstd::seq_lib::group_to_multiset_ensures;

    if list.len() > 0 {
        let init = list.drop_last();
        let t = list.last();
        law_sorted_texts(init);
        let d = sorted_texts(init);
        lemma_place(d, t);
        let p = place(d, t);
        let r = placed(d, t);
        assert forall|i: int, j: int| 0 <= i < j < r.len() implies !before(
            #[trigger] r[j],
            #[trigger] r[i],
        ) by {
            if j == p {
                assert(before(d[i], t));
                lemma_order(d[i], t, d[i]);
            } else if i == p {
                let x = d[j - 1];
                if p < j - 1 {
                    assert(!before(x, d[p]));
                }
                lemma_order(x, d[p], t);
                lemma_order(d[p], x, t);
                lemma_order(x, t, d[p]);
            } else {
                let a = if i < p {
                    i
                } else {
                    i - 1
                };
                let b = if j < p {
                    j
                } else {
                    j - 1
                };
                assert(!before(d[b], d[a]));
            }
        }
        assert(list =~= init.push(t));
        assert(r[p] == t);
        assert(r.remove(p) =~= d);
        r.to_multiset_ensures();
        assert(r.to_multiset().count(t) > 0);
        assert(r.to_multiset() =~= d.to_multiset().insert(t));
    } else {
        assert(list =~= Seq::empty());
    }
}

/// A list has the texts of a set, each once, in order.
pub open spec fn lists_texts(list: Seq<Seq<char>>, d: Set<Seq<char>>) -> bool {
    &&& strictly_ordered(list)
    &&& forall|t: Seq<char>| #![trigger d.contains(t)] #![trigger list.contains(t)]
        list.contains(t) <==> d.contains(t)
}

/// The texts of a set, in order.
pub open spec fn in_order(d: Set<Seq<char>>) -> Seq<Seq<char>> {
    choose|list: Seq<Seq<char>>| lists_texts(list, d)
}

/// There is one ordered list of a set.
pub proof fn lemma_lists_texts(s: Seq<Seq<char>>, t: Seq<Seq<char>>, d: Set<Seq<char>>)
    requires
        lists_texts(s, d),
        lists_texts(t, d),
    ensures
        s == t,
    decreases s.len(),
{
    if s.len() == 0 {
        if t.len() > 0 {
            assert(t.contains(t[0]));
            assert(d.contains(t[0]));
            assert(s.contains(t[0]));
        }
        assert(s =~= t);
    } else {
        assert(s.contains(s[s.len() - 1]));
        assert(d.contains(s.last()));
        assert(t.contains(s.last()));
        assert(t.contains(t[t.len() - 1]));
        assert(d.contains(t.last()));
        assert(s.contains(t.last()));
        let i = choose|i: int| 0 <= i < t.len() && t[i] == s.last();
        let j = choose|j: int| 0 <= j < s.len() && s[j] == t.last();
        lemma_order(s.last(), t.last(), s.last());
        lemma_order(s.last(), s.last(), s.last());
        if s.last() != t.last() {
            assert(before(t[i], t[t.len() - 1]));
            assert(before(s[j], s[s.len() - 1]));
        }
        let last = s.last();
        let d1 = d.remove(last);
        assert(lists_texts(s.drop_last(), d1)) by {
            lemma_drop_text(s, d);
        }
        assert(lists_texts(t.drop_last(), d1)) by {
            lemma_drop_text(t, d);
        }
        lemma_lists_texts(s.drop_last(), t.drop_last(), d1);
        assert(s =~= s.drop_last().push(last));
        assert(t =~= t.drop_last().push(last));
    }
}

proof fn lemma_drop_text(s: Seq<Seq<char>>, d: Set<Seq<char>>)
    requires
        lists_texts(s, d),
        s.len() > 0,
    ensures
        lists_texts(s.drop_last(), d.remove(s.last())),
{
    let init = s.drop_last();
    let d1 = d.remove(s.last());
    assert forall|i: int, j: int| 0 <= i < j < init.len() implies before(
        #[trigger] init[i],
        #[trigger] init[j],
    ) by {
        assert(before(s[i], s[j]));
    }
    assert forall|t: Seq<char>| #![trigger d1.contains(t)] #![trigger init.contains(t)]
        init.contains(t) <==> d1.contains(t) by {
        if init.contains(t) {
            let i = choose|i: int| 0 <= i < init.len() && init[i] == t;
            assert(s[i] == t);
            assert(s.contains(t));
            assert(before(s[i], s[s.len() - 1]));
            lemma_order(t, t, t);
        }
        if d1.contains(t) {
            assert(s.contains(t));
            let i = choose|i: int| 0 <= i < s.len() && s[i] == t;
            assert(init[i] == t);
        }
    }
}

/// The distinct texts of a list are those of its set, in order.
pub proof fn lemma_in_order(list: Seq<Seq<char>>, d: Set<Seq<char>>)
    requires
        forall|t: Seq<char>| #[trigger] list.contains(t) <==> d.contains(t),
    ensures
        distinct_texts(list) == in_order(d),
        lists_texts(in_order(d), d),
{
    law_distinct_texts(list);
    let s = distinct_texts(list);
    assert forall|t: Seq<char>| #![trigger d.contains(t)] #![trigger s.contains(t)]
        s.contains(t) <==> d.contains(t) by {
        assert(s.contains(t) <==> list.contains(t));
    }
    assert(lists_texts(s, d));
    lemma_lists_texts(s, in_order(d), d);
}

/// A finite set of texts has an ordered list, as long as the set.
pub proof fn lemma_set_in_order(d: Set<Seq<char>>)
    requires
        d.finite(),
    ensures
        lists_texts(in_order(d), d),
        in_order(d).len() == d.len(),
{
    let list = d.to_seq();
    d.lemma_to_seq_to_set_id();
    assert forall|t: Seq<char>| #[trigger] list.contains(t) <==> d.contains(t) by {
        assert(list.to_set().contains(t) <==> d.contains(t));
    }
    lemma_in_order(list, d);
    let names = in_order(d);
    assert(names.no_duplicates()) by {
        assert forall|i: int, j: int|
            0 <= i < names.len() && 0 <= j < names.len() && i != j implies names[i] != names[j] by {
            lemma_order(names[i], names[j], names[j]);
            if i < j {
                assert(before(names[i], names[j]));
            } else {
                assert(before(names[j], names[i]));
            }
        }
    }
    assert(names.to_set() =~= d) by {
        assert forall|t: Seq<char>| names.to_set().contains(t) <==> d.contains(t) by {
            assert(names.contains(t) <==> d.contains(t));
        }
    }
    names.unique_seq_to_set();
}

/// Two sequences of bytes agree up to a place, at which the first ends and the second
/// does not, or has the smaller byte.
pub open spec fn smaller_at(a: Seq<u8>, b: Seq<u8>, k: int) -> bool {
    &&& 0 <= k <= a.len() && k < b.len()
    &&& forall|i: int| 0 <= i < k ==> #[trigger] a[i] == b[i]
    &&& k == a.len() || a[k] < b[k]
}

proof fn lemma_smaller(a: Seq<u8>, b: Seq<u8>)
    ensures
        bytes_before(a, b) <==> exists|k: int| #[trigger] smaller_at(a, b, k),
    decreases a.len(),
{
    if b.len() == 0 {
    } else if a.len() == 0 {
        assert(smaller_at(a, b, 0));
    } else if a[0] != b[0] {
        if a[0] < b[0] {
            assert(smaller_at(a, b, 0));
        }
        assert forall|k: int| #[trigger] smaller_at(a, b, k) implies a[0] < b[0] by {
            if k > 0 {
                assert(a[0] == b[0]);
            }
        }
    } else {
        let x = a.drop_first();
        let y = b.drop_first();
        lemma_smaller(x, y);
        if bytes_before(x, y) {
            let k = choose|k: int| #[trigger] smaller_at(x, y, k);
            assert forall|i: int| 0 <= i < k + 1 implies #[trigger] a[i] == b[i] by {
                if i > 0 {
                    assert(x[i - 1] == y[i - 1]);
                }
            }
            assert(smaller_at(a, b, k + 1));
        }
        if exists|k: int| #[trigger] smaller_at(a, b, k) {
            let k = choose|k: int| #[trigger] smaller_at(a, b, k);
            assert(k > 0);
            assert forall|i: int| 0 <= i < k - 1 implies #[trigger] x[i] == y[i] by {
                assert(a[i + 1] == b[i + 1]);
            }
            assert(smaller_at(x, y, k - 1));
        }
    }
}

/// A text comes before another where, at the first place at which their bytes differ,
/// its byte is the smaller one, or where it is the start of the other.
pub proof fn law_texts_are_ordered_by_their_bytes(a: Seq<char>, b: Seq<char>)
    ensures
        before(a, b) <==> exists|k: int| #[trigger]
            smaller_at(encode_utf8(a), encode_utf8(b), k),
{
    lemma_smaller(encode_utf8(a), encode_utf8(b));
}

} // verus!
