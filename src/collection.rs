//! Trimming of the strings of a collection, with or without dropping those
//! that end up empty, for each kind of collection a field may have.
//!
//! Sequences, double-ended queues and linked lists keep the order of their
//! elements. A priority queue is handed over as its elements and rebuilt by
//! the caller, so its order comes from the trimmed values. A set (ordered or
//! hashed) is handed over as its elements; the result holds each trimmed value
//! once, so values that trim to the same string merge.

use crate::trim::{lemma_trimmed_idempotent, string_trim, trimmed};
use std::collections::VecDeque;
use vstd::prelude::*;

verus! {

/// The characters of each string.
pub open spec fn views(v: Seq<String>) -> Seq<Seq<char>> {
    v.map_values(|s: String| s@)
}

/// Each string trimmed, none left out.
pub open spec fn trim_each(v: Seq<Seq<char>>) -> Seq<Seq<char>> {
    v.map_values(|s: Seq<char>| trimmed(s))
}

/// Each string trimmed, in order, leaving out those that end up empty.
pub open spec fn trim_non_empty(v: Seq<Seq<char>>) -> Seq<Seq<char>>
    decreases v.len(),
{
    if v.len() == 0 {
        Seq::empty()
    } else {
        let rest = trim_non_empty(v.drop_last());
        if trimmed(v.last()).len() > 0 {
            rest.push(trimmed(v.last()))
        } else {
            rest
        }
    }
}

/// The first occurrence of each value, in order.
pub open spec fn distinct(v: Seq<Seq<char>>) -> Seq<Seq<char>>
    decreases v.len(),
{
    if v.len() == 0 {
        Seq::empty()
    } else {
        let rest = distinct(v.drop_last());
        if rest.contains(v.last()) {
            rest
        } else {
            rest.push(v.last())
        }
    }
}

proof fn lemma_views_push(v: Seq<String>, s: String)
    ensures
        views(v.push(s)) == views(v).push(s@),
{
    assert(views(v.push(s)) =~= views(v).push(s@));
}

/// Trims every element of a sequence and keeps them all, in order.
pub fn collection_trim(items: Vec<String>) -> (r: Vec<String>)
    ensures
        views(r@) == trim_each(views(items@)),
{
    let mut out: Vec<String> = Vec::new();
    let mut i: usize = 0;
    while i < items.len()
        invariant
            i <= items.len(),
            out@.len() == i,
            forall|k: int| 0 <= k < i ==> #[trigger] out@[k]@ == trimmed(items@[k]@),
        decreases items.len() - i,
    {
        let t = string_trim(items[i].clone());
        out.push(t);
        i += 1;
    }
    assert(views(out@) =~= trim_each(views(items@)));
    out
}

/// Trims every element of a sequence and keeps, in order, those that are
/// not empty afterwards.
pub fn collection_non_empty_trim(items: Vec<String>) -> (r: Vec<String>)
    ensures
        views(r@) == trim_non_empty(views(items@)),
{
    let mut out: Vec<String> = Vec::new();
    let mut i: usize = 0;
    while i < items.len()
        invariant
            i <= items.len(),
            views(out@) == trim_non_empty(views(items@).subrange(0, i as int)),
        decreases items.len() - i,
    {
        let t = string_trim(items[i].clone());
        let ghost before = views(items@).subrange(0, i as int);
        let ghost after = views(items@).subrange(0, i + 1);
        assert(after.drop_last() =~= before);
        assert(after.last() == items@[i as int]@);
        if !t.as_str().is_empty() {
            proof {
                lemma_views_push(out@, t);
            }
            out.push(t);
        }
        i += 1;
    }
    assert(views(items@).subrange(0, items@.len() as int) =~= views(items@));
    out
}

/// Keeps the first occurrence of each string, in order.
fn dedup(items: Vec<String>) -> (r: Vec<String>)
    ensures
        views(r@) == distinct(views(items@)),
{
    let mut out: Vec<String> = Vec::new();
    let mut i: usize = 0;
    while i < items.len()
        invariant
            i <= items.len(),
            views(out@) == distinct(views(items@).subrange(0, i as int)),
        decreases items.len() - i,
    {
        let ghost before = views(items@).subrange(0, i as int);
        let ghost after = views(items@).subrange(0, i + 1);
        assert(after.drop_last() =~= before);
        assert(after.last() == items@[i as int]@);
        let mut found = false;
        let mut j: usize = 0;
        while j < out.len()
            invariant
                i < items.len(),
                j <= out@.len(),
                found <==> exists|k: int| 0 <= k < j && out@[k]@ == items@[i as int]@,
            decreases out.len() - j,
        {
            if out[j] == items[i] {
                found = true;
            }
            j += 1;
        }
        assert(found <==> views(out@).contains(items@[i as int]@)) by {
            if found {
                let k = choose|k: int| 0 <= k < out@.len() && out@[k]@ == items@[i as int]@;
                assert(views(out@)[k] == items@[i as int]@);
            }
            if views(out@).contains(items@[i as int]@) {
                let k = choose|k: int| 0 <= k < views(out@).len() && views(out@)[k] == items@[i as int]@;
                assert(out@[k]@ == items@[i as int]@);
            }
        }
        if !found {
            let s = items[i].clone();
            proof {
                lemma_views_push(out@, s);
            }
            out.push(s);
        }
        i += 1;
    }
    assert(views(items@).subrange(0, items@.len() as int) =~= views(items@));
    out
}

/// Copies the elements of a deque, in order, into a vector.
fn deque_to_vec(items: &VecDeque<String>) -> (r: Vec<String>)
    ensures
        r@ == items@,
{
    let mut out: Vec<String> = Vec::new();
    let mut i: usize = 0;
    while i < items.len()
        invariant
            i <= items@.len(),
            out@ == items@.subrange(0, i as int),
        decreases items@.len() - i,
    {
        out.push(items[i].clone());
        assert(out@ =~= items@.subrange(0, i + 1));
        i += 1;
    }
    assert(out@ =~= items@);
    out
}

/// Moves the elements of a vector, in order, into a deque.
fn vec_to_deque(items: Vec<String>) -> (r: VecDeque<String>)
    ensures
        r@ == items@,
{
    let mut out: VecDeque<String> = VecDeque::new();
    let mut i: usize = 0;
    while i < items.len()
        invariant
            i <= items@.len(),
            out@ == items@.subrange(0, i as int),
        decreases items@.len() - i,
    {
        out.push_back(items[i].clone());
        assert(out@ =~= items@.subrange(0, i + 1));
        i += 1;
    }
    assert(out@ =~= items@);
    out
}

/// Sequence kind, empty strings kept.
pub fn vec_string_trim(items: Vec<String>) -> (r: Vec<String>)
    ensures
        views(r@) == trim_each(views(items@)),
{
    collection_trim(items)
}

/// Sequence kind, empty strings dropped.
pub fn vec_non_empty_string_trim(items: Vec<String>) -> (r: Vec<String>)
    ensures
        views(r@) == trim_non_empty(views(items@)),
{
    collection_non_empty_trim(items)
}

/// Double-ended queue kind, empty strings kept.
pub fn vecdeque_string_trim(items: VecDeque<String>) -> (r: VecDeque<String>)
    ensures
        views(r@) == trim_each(views(items@)),
{
    vec_to_deque(collection_trim(deque_to_vec(&items)))
}

/// Double-ended queue kind, empty strings dropped.
pub fn vecdeque_non_empty_string_trim(items: VecDeque<String>) -> (r: VecDeque<String>)
    ensures
        views(r@) == trim_non_empty(views(items@)),
{
    vec_to_deque(collection_non_empty_trim(deque_to_vec(&items)))
}

/// Linked-list kind, given and returned as its elements in list order;
/// empty strings kept.
pub fn linkedlist_string_trim(items: Vec<String>) -> (r: Vec<String>)
    ensures
        views(r@) == trim_each(views(items@)),
{
    collection_trim(items)
}

/// Linked-list kind, given and returned as its elements in list order;
/// empty strings dropped.
pub fn linkedlist_non_empty_string_trim(items: Vec<String>) -> (r: Vec<String>)
    ensures
        views(r@) == trim_non_empty(views(items@)),
{
    collection_non_empty_trim(items)
}

/// Priority-queue kind: the elements to build the queue from, trimmed, so
/// that the queue orders them by their trimmed values; empty strings kept.
pub fn binaryheap_string_trim(items: Vec<String>) -> (r: Vec<String>)
    ensures
        views(r@) == trim_each(views(items@)),
{
    collection_trim(items)
}

/// Priority-queue kind: the elements to build the queue from, trimmed;
/// empty strings dropped.
pub fn binaryheap_non_empty_string_trim(items: Vec<String>) -> (r: Vec<String>)
    ensures
        views(r@) == trim_non_empty(views(items@)),
{
    collection_non_empty_trim(items)
}

/// Ordered-set kind: the members of the set, each trimmed value once, in
/// the order of first occurrence; empty strings kept.
pub fn btreeset_string_trim(items: Vec<String>) -> (r: Vec<String>)
    ensures
        views(r@) == distinct(trim_each(views(items@))),
{
    dedup(collection_trim(items))
}

/// Ordered-set kind: the members of the set, each trimmed value once;
/// empty strings dropped.
pub fn btreeset_non_empty_string_trim(items: Vec<String>) -> (r: Vec<String>)
    ensures
        views(r@) == distinct(trim_non_empty(views(items@))),
{
    dedup(collection_non_empty_trim(items))
}

/// Hash-set kind: the members of the set, each trimmed value once, in the
/// order of first occurrence; empty strings kept.
pub fn hashset_string_trim(items: Vec<String>) -> (r: Vec<String>)
    ensures
        views(r@) == distinct(trim_each(views(items@))),
{
    dedup(collection_trim(items))
}

/// Hash-set kind: the members of the set, each trimmed value once;
/// empty strings dropped.
pub fn hashset_non_empty_string_trim(items: Vec<String>) -> (r: Vec<String>)
    ensures
        views(r@) == distinct(trim_non_empty(views(items@))),
{
    dedup(collection_non_empty_trim(items))
}

proof fn lemma_distinct(v: Seq<Seq<char>>)
    ensures
        distinct(v).no_duplicates(),
        forall|x: Seq<char>|
            #![trigger distinct(v).contains(x)]
            #![trigger v.contains(x)]
            distinct(v).contains(x) <==> v.contains(x),
    decreases v.len(),
{
    if v.len() > 0 {
        let w = v.drop_last();
        lemma_distinct(w);
        assert forall|x: Seq<char>| v.contains(x) <==> w.contains(x) || x == v.last() by {
            if v.contains(x) && x != v.last() {
                let k = choose|k: int| 0 <= k < v.len() && v[k] == x;
                assert(w[k] == x);
            }
            if w.contains(x) {
                let k = choose|k: int| 0 <= k < w.len() && w[k] == x;
                assert(v[k] == x);
            }
            if x == v.last() {
                assert(v[v.len() - 1] == x);
            }
        }
        let d = distinct(w);
        if !d.contains(v.last()) {
            assert forall|x: Seq<char>| d.push(v.last()).contains(x) <==> d.contains(x) || x == v.last() by {
                if d.push(v.last()).contains(x) && x != v.last() {
                    let k = choose|k: int| 0 <= k < d.len() + 1 && d.push(v.last())[k] == x;
                    assert(d[k] == x);
                }
                if d.contains(x) {
                    let k = choose|k: int| 0 <= k < d.len() && d[k] == x;
                    assert(d.push(v.last())[k] == x);
                }
                if x == v.last() {
                    assert(d.push(v.last())[d.len() as int] == x);
                }
            }
        }
    }
}

proof fn lemma_distinct_unique(v: Seq<Seq<char>>)
    requires
        v.no_duplicates(),
    ensures
        distinct(v) == v,
    decreases v.len(),
{
    if v.len() > 0 {
        let w = v.drop_last();
        assert(w.no_duplicates());
        lemma_distinct_unique(w);
        if w.contains(v.last()) {
            let k = choose|k: int| 0 <= k < w.len() && w[k] == v.last();
            assert(v[k] == v[v.len() - 1]);
        }
        assert(w.push(v.last()) =~= v);
    }
}

proof fn lemma_trim_non_empty_contains(v: Seq<Seq<char>>)
    ensures
        forall|x: Seq<char>|
            #![trigger trim_non_empty(v).contains(x)]
            #![trigger trim_each(v).contains(x)]
            trim_non_empty(v).contains(x) <==> (x.len() > 0 && trim_each(v).contains(x)),
    decreases v.len(),
{
    if v.len() > 0 {
        let w = v.drop_last();
        lemma_trim_non_empty_contains(w);
        let t = trimmed(v.last());
        assert(trim_each(v) =~= trim_each(w).push(t));
        let r = trim_non_empty(w);
        assert forall|x: Seq<char>| trim_each(w).push(t).contains(x) <==> trim_each(w).contains(x) || x == t by {
            let s = trim_each(w);
            if s.push(t).contains(x) && x != t {
                let k = choose|k: int| 0 <= k < s.len() + 1 && s.push(t)[k] == x;
                assert(s[k] == x);
            }
            if s.contains(x) {
                let k = choose|k: int| 0 <= k < s.len() && s[k] == x;
                assert(s.push(t)[k] == x);
            }
            if x == t {
                assert(s.push(t)[s.len() as int] == x);
            }
        }
        if t.len() > 0 {
            assert forall|x: Seq<char>| r.push(t).contains(x) <==> r.contains(x) || x == t by {
                if r.push(t).contains(x) && x != t {
                    let k = choose|k: int| 0 <= k < r.len() + 1 && r.push(t)[k] == x;
                    assert(r[k] == x);
                }
                if r.contains(x) {
                    let k = choose|k: int| 0 <= k < r.len() && r[k] == x;
                    assert(r.push(t)[k] == x);
                }
                if x == t {
                    assert(r.push(t)[r.len() as int] == x);
                }
            }
        }
        assert forall|x: Seq<char>|
            trim_non_empty(v).contains(x) <==> (x.len() > 0 && trim_each(v).contains(x)) by {
            assert(trim_each(w).push(t).contains(x) <==> trim_each(w).contains(x) || x == t);
            assert(r.contains(x) <==> (x.len() > 0 && trim_each(w).contains(x)));
            if t.len() > 0 {
                assert(r.push(t).contains(x) <==> r.contains(x) || x == t);
            }
        }
    }
}

/// Every element of `v` is trimmed and not empty.
pub open spec fn all_trimmed_non_empty(v: Seq<Seq<char>>) -> bool {
    forall|i: int| 0 <= i < v.len() ==> #[trigger] trimmed(v[i]) == v[i] && v[i].len() > 0
}

proof fn lemma_trim_each_fixed(v: Seq<Seq<char>>)
    requires
        forall|i: int| 0 <= i < v.len() ==> #[trigger] trimmed(v[i]) == v[i],
    ensures
        trim_each(v) == v,
{
    assert(trim_each(v) =~= v);
}

proof fn lemma_trim_non_empty_fixed(v: Seq<Seq<char>>)
    requires
        all_trimmed_non_empty(v),
    ensures
        trim_non_empty(v) == v,
    decreases v.len(),
{
    if v.len() > 0 {
        let w = v.drop_last();
        assert forall|i: int| 0 <= i < w.len() implies #[trigger] trimmed(w[i]) == w[i] && w[i].len() > 0 by {
            assert(w[i] == v[i]);
        }
        lemma_trim_non_empty_fixed(w);
        assert(trimmed(v[v.len() - 1]) == v[v.len() - 1]);
        assert(w.push(v.last()) =~= v);
    }
}

proof fn lemma_trim_each_trimmed(v: Seq<Seq<char>>)
    ensures
        forall|i: int| 0 <= i < v.len() ==> #[trigger] trim_each(v)[i] == trimmed(v[i]),
        forall|i: int|
            0 <= i < trim_each(v).len() ==> #[trigger] trimmed(trim_each(v)[i]) == trim_each(v)[i],
{
    assert forall|i: int| 0 <= i < trim_each(v).len() implies #[trigger] trimmed(trim_each(v)[i])
        == trim_each(v)[i] by {
        lemma_trimmed_idempotent(v[i]);
    }
}

proof fn lemma_trim_non_empty_trimmed(v: Seq<Seq<char>>)
    ensures
        all_trimmed_non_empty(trim_non_empty(v)),
{
    let r = trim_non_empty(v);
    lemma_trim_non_empty_contains(v);
    lemma_trim_each_trimmed(v);
    assert forall|i: int| 0 <= i < r.len() implies #[trigger] trimmed(r[i]) == r[i] && r[i].len() > 0 by {
        assert(r.contains(r[i]));
        let k = choose|k: int| 0 <= k < trim_each(v).len() && trim_each(v)[k] == r[i];
        assert(trimmed(trim_each(v)[k]) == trim_each(v)[k]);
    }
}

/// Keeping empty strings: one result per element, in order, each the
/// element trimmed; as a set, each trimmed value once, and exactly the
/// values that some element trims to.
pub proof fn lemma_keep_empty(v: Seq<Seq<char>>)
    ensures
        trim_each(v).len() == v.len(),
        forall|i: int| 0 <= i < v.len() ==> #[trigger] trim_each(v)[i] == trimmed(v[i]),
        distinct(trim_each(v)).no_duplicates(),
        forall|x: Seq<char>|
            #[trigger] distinct(trim_each(v)).contains(x) <==> exists|i: int|
                0 <= i < v.len() && x == trimmed(v[i]),
{
    lemma_distinct(trim_each(v));
    assert forall|x: Seq<char>| #[trigger] distinct(trim_each(v)).contains(x) implies exists|i: int|
        0 <= i < v.len() && x == trimmed(v[i]) by {
        assert(trim_each(v).contains(x));
        let k = choose|k: int| 0 <= k < trim_each(v).len() && trim_each(v)[k] == x;
        assert(x == trimmed(v[k]));
    }
    assert forall|x: Seq<char>| (exists|i: int| 0 <= i < v.len() && x == trimmed(v[i])) implies
        #[trigger] distinct(trim_each(v)).contains(x) by {
        let i = choose|i: int| 0 <= i < v.len() && x == trimmed(v[i]);
        assert(trim_each(v)[i] == x);
        assert(trim_each(v).contains(x));
    }
}

/// Dropping empty strings: the result holds exactly the trimmed elements
/// that are not empty, so it is part of what keeping them gives; as a set,
/// each such value once.
pub proof fn lemma_drop_empty(v: Seq<Seq<char>>)
    ensures
        forall|x: Seq<char>|
            #[trigger] trim_non_empty(v).contains(x) <==> x.len() > 0 && trim_each(v).contains(x),
        forall|x: Seq<char>|
            #[trigger] trim_non_empty(v).contains(x) <==> x.len() > 0 && exists|i: int|
                0 <= i < v.len() && x == trimmed(v[i]),
        trim_non_empty(v).len() <= v.len(),
        distinct(trim_non_empty(v)).no_duplicates(),
        forall|x: Seq<char>|
            #[trigger] distinct(trim_non_empty(v)).contains(x) <==> trim_non_empty(v).contains(x),
{
    lemma_trim_non_empty_contains(v);
    lemma_trim_non_empty_len(v);
    lemma_distinct(trim_non_empty(v));
    assert forall|x: Seq<char>| #[trigger] trim_non_empty(v).contains(x) implies exists|i: int|
        0 <= i < v.len() && x == trimmed(v[i]) by {
        let k = choose|k: int| 0 <= k < trim_each(v).len() && trim_each(v)[k] == x;
        assert(x == trimmed(v[k]));
    }
    assert forall|x: Seq<char>|
        x.len() > 0 && (exists|i: int| 0 <= i < v.len() && x == trimmed(v[i])) implies
        #[trigger] trim_non_empty(v).contains(x) by {
        let i = choose|i: int| 0 <= i < v.len() && x == trimmed(v[i]);
        assert(trim_each(v)[i] == x);
    }
}

proof fn lemma_trim_non_empty_len(v: Seq<Seq<char>>)
    ensures
        trim_non_empty(v).len() <= v.len(),
    decreases v.len(),
{
    if v.len() > 0 {
        lemma_trim_non_empty_len(v.drop_last());
    }
}

/// Each transform, applied to its own output, gives that output back: for
/// sequences keeping or dropping empty strings, and for sets keeping or
/// dropping them.
pub proof fn lemma_transforms_idempotent(v: Seq<Seq<char>>)
    ensures
        trim_each(trim_each(v)) == trim_each(v),
        trim_non_empty(trim_non_empty(v)) == trim_non_empty(v),
        distinct(trim_each(distinct(trim_each(v)))) == distinct(trim_each(v)),
        distinct(trim_non_empty(distinct(trim_non_empty(v)))) == distinct(trim_non_empty(v)),
{
    let e = trim_each(v);
    lemma_trim_each_trimmed(v);
    lemma_trim_each_fixed(e);

    let n = trim_non_empty(v);
    lemma_trim_non_empty_trimmed(v);
    lemma_trim_non_empty_fixed(n);

    let de = distinct(e);
    lemma_distinct(e);
    assert forall|i: int| 0 <= i < de.len() implies #[trigger] trimmed(de[i]) == de[i] by {
        assert(de.contains(de[i]));
        assert(e.contains(de[i]));
        let k = choose|k: int| 0 <= k < e.len() && e[k] == de[i];
    }
    lemma_trim_each_fixed(de);
    lemma_distinct_unique(de);

    let dn = distinct(n);
    lemma_distinct(n);
    assert forall|i: int| 0 <= i < dn.len() implies #[trigger] trimmed(dn[i]) == dn[i] && dn[i].len()
        > 0 by {
        assert(dn.contains(dn[i]));
        assert(n.contains(dn[i]));
        let k = choose|k: int| 0 <= k < n.len() && n[k] == dn[i];
    }
    lemma_trim_non_empty_fixed(dn);
    lemma_distinct_unique(dn);
}

} // verus!
