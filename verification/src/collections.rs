//! Hash and tree collections on the wire.
//!
//! A map travels as a `u64` count, then its entries as (key, value) pairs; a set as a
//! `u64` count, then its elements. So a map reads back exactly as a `Vec` of pairs
//! would, and a set as a `Vec` of elements; the collection is then built by inserting
//! what was read, in order.
use vstd::prelude::*;
use vstd::laws_cmp::obeys_cmp;
use vstd::std_specs::hash::obeys_key_model;
use vstd::std_specs::iter::{IteratorSpec, VerusForLoopWrapper};

use std::collections::{BTreeMap, BTreeSet, HashMap, HashSet};

use crate::compound::wire_seq;
use crate::endian::be_encode;
use crate::error::WireError;
use crate::unwire::{Unwire, Unwiring};
use crate::wire::{Wire, Wiring};

verus! {

/// Whether `K`'s comparison is a total order, as a tree collection needs of its keys.
pub open spec fn keys_ordered<K: Ord>() -> bool {
    obeys_cmp::<K>()
}

/// The map that inserting the pairs of `ps` in order builds: where a key occurs more
/// than once, its last pair wins.
pub open spec fn map_of<K, V>(ps: Seq<(K, V)>) -> Map<K, V>
    decreases ps.len(),
{
    if ps.len() == 0 {
        Map::empty()
    } else {
        map_of(ps.drop_last()).insert(ps.last().0, ps.last().1)
    }
}

/// Taking one more element of `s` adds that element to the set of those taken.
pub proof fn lemma_take_to_set<T>(s: Seq<T>, i: int)
    requires
        0 <= i < s.len(),
    ensures
        s.take(i + 1).to_set() == s.take(i).to_set().insert(s[i]),
{
    let a = s.take(i);
    let b = s.take(i + 1);
    assert(b =~= a.push(s[i]));
    assert forall|x: T| #[trigger] b.contains(x) <==> (a.contains(x) || x == s[i]) by {
        if b.contains(x) {
            let j = choose|j: int| 0 <= j < b.len() && b[j] == x;
            if j < i {
                assert(a[j] == x);
            }
        }
        if a.contains(x) {
            let j = choose|j: int| 0 <= j < a.len() && a[j] == x;
            assert(b[j] == x);
        }
        if x == s[i] {
            assert(b[i] == x);
        }
    }
    assert(b.to_set() =~= a.to_set().insert(s[i]));
}

/// Read a `HashMap`: a count, then that many (key, value) pairs, inserted in order.
pub fn unwire_hash_map<K, V, W>(wire: &mut W) -> (r: Result<HashMap<K, V>, WireError>)
    where
        K: Unwiring + Eq + std::hash::Hash,
        V: Unwiring,
        W: Unwire,
    ensures
        match <Vec<(K, V)> as Unwiring>::spec_unwire(old(wire).unread()) {
            Ok((items, n)) => {
                &&& r is Ok
                &&& final(wire).unread() == old(wire).unread().skip(n as int)
                &&& obeys_key_model::<K>() ==> exists|ps: Seq<(K, V)>|
                    #![trigger map_of(ps)]
                    ps.map(|_i: int, p: (K, V)| p.deep_view()) == items && r->Ok_0@ == map_of(ps)
            },
            Err(e) => r == Err::<HashMap<K, V>, WireError>(e),
        },
{
    broadcast use vstd::std_specs::hash::group_hash_axioms;

    let pairs = match <Vec<(K, V)> as Unwiring>::sync_unwiring(wire) {
        Ok(p) => p,
        Err(e) => {
            return Err(e);
        },
    };
    let ghost ps = pairs@;
    let mut map: HashMap<K, V> = HashMap::with_capacity(pairs.len());
    for p in it: pairs.into_iter()
        invariant
            it.seq() == ps,
            obeys_key_model::<K>() ==> map@ == map_of(ps.take(it.index())),
    {
        assert(ps.take(it.index() + 1).drop_last() =~= ps.take(it.index()));
        map.insert(p.0, p.1);
    }
    assert(ps.take(ps.len() as int) =~= ps);
    Ok(map)
}

/// Read a `BTreeMap`: a count, then that many (key, value) pairs, inserted in order.
pub fn unwire_btree_map<K, V, W>(wire: &mut W) -> (r: Result<BTreeMap<K, V>, WireError>)
    where
        K: Unwiring + Ord,
        V: Unwiring,
        W: Unwire,
    ensures
        match <Vec<(K, V)> as Unwiring>::spec_unwire(old(wire).unread()) {
            Ok((items, n)) => {
                &&& r is Ok
                &&& final(wire).unread() == old(wire).unread().skip(n as int)
                &&& keys_ordered::<K>() ==> exists|ps: Seq<(K, V)>|
                    #![trigger map_of(ps)]
                    ps.map(|_i: int, p: (K, V)| p.deep_view()) == items && r->Ok_0@ == map_of(ps)
            },
            Err(e) => r == Err::<BTreeMap<K, V>, WireError>(e),
        },
{
    let pairs = match <Vec<(K, V)> as Unwiring>::sync_unwiring(wire) {
        Ok(p) => p,
        Err(e) => {
            return Err(e);
        },
    };
    let ghost ps = pairs@;
    let mut map: BTreeMap<K, V> = BTreeMap::new();
    for p in it: pairs.into_iter()
        invariant
            it.seq() == ps,
            keys_ordered::<K>() ==> map@ == map_of(ps.take(it.index())),
    {
        assert(ps.take(it.index() + 1).drop_last() =~= ps.take(it.index()));
        map.insert(p.0, p.1);
    }
    assert(ps.take(ps.len() as int) =~= ps);
    Ok(map)
}

/// Read a `HashSet`: a count, then that many elements, inserted in order.
pub fn unwire_hash_set<T, W>(wire: &mut W) -> (r: Result<HashSet<T>, WireError>)
    where
        T: Unwiring + Eq + std::hash::Hash,
        W: Unwire,
    ensures
        match <Vec<T> as Unwiring>::spec_unwire(old(wire).unread()) {
            Ok((items, n)) => {
                &&& r is Ok
                &&& final(wire).unread() == old(wire).unread().skip(n as int)
                &&& obeys_key_model::<T>() ==> exists|ts: Seq<T>|
                    #![trigger ts.to_set()]
                    ts.map(|_i: int, t: T| t.deep_view()) == items && r->Ok_0@ == ts.to_set()
            },
            Err(e) => r == Err::<HashSet<T>, WireError>(e),
        },
{
    broadcast use vstd::std_specs::hash::group_hash_axioms;

    let elements = match <Vec<T> as Unwiring>::sync_unwiring(wire) {
        Ok(p) => p,
        Err(e) => {
            return Err(e);
        },
    };
    let ghost ts = elements@;
    let mut set: HashSet<T> = HashSet::with_capacity(elements.len());
    for t in it: elements.into_iter()
        invariant
            it.seq() == ts,
            obeys_key_model::<T>() ==> set@ == ts.take(it.index()).to_set(),
    {
        let ghost i = it.index();
        proof {
            lemma_take_to_set(ts, i);
        }
        set.insert(t);
    }
    assert(ts.take(ts.len() as int) =~= ts);
    Ok(set)
}

/// Read a `BTreeSet`: a count, then that many elements, inserted in order.
pub fn unwire_btree_set<T, W>(wire: &mut W) -> (r: Result<BTreeSet<T>, WireError>)
    where
        T: Unwiring + Ord,
        W: Unwire,
    ensures
        match <Vec<T> as Unwiring>::spec_unwire(old(wire).unread()) {
            Ok((items, n)) => {
                &&& r is Ok
                &&& final(wire).unread() == old(wire).unread().skip(n as int)
                &&& keys_ordered::<T>() ==> exists|ts: Seq<T>|
                    #![trigger ts.to_set()]
                    ts.map(|_i: int, t: T| t.deep_view()) == items && r->Ok_0@ == ts.to_set()
            },
            Err(e) => r == Err::<BTreeSet<T>, WireError>(e),
        },
{
    let elements = match <Vec<T> as Unwiring>::sync_unwiring(wire) {
        Ok(p) => p,
        Err(e) => {
            return Err(e);
        },
    };
    let ghost ts = elements@;
    let mut set: BTreeSet<T> = BTreeSet::new();
    for t in it: elements.into_iter()
        invariant
            it.seq() == ts,
            keys_ordered::<T>() ==> set@ == ts.take(it.index()).to_set(),
    {
        let ghost i = it.index();
        proof {
            lemma_take_to_set(ts, i);
        }
        set.insert(t);
    }
    assert(ts.take(ts.len() as int) =~= ts);
    Ok(set)
}

/// Write a `HashSet`: its length as a `u64`, then each element in the order the set
/// yields them.
///
/// That order depends on the set's hasher, which each process seeds afresh. Where the
/// element type hashes as the standard library's model of a hash key expects (the
/// integer types and `bool` do), the elements written are the set's, each once;
/// for other element types nothing is known of what a set holds, and what is said is
/// that some elements, no more than the set's length, follow the length.
pub fn wire_hash_set<T, W>(set: &HashSet<T>, wire: &mut W) -> (r: Result<(), WireError>)
    where
        T: Wiring + Eq + std::hash::Hash,
        W: Wire,
    ensures
        r is Ok,
        exists|items: Seq<T>|
            #![trigger items.to_set()]
            {
                &&& final(wire).written() == old(wire).written() + be_encode(set.len() as nat, 8)
                    + wire_seq::<T>(items.map(|_i: int, t: T| t.deep_view()))
                &&& items.len() <= set.len()
                &&& obeys_key_model::<T>() ==> {
                    &&& items.to_set() == set@
                    &&& items.no_duplicates()
                    &&& items.len() == set@.len()
                }
            },
{
    broadcast use vstd::std_specs::hash::group_hash_axioms;

    let len = set.len();
    let _ = wire.sync_wire_u64(&(len as u64));
    let ghost start = wire.written();
    let ghost mut items: Seq<T> = Seq::empty();
    let ghost keys = vstd::std_specs::hash::spec_hash_keys_iter(set).remaining();
    let mut it = VerusForLoopWrapper::new(set.iter(), Ghost(None));
    proof {
        if obeys_key_model::<T>() {
            assert(it.seq() == keys);
        }
    }
    let mut i: usize = 0;
    while i < len
        invariant
            i <= len,
            len == set.len(),
            it.wf(),
            it.index() <= i,
            it.index() == i || it.index() == it.seq().len(),
            obeys_key_model::<T>() ==> it.seq() == keys,
            items == it.seq().unref().take(it.index()),
            wire.written() == start + wire_seq::<T>(items.map(|_i: int, t: T| t.deep_view())),
        decreases len - i,
    {
        let ghost before = it.index();
        match it.next() {
            Some(t) => {
                let _ = t.sync_wiring(wire);
                proof {
                    let f = |_i: int, t: T| t.deep_view();
                    assert(items.push(*t).map(f) =~= items.map(f).push(t.deep_view()));
                    assert(items.push(*t).map(f).drop_last() =~= items.map(f));
                    items = items.push(*t);
                    assert(items =~= it.seq().unref().take(it.index()));
                }
            },
            None => {},
        }
        i = i + 1;
    }
    proof {
        if obeys_key_model::<T>() {
            assert(items =~= keys.unref());
        }
        let _ = items.to_set();
    }
    Ok(())
}

} // verus!
