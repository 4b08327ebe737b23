use vstd::prelude::*;
use std::collections::{HashMap, HashSet};
use vstd::std_specs::iter::IteratorSpec;

verus! {

/// The keys of a map, each once, in the map's iteration order.
pub fn keys_of<V>(m: &HashMap<u64, V>) -> (ks: Vec<u64>)
    ensures
        ks@.no_duplicates(),
        forall|k: u64| m@.contains_key(k) <==> ks@.contains(k),
        ks@.len() == m@.dom().len(),
{
    broadcast use vstd::std_specs::hash::group_hash_axioms;
    broadcast use vstd::seq_lib::group_seq_properties;

    let mut ks: Vec<u64> = Vec::new();
    for k in it: m.keys()
        invariant
            it.seq() == vstd::std_specs::hash::spec_keys_iter(m).remaining(),
            ks@ == it.seq().take(it.index() as int).map_values(|r: &u64| *r),
    {
        ks.push(*k);
    }
    proof {
        let r = vstd::std_specs::hash::spec_keys_iter(m).remaining();
        assert(ks@ =~= r.map_values(|x: &u64| *x));
        assert forall|k: u64| m@.contains_key(k) <==> ks@.contains(k) by {
            if m@.contains_key(k) {
                assert(r.unref().to_set().contains(k));
                let i = choose|i: int| 0 <= i < r.len() && *r[i] == k;
                assert(ks@[i] == k);
            }
            if ks@.contains(k) {
                let i = choose|i: int| 0 <= i < ks@.len() && ks@[i] == k;
                assert(r.unref()[i] == k);
                assert(r.unref().to_set().contains(k));
            }
        }
    }
    ks
}

/// The elements of a set, each once, in the set's iteration order.
pub fn elems_of(s: &HashSet<u64>) -> (es: Vec<u64>)
    ensures
        es@.no_duplicates(),
        forall|k: u64| s@.contains(k) <==> es@.contains(k),
        es@.len() == s@.len(),
{
    broadcast use vstd::std_specs::hash::group_hash_axioms;
    broadcast use vstd::seq_lib::group_seq_properties;

    let mut es: Vec<u64> = Vec::new();
    for k in it: s.iter()
        invariant
            it.seq() == vstd::std_specs::hash::spec_hash_keys_iter(s).remaining(),
            es@ == it.seq().take(it.index() as int).map_values(|r: &u64| *r),
    {
        es.push(*k);
    }
    proof {
        let r = vstd::std_specs::hash::spec_hash_keys_iter(s).remaining();
        assert(es@ =~= r.map_values(|x: &u64| *x));
        assert forall|k: u64| s@.contains(k) <==> es@.contains(k) by {
            if s@.contains(k) {
                assert(r.unref().to_set().contains(k));
                let i = choose|i: int| 0 <= i < r.len() && *r[i] == k;
                assert(es@[i] == k);
            }
            if es@.contains(k) {
                let i = choose|i: int| 0 <= i < es@.len() && es@[i] == k;
                assert(r.unref()[i] == k);
                assert(r.unref().to_set().contains(k));
            }
        }
    }
    es
}

} // verus!
