//! Reading the keys of an ordered map in increasing order.

use vstd::prelude::*;
use std::collections::BTreeMap;
use vstd::std_specs::iter::IteratorSpec;
use vstd::std_specs::cmp::OrdSpec;

verus! {

/// Whether `s` is strictly increasing.
pub open spec fn strictly_increasing(s: Seq<u64>) -> bool {
    forall|i: int, j: int| 0 <= i < j < s.len() ==> s[i] < s[j]
}

/// The keys of the map, in increasing order.
pub fn sorted_keys<V>(m: &BTreeMap<u64, V>) -> (r: Vec<u64>)
    ensures
        r@.to_set() == m@.dom(),
        r@.len() == m@.dom().len(),
        strictly_increasing(r@),
{
    broadcast use vstd::std_specs::btree::group_btree_axioms;
    broadcast use vstd::laws_cmp::group_laws_cmp;

    let mut out: Vec<u64> = Vec::new();
    let ghost pairs = vstd::std_specs::btree::spec_btree_map_iter(m).remaining();
    let ghost all = pairs.map_values(|kv: (&u64, &V)| *kv.0);
    for kv in it: m.iter()
        invariant
            out@ == it.seq().take(it.index()).map_values(|kv: (&u64, &V)| *kv.0),
    {
        out.push(*kv.0);
        proof {
            assert(out@ =~= it.seq().take(it.index() + 1).map_values(|kv: (&u64, &V)| *kv.0));
        }
    }
    proof {
        assert(out@ =~= all);
        assert(vstd::std_specs::btree::increasing_seq(all));
        assert(vstd::laws_cmp::obeys_cmp::<u64>());
        assert forall|i: int, j: int| 0 <= i < j < all.len() implies all[i] < all[j] by {
            assert(all[i].cmp_spec(&all[j]) is Less);
        }
        assert forall|k: u64| m@.dom().contains(k) implies out@.to_set().contains(k) by {
            let i = choose|i: int| 0 <= i < pairs.len() && pairs[i] == (&k, &m@[k]);
            assert(out@[i] == k);
        }
        assert forall|k: u64| out@.to_set().contains(k) implies m@.dom().contains(k) by {
            let i = choose|i: int| 0 <= i < out@.len() && out@[i] == k;
            assert(m@.contains_key(*pairs[i].0));
        }
        assert(out@.to_set() =~= m@.dom());
    }
    out
}

} // verus!
