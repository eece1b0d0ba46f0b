//! The order in which a `BTreeSet<u32>` yields its elements.
use std::collections::{BTreeMap, BTreeSet};
use vstd::prelude::*;
use vstd::std_specs::btree::{increasing_seq, spec_btree_keys_iter, spec_btree_set_len, spec_keys_iter};
use vstd::std_specs::cmp::OrdSpec;
use vstd::std_specs::iter::IteratorSpec;

use crate::wire::{lemma_sorted_elems_unique, sorted_elems};

verus! {

/// The elements of a `BTreeSet<u32>`, in the order its iterator yields them,
/// are its sorted listing.
pub proof fn lemma_btree_set_listing(m: &BTreeSet<u32>)
    ensures
        spec_btree_keys_iter(m).remaining().unref() == sorted_elems(m@),
        m@.finite(),
        m@.len() <= usize::MAX,
{
    broadcast use {vstd::std_specs::btree::group_btree_axioms, vstd::laws_cmp::group_laws_cmp};

    let r = spec_btree_keys_iter(m).remaining();
    assert(vstd::laws_cmp::obeys_cmp::<u32>());
    assert(vstd::laws_cmp::obeys_cmp::<&u32>());
    assert(increasing_seq(r));
    assert(r.unref().to_set() == m@);
    assert forall|i: int, j: int| 0 <= i < j < r.unref().len() implies r.unref()[i] < r.unref()[j] by {
        assert(OrdSpec::cmp_spec(&r[i], &r[j]) is Less);
        assert(r.unref()[i] == *r[i] && r.unref()[j] == *r[j]);
    }
    lemma_sorted_elems_unique(r.unref());
    assert(m@.len() == spec_btree_set_len(m));
}


/// The keys of a `BTreeMap` keyed by `u32`, in the order its `keys` iterator
/// yields them, are the sorted listing of its keys.
pub proof fn lemma_btree_map_keys_listing<V>(m: &BTreeMap<u32, V>)
    ensures
        spec_keys_iter(m).remaining().unref() == sorted_elems(m@.dom()),
        m@.dom().finite(),
{
    broadcast use {vstd::std_specs::btree::group_btree_axioms, vstd::laws_cmp::group_laws_cmp};

    let r = spec_keys_iter(m).remaining();
    assert(vstd::laws_cmp::obeys_cmp::<u32>());
    assert(vstd::laws_cmp::obeys_cmp::<&u32>());
    assert(increasing_seq(r));
    assert(r.unref().to_set() == m@.dom());
    assert forall|i: int, j: int| 0 <= i < j < r.unref().len() implies r.unref()[i] < r.unref()[j] by {
        assert(OrdSpec::cmp_spec(&r[i], &r[j]) is Less);
        assert(r.unref()[i] == *r[i] && r.unref()[j] == *r[j]);
    }
    lemma_sorted_elems_unique(r.unref());
}

} // verus!
