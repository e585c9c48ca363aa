//! Sorting the splitter's scan buffers by feature key.
use vstd::prelude::*;

use crate::splitter::{m_sorted_by_key, sorted_by_key, GItem, MItem};

verus! {

/// Relies on radsort::sort_by_key: a stable radix sort by the `u32` key,
/// which reorders the slice into ascending key order and keeps exactly the
/// same elements.
#[verifier::external_body]
pub(crate) fn sort_items(v: &mut Vec<GItem>)
    ensures
        final(v)@.len() == old(v)@.len(),
        final(v)@.to_multiset() == old(v)@.to_multiset(),
        sorted_by_key(final(v)@),
{
    radsort::sort_by_key(v.as_mut_slice(), |it: &GItem| it.key);
}

/// Relies on radsort::sort_by_key: a stable radix sort by the `u32` key,
/// which reorders the slice into ascending key order and keeps exactly the
/// same elements.
#[verifier::external_body]
pub(crate) fn sort_m_items(v: &mut Vec<MItem>)
    ensures
        final(v)@.len() == old(v)@.len(),
        final(v)@.to_multiset() == old(v)@.to_multiset(),
        m_sorted_by_key(final(v)@),
{
    radsort::sort_by_key(v.as_mut_slice(), |it: &MItem| it.key);
}

} // verus!
