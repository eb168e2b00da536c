//! Helpers on the maps that carry chunks by node index.

use vstd::prelude::*;
use std::collections::HashMap;
use vstd::std_specs::iter::IteratorSpec;

verus! {

/// The keys of a map, each once, in the order in which the map hands them
/// out.
pub fn key_list(m: &HashMap<usize, Vec<u8>>) -> (keys: Vec<usize>)
    ensures
        keys@.no_duplicates(),
        keys@.to_set() == m@.dom(),
        keys@.len() == m@.dom().len(),
{
    let mut keys: Vec<usize> = Vec::new();
    for k in it: m.keys()
        invariant
            keys@.len() == it.index(),
            forall|j: int| 0 <= j < keys@.len() ==> keys@[j] == *it.seq()[j],
            it.seq() == m.keys().remaining(),
    {
        keys.push(*k);
    }
    assert(keys@ =~= m.keys().remaining().unref());
    keys
}

/// A copy of a row of bytes.
pub fn copy_bytes(v: &Vec<u8>) -> (r: Vec<u8>)
    ensures
        r@ == v@,
{
    let mut r: Vec<u8> = Vec::new();
    let mut i: usize = 0;
    while i < v.len()
        invariant
            i <= v@.len(),
            r@.len() == i,
            forall|j: int| 0 <= j < i ==> r@[j] == v@[j],
        decreases v@.len() - i,
    {
        r.push(v[i]);
        i += 1;
    }
    assert(r@ =~= v@);
    r
}

/// Appends a row of bytes to another.
pub fn append_bytes(out: &mut Vec<u8>, v: &Vec<u8>)
    ensures
        final(out)@ == old(out)@ + v@,
{
    let mut i: usize = 0;
    while i < v.len()
        invariant
            i <= v@.len(),
            out@.len() == old(out)@.len() + i,
            forall|j: int| 0 <= j < old(out)@.len() ==> out@[j] == old(out)@[j],
            forall|j: int| 0 <= j < i ==> out@[old(out)@.len() + j] == v@[j],
        decreases v@.len() - i,
    {
        out.push(v[i]);
        i += 1;
    }
    assert(out@ =~= old(out)@ + v@);
}

/// Whether a list of node indices holds `node`.
pub fn list_contains(list: &[usize], node: usize) -> (r: bool)
    ensures
        r == list@.contains(node),
{
    let mut i: usize = 0;
    while i < list.len()
        invariant
            i <= list@.len(),
            forall|j: int| 0 <= j < i ==> list@[j] != node,
        decreases list@.len() - i,
    {
        if list[i] == node {
            return true;
        }
        i += 1;
    }
    false
}

} // verus!
