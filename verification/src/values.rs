//! Small operations on sets of broadcast values and on lists of node names.
use std::collections::HashSet;
use vstd::prelude::*;

verus! {

broadcast use vstd::std_specs::hash::group_hash_axioms;

/// The names held by a list of strings, each as its character sequence.
pub open spec fn names(list: Seq<String>) -> Seq<Seq<char>> {
    Seq::new(list.len(), |i: int| list[i]@)
}

/// The values of `batch` that `known` lacks.
pub fn missing_from(batch: &HashSet<usize>, known: &HashSet<usize>) -> (fresh: HashSet<usize>)
    ensures
        fresh@ == batch@.difference(known@),
{
    let mut fresh: HashSet<usize> = HashSet::new();
    for v in it: batch.iter()
        invariant
            it.seq().unref().to_set() == batch@,
            fresh@ =~= it.seq().unref().take(it.index()).to_set().difference(known@),
            it.index() == it.seq().len() ==> fresh@ == batch@.difference(known@),
    {
        proof {
            let walked = it.seq().unref();
            assert(walked.take(it.index() + 1) =~= walked.take(it.index()).push(*v));
            walked.take(it.index()).lemma_push_to_set_commute(*v);
            assert(walked.take(walked.len() as int) =~= walked);
        }
        if !known.contains(v) {
            fresh.insert(*v);
        }
    }
    fresh
}

/// Adds every value of `extra` to `target`.
pub fn merge_into(target: &mut HashSet<usize>, extra: &HashSet<usize>)
    ensures
        final(target)@ == old(target)@.union(extra@),
{
    for v in it: extra.iter()
        invariant
            it.seq().unref().to_set() == extra@,
            target@ =~= old(target)@.union(it.seq().unref().take(it.index()).to_set()),
            it.index() == it.seq().len() ==> target@ == old(target)@.union(extra@),
    {
        proof {
            let walked = it.seq().unref();
            assert(walked.take(it.index() + 1) =~= walked.take(it.index()).push(*v));
            walked.take(it.index()).lemma_push_to_set_commute(*v);
            assert(walked.take(walked.len() as int) =~= walked);
        }
        target.insert(*v);
    }
}

/// A set with the same values.
pub fn copy_set(values: &HashSet<usize>) -> (copy: HashSet<usize>)
    ensures
        copy@ == values@,
{
    let mut copy: HashSet<usize> = HashSet::new();
    merge_into(&mut copy, values);
    assert(copy@ =~= values@);
    copy
}

/// A list with the same names in the same order.
pub fn copy_names(list: &Vec<String>) -> (copy: Vec<String>)
    ensures
        copy@ == list@,
{
    let mut copy: Vec<String> = Vec::new();
    let mut i: usize = 0;
    while i < list.len()
        invariant
            i <= list.len(),
            copy@ == list@.take(i as int),
        decreases list.len() - i,
    {
        copy.push(list[i].clone());
        assert(copy@ =~= list@.take(i + 1));
        i += 1;
    }
    assert(list@.take(list.len() as int) =~= list@);
    copy
}

/// Whether `name` occurs in `list`.
pub fn has_name(list: &Vec<String>, name: &String) -> (found: bool)
    ensures
        found == names(list@).contains(name@),
{
    let mut i: usize = 0;
    while i < list.len()
        invariant
            i <= list.len(),
            forall|j: int| 0 <= j < i ==> names(list@)[j] != name@,
        decreases list.len() - i,
    {
        if list[i] == *name {
            assert(names(list@)[i as int] == name@);
            return true;
        }
        i += 1;
    }
    false
}

} // verus!
