use vstd::prelude::*;
use crate::refs::{ObjId, refs_of, all_refs, lists_set, ref_set, is_ref_array, lemma_refs_finite};

verus! {

/// The candidate index of an object graph, given for each indirect object, in
/// scan order, its array elements (`None` for an object that is no array):
/// the reference set of every array whose elements are all references,
/// empty arrays included.
pub open spec fn candidates(objs: Seq<Option<Seq<Option<ObjId>>>>) -> Seq<Set<ObjId>>
    decreases objs.len(),
{
    if objs.len() == 0 {
        Seq::empty()
    } else {
        let rest = candidates(objs.drop_last());
        match objs.last() {
            Some(a) => if all_refs(a) {
                rest.push(refs_of(a))
            } else {
                rest
            },
            None => rest,
        }
    }
}

/// The element view of the objects handed to the indexer.
pub open spec fn objects_view(objs: Seq<Option<Vec<Option<ObjId>>>>) -> Seq<Option<Seq<Option<ObjId>>>> {
    objs.map_values(|o: Option<Vec<Option<ObjId>>>|
        match o {
            Some(a) => Some(a@),
            None => None,
        }
    )
}

/// Each candidate listed once per member, as the sets of `sets`.
pub open spec fn lists_sets(cands: Seq<Vec<ObjId>>, sets: Seq<Set<ObjId>>) -> bool {
    &&& cands.len() == sets.len()
    &&& forall|i: int| 0 <= i < cands.len() ==> lists_set(#[trigger] cands[i]@, sets[i])
}

/// Builds the candidate index from the objects of a graph in scan order.
pub fn candidate_index(objs: &Vec<Option<Vec<Option<ObjId>>>>) -> (r: Vec<Vec<ObjId>>)
    ensures
        lists_sets(r@, candidates(objects_view(objs@))),
{
    let mut out: Vec<Vec<ObjId>> = Vec::new();
    let mut i: usize = 0;
    while i < objs.len()
        invariant
            0 <= i <= objs.len(),
            lists_sets(out@, candidates(objects_view(objs@).subrange(0, i as int))),
        decreases objs.len() - i,
    {
        let ghost prefix = objects_view(objs@).subrange(0, i + 1);
        assert(prefix.drop_last() == objects_view(objs@).subrange(0, i as int));
        match &objs[i] {
            Some(a) => {
                if is_ref_array(a) {
                    let s = ref_set(a);
                    out.push(s);
                }
            },
            None => {},
        }
        i = i + 1;
    }
    assert(objects_view(objs@).subrange(0, objs.len() as int) == objects_view(objs@));
    out
}

/// Every candidate set is finite.
pub proof fn lemma_candidates_finite(objs: Seq<Option<Seq<Option<ObjId>>>>)
    ensures
        forall|j: int| 0 <= j < candidates(objs).len() ==> (#[trigger] candidates(objs)[j]).finite(),
    decreases objs.len(),
{
    if objs.len() > 0 {
        let rest = candidates(objs.drop_last());
        lemma_candidates_finite(objs.drop_last());
        if let Some(a) = objs.last() {
            lemma_refs_finite(a);
        }
        assert forall|j: int| 0 <= j < candidates(objs).len() implies (#[trigger] candidates(objs)[j]).finite() by {
            if j < rest.len() {
                assert(candidates(objs)[j] == rest[j]);
            }
        }
    }
}

} // verus!
