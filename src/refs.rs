use vstd::prelude::*;

verus! {

broadcast use vstd::seq_lib::lemma_seq_contains_after_push;

/// An indirect object identifier: object number and generation.
pub type ObjId = (u32, u16);

/// The identifiers held by the reference elements of an array; elements that
/// are not references (`None`) contribute nothing.
pub open spec fn refs_of(a: Seq<Option<ObjId>>) -> Set<ObjId> {
    Set::new(|r: ObjId| a.contains(Some(r)))
}

/// Every element of the array is a reference.
pub open spec fn all_refs(a: Seq<Option<ObjId>>) -> bool {
    forall|i: int| 0 <= i < a.len() ==> a[i] is Some
}

/// `s` lists the members of `set`, each exactly once.
pub open spec fn lists_set(s: Seq<ObjId>, set: Set<ObjId>) -> bool {
    s.no_duplicates() && s.to_set() == set
}

/// The reference set of an array is finite.
pub proof fn lemma_refs_finite(a: Seq<Option<ObjId>>)
    ensures
        refs_of(a).finite(),
    decreases a.len(),
{
    if a.len() == 0 {
        assert(refs_of(a) =~= Set::empty());
    } else {
        let rest = a.drop_last();
        lemma_refs_finite(rest);
        assert(a == rest.push(a.last()));
        match a.last() {
            Some(r) => {
                assert(refs_of(a) =~= refs_of(rest).insert(r));
            },
            None => {
                assert(refs_of(a) =~= refs_of(rest));
            },
        }
    }
}

/// Whether `id` occurs in `v`.
pub fn contains_id(v: &Vec<ObjId>, id: ObjId) -> (r: bool)
    ensures
        r == v@.contains(id),
{
    let mut i: usize = 0;
    while i < v.len()
        invariant
            0 <= i <= v.len(),
            forall|j: int| 0 <= j < i ==> v@[j] != id,
        decreases v.len() - i,
    {
        let cur = v[i];
        if cur.0 == id.0 && cur.1 == id.1 {
            return true;
        }
        i = i + 1;
    }
    false
}

/// The reference set of an array, each member once, in order of first
/// occurrence.
pub fn ref_set(a: &Vec<Option<ObjId>>) -> (r: Vec<ObjId>)
    ensures
        lists_set(r@, refs_of(a@)),
{
    let mut out: Vec<ObjId> = Vec::new();
    let mut i: usize = 0;
    while i < a.len()
        invariant
            0 <= i <= a.len(),
            out@.no_duplicates(),
            out@.to_set() == refs_of(a@.subrange(0, i as int)),
        decreases a.len() - i,
    {
        let ghost before = out@;
        match a[i] {
            Some(id) => {
                if !contains_id(&out, id) {
                    out.push(id);
                    assert(out@.to_set() =~= before.to_set().insert(id));
                } else {
                    assert(before.to_set() =~= before.to_set().insert(id));
                }
                assert(out@.to_set() =~= before.to_set().insert(id));
            },
            None => {},
        }
        assert(a@.subrange(0, i + 1) == a@.subrange(0, i as int).push(a@[i as int]));
        assert(before.to_set() == refs_of(a@.subrange(0, i as int)));
        assert(out@.to_set() =~= refs_of(a@.subrange(0, i + 1)));
        i = i + 1;
    }
    assert(a@.subrange(0, a.len() as int) == a@);
    out
}

/// Whether every element of the array is a reference.
pub fn is_ref_array(a: &Vec<Option<ObjId>>) -> (r: bool)
    ensures
        r == all_refs(a@),
{
    let mut i: usize = 0;
    while i < a.len()
        invariant
            0 <= i <= a.len(),
            forall|j: int| 0 <= j < i ==> a@[j] is Some,
        decreases a.len() - i,
    {
        if a[i].is_none() {
            return false;
        }
        i = i + 1;
    }
    true
}

} // verus!
