use vstd::prelude::*;
use crate::refs::ObjId;
use crate::document::{doc_run, no_edits, pages_of};
use lopdf::Document;
use crate::recovery::{
    PageView, RepairError, current_of, is_superset, first_superset, page_outcome, page_gain,
    run_outcome, recovered, lemma_first_superset, lemma_run_ok,
};

verus! {

/// A run over no pages succeeds, replaces nothing and regains nothing.
pub proof fn lemma_no_pages(cands: Seq<Set<ObjId>>)
    ensures
        run_outcome(Seq::<PageView>::empty(), cands) == Ok::<Seq<Option<Set<ObjId>>>, RepairError>(Seq::empty()),
        recovered(Seq::<PageView>::empty(), cands) == 0,
{
}

/// Repairing a document without pages succeeds, regains nothing and writes
/// no replacement.
pub proof fn lemma_no_pages_document(d: Document)
    requires
        pages_of(d).len() == 0,
    ensures
        doc_run(d) == Ok::<(nat, spec_fn(ObjId) -> Option<Set<ObjId>>), RepairError>((0, no_edits())),
{
}

/// A page without `Annots` receives no replacement and regains nothing.
pub proof fn lemma_absent_annots_untouched(pages: Seq<PageView>, cands: Seq<Set<ObjId>>, k: int)
    requires
        0 <= k < pages.len(),
        pages[k] is NoAnnots,
        run_outcome(pages, cands) is Ok,
    ensures
        run_outcome(pages, cands)->Ok_0[k] is None,
        page_gain(pages[k], cands) == 0,
{
    lemma_run_ok(pages, cands);
}

/// A replacement always strictly contains the set it replaces: it contains
/// it and differs from it in size.
pub proof fn lemma_replacement_strictly_larger(p: PageView, cands: Seq<Set<ObjId>>)
    requires
        page_outcome(p, cands) matches Ok(Some(_)),
    ensures
        current_of(p) matches Ok(Some(cur)) && is_superset(cur, page_outcome(p, cands)->Ok_0->Some_0),
{
    let cur = current_of(p)->Ok_0->Some_0;
    lemma_first_superset(cur, cands);
}

/// A page whose current set equals a candidate of the same size, and which
/// no candidate of another size contains, receives no replacement.
pub proof fn lemma_equal_candidate_no_replacement(p: PageView, cands: Seq<Set<ObjId>>, i: int)
    requires
        current_of(p) matches Ok(Some(cur)) && 0 <= i < cands.len() && cands[i] == cur,
        forall|j: int| 0 <= j < cands.len() && current_of(p)->Ok_0->Some_0.subset_of(#[trigger] cands[j])
            ==> cands[j].len() == current_of(p)->Ok_0->Some_0.len(),
    ensures
        page_outcome(p, cands) == Ok::<Option<Set<ObjId>>, RepairError>(None),
        page_gain(p, cands) == 0,
{
    lemma_first_superset(current_of(p)->Ok_0->Some_0, cands);
}

/// A finite set strictly inside another finite set is smaller than it.
proof fn lemma_strict_subset_smaller(a: Set<ObjId>, b: Set<ObjId>)
    requires
        b.finite(),
        a.subset_of(b),
        a != b,
    ensures
        a.len() < b.len(),
{
    assert(exists|x: ObjId| b.contains(x) && !a.contains(x)) by {
        if forall|x: ObjId| b.contains(x) ==> a.contains(x) {
            assert(a =~= b);
        }
    }
    let x = choose|x: ObjId| b.contains(x) && !a.contains(x);
    vstd::set_lib::lemma_len_subset(a, b.remove(x));
}

/// A page whose current set lies strictly inside exactly one candidate gets
/// that candidate's set, and the run's count grows by the difference of the
/// two sizes.
pub proof fn lemma_unique_superset_replaces(pages: Seq<PageView>, p: PageView, cands: Seq<Set<ObjId>>, i: int)
    requires
        current_of(p) matches Ok(Some(cur)) && 0 <= i < cands.len() && cur.subset_of(cands[i]) && cur != cands[i],
        cands[i].finite(),
        forall|j: int| 0 <= j < cands.len() && j != i
            ==> !(current_of(p)->Ok_0->Some_0.subset_of(#[trigger] cands[j]) && current_of(p)->Ok_0->Some_0 != cands[j]),
    ensures
        page_outcome(p, cands) == Ok::<Option<Set<ObjId>>, RepairError>(Some(cands[i])),
        page_gain(p, cands) == cands[i].len() - current_of(p)->Ok_0->Some_0.len(),
        recovered(pages.push(p), cands) == recovered(pages, cands) + cands[i].len() - current_of(p)->Ok_0->Some_0.len(),
{
    let cur = current_of(p)->Ok_0->Some_0;
    lemma_strict_subset_smaller(cur, cands[i]);
    lemma_first_superset(cur, cands);
    assert(pages.push(p).drop_last() == pages);
}

/// Every page of the sequence is left as it is and regains nothing: then so
/// does the whole run.
proof fn lemma_run_untouched(pages: Seq<PageView>, cands: Seq<Set<ObjId>>)
    requires
        forall|k: int| 0 <= k < pages.len() ==>
            page_outcome(#[trigger] pages[k], cands) == Ok::<Option<Set<ObjId>>, RepairError>(None),
    ensures
        run_outcome(pages, cands) is Ok,
        forall|k: int| 0 <= k < pages.len() ==> (#[trigger] run_outcome(pages, cands)->Ok_0[k]) is None,
        recovered(pages, cands) == 0,
    decreases pages.len(),
{
    if pages.len() > 0 {
        let rest = pages.drop_last();
        assert forall|k: int| 0 <= k < rest.len() implies
            page_outcome(#[trigger] rest[k], cands) == Ok::<Option<Set<ObjId>>, RepairError>(None) by {
            assert(rest[k] == pages[k]);
        }
        lemma_run_untouched(rest, cands);
        let c = pages.last();
        assert(page_outcome(c, cands) == Ok::<Option<Set<ObjId>>, RepairError>(None));
        match current_of(c) {
            Ok(Some(cur)) => {
                lemma_first_superset(cur, cands);
            },
            _ => {},
        }
        lemma_run_ok(pages, cands);
    }
}

/// Repairing an already repaired document regains nothing, provided no page
/// had, before the repair, a second candidate containing its set. `repaired` holds the
/// pages after the first run: as they were where nothing was replaced, else
/// with their replacement as current set. The candidates stay the same,
/// since a repair changes no array object.
pub proof fn lemma_repair_idempotent(pages: Seq<PageView>, repaired: Seq<PageView>, cands: Seq<Set<ObjId>>)
    requires
        run_outcome(pages, cands) is Ok,
        repaired.len() == pages.len(),
        forall|j: int| 0 <= j < cands.len() ==> (#[trigger] cands[j]).finite(),
        forall|k: int| 0 <= k < pages.len() ==> {
            let rep = run_outcome(pages, cands)->Ok_0[k];
            match rep {
                None => #[trigger] repaired[k] == pages[k],
                Some(c) => current_of(repaired[k]) == Ok::<Option<Set<ObjId>>, RepairError>(Some(c)),
            }
        },
        forall|k: int, i: int, j: int|
            0 <= k < pages.len() && 0 <= i < cands.len() && 0 <= j < cands.len()
            && current_of(#[trigger] pages[k]) is Ok && current_of(pages[k])->Ok_0 is Some
            && is_superset(current_of(pages[k])->Ok_0->Some_0, #[trigger] cands[i])
            && is_superset(current_of(pages[k])->Ok_0->Some_0, #[trigger] cands[j])
            ==> i == j,
    ensures
        run_outcome(repaired, cands) is Ok,
        forall|k: int| 0 <= k < repaired.len() ==> (#[trigger] run_outcome(repaired, cands)->Ok_0[k]) is None,
        recovered(repaired, cands) == 0,
{
    lemma_run_ok(pages, cands);
    let s = run_outcome(pages, cands)->Ok_0;
    assert forall|k: int| 0 <= k < repaired.len() implies
        page_outcome(#[trigger] repaired[k], cands) == Ok::<Option<Set<ObjId>>, RepairError>(None) by {
        assert(page_outcome(pages[k], cands) == Ok::<Option<Set<ObjId>>, RepairError>(s[k]));
        match s[k] {
            None => {},
            Some(c) => {
                let cur = current_of(pages[k])->Ok_0->Some_0;
                lemma_first_superset(cur, cands);
                let i = first_superset(cur, cands)->Some_0;
                assert(c == cands[i]);
                lemma_first_superset(c, cands);
                if let Some(m) = first_superset(c, cands) {
                    let d = cands[m];
                    vstd::set_lib::lemma_len_subset(cur, c);
                    vstd::set_lib::lemma_len_subset(c, d);
                    assert(is_superset(cur, d));
                    assert(is_superset(cur, cands[i]));
                    assert(m == i);
                }
            },
        }
    }
    lemma_run_untouched(repaired, cands);
}

} // verus!
