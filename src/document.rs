use vstd::prelude::*;
use lopdf::{Document, Object};
use crate::refs::{ObjId, refs_of, all_refs};
use crate::index::{candidates, objects_view, candidate_index};
use crate::recovery::{
    PageView, RepairError, cand_sets, cands_unique, current_of, decide, gain_of, capped,
    recover_page, PageEntry,
};

verus! {

#[verifier::external_type_specification]
#[verifier::external_body]
pub struct ExDocument(lopdf::Document);

/// For each indirect object of the document, in identifier order: its array
/// elements, each as its reference if it is one, or `None` for an object that
/// is no array.
pub uninterp spec fn object_arrays_of(d: Document) -> Seq<Option<Seq<Option<ObjId>>>>;

/// The page identifiers of the document in page order, as its page tree
/// walk yields them.
pub uninterp spec fn pages_of(d: Document) -> Seq<ObjId>;

/// What looking up `id` as a page finds.
pub uninterp spec fn page_entry_of(d: Document, id: ObjId) -> PageView;

/// The identifier of the object that looking up `id` ends at, after
/// following references (`id` itself where it is no reference or the lookup
/// fails).
pub uninterp spec fn target_of(d: Document, id: ObjId) -> ObjId;

/// The page holds a dictionary.
pub open spec fn is_dictionary(p: PageView) -> bool {
    !(p is Missing) && !(p is NotDictionary)
}

/// The candidate index of the document.
pub open spec fn doc_candidates(d: Document) -> Seq<Set<ObjId>> {
    candidates(object_arrays_of(d))
}

/// Relies on lopdf's `Document::objects`, `Object::as_array` and
/// `Object::as_reference`: every object in identifier order, as its array
/// elements.
#[verifier::external_body]
fn object_arrays(doc: &Document) -> (r: Vec<Option<Vec<Option<ObjId>>>>)
    ensures
        objects_view(r@) == object_arrays_of(*doc),
{
    doc.objects
        .values()
        .map(|o| o.as_array().ok().map(|a| a.iter().map(|e| e.as_reference().ok()).collect()))
        .collect()
}

/// Relies on lopdf's `Document::page_iter`: the page identifiers in page
/// order, as `Document::get_pages` numbers them. Pushed one by one, so that no
/// capacity is reserved from the page tree's `Count` entries.
#[verifier::external_body]
fn page_ids(doc: &Document) -> (r: Vec<ObjId>)
    ensures
        r@ == pages_of(*doc),
{
    let mut v = Vec::new();
    for id in doc.page_iter() {
        v.push(id);
    }
    v
}

/// Relies on lopdf's `Document::get_object`, `Object::as_dict` and
/// `Dictionary::get`: looks up `id`, following references, and reads the
/// `Annots` entry of the dictionary found.
#[verifier::external_body]
fn read_page(doc: &Document, id: ObjId) -> (r: PageEntry)
    ensures
        r@ == page_entry_of(*doc, id),
{
    match doc.get_object(id).map(Object::as_dict) {
        Err(_) => PageEntry::Missing,
        Ok(Err(_)) => PageEntry::NotDictionary,
        Ok(Ok(dict)) => match dict.get(b"Annots") {
            Err(_) => PageEntry::NoAnnots,
            Ok(Object::Array(a)) => PageEntry::Array(
                a.iter().map(|e| if let Object::Reference(r) = e { Some(*r) } else { None }).collect(),
            ),
            Ok(Object::Reference(r)) => PageEntry::Reference(*r),
            Ok(_) => PageEntry::Other,
        },
    }
}

/// Relies on lopdf's `Document::get_object_mut`, `Object::as_dict_mut` and
/// `Dictionary::set`: sets the `Annots` entry of the dictionary that `id`
/// ends at to an array of the given references. Only that dictionary
/// changes, and it stays a dictionary: the page tree, every array object and
/// every lookup that ends elsewhere are as before.
#[verifier::external_body]
fn set_annots(doc: &mut Document, id: ObjId, refs: &Vec<ObjId>)
    ensures
        is_dictionary(page_entry_of(*old(doc), id))
            ==> page_entry_of(*final(doc), id) == PageView::Array(refs@.map_values(|r: ObjId| Some(r))),
        !is_dictionary(page_entry_of(*old(doc), id)) ==> *final(doc) == *old(doc),
        pages_of(*final(doc)) == pages_of(*old(doc)),
        object_arrays_of(*final(doc)) == object_arrays_of(*old(doc)),
        forall|q: ObjId| target_of(*final(doc), q) == target_of(*old(doc), q),
        forall|q: ObjId| target_of(*old(doc), q) != target_of(*old(doc), id)
            ==> page_entry_of(*final(doc), q) == page_entry_of(*old(doc), q),
        forall|q: ObjId| is_dictionary(page_entry_of(*old(doc), id)) && target_of(*old(doc), q) == target_of(*old(doc), id)
            ==> page_entry_of(*final(doc), q) == page_entry_of(*final(doc), id),
{
    if let Ok(dict) = doc.get_object_mut(id).and_then(Object::as_dict_mut) {
        dict.set("Annots", Object::Array(refs.iter().map(|r| Object::Reference(*r)).collect()));
    }
}

/// A page after the repair: as it was where it has no replacement, else an
/// array of exactly the references of its replacement, each once.
pub open spec fn repaired_entry(after: PageView, before: PageView, rep: Option<Set<ObjId>>) -> bool {
    match rep {
        None => after == before,
        Some(c) => after matches PageView::Array(a) && all_refs(a) && a.no_duplicates() && refs_of(a) == c,
    }
}

/// The replacements made so far, by identifier: none.
pub open spec fn no_edits() -> spec_fn(ObjId) -> Option<Set<ObjId>> {
    |q: ObjId| None
}

/// What looking up `q` as a page gives once the replacements `edits` are made
/// in `d`: the replacement's set, else its current set or lookup error in `d`.
pub open spec fn current_after(d: Document, edits: spec_fn(ObjId) -> Option<Set<ObjId>>, q: ObjId) -> Result<Option<Set<ObjId>>, RepairError> {
    match edits(q) {
        Some(c) => Ok(Some(c)),
        None => current_of(page_entry_of(d, q)),
    }
}

/// `edits` with `id` given the set `c`: a replacement written at the
/// dictionary that `id` ends at, so every identifier ending there sees it.
pub open spec fn edit_at(d: Document, edits: spec_fn(ObjId) -> Option<Set<ObjId>>, id: ObjId, c: Set<ObjId>) -> spec_fn(ObjId) -> Option<Set<ObjId>> {
    |q: ObjId| if target_of(d, q) == target_of(d, id) { Some(c) } else { edits(q) }
}

/// Repairs the pages in order, each decided on what its lookup gives after the
/// replacements before it: the references regained and the replacements by
/// identifier, or the error of the first page that fails.
pub open spec fn run_pages(
    d: Document,
    edits: spec_fn(ObjId) -> Option<Set<ObjId>>,
    pages: Seq<ObjId>,
    cands: Seq<Set<ObjId>>,
) -> Result<(nat, spec_fn(ObjId) -> Option<Set<ObjId>>), RepairError>
    decreases pages.len(),
{
    if pages.len() == 0 {
        Ok((0, edits))
    } else {
        let cur = current_after(d, edits, pages[0]);
        match decide(cur, cands) {
            Err(e) => Err(e),
            Ok(None) => run_pages(d, edits, pages.drop_first(), cands),
            Ok(Some(c)) => match run_pages(d, edit_at(d, edits, pages[0], c), pages.drop_first(), cands) {
                Err(e) => Err(e),
                Ok((n, f)) => Ok((n + gain_of(cur, cands), f)),
            },
        }
    }
}

/// A run's outcome with `acc` more references counted.
pub open spec fn plus(
    r: Result<(nat, spec_fn(ObjId) -> Option<Set<ObjId>>), RepairError>,
    acc: nat,
) -> Result<(nat, spec_fn(ObjId) -> Option<Set<ObjId>>), RepairError> {
    match r {
        Ok((n, f)) => Ok((n + acc, f)),
        Err(e) => Err(e),
    }
}

/// The run over the document's pages from no replacements.
pub open spec fn doc_run(d: Document) -> Result<(nat, spec_fn(ObjId) -> Option<Set<ObjId>>), RepairError> {
    run_pages(d, no_edits(), pages_of(d), doc_candidates(d))
}

/// Repairs the annotation lists of the document's pages in place, one page
/// after another, and gives the number of references regained, or the error
/// of the first page that fails. On success every identifier's lookup is as
/// before but where a replacement was written at the dictionary it ends at.
pub fn repair_document(doc: &mut Document) -> (r: Result<usize, RepairError>)
    ensures
        match doc_run(*old(doc)) {
            Err(e) => r == Err::<usize, RepairError>(e),
            Ok((n, edits)) => r == Ok::<usize, RepairError>(capped(n))
                && pages_of(*final(doc)) == pages_of(*old(doc))
                && object_arrays_of(*final(doc)) == object_arrays_of(*old(doc))
                && forall|q: ObjId|
                    repaired_entry(#[trigger] page_entry_of(*final(doc), q), page_entry_of(*old(doc), q), edits(q)),
        },
{
    let ghost d0 = *doc;
    let arrays = object_arrays(doc);
    let cands = candidate_index(&arrays);
    let ghost sets = doc_candidates(d0);
    assert(cand_sets(cands@) =~= sets);
    let ids = page_ids(doc);
    let ghost all = pages_of(d0);
    let ghost mut edits = no_edits();
    let mut count: usize = 0;
    let ghost mut acc: nat = 0;
    let mut i: usize = 0;
    assert(all.subrange(0, all.len() as int) == all);
    while i < ids.len()
        invariant
            0 <= i <= ids.len(),
            d0 == *old(doc),
            ids@ == all,
            all == pages_of(d0),
            sets == doc_candidates(d0),
            cand_sets(cands@) == sets,
            cands_unique(cands@),
            doc_run(d0) == plus(run_pages(d0, edits, all.subrange(i as int, all.len() as int), sets), acc),
            count == capped(acc),
            pages_of(*doc) == pages_of(d0),
            object_arrays_of(*doc) == object_arrays_of(d0),
            forall|q: ObjId| target_of(*doc, q) == target_of(d0, q),
            forall|q: ObjId| repaired_entry(#[trigger] page_entry_of(*doc, q), page_entry_of(d0, q), edits(q)),
        decreases ids.len() - i,
    {
        let id = ids[i];
        let ghost suffix = all.subrange(i as int, all.len() as int);
        assert(suffix[0] == id);
        assert(suffix.drop_first() == all.subrange(i + 1, all.len() as int));
        let ghost cur = current_after(d0, edits, id);
        let e = read_page(doc, id);
        assert(current_of(e@) == cur);
        match recover_page(&e, &cands) {
            Err(err) => {
                assert(decide(cur, sets) == Err::<Option<Set<ObjId>>, RepairError>(err));
                assert(suffix.len() > 0);
                assert(run_pages(d0, edits, suffix, sets) == Err::<(nat, spec_fn(ObjId) -> Option<Set<ObjId>>), RepairError>(err));
                assert(doc_run(d0) == Err::<(nat, spec_fn(ObjId) -> Option<Set<ObjId>>), RepairError>(err));
                return Err(err);
            },
            Ok(None) => {},
            Ok(Some((v, g))) => {
                let ghost c = v@.to_set();
                let ghost before = *doc;
                set_annots(doc, id, &v);
                proof {
                    let m = v@.map_values(|r: ObjId| Some(r));
                    assert forall|r: ObjId| m.contains(Some(r)) <==> v@.contains(r) by {
                        if v@.contains(r) {
                            let k = choose|k: int| 0 <= k < v@.len() && v@[k] == r;
                            assert(m[k] == Some(r));
                        }
                        if m.contains(Some(r)) {
                            let k = choose|k: int| 0 <= k < m.len() && m[k] == Some(r);
                            assert(v@[k] == r);
                        }
                    }
                    assert(refs_of(m) =~= c);
                    assert(m.no_duplicates()) by {
                        assert forall|a: int, b: int| 0 <= a < m.len() && 0 <= b < m.len() && a != b implies m[a] != m[b] by {
                            assert(v@[a] != v@[b]);
                        }
                    }
                    let next = edit_at(d0, edits, id, c);
                    assert forall|q: ObjId| repaired_entry(#[trigger] page_entry_of(*doc, q), page_entry_of(d0, q), next(q)) by {
                        if target_of(before, q) != target_of(before, id) {
                            assert(page_entry_of(*doc, q) == page_entry_of(before, q));
                        }
                    }
                    edits = next;
                    acc = acc + g as nat;
                }
                if count > usize::MAX - g {
                    count = usize::MAX;
                } else {
                    count = count + g;
                }
            },
        }
        i = i + 1;
    }
    Ok(count)
}

} // verus!
