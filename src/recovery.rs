use vstd::prelude::*;
use crate::refs::{ObjId, refs_of, lists_set, contains_id, ref_set};

verus! {

/// Why a repair run stops.
#[derive(Debug, Clone, Copy, PartialEq, Eq, Structural)]
pub enum RepairError {
    /// A page identifier resolves to no object.
    PageNotFound,
    /// A page identifier resolves to an object that is not a dictionary.
    PageNotDictionary,
    /// A page's `Annots` is neither an array nor a single reference.
    AnnotsShape,
}

/// What a page lookup found, as far as the repair reads it.
pub enum PageEntry {
    /// The page's object does not exist.
    Missing,
    /// The page's object is not a dictionary.
    NotDictionary,
    /// The page dictionary has no `Annots` entry.
    NoAnnots,
    /// `Annots` is an array; each element is its reference, if it is one.
    Array(Vec<Option<ObjId>>),
    /// `Annots` is a single reference.
    Reference(ObjId),
    /// `Annots` has some other shape.
    Other,
}

/// The mathematical view of a [`PageEntry`].
pub enum PageView {
    Missing,
    NotDictionary,
    NoAnnots,
    Array(Seq<Option<ObjId>>),
    Reference(ObjId),
    Other,
}

impl View for PageEntry {
    type V = PageView;

    open spec fn view(&self) -> PageView {
        match self {
            PageEntry::Missing => PageView::Missing,
            PageEntry::NotDictionary => PageView::NotDictionary,
            PageEntry::NoAnnots => PageView::NoAnnots,
            PageEntry::Array(a) => PageView::Array(a@),
            PageEntry::Reference(r) => PageView::Reference(*r),
            PageEntry::Other => PageView::Other,
        }
    }
}

/// The views of a sequence of page entries.
pub open spec fn page_views(pages: Seq<PageEntry>) -> Seq<PageView> {
    pages.map_values(|p: PageEntry| p@)
}

/// The sets listed by a sequence of candidate vectors.
pub open spec fn cand_sets(cands: Seq<Vec<ObjId>>) -> Seq<Set<ObjId>> {
    cands.map_values(|c: Vec<ObjId>| c@.to_set())
}

/// Every candidate vector lists its members once.
pub open spec fn cands_unique(cands: Seq<Vec<ObjId>>) -> bool {
    forall|i: int| 0 <= i < cands.len() ==> (#[trigger] cands[i])@.no_duplicates()
}

/// A page's current annotation set: `None` when it has no `Annots`.
pub open spec fn current_of(p: PageView) -> Result<Option<Set<ObjId>>, RepairError> {
    match p {
        PageView::Missing => Err(RepairError::PageNotFound),
        PageView::NotDictionary => Err(RepairError::PageNotDictionary),
        PageView::NoAnnots => Ok(None),
        PageView::Array(a) => Ok(Some(refs_of(a))),
        PageView::Reference(r) => Ok(Some(set![r])),
        PageView::Other => Err(RepairError::AnnotsShape),
    }
}

/// `c` contains `cur` and differs from it in size, so it strictly contains it.
pub open spec fn is_superset(cur: Set<ObjId>, c: Set<ObjId>) -> bool {
    c.len() != cur.len() && cur.subset_of(c)
}

/// The index of the first candidate that is a superset of `cur`.
pub open spec fn first_superset(cur: Set<ObjId>, cands: Seq<Set<ObjId>>) -> Option<int>
    decreases cands.len(),
{
    if cands.len() == 0 {
        None
    } else {
        match first_superset(cur, cands.drop_last()) {
            Some(i) => Some(i),
            None => if is_superset(cur, cands.last()) {
                Some(cands.len() - 1)
            } else {
                None
            },
        }
    }
}

/// The replacement for a page whose current set (or lookup error) is `cur`
/// (`None`: it is left as it is).
pub open spec fn decide(cur: Result<Option<Set<ObjId>>, RepairError>, cands: Seq<Set<ObjId>>) -> Result<Option<Set<ObjId>>, RepairError> {
    match cur {
        Err(e) => Err(e),
        Ok(None) => Ok(None),
        Ok(Some(s)) => match first_superset(s, cands) {
            Some(i) => Ok(Some(cands[i])),
            None => Ok(None),
        },
    }
}

/// The number of references regained by a page whose current set is `cur`.
pub open spec fn gain_of(cur: Result<Option<Set<ObjId>>, RepairError>, cands: Seq<Set<ObjId>>) -> nat {
    match cur {
        Ok(Some(s)) => match first_superset(s, cands) {
            Some(i) => (cands[i].len() - s.len()) as nat,
            None => 0,
        },
        _ => 0,
    }
}

/// The replacement a page receives (`None`: it is left as it is), or the error
/// that its lookup raises.
pub open spec fn page_outcome(p: PageView, cands: Seq<Set<ObjId>>) -> Result<Option<Set<ObjId>>, RepairError> {
    decide(current_of(p), cands)
}

/// The number of references a page regains.
pub open spec fn page_gain(p: PageView, cands: Seq<Set<ObjId>>) -> nat {
    gain_of(current_of(p), cands)
}

/// The replacements of all pages in order, or the error of the first page
/// that fails.
pub open spec fn run_outcome(pages: Seq<PageView>, cands: Seq<Set<ObjId>>) -> Result<Seq<Option<Set<ObjId>>>, RepairError>
    decreases pages.len(),
{
    if pages.len() == 0 {
        Ok(Seq::empty())
    } else {
        match run_outcome(pages.drop_last(), cands) {
            Err(e) => Err(e),
            Ok(s) => match page_outcome(pages.last(), cands) {
                Err(e) => Err(e),
                Ok(o) => Ok(s.push(o)),
            },
        }
    }
}

/// The total number of references regained over all pages.
pub open spec fn recovered(pages: Seq<PageView>, cands: Seq<Set<ObjId>>) -> nat
    decreases pages.len(),
{
    if pages.len() == 0 {
        0
    } else {
        recovered(pages.drop_last(), cands) + page_gain(pages.last(), cands)
    }
}

/// A count as a `usize` holds it: saturated at the largest value.
pub open spec fn capped(n: nat) -> usize {
    if n > usize::MAX {
        usize::MAX
    } else {
        n as usize
    }
}

/// `first_superset` finds the earliest qualifying candidate, and finds none
/// exactly when no candidate qualifies.
pub proof fn lemma_first_superset(cur: Set<ObjId>, cands: Seq<Set<ObjId>>)
    ensures
        match first_superset(cur, cands) {
            Some(i) => 0 <= i < cands.len() && is_superset(cur, cands[i])
                && forall|j: int| 0 <= j < i ==> !is_superset(cur, #[trigger] cands[j]),
            None => forall|j: int| 0 <= j < cands.len() ==> !is_superset(cur, #[trigger] cands[j]),
        },
    decreases cands.len(),
{
    if cands.len() > 0 {
        let rest = cands.drop_last();
        lemma_first_superset(cur, rest);
        assert(forall|j: int| 0 <= j < rest.len() ==> rest[j] == cands[j]);
    }
}

/// A page's current annotation set, each member once; `None` when it has no
/// `Annots`.
pub fn current_set(p: &PageEntry) -> (r: Result<Option<Vec<ObjId>>, RepairError>)
    ensures
        match current_of(p@) {
            Err(e) => r == Err::<Option<Vec<ObjId>>, RepairError>(e),
            Ok(None) => r == Ok::<Option<Vec<ObjId>>, RepairError>(None),
            Ok(Some(s)) => r matches Ok(Some(v)) && lists_set(v@, s),
        },
{
    match p {
        PageEntry::Missing => Err(RepairError::PageNotFound),
        PageEntry::NotDictionary => Err(RepairError::PageNotDictionary),
        PageEntry::NoAnnots => Ok(None),
        PageEntry::Array(a) => Ok(Some(ref_set(a))),
        PageEntry::Reference(r) => {
            let v = vec![*r];
            assert(v@.to_set() =~= set![*r]);
            Ok(Some(v))
        },
        PageEntry::Other => Err(RepairError::AnnotsShape),
    }
}

/// Whether every member of `cur` is a member of `c`.
fn is_subset(cur: &Vec<ObjId>, c: &Vec<ObjId>) -> (r: bool)
    ensures
        r == cur@.to_set().subset_of(c@.to_set()),
{
    let mut i: usize = 0;
    while i < cur.len()
        invariant
            0 <= i <= cur.len(),
            forall|j: int| 0 <= j < i ==> c@.contains(#[trigger] cur@[j]),
        decreases cur.len() - i,
    {
        if !contains_id(c, cur[i]) {
            assert(cur@.to_set().contains(cur@[i as int]));
            return false;
        }
        i = i + 1;
    }
    true
}

/// The index of the first candidate that strictly contains `cur`.
pub fn find_superset(cur: &Vec<ObjId>, cands: &Vec<Vec<ObjId>>) -> (r: Option<usize>)
    requires
        cur@.no_duplicates(),
        cands_unique(cands@),
    ensures
        match r {
            Some(i) => first_superset(cur@.to_set(), cand_sets(cands@)) == Some(i as int),
            None => first_superset(cur@.to_set(), cand_sets(cands@)) is None,
        },
{
    let ghost sets = cand_sets(cands@);
    proof {
        lemma_first_superset(cur@.to_set(), sets);
        cur@.unique_seq_to_set();
    }
    let mut i: usize = 0;
    while i < cands.len()
        invariant
            0 <= i <= cands.len(),
            sets == cand_sets(cands@),
            cands_unique(cands@),
            cur@.len() == cur@.to_set().len(),
            forall|j: int| 0 <= j < i ==> !is_superset(cur@.to_set(), #[trigger] sets[j]),
        decreases cands.len() - i,
    {
        let c = &cands[i];
        proof {
            c@.unique_seq_to_set();
        }
        if c.len() != cur.len() && is_subset(cur, c) {
            assert(is_superset(cur@.to_set(), sets[i as int]));
            proof {
                lemma_first_superset(cur@.to_set(), sets);
                let k = first_superset(cur@.to_set(), sets);
                if let Some(k) = k {
                    if k > i {
                        assert(!is_superset(cur@.to_set(), sets[i as int]));
                    }
                }
            }
            return Some(i);
        }
        i = i + 1;
    }
    proof {
        lemma_first_superset(cur@.to_set(), sets);
    }
    None
}

/// The replacements of a run listed as vectors: `None` where a page is left
/// as it is, else the members of its replacement, each once.
pub open spec fn lists_edits(edits: Seq<Option<Vec<ObjId>>>, s: Seq<Option<Set<ObjId>>>) -> bool {
    &&& edits.len() == s.len()
    &&& forall|j: int| 0 <= j < s.len() ==> (#[trigger] edits[j] is None <==> s[j] is None)
    &&& forall|j: int| 0 <= j < s.len() && edits[j] is Some ==> lists_set((#[trigger] edits[j])->Some_0@, s[j]->Some_0)
}

/// Once a prefix of the pages fails, the whole run fails with its error.
pub proof fn lemma_run_error_extends(pages: Seq<PageView>, cands: Seq<Set<ObjId>>, n: int)
    requires
        0 <= n <= pages.len(),
        run_outcome(pages.subrange(0, n), cands) is Err,
    ensures
        run_outcome(pages, cands) == run_outcome(pages.subrange(0, n), cands),
    decreases pages.len() - n,
{
    if n < pages.len() {
        let next = pages.subrange(0, n + 1);
        assert(next.drop_last() == pages.subrange(0, n));
        assert(pages.subrange(0, n + 1).subrange(0, n) == pages.subrange(0, n));
        lemma_run_error_extends(pages, cands, n + 1);
    } else {
        assert(pages.subrange(0, n) == pages);
    }
}

/// A copy of a list of identifiers.
fn copy_ids(v: &Vec<ObjId>) -> (r: Vec<ObjId>)
    ensures
        r@ == v@,
{
    let mut out: Vec<ObjId> = Vec::new();
    let mut i: usize = 0;
    while i < v.len()
        invariant
            0 <= i <= v.len(),
            out@ == v@.subrange(0, i as int),
        decreases v.len() - i,
    {
        out.push(v[i]);
        i = i + 1;
    }
    out
}

/// Repairs the annotation sets of the pages, in order, against the candidate
/// index. On success gives each page's replacement (`None`: left as it is)
/// and the number of references regained; otherwise the error of the first
/// page that fails.
pub fn recover_pages(pages: &Vec<PageEntry>, cands: &Vec<Vec<ObjId>>) -> (r: Result<(Vec<Option<Vec<ObjId>>>, usize), RepairError>)
    requires
        cands_unique(cands@),
    ensures
        match run_outcome(page_views(pages@), cand_sets(cands@)) {
            Err(e) => r == Err::<(Vec<Option<Vec<ObjId>>>, usize), RepairError>(e),
            Ok(s) => r matches Ok((edits, count)) && lists_edits(edits@, s)
                && count == capped(recovered(page_views(pages@), cand_sets(cands@))),
        },
{
    let ghost views = page_views(pages@);
    let ghost sets = cand_sets(cands@);
    let mut edits: Vec<Option<Vec<ObjId>>> = Vec::new();
    let mut count: usize = 0;
    let ghost mut done: Seq<Option<Set<ObjId>>> = Seq::empty();
    let mut i: usize = 0;
    while i < pages.len()
        invariant
            0 <= i <= pages.len(),
            views == page_views(pages@),
            sets == cand_sets(cands@),
            cands_unique(cands@),
            run_outcome(views.subrange(0, i as int), sets) == Ok::<Seq<Option<Set<ObjId>>>, RepairError>(done),
            lists_edits(edits@, done),
            count == capped(recovered(views.subrange(0, i as int), sets)),
        decreases pages.len() - i,
    {
        let ghost prefix = views.subrange(0, i + 1);
        assert(prefix.drop_last() == views.subrange(0, i as int));
        assert(prefix.last() == pages@[i as int]@);
        match current_set(&pages[i]) {
            Err(e) => {
                proof {
                    lemma_run_error_extends(views, sets, i + 1);
                }
                return Err(e);
            },
            Ok(None) => {
                edits.push(None);
                proof {
                    done = done.push(None);
                }
            },
            Ok(Some(v)) => {
                match find_superset(&v, cands) {
                    Some(k) => {
                        proof {
                            lemma_first_superset(v@.to_set(), sets);
                        }
                        let c = &cands[k];
                        proof {
                            c@.unique_seq_to_set();
                            v@.unique_seq_to_set();
                            vstd::set_lib::lemma_len_subset(v@.to_set(), c@.to_set());
                        }
                        let gain = c.len() - v.len();
                        edits.push(Some(copy_ids(c)));
                        if count > usize::MAX - gain {
                            count = usize::MAX;
                        } else {
                            count = count + gain;
                        }
                        proof {
                            done = done.push(Some(sets[k as int]));
                        }
                    },
                    None => {
                        edits.push(None);
                        proof {
                            done = done.push(None);
                        }
                    },
                }
            },
        }
        i = i + 1;
    }
    assert(views.subrange(0, pages.len() as int) == views);
    Ok((edits, count))
}

/// A successful run has one outcome per page: that page's own.
pub proof fn lemma_run_ok(pages: Seq<PageView>, cands: Seq<Set<ObjId>>)
    requires
        run_outcome(pages, cands) is Ok,
    ensures
        run_outcome(pages, cands)->Ok_0.len() == pages.len(),
        forall|k: int| 0 <= k < pages.len() ==>
            page_outcome(#[trigger] pages[k], cands) == Ok::<Option<Set<ObjId>>, RepairError>(run_outcome(pages, cands)->Ok_0[k]),
    decreases pages.len(),
{
    if pages.len() > 0 {
        let rest = pages.drop_last();
        lemma_run_ok(rest, cands);
        assert forall|k: int| 0 <= k < pages.len() implies
            page_outcome(#[trigger] pages[k], cands) == Ok::<Option<Set<ObjId>>, RepairError>(run_outcome(pages, cands)->Ok_0[k]) by {
            if k < rest.len() {
                assert(rest[k] == pages[k]);
            }
        }
    }
}

/// Decides one page against the candidate index: its replacement, each
/// member once, with the number of references it regains; `None` where the
/// page is left as it is; or the error its lookup raises.
pub fn recover_page(p: &PageEntry, cands: &Vec<Vec<ObjId>>) -> (r: Result<Option<(Vec<ObjId>, usize)>, RepairError>)
    requires
        cands_unique(cands@),
    ensures
        match page_outcome(p@, cand_sets(cands@)) {
            Err(e) => r == Err::<Option<(Vec<ObjId>, usize)>, RepairError>(e),
            Ok(None) => r == Ok::<Option<(Vec<ObjId>, usize)>, RepairError>(None),
            Ok(Some(c)) => r matches Ok(Some((v, g))) && lists_set(v@, c)
                && g == page_gain(p@, cand_sets(cands@)),
        },
{
    let ghost sets = cand_sets(cands@);
    match current_set(p) {
        Err(e) => Err(e),
        Ok(None) => Ok(None),
        Ok(Some(v)) => match find_superset(&v, cands) {
            Some(k) => {
                proof {
                    lemma_first_superset(v@.to_set(), sets);
                }
                let c = &cands[k];
                proof {
                    c@.unique_seq_to_set();
                    v@.unique_seq_to_set();
                    vstd::set_lib::lemma_len_subset(v@.to_set(), c@.to_set());
                }
                Ok(Some((copy_ids(c), c.len() - v.len())))
            },
            None => Ok(None),
        },
    }
}

} // verus!
