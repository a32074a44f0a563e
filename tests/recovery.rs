use pdf_annot_fix::index::candidate_index;
use pdf_annot_fix::recovery::{current_set, find_superset, recover_pages, PageEntry, RepairError};

fn r(n: u32) -> Option<(u32, u16)> {
    Some((n, 0))
}

fn sorted(mut v: Vec<(u32, u16)>) -> Vec<(u32, u16)> {
    v.sort();
    v
}

#[test]
fn index_keeps_only_pure_reference_arrays() {
    let objs = vec![
        Some(vec![r(1), r(2)]),
        Some(vec![r(3), None]),
        None,
        Some(vec![]),
        Some(vec![r(4), r(4), r(5)]),
    ];
    let idx = candidate_index(&objs);
    assert_eq!(idx.len(), 3);
    assert_eq!(sorted(idx[0].clone()), vec![(1, 0), (2, 0)]);
    assert!(idx[1].is_empty());
    assert_eq!(sorted(idx[2].clone()), vec![(4, 0), (5, 0)]);
}

#[test]
fn index_of_empty_graph_is_empty() {
    assert!(candidate_index(&vec![]).is_empty());
}

#[test]
fn current_set_of_each_shape() {
    assert_eq!(current_set(&PageEntry::Missing), Err(RepairError::PageNotFound));
    assert_eq!(current_set(&PageEntry::NotDictionary), Err(RepairError::PageNotDictionary));
    assert_eq!(current_set(&PageEntry::NoAnnots), Ok(None));
    assert_eq!(current_set(&PageEntry::Other), Err(RepairError::AnnotsShape));
    assert_eq!(current_set(&PageEntry::Reference((9, 0))), Ok(Some(vec![(9, 0)])));
    let got = current_set(&PageEntry::Array(vec![r(6), None, r(5), r(6)])).unwrap().unwrap();
    assert_eq!(sorted(got), vec![(5, 0), (6, 0)]);
}

#[test]
fn first_superset_wins() {
    let cur = vec![(1, 0)];
    let cands = vec![vec![(2, 0)], vec![(1, 0)], vec![(1, 0), (2, 0), (3, 0)], vec![(1, 0), (2, 0)]];
    assert_eq!(find_superset(&cur, &cands), Some(2));
    assert_eq!(find_superset(&vec![(4, 0)], &cands), None);
}

#[test]
fn empty_current_set_matches_first_nonempty_candidate() {
    let cands = vec![vec![], vec![(3, 0)]];
    assert_eq!(find_superset(&vec![], &cands), Some(1));
}

#[test]
fn zero_pages_recover_nothing() {
    let cands = vec![vec![(1, 0), (2, 0)]];
    let (edits, count) = recover_pages(&vec![], &cands).unwrap();
    assert!(edits.is_empty());
    assert_eq!(count, 0);
}

#[test]
fn array_annots_regain_missing_reference() {
    let cands = candidate_index(&vec![Some(vec![r(5), r(6), r(7)])]);
    let pages = vec![PageEntry::Array(vec![r(5), r(6)])];
    let (edits, count) = recover_pages(&pages, &cands).unwrap();
    assert_eq!(count, 1);
    assert_eq!(sorted(edits[0].clone().unwrap()), vec![(5, 0), (6, 0), (7, 0)]);
}

#[test]
fn single_reference_becomes_array() {
    let cands = candidate_index(&vec![Some(vec![r(9), r(10)])]);
    let pages = vec![PageEntry::Reference((9, 0))];
    let (edits, count) = recover_pages(&pages, &cands).unwrap();
    assert_eq!(count, 1);
    assert_eq!(sorted(edits[0].clone().unwrap()), vec![(9, 0), (10, 0)]);
}

#[test]
fn dictionary_annots_fail_the_run() {
    let cands = candidate_index(&vec![Some(vec![r(9), r(10)])]);
    let pages = vec![PageEntry::Reference((9, 0)), PageEntry::Other];
    assert_eq!(recover_pages(&pages, &cands), Err(RepairError::AnnotsShape));
}

#[test]
fn first_failing_page_decides_the_error() {
    let pages = vec![PageEntry::NoAnnots, PageEntry::NotDictionary, PageEntry::Missing];
    assert_eq!(recover_pages(&pages, &vec![]), Err(RepairError::PageNotDictionary));
}

#[test]
fn absent_annots_left_alone() {
    let cands = candidate_index(&vec![Some(vec![r(1), r(2)])]);
    let pages = vec![PageEntry::NoAnnots, PageEntry::Array(vec![r(1)])];
    let (edits, count) = recover_pages(&pages, &cands).unwrap();
    assert_eq!(edits[0], None);
    assert!(edits[1].is_some());
    assert_eq!(count, 1);
}

#[test]
fn equal_candidate_is_no_replacement() {
    let cands = candidate_index(&vec![Some(vec![r(2), r(1)])]);
    let pages = vec![PageEntry::Array(vec![r(1), r(2)])];
    let (edits, count) = recover_pages(&pages, &cands).unwrap();
    assert_eq!(edits[0], None);
    assert_eq!(count, 0);
}

#[test]
fn unique_superset_counts_difference() {
    let cands = candidate_index(&vec![Some(vec![r(8)]), Some(vec![r(1), r(2), r(3), r(4)])]);
    let pages = vec![PageEntry::Array(vec![r(2), None])];
    let (edits, count) = recover_pages(&pages, &cands).unwrap();
    assert_eq!(count, 3);
    assert_eq!(sorted(edits[0].clone().unwrap()), vec![(1, 0), (2, 0), (3, 0), (4, 0)]);
}

#[test]
fn counts_add_over_pages() {
    let cands = candidate_index(&vec![Some(vec![r(1), r(2), r(3)]), Some(vec![r(7), r(8)])]);
    let pages = vec![PageEntry::Reference((1, 0)), PageEntry::NoAnnots, PageEntry::Array(vec![r(8)])];
    let (_, count) = recover_pages(&pages, &cands).unwrap();
    assert_eq!(count, 3);
}

#[test]
fn second_run_recovers_nothing() {
    let cands = candidate_index(&vec![Some(vec![r(5), r(6), r(7)])]);
    let pages = vec![PageEntry::Array(vec![r(5), r(6)]), PageEntry::NoAnnots];
    let (edits, count) = recover_pages(&pages, &cands).unwrap();
    assert_eq!(count, 1);
    let again: Vec<PageEntry> = edits
        .iter()
        .zip(pages.iter())
        .map(|(e, p)| match (e, p) {
            (Some(v), _) => PageEntry::Array(v.iter().map(|id| Some(*id)).collect()),
            (None, PageEntry::NoAnnots) => PageEntry::NoAnnots,
            (None, _) => panic!("unexpected page"),
        })
        .collect();
    let (edits2, count2) = recover_pages(&again, &cands).unwrap();
    assert_eq!(count2, 0);
    assert!(edits2.iter().all(|e| e.is_none()));
}
