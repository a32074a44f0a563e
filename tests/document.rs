use lopdf::{Dictionary, Document, Object};
use pdf_annot_fix::document::repair_document;
use pdf_annot_fix::recovery::RepairError;

const PAGES: (u32, u16) = (2, 0);

fn name(s: &str) -> Object {
    Object::Name(s.as_bytes().to_vec())
}

fn refs(ids: &[u32]) -> Object {
    Object::Array(ids.iter().map(|n| Object::Reference((*n, 0))).collect())
}

/// A document whose pages are objects 3, 4, ... with the given `Annots`
/// values (`None`: no entry), plus the given extra objects.
fn document(annots: Vec<Option<Object>>, extra: Vec<((u32, u16), Object)>) -> Document {
    let mut doc = Document::new();
    let mut kids = Vec::new();
    for (i, a) in annots.into_iter().enumerate() {
        let id = (3 + i as u32, 0);
        let mut page = Dictionary::new();
        page.set("Type", name("Page"));
        page.set("Parent", Object::Reference(PAGES));
        if let Some(a) = a {
            page.set("Annots", a);
        }
        doc.objects.insert(id, Object::Dictionary(page));
        kids.push(Object::Reference(id));
    }
    let mut pages = Dictionary::new();
    pages.set("Type", name("Pages"));
    pages.set("Count", Object::Integer(kids.len() as i64));
    pages.set("Kids", Object::Array(kids));
    doc.objects.insert(PAGES, Object::Dictionary(pages));
    let mut catalog = Dictionary::new();
    catalog.set("Type", name("Catalog"));
    catalog.set("Pages", Object::Reference(PAGES));
    doc.objects.insert((1, 0), Object::Dictionary(catalog));
    for (id, o) in extra {
        doc.objects.insert(id, o);
    }
    doc.trailer.set("Root", Object::Reference((1, 0)));
    doc
}

fn annots_of(doc: &Document, page: u32) -> Option<Object> {
    let dict = doc.get_object((page, 0)).unwrap().as_dict().unwrap();
    dict.get(b"Annots").ok().cloned()
}

fn sorted_refs(o: &Object) -> Vec<(u32, u16)> {
    let mut v: Vec<(u32, u16)> = o.as_array().unwrap().iter().map(|e| e.as_reference().unwrap()).collect();
    v.sort();
    v
}

#[test]
fn document_array_annots_restored() {
    let mut doc = document(vec![Some(refs(&[5, 6]))], vec![((20, 0), refs(&[5, 6, 7]))]);
    assert_eq!(repair_document(&mut doc), Ok(1));
    assert_eq!(sorted_refs(&annots_of(&doc, 3).unwrap()), vec![(5, 0), (6, 0), (7, 0)]);
}

#[test]
fn document_single_reference_becomes_array() {
    let mut doc = document(vec![Some(Object::Reference((9, 0)))], vec![((20, 0), refs(&[9, 10]))]);
    assert_eq!(repair_document(&mut doc), Ok(1));
    assert_eq!(sorted_refs(&annots_of(&doc, 3).unwrap()), vec![(9, 0), (10, 0)]);
}

#[test]
fn document_dictionary_annots_rejected() {
    let mut doc = document(vec![Some(Object::Dictionary(Dictionary::new()))], vec![((20, 0), refs(&[9, 10]))]);
    assert_eq!(repair_document(&mut doc), Err(RepairError::AnnotsShape));
}

#[test]
fn document_without_pages_recovers_nothing() {
    let mut doc = document(vec![], vec![((20, 0), refs(&[9, 10]))]);
    assert_eq!(repair_document(&mut doc), Ok(0));
}

#[test]
fn document_page_without_annots_untouched() {
    let mut doc = document(vec![None, Some(refs(&[5]))], vec![((20, 0), refs(&[5, 6]))]);
    assert_eq!(repair_document(&mut doc), Ok(1));
    assert_eq!(annots_of(&doc, 3), None);
    assert_eq!(sorted_refs(&annots_of(&doc, 4).unwrap()), vec![(5, 0), (6, 0)]);
}

#[test]
fn document_mixed_array_is_no_candidate() {
    let mixed = Object::Array(vec![Object::Reference((5, 0)), Object::Reference((6, 0)), Object::Integer(1)]);
    let mut doc = document(vec![Some(refs(&[5]))], vec![((20, 0), mixed)]);
    assert_eq!(repair_document(&mut doc), Ok(0));
    assert_eq!(sorted_refs(&annots_of(&doc, 3).unwrap()), vec![(5, 0)]);
}

#[test]
fn document_repair_twice_recovers_nothing() {
    let mut doc = document(vec![Some(refs(&[5, 6]))], vec![((20, 0), refs(&[5, 6, 7]))]);
    assert_eq!(repair_document(&mut doc), Ok(1));
    assert_eq!(repair_document(&mut doc), Ok(0));
}

#[test]
fn document_page_listed_twice_counted_once() {
    let mut doc = document(vec![Some(refs(&[5, 6]))], vec![((20, 0), refs(&[5, 6, 7]))]);
    let mut pages = doc.get_object((2, 0)).unwrap().as_dict().unwrap().clone();
    pages.set("Kids", refs(&[3, 3]));
    pages.set("Count", Object::Integer(2));
    doc.objects.insert((2, 0), Object::Dictionary(pages));
    assert_eq!(doc.get_pages().len(), 2);
    assert_eq!(repair_document(&mut doc), Ok(1));
    assert_eq!(sorted_refs(&annots_of(&doc, 3).unwrap()), vec![(5, 0), (6, 0), (7, 0)]);
}

#[test]
fn document_huge_page_count_does_not_panic() {
    let mut doc = document(vec![Some(refs(&[5]))], vec![((20, 0), refs(&[5, 6]))]);
    let mut inner = Dictionary::new();
    inner.set("Type", name("Pages"));
    inner.set("Count", Object::Integer(i64::MAX));
    inner.set("Kids", Object::Array(vec![]));
    doc.objects.insert((30, 0), Object::Dictionary(inner));
    let mut pages = doc.get_object((2, 0)).unwrap().as_dict().unwrap().clone();
    pages.set("Kids", refs(&[3, 30, 30]));
    doc.objects.insert((2, 0), Object::Dictionary(pages));
    assert_eq!(repair_document(&mut doc), Ok(1));
}
