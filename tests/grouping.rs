use std::collections::HashMap;

use paperless::document::Document;
use paperless::field::Field;
use paperless::grouping::{group_documents, group_documents_by, GroupedDocuments};
use paperless::keys::{key_of, text_lt};
use paperless::sort::sort_documents;

fn doc(id: u64, title: &str, correspondent: Option<u64>) -> Document {
    Document {
        id,
        correspondent,
        document_type: 1,
        storage_path: None,
        title: title.to_string(),
        content: String::new(),
        tags: vec![],
        created: "2024-01-01T00:00:00Z".to_string(),
        created_date: "2024-01-01".to_string(),
        modified: "2024-01-02T00:00:00Z".to_string(),
        added: "2024-01-03T00:00:00Z".to_string(),
        archive_serial_number: id * 100,
    }
}

fn ids(docs: &Vec<Document>) -> Vec<u64> {
    docs.iter().map(|d| d.id).collect()
}

fn acme() -> HashMap<u64, String> {
    let mut lookup = HashMap::new();
    lookup.insert(10, "Acme".to_string());
    lookup
}

fn sample() -> Vec<Document> {
    vec![doc(1, "B", Some(10)), doc(2, "A", Some(10)), doc(3, "C", None)]
}

fn summary(r: &GroupedDocuments) -> Vec<(String, Vec<u64>)> {
    let mut out: Vec<(String, Vec<u64>)> =
        r.groups.iter().map(|g| (g.key.clone(), ids(&g.documents))).collect();
    out.sort();
    out
}

#[test]
fn correspondent_groups_sorted_by_title() {
    let r = group_documents(sample(), &acme(), "Correspondent", "Title", false);
    assert_eq!(r.len(), 2);
    let a = r.get("Acme").unwrap();
    assert_eq!(ids(a), vec![2, 1]);
    assert_eq!(a[0].title, "A");
    assert_eq!(a[1].title, "B");
    assert_eq!(ids(r.get("Unknown Correspondent").unwrap()), vec![3]);
}

#[test]
fn identifier_groups_descending_are_singletons() {
    let r = group_documents(sample(), &acme(), "ID", "ID", true);
    assert_eq!(r.len(), 3);
    assert_eq!(ids(r.get("1").unwrap()), vec![1]);
    assert_eq!(ids(r.get("2").unwrap()), vec![2]);
    assert_eq!(ids(r.get("3").unwrap()), vec![3]);
}

#[test]
fn every_document_lands_in_one_group() {
    let docs = vec![
        doc(1, "x", Some(10)),
        doc(2, "y", Some(11)),
        doc(3, "x", None),
        doc(4, "z", Some(10)),
        doc(5, "x", Some(10)),
    ];
    let r = group_documents(docs, &acme(), "Title", "ID", false);
    let total: usize = r.groups.iter().map(|g| g.documents.len()).sum();
    assert_eq!(total, 5);
    let mut seen: Vec<u64> = r.groups.iter().flat_map(|g| ids(&g.documents)).collect();
    seen.sort();
    assert_eq!(seen, vec![1, 2, 3, 4, 5]);
    for g in &r.groups {
        for d in &g.documents {
            assert_eq!(d.title, g.key);
        }
    }
    assert_eq!(ids(r.get("x").unwrap()), vec![1, 3, 5]);
}

#[test]
fn empty_input_gives_no_groups() {
    let r = group_documents(vec![], &acme(), "Correspondent", "Title", true);
    assert_eq!(r.len(), 0);
    assert!(r.get("Unknown Correspondent").is_none());
}

#[test]
fn correspondent_missing_from_lookup_is_unknown() {
    let docs = vec![doc(1, "a", Some(99)), doc(2, "b", None), doc(3, "c", Some(10))];
    let r = group_documents(docs, &acme(), "Correspondent", "ID", false);
    assert_eq!(ids(r.get("Unknown Correspondent").unwrap()), vec![1, 2]);
    assert_eq!(ids(r.get("Acme").unwrap()), vec![3]);
    assert!(r.get("99").is_none());
}

#[test]
fn unknown_selectors_fall_back_to_identifier() {
    let bogus = group_documents(sample(), &acme(), "Bogus", "Nope", false);
    let by_id = group_documents(sample(), &acme(), "ID", "ID", false);
    assert_eq!(summary(&bogus), summary(&by_id));
    let empty_name = group_documents(sample(), &acme(), "", "Title", false);
    assert_eq!(empty_name.len(), 3);
    assert_eq!(Field::from_name("title"), Field::Identifier);
    assert_eq!(Field::from_name("Created Date"), Field::CreatedDate);
    assert_eq!(Field::from_name("ASN"), Field::ArchiveSerialNumber);
}

#[test]
fn ties_keep_input_order() {
    let docs = vec![
        doc(7, "same", Some(10)),
        doc(3, "other", Some(10)),
        doc(9, "same", Some(10)),
        doc(1, "same", Some(10)),
    ];
    let r = group_documents(docs, &acme(), "Correspondent", "Title", false);
    assert_eq!(ids(r.get("Acme").unwrap()), vec![3, 7, 9, 1]);
}

#[test]
fn descending_reverses_each_group() {
    let docs = vec![
        doc(7, "same", Some(10)),
        doc(3, "other", Some(10)),
        doc(9, "same", Some(10)),
        doc(1, "same", None),
    ];
    let up = group_documents(docs.clone(), &acme(), "Correspondent", "Title", false);
    let down = group_documents(docs, &acme(), "Correspondent", "Title", true);
    assert_eq!(ids(down.get("Acme").unwrap()), vec![9, 7, 3]);
    for g in &up.groups {
        let mut rev = ids(&g.documents);
        rev.reverse();
        assert_eq!(ids(down.get(&g.key).unwrap()), rev);
    }
    assert_eq!(up.len(), down.len());
}

#[test]
fn same_inputs_give_same_result() {
    let a = group_documents(sample(), &acme(), "Title", "Correspondent", true);
    let b = group_documents(sample(), &acme(), "Title", "Correspondent", true);
    let keys_a: Vec<String> = a.groups.iter().map(|g| g.key.clone()).collect();
    let keys_b: Vec<String> = b.groups.iter().map(|g| g.key.clone()).collect();
    assert_eq!(keys_a, keys_b);
    assert_eq!(summary(&a), summary(&b));
}

#[test]
fn identifiers_sort_numerically() {
    let docs = vec![doc(10, "t", None), doc(9, "t", None), doc(100, "t", None), doc(2, "t", None)];
    let r = group_documents(docs, &acme(), "Title", "ID", false);
    assert_eq!(ids(r.get("t").unwrap()), vec![2, 9, 10, 100]);
}

#[test]
fn serial_numbers_sort_numerically() {
    let mut a = doc(1, "t", None);
    a.archive_serial_number = 30;
    let mut b = doc(2, "t", None);
    b.archive_serial_number = 4;
    let mut c = doc(3, "t", None);
    c.archive_serial_number = 200;
    let r = group_documents_by(vec![a, b, c], &acme(), Field::Title, Field::ArchiveSerialNumber, false);
    assert_eq!(ids(r.get("t").unwrap()), vec![2, 1, 3]);
}

#[test]
fn group_keys_are_decimal_strings() {
    let mut d = doc(42, "t", None);
    d.archive_serial_number = 1007;
    assert_eq!(key_of(Field::Identifier, &d, &acme()), "42");
    assert_eq!(key_of(Field::ArchiveSerialNumber, &d, &acme()), "1007");
    let mut z = doc(0, "t", None);
    z.archive_serial_number = u64::MAX;
    assert_eq!(key_of(Field::Identifier, &z, &acme()), "0");
    assert_eq!(key_of(Field::ArchiveSerialNumber, &z, &acme()), "18446744073709551615");
    let r = group_documents(vec![d], &acme(), "ASN", "ID", false);
    assert_eq!(ids(r.get("1007").unwrap()), vec![42]);
}

#[test]
fn created_date_groups_and_text_order() {
    let mut a = doc(1, "b", Some(10));
    a.created_date = "2024-05-01".to_string();
    let mut b = doc(2, "a", Some(10));
    b.created_date = "2024-05-01".to_string();
    let mut c = doc(3, "c", Some(10));
    c.created_date = "2023-12-31".to_string();
    let r = group_documents(vec![a, b, c], &acme(), "Created Date", "Title", false);
    assert_eq!(r.len(), 2);
    assert_eq!(ids(r.get("2024-05-01").unwrap()), vec![2, 1]);
    assert_eq!(ids(r.get("2023-12-31").unwrap()), vec![3]);
}

#[test]
fn text_order_is_bytewise() {
    assert!(text_lt("B", "a"));
    assert!(!text_lt("a", "B"));
    assert!(text_lt("A", "Ab"));
    assert!(!text_lt("Ab", "A"));
    assert!(!text_lt("same", "same"));
    assert!(text_lt("z", "é"));
    assert!(text_lt("", "a"));
}

#[test]
fn sort_by_correspondent_name() {
    let mut lookup = acme();
    lookup.insert(11, "Beta".to_string());
    lookup.insert(12, "Zulu".to_string());
    let docs = vec![doc(1, "t", Some(12)), doc(2, "t", None), doc(3, "t", Some(11)), doc(4, "t", Some(10))];
    let sorted = sort_documents(docs, Field::Correspondent, &lookup);
    assert_eq!(ids(&sorted), vec![4, 3, 2, 1]);
}

#[test]
fn sort_keeps_every_document() {
    let docs = vec![doc(3, "c", None), doc(1, "a", None), doc(2, "a", None), doc(1, "a", None)];
    let sorted = sort_documents(docs, Field::Title, &acme());
    assert_eq!(ids(&sorted), vec![1, 2, 1, 3]);
    let empty = sort_documents(vec![], Field::Title, &acme());
    assert!(empty.is_empty());
}
