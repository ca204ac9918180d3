use bigtools::idmap::{ChromSizes, IdMap};

#[test]
fn ids_are_dense_and_in_first_seen_order() {
    let mut ids = IdMap::new();
    assert_eq!(ids.len(), 0);
    assert_eq!(ids.get_id("chr17"), 0);
    assert_eq!(ids.get_id("chr18"), 1);
    assert_eq!(ids.get_id("chr17"), 0);
    assert_eq!(ids.get_id("chr2"), 2);
    assert_eq!(ids.get_id("chr18"), 1);
    assert_eq!(ids.len(), 3);
    assert_eq!(
        ids.entries(),
        vec![("chr17".to_string(), 0), ("chr18".to_string(), 1), ("chr2".to_string(), 2)]
    );
}

#[test]
fn names_are_compared_exactly() {
    let mut ids = IdMap::new();
    assert_eq!(ids.get_id("chr1"), 0);
    assert_eq!(ids.get_id("Chr1"), 1);
    assert_eq!(ids.get_id("chr1 "), 2);
    assert_eq!(ids.get_id(""), 3);
    assert_eq!(ids.get_id("chr1"), 0);
    assert_eq!(ids.get_id(""), 3);
}

#[test]
fn sizes_are_looked_up_by_name() {
    let mut sizes = ChromSizes::new();
    assert_eq!(sizes.get("chr17"), None);
    sizes.insert("chr17".to_string(), 1000);
    sizes.insert("chr18".to_string(), 2000);
    assert_eq!(sizes.get("chr17"), Some(1000));
    assert_eq!(sizes.get("chr18"), Some(2000));
    assert_eq!(sizes.get("chr1"), None);
    sizes.insert("chr17".to_string(), 5);
    assert_eq!(sizes.get("chr17"), Some(5));
}
