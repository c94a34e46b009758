use curate::dataset::{Dataset, FilterDescriptor, Group, Provenance};
use curate::split::Tagged;

fn history() -> Provenance {
    Provenance {
        applied_filters: vec![FilterDescriptor {
            kind: "RecordStatus".to_string(),
            parameters: vec!["COMPLETE".to_string()],
        }],
    }
}

#[test]
fn extend_group_appends_to_the_group_that_has_the_key() {
    let mut ds: Dataset<u32> = Dataset::new(history(), "torsion".to_string());
    ds.extend_group("g".to_string(), vec![1, 2]);
    ds.extend_group("h".to_string(), vec![3]);
    ds.extend_group("g".to_string(), vec![4]);
    let (groups, provenance, typ) = ds.into_parts();
    assert_eq!(
        groups,
        vec![
            Group { key: "g".to_string(), records: vec![1, 2, 4] },
            Group { key: "h".to_string(), records: vec![3] },
        ]
    );
    assert_eq!(provenance, history());
    assert_eq!(typ, "torsion");
}

#[test]
fn split_tags_every_record_once_in_order() {
    let mut ds: Dataset<u32> = Dataset::new(history(), "torsion".to_string());
    ds.extend_group("g".to_string(), vec![1, 2]);
    ds.extend_group("empty".to_string(), vec![]);
    ds.extend_group("h".to_string(), vec![3]);
    assert_eq!(
        ds.split(),
        vec![
            Tagged { key: "g".to_string(), record: 1 },
            Tagged { key: "g".to_string(), record: 2 },
            Tagged { key: "h".to_string(), record: 3 },
        ]
    );
}

#[test]
fn split_of_an_empty_dataset_is_empty() {
    let ds: Dataset<u32> = Dataset::new(history(), "torsion".to_string());
    assert_eq!(ds.split(), Vec::<Tagged<u32>>::new());
}

fn filter(kind: &str, parameters: &[&str]) -> FilterDescriptor {
    FilterDescriptor {
        kind: kind.to_string(),
        parameters: parameters.iter().map(|p| p.to_string()).collect(),
    }
}

#[test]
fn descriptors_match_on_kind_and_parameters() {
    let element = filter("Element", &["H", "C", "N"]);
    assert!(element.matches(&filter("Element", &["H", "C", "N"])));
    assert!(!element.matches(&filter("Element", &["H", "C"])));
    assert!(!element.matches(&filter("Element", &["H", "N", "C"])));
    assert!(!element.matches(&filter("Elements", &["H", "C", "N"])));
    assert!(!element.matches(&filter("Element", &["H", "C", "N", "O"])));
    assert!(filter("Misc", &[]).matches(&filter("Misc", &[])));
}

#[test]
fn histories_match_on_filters_and_their_order() {
    let a = Provenance { applied_filters: vec![filter("A", &["1"]), filter("B", &[])] };
    let same = Provenance { applied_filters: vec![filter("A", &["1"]), filter("B", &[])] };
    let swapped = Provenance { applied_filters: vec![filter("B", &[]), filter("A", &["1"])] };
    let shorter = Provenance { applied_filters: vec![filter("A", &["1"])] };
    let empty = Provenance { applied_filters: vec![] };
    assert!(a.matches(&same));
    assert!(!a.matches(&swapped));
    assert!(!a.matches(&shorter));
    assert!(!shorter.matches(&a));
    assert!(!a.matches(&empty));
    assert!(empty.matches(&Provenance { applied_filters: vec![] }));
}

#[test]
fn a_copy_of_a_history_matches_it() {
    let a = Provenance { applied_filters: vec![filter("A", &["1", "2"]), filter("B", &[])] };
    let copy = a.clone();
    assert_eq!(copy, a);
    assert!(copy.matches(&a));
}

#[test]
fn a_copy_of_a_dataset_equals_it() {
    let mut ds: Dataset<String> = Dataset::new(history(), "torsion".to_string());
    ds.extend_group("g".to_string(), vec!["a".to_string(), "b".to_string()]);
    ds.extend_group("h".to_string(), vec![]);
    let copy = ds.clone();
    assert_eq!(copy, ds);
    assert_eq!(copy.groups(), ds.groups());
    assert_eq!(copy.provenance(), &history());
    assert_eq!(copy.typ(), "torsion");
}

#[test]
fn a_new_dataset_has_no_groups() {
    let ds: Dataset<u32> = Dataset::new(history(), "torsion".to_string());
    assert_eq!(ds.groups(), &Vec::<Group<u32>>::new());
    assert_eq!(ds.provenance(), &history());
    assert_eq!(ds.typ(), "torsion");
}

#[test]
fn keys_stay_unique_however_often_a_group_is_extended() {
    let mut ds: Dataset<u32> = Dataset::new(history(), "torsion".to_string());
    for round in 0..4u32 {
        for key in ["a", "b", "c"] {
            ds.extend_group(key.to_string(), vec![round]);
        }
    }
    let keys: Vec<&str> = ds.groups().iter().map(|g| g.key.as_str()).collect();
    assert_eq!(keys, vec!["a", "b", "c"]);
    for group in ds.groups() {
        assert_eq!(group.records, vec![0, 1, 2, 3]);
    }
}

#[test]
fn a_fragment_holds_one_batch_under_the_given_history_and_tag() {
    let batch = Group { key: "g".to_string(), records: vec![1u32, 2] };
    let piece = Dataset::fragment(&history(), &"torsion".to_string(), batch);
    let mut want: Dataset<u32> = Dataset::new(history(), "torsion".to_string());
    want.extend_group("g".to_string(), vec![1, 2]);
    assert_eq!(piece, want);
}
