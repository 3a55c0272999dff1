use punkt::freq::{FrequencyDistribution, PairDistribution};

#[test]
fn strings_are_counted() {
    let mut fd = FrequencyDistribution::new();
    assert_eq!(fd.sum_counts(), 0);
    assert_eq!(fd.len(), 0);
    assert_eq!(fd.get("a"), 0);
    assert!(fd.insert("a"));
    assert!(fd.insert("b"));
    assert!(!fd.insert("a"));
    assert!(!fd.insert("a"));
    assert_eq!(fd.get("a"), 3);
    assert_eq!(fd.get("b"), 1);
    assert_eq!(fd.get("c"), 0);
    assert_eq!(fd.sum_counts(), 4);
    assert_eq!(fd.len(), 2);
    assert_eq!(fd.key(0), "a");
    assert_eq!(fd.key(1), "b");
    assert_eq!(fd.keys(), vec!["a".to_string(), "b".to_string()]);
    fd.clear();
    assert_eq!(fd.sum_counts(), 0);
    assert_eq!(fd.get("a"), 0);
    assert_eq!(fd.keys().len(), 0);
    assert!(fd.insert("a"));
}

#[test]
fn pairs_are_counted() {
    let mut pd = PairDistribution::new();
    assert_eq!(pd.get("a", "b"), 0);
    assert!(pd.insert("a", "b"));
    assert!(pd.insert("a", "c"));
    assert!(pd.insert("b", "a"));
    assert!(!pd.insert("a", "b"));
    assert_eq!(pd.get("a", "b"), 2);
    assert_eq!(pd.get("a", "c"), 1);
    assert_eq!(pd.get("b", "a"), 1);
    assert_eq!(pd.get("b", "b"), 0);
    assert_eq!(pd.get("c", "a"), 0);
    assert_eq!(pd.sum_counts(), 4);
    assert_eq!(pd.len(), 3);
    assert_eq!(pd.key(0), ("a", "b"));
    assert_eq!(pd.key(1), ("a", "c"));
    assert_eq!(pd.key(2), ("b", "a"));
}
