use amethystate::merge::merge_buffered;
use amethystate::path::StorePath;

fn p(joined: &str) -> StorePath {
    StorePath::parse_joined(joined).unwrap()
}

fn shown(v: &[(StorePath, Vec<u8>)]) -> Vec<(String, Vec<u8>)> {
    v.iter().map(|(k, b)| (k.as_string(), b.clone())).collect()
}

#[test]
fn a_buffered_write_replaces_and_a_delete_removes() {
    let committed = vec![(p("a"), vec![1]), (p("b"), vec![2]), (p("d"), vec![4])];
    let buffered = vec![(p("b"), Some(vec![20])), (p("c"), Some(vec![3])), (p("d"), None)];

    let merged = merge_buffered(committed, buffered);

    assert_eq!(
        shown(&merged),
        vec![
            ("a".to_string(), vec![1]),
            ("b".to_string(), vec![20]),
            ("c".to_string(), vec![3]),
        ]
    );
}

#[test]
fn the_result_keeps_path_order_across_levels() {
    let committed = vec![(p("ui"), vec![0]), (p("ui.theme"), vec![1])];
    let buffered = vec![(p("ui.scale"), Some(vec![2])), (p("uix"), Some(vec![3]))];

    let merged = merge_buffered(committed, buffered);

    assert_eq!(
        shown(&merged),
        vec![
            ("ui".to_string(), vec![0]),
            ("ui.scale".to_string(), vec![2]),
            ("ui.theme".to_string(), vec![1]),
            ("uix".to_string(), vec![3]),
        ]
    );
}

#[test]
fn a_delete_of_nothing_committed_leaves_nothing() {
    let merged = merge_buffered(Vec::new(), vec![(p("gone"), None)]);
    assert!(merged.is_empty());
    let merged = merge_buffered(vec![(p("kept"), vec![9])], Vec::new());
    assert_eq!(shown(&merged), vec![("kept".to_string(), vec![9])]);
}
