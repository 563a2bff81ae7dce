use translation_check::reconcile::{
    apply_fills, contains_text, diff, fill_for, key_difference, placeholder, plan_fills, Fill,
    ReconcileError, UNHANDLED_MARKER,
};
use translation_check::tree::JsonTranslationFile;

fn path(segments: &[&str]) -> Vec<String> {
    segments.iter().map(|s| s.to_string()).collect()
}

fn tree_with(entries: &[(&[&str], &str)]) -> JsonTranslationFile {
    let mut tree = JsonTranslationFile::default();
    for (p, v) in entries {
        tree.set(&path(p), v.to_string());
    }
    tree
}

#[test]
fn placeholder_has_marker_and_dotted_path() {
    assert_eq!(placeholder(&path(&["a", "b"])), format!("{}.a.b", UNHANDLED_MARKER));
    assert_eq!(placeholder(&path(&["a", "b"])), "---UHANDLED---.a.b");
}

#[test]
fn placeholder_fill_without_provider() {
    let tree = tree_with(&[(&["x"], "X")]);
    let reference = vec![path(&["x"]), path(&["a", "b"])];
    let d = diff(&reference, &tree);
    assert_eq!(d.missing, vec![path(&["a", "b"])]);
    let plan = plan_fills(&d.missing, false, None).expect("plan");
    assert_eq!(plan.len(), 1);
    match &plan[0].1 {
        Fill::Text(t) => assert_eq!(t, "---UHANDLED---.a.b"),
        other => panic!("unexpected {other:?}"),
    }
    let mut tree = tree;
    let fills: Vec<(Vec<String>, String)> = vec![(path(&["a", "b"]), "---UHANDLED---.a.b".to_string())];
    assert!(matches!(apply_fills(&mut tree, &fills), Ok(true)));
    assert_eq!(tree.get(&path(&["a", "b"])), Some(&"---UHANDLED---.a.b".to_string()));
}

#[test]
fn complete_file_is_left_alone() {
    let mut tree = tree_with(&[(&["a"], "A"), (&["b", "c"], "C")]);
    let reference = vec![path(&["b", "c"]), path(&["a"])];
    for _ in 0..2 {
        let d = diff(&reference, &tree);
        assert!(d.missing.is_empty());
        let plan = plan_fills(&d.missing, true, None).expect("plan");
        assert!(plan.is_empty());
        assert!(matches!(apply_fills(&mut tree, &Vec::new()), Ok(false)));
    }
    assert_eq!(tree.keys(), vec![vec!["a"], vec!["b", "c"]]);
}

#[test]
fn diff_splits_missing_and_excess() {
    let tree = tree_with(&[(&["a"], "A"), (&["b"], "B"), (&["c", "d"], "D")]);
    let reference = vec![path(&["a"]), path(&["c", "d"]), path(&["e"]), path(&["c", "x"])];
    let d = diff(&reference, &tree);
    assert_eq!(d.missing, vec![path(&["e"]), path(&["c", "x"])]);
    assert_eq!(d.excess, vec![path(&["b"])]);
    assert_eq!(
        key_difference(&vec![path(&["a"]), path(&["b"])], &vec![path(&["b"])]),
        vec![path(&["a"])]
    );
}

#[test]
fn source_of_truth_is_never_filled() {
    let missing = vec![path(&["a", "b"]), path(&["c"])];
    match plan_fills(&missing, true, None) {
        Err(ReconcileError::SourceIncomplete(p)) => assert_eq!(p, path(&["a", "b"])),
        other => panic!("unexpected {other:?}"),
    }
}

#[test]
fn translation_takes_source_value() {
    let source = tree_with(&[(&["a", "b"], "Hello")]);
    match fill_for(&path(&["a", "b"]), false, Some(&source)) {
        Ok(Fill::Translate(t)) => assert_eq!(t, "Hello"),
        other => panic!("unexpected {other:?}"),
    }
}

#[test]
fn translating_placeholder_is_fatal() {
    let source = tree_with(&[(&["a"], "---UHANDLED---.a")]);
    match fill_for(&path(&["a"]), false, Some(&source)) {
        Err(ReconcileError::TranslatesPlaceholder(p)) => assert_eq!(p, path(&["a"])),
        other => panic!("unexpected {other:?}"),
    }
}

#[test]
fn translating_absent_source_value_is_fatal() {
    let source = tree_with(&[(&["a"], "A")]);
    match fill_for(&path(&["z"]), false, Some(&source)) {
        Err(ReconcileError::NotInSource(p)) => assert_eq!(p, path(&["z"])),
        other => panic!("unexpected {other:?}"),
    }
}

#[test]
fn fill_through_leaf_is_a_conflict() {
    let mut tree = tree_with(&[(&["a"], "A")]);
    let fills: Vec<(Vec<String>, String)> = vec![
        (path(&["z"]), "Z".to_string()),
        (path(&["a", "b"]), "B".to_string()),
    ];
    match apply_fills(&mut tree, &fills) {
        Err(ReconcileError::StructuralConflict(p)) => assert_eq!(p, path(&["a", "b"])),
        other => panic!("unexpected {other:?}"),
    }
    assert_eq!(tree.keys(), vec![vec!["a"]]);
    assert_eq!(tree.get(&path(&["z"])), None);
}

#[test]
fn contains_text_finds_runs() {
    assert!(contains_text("xx---UHANDLED---yy", UNHANDLED_MARKER));
    assert!(!contains_text("---UHANDLED--", UNHANDLED_MARKER));
    assert!(contains_text("abc", ""));
    assert!(contains_text("abc", "bc"));
    assert!(!contains_text("abc", "cb"));
}
