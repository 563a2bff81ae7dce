use translation_check::tree::JsonTranslationFile;

fn path(segments: &[&str]) -> Vec<String> {
    segments.iter().map(|s| s.to_string()).collect()
}

fn from_json(value: &serde_json::Value) -> JsonTranslationFile {
    match value {
        serde_json::Value::String(s) => JsonTranslationFile::Value(s.clone()),
        serde_json::Value::Object(map) => JsonTranslationFile::Subtree(
            map.iter().map(|(k, v)| (k.clone(), from_json(v))).collect(),
        ),
        other => panic!("not a translation value: {other}"),
    }
}

const EXAMPLE: &str = r#"{
    "Exited": "Exited",
    "Running": "Running",
    "Launching": "Launching",
    "Updating": "Updating",
    "Error": "Error",
    "forms": {
        "username": "Username",
        "password": "Password"
    },
    "sidebar_buttons": {
        "settings": "Settings"
    }
}"#;

#[test]
fn test_set_single() {
    let mut config = JsonTranslationFile::default();
    assert!(&config.keys().is_empty());
    config.set(&["a".to_string()], "something".to_string());
    assert_eq!(config.keys(), vec![vec!["a"]]);
}

#[test]
fn test_set_multiple() {
    let mut config = JsonTranslationFile::default();
    assert!(&config.keys().is_empty());
    config.set(&["a".to_string(), "b".to_string()], "something".to_string());
    assert_eq!(config.keys(), vec![vec!["a", "b"]]);
    assert_eq!(
        config.get(&["a".to_string(), "b".to_string()]),
        Some(&"something".to_string())
    )
}

#[test]
fn test_keys() {
    let json: serde_json::Value = serde_json::from_str(EXAMPLE).expect("could not parse");
    let parsed = from_json(&json);
    assert_eq!(
        &parsed.keys()[..7],
        vec![
            vec!["Exited"],
            vec!["Running"],
            vec!["Launching"],
            vec!["Updating"],
            vec!["Error"],
            vec!["forms", "username"],
            vec!["forms", "password"],
        ]
    )
}

#[test]
fn set_then_get_returns_value() {
    let mut tree = JsonTranslationFile::default();
    tree.set(&path(&["x", "y", "z"]), "deep".to_string());
    tree.set(&path(&["x", "w"]), "shallow".to_string());
    assert_eq!(tree.get(&path(&["x", "y", "z"])), Some(&"deep".to_string()));
    assert_eq!(tree.get(&path(&["x", "w"])), Some(&"shallow".to_string()));
    assert_eq!(tree.keys(), vec![vec!["x", "y", "z"], vec!["x", "w"]]);
}

#[test]
fn set_overwrites_in_place() {
    let mut tree = JsonTranslationFile::default();
    tree.set(&path(&["a"]), "1".to_string());
    tree.set(&path(&["b"]), "2".to_string());
    tree.set(&path(&["a"]), "3".to_string());
    assert_eq!(tree.keys(), vec![vec!["a"], vec!["b"]]);
    assert_eq!(tree.get(&path(&["a"])), Some(&"3".to_string()));
}

#[test]
fn empty_tree_has_no_keys() {
    let tree = JsonTranslationFile::default();
    assert!(tree.keys().is_empty());
    assert_eq!(tree.get(&path(&["a"])), None);
}

#[test]
fn get_misses_partial_and_overlong_paths() {
    let mut tree = JsonTranslationFile::default();
    tree.set(&path(&["a", "b"]), "v".to_string());
    assert_eq!(tree.get(&path(&["a"])), None);
    assert_eq!(tree.get(&path(&["a", "b", "c"])), None);
    assert_eq!(tree.get(&path(&["q"])), None);
    assert_eq!(tree.get(&[]), None);
}

#[test]
fn root_leaf_enumerates_empty_path() {
    let tree = JsonTranslationFile::Value("only".to_string());
    let empty: Vec<Vec<String>> = vec![vec![]];
    assert_eq!(tree.keys(), empty);
    assert_eq!(tree.get(&[]), Some(&"only".to_string()));
    assert_eq!(tree.get(&path(&["a"])), None);
}

#[test]
fn can_set_refuses_path_through_leaf() {
    let mut tree = JsonTranslationFile::default();
    tree.set(&path(&["a"]), "leaf".to_string());
    assert!(!tree.can_set(&path(&["a", "b"])));
    assert!(tree.can_set(&path(&["a"])));
    assert!(tree.can_set(&path(&["c", "d"])));
    assert!(!tree.can_set(&[]));
    assert!(!JsonTranslationFile::Value("x".to_string()).can_set(&path(&["a"])));
}

#[test]
fn duplicate_is_a_deep_copy() {
    let mut tree = JsonTranslationFile::default();
    tree.set(&path(&["a", "b"]), "1".to_string());
    tree.set(&path(&["c"]), "2".to_string());
    let mut copy = tree.duplicate();
    copy.set(&path(&["a", "b"]), "changed".to_string());
    assert_eq!(tree.get(&path(&["a", "b"])), Some(&"1".to_string()));
    assert_eq!(copy.get(&path(&["a", "b"])), Some(&"changed".to_string()));
    assert_eq!(copy.keys(), tree.keys());
}
