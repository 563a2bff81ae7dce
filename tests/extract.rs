use translation_check::extract::{add_reference_keys, split_key, translation_parts, Translated};
use translation_check::lang::lang_from_filename;

const CONTENT: &str = r#"
    <div>
        <div class="text">
            not translated
        </div>
        <div class="icon">
            <Sliders />
        </div>
        <div class="text">
            {$_('sidebar_buttons.settings')}
        </div>
    </div>
    "#;

#[test]
fn test_example_serde_file() {
    assert_eq!(
        translation_parts(CONTENT)
            .expect("extracting")
            .first()
            .expect("no translation entry found")
            .segments,
        vec!["sidebar_buttons", "settings"],
    );
}

#[test]
fn extraction_finds_every_call_in_order() {
    let text = r#"_("a.b") x _('c.d.e') _("nodot") _("f.g")"#;
    let parts = translation_parts(text).expect("extracting");
    let segments: Vec<Vec<String>> = parts.into_iter().map(|t| t.segments).collect();
    assert_eq!(segments, vec![vec!["a", "b"], vec!["c", "d", "e"], vec!["f", "g"]]);
}

#[test]
fn split_key_keeps_empty_parts() {
    assert_eq!(split_key("a.b"), vec!["a", "b"]);
    assert_eq!(split_key("a..b."), vec!["a", "", "b", ""]);
    assert_eq!(split_key(""), vec![""]);
}

#[test]
fn reference_keys_are_unique() {
    let parts = vec![
        Translated { segments: vec!["a".to_string(), "b".to_string()] },
        Translated { segments: vec!["c".to_string()] },
        Translated { segments: vec!["a".to_string(), "b".to_string()] },
    ];
    let mut keys: Vec<Vec<String>> = Vec::new();
    add_reference_keys(&mut keys, &parts);
    add_reference_keys(&mut keys, &parts);
    assert_eq!(keys, vec![vec!["a", "b"], vec!["c"]]);
}

#[test]
fn language_from_file_name() {
    assert_eq!(lang_from_filename("translations/pl.json").expect("tag"), "pl");
    assert_eq!(lang_from_filename("en.json").expect("tag"), "en");
    assert_eq!(lang_from_filename("/a/b/de").expect("tag"), "de");
    assert_eq!(lang_from_filename("dir/x.y.json").expect("tag"), "x.y");
    assert_eq!(lang_from_filename("dir/.hidden").expect("tag"), ".hidden");
    assert_eq!(lang_from_filename("dir/fr.json/").expect("tag"), "fr");
    assert_eq!(lang_from_filename("pl.json/.").expect("tag"), "pl");
    assert_eq!(lang_from_filename("a/./en.json/./").expect("tag"), "en");
    assert!(lang_from_filename(".").is_err());
    assert!(lang_from_filename("/.").is_err());
    assert!(lang_from_filename("dir/..").is_err());
    assert!(lang_from_filename("/").is_err());
    assert!(lang_from_filename("").is_err());
}

#[test]
fn extraction_skips_keys_with_empty_parts() {
    let text = r#"_("a..b") _("c.d") _(".e.f") _("g.h.")"#;
    let parts = translation_parts(text).expect("extracting");
    let segments: Vec<Vec<String>> = parts.into_iter().map(|t| t.segments).collect();
    assert_eq!(segments, vec![vec!["c", "d"]]);
}
