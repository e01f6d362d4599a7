use gaiety::manifest_edit::{
    rename_dep, rewrite_source, set_module_name, set_module_name_checked, toml_name, toml_name_checked, update_pin,
};

#[test]
fn test_set_module_name() {
    let toml_content = "[module]\nname = \"old\"\nversion = \"1.0.0\"";
    let updated = set_module_name(toml_content, "new").unwrap();
    assert!(updated.contains("name = \"new\""));
}

#[test]
fn test_rename_dep() {
    let toml_content = r#"
            [module]
            name = "my_module"
            deps = [
                { name = "old_dep", version = "1.0" }
            ]
            "#;
    let updated = rename_dep(toml_content, "old_dep", "new_dep").unwrap();
    assert!(updated.contains("new_dep"));
    assert!(!updated.contains("old_dep"));
}

#[test]
fn set_module_name_keeps_the_rest() {
    let content = "# header\n[module]\nname = \"old\"\nversion = \"1.0.0\"\n";
    let updated = set_module_name(content, "fresh").unwrap();
    assert_eq!(updated, "# header\n[module]\nname = \"fresh\"\nversion = \"1.0.0\"\n");
}

#[test]
fn set_module_name_rejects_broken_toml() {
    assert_eq!(set_module_name("[module\nname = 1", "x"), Err("Failed to parse TOML".to_string()));
}

#[test]
fn set_module_name_checked_refuses_a_string_module() {
    assert_eq!(set_module_name_checked("module = \"plain\"\n", "x"), None);
    let updated = set_module_name_checked("[module]\nname = \"a\"\n", "b").unwrap().unwrap();
    assert!(updated.contains("name = \"b\""));
}

#[test]
fn rename_dep_in_array_of_tables() {
    let content = "[module]\nname = \"m\"\n\n[[module.deps]]\nname = \"old\"\n\n[[module.deps]]\nname = \"other\"\n\n[[module.deps]]\nname = \"old\"\n";
    let updated = rename_dep(content, "old", "new").unwrap();
    assert_eq!(updated.matches("name = \"new\"").count(), 2);
    assert!(updated.contains("name = \"other\""));
    assert!(!updated.contains("\"old\""));
}

#[test]
fn rename_dep_without_a_match_keeps_the_text() {
    let content = "[module]\nname = \"m\"\ndeps = [{ name = \"a\" }]\n";
    assert_eq!(rename_dep(content, "zzz", "yyy").unwrap(), content);
    let plain = "[module]\nname = \"m\"\n";
    assert_eq!(rename_dep(plain, "a", "b").unwrap(), plain);
}

#[test]
fn rename_dep_rejects_broken_toml() {
    assert_eq!(rename_dep("[module", "a", "b"), Err("Failed to parse TOML".to_string()));
}

#[test]
fn toml_name_reads_the_module_name() {
    assert_eq!(toml_name("[module]\nname = \"alpha\"\n"), Ok("alpha".to_string()));
    assert_eq!(toml_name("[module]\nname = 3\n"), Err("name field not found".to_string()));
    assert_eq!(toml_name("[module"), Err("Failed to parse TOML".to_string()));
}

#[test]
fn toml_name_checked_on_a_missing_name() {
    assert_eq!(toml_name_checked("[module]\nversion = \"1\"\n"), None);
    assert_eq!(toml_name_checked("title = \"x\"\n"), None);
    assert_eq!(toml_name_checked("[module]\nname = \"beta\"\n"), Some(Ok("beta".to_string())));
}

#[test]
fn rewrite_source_replaces_the_table() {
    let content = "[module]\nname = \"m\"\n\n[source]\nurl = \"https://old\"\n";
    let updated = rewrite_source(content, "https://new", Some("dev"), Some("abc123")).unwrap();
    assert!(updated.contains("url = \"https://new\""));
    assert!(updated.contains("branch = \"dev\""));
    assert!(updated.contains("pin = \"abc123\""));
    assert!(!updated.contains("https://old"));
    let bare = rewrite_source(content, "https://new", None, None).unwrap();
    assert!(!bare.contains("branch"));
    assert!(!bare.contains("pin"));
    assert_eq!(rewrite_source("[x", "u", None, None), Err("Failed to parse module.toml as TOML".to_string()));
}

#[test]
fn update_pin_sets_the_pin() {
    let content = "[source]\nurl = \"https://x\"\npin = \"old\"\n";
    let updated = update_pin("m/module.toml", content, "fresh").unwrap();
    assert!(updated.contains("pin = \"fresh\""));
    assert!(!updated.contains("\"old\""));
    let no_source = "[module]\nname = \"m\"\n";
    assert_eq!(update_pin("p", no_source, "x").unwrap(), no_source);
    assert_eq!(update_pin("m/module.toml", "[", "x"), Err("Failed to parse m/module.toml".to_string()));
}
