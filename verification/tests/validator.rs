use gaiety::manifest::{ApiMeta, Dependency, Manifest, ModuleMeta};
use gaiety::types::{DiscoveredModule, ModuleStatus};
use gaiety::validator::{is_function_defined, CommandValidator, DependencyValidator};

fn module(name: &str, version: &str, deps: &[(&str, Option<&str>)]) -> DiscoveredModule {
    DiscoveredModule {
        path: format!("/mods/{}", name),
        manifest: Manifest {
            module: ModuleMeta {
                name: name.to_string(),
                description: None,
                version: version.to_string(),
                deps: deps
                    .iter()
                    .map(|(n, v)| Dependency { name: n.to_string(), version: v.map(|s| s.to_string()), source: None })
                    .collect(),
                tags: vec![],
                requires_cmd: vec![],
                requires_any_cmd: vec![],
                implicit: None,
                enabled: Some(true),
            },
            api: ApiMeta::empty(),
            load: None,
            source: None,
        },
        prefix_order: None,
        dir_index: 0,
        status: ModuleStatus::Loaded,
    }
}

#[test]
fn validate_test_is_function_defined() {
    assert!(is_function_defined("my_func() {\n}", "my_func"));
    assert!(is_function_defined("my_func () {\n}", "my_func"));
    assert!(is_function_defined("function my_func {\n}", "my_func"));
    assert!(!is_function_defined("# my_func() {\n}", "my_func"));
    assert!(!is_function_defined("other_func() {\n}", "my_func"));
}

#[test]
fn commands_test_is_function_defined() {
    assert!(CommandValidator::is_fn("my_func() {\n}", "my_func"));
    assert!(CommandValidator::is_fn("my_func () {\n}", "my_func"));
    assert!(CommandValidator::is_fn("function my_func {\n}", "my_func"));
    assert!(!CommandValidator::is_fn("# my_func() {\n}", "my_func"));
    assert!(!CommandValidator::is_fn("other_func() {\n}", "my_func"));
}

#[test]
fn is_fn_reads_every_line() {
    let text = "x=1\r\n  \t_comp() {\r\n}\n# f() {}\n";
    assert!(CommandValidator::is_fn(text, "_comp"));
    assert!(!CommandValidator::is_fn(text, "f"));
    assert!(!CommandValidator::is_fn("", "f"));
    assert!(CommandValidator::is_fn("a\n\nf(", "f"));
}

#[test]
fn missing_dependency_skips_and_cascades() {
    let mut modules = vec![
        module("a", "1.0.0", &[("missing", None)]),
        module("b", "1.0.0", &[("a", None)]),
        module("c", "1.0.0", &[("b", None)]),
        module("d", "1.0.0", &[]),
    ];
    DependencyValidator::validate(&mut modules);
    assert_eq!(modules[0].status, ModuleStatus::SkippedMissingDep("missing".into()));
    assert_eq!(modules[1].status, ModuleStatus::SkippedMissingDep("a".into()));
    assert_eq!(modules[2].status, ModuleStatus::SkippedMissingDep("b".into()));
    assert_eq!(modules[3].status, ModuleStatus::Loaded);
}

#[test]
fn version_constraints_checked() {
    let mut modules = vec![
        module("lib", "1.5", &[]),
        module("ok", "1.0.0", &[("lib", Some(">=1.0"))]),
        module("old", "1.0.0", &[("lib", Some(">=2.0"))]),
        module("bad", "1.0.0", &[("lib", Some("??"))]),
    ];
    DependencyValidator::validate(&mut modules);
    assert_eq!(modules[0].status, ModuleStatus::Loaded);
    assert_eq!(modules[1].status, ModuleStatus::Loaded);
    assert_eq!(modules[2].status, ModuleStatus::SkippedMissingDep("lib@>=2.0".into()));
    match &modules[3].status {
        ModuleStatus::SkippedBadConstraint(m) => assert!(m.starts_with("dep 'lib': invalid constraint '??': ")),
        other => panic!("unexpected status {:?}", other),
    }
}

#[test]
fn skipped_module_is_no_dependency() {
    let mut modules = vec![module("a", "1.0.0", &[]), module("b", "1.0.0", &[("a", None)])];
    modules[0].status = ModuleStatus::SkippedMissingCmd("git".into());
    DependencyValidator::validate(&mut modules);
    assert_eq!(modules[0].status, ModuleStatus::SkippedMissingCmd("git".into()));
    assert_eq!(modules[1].status, ModuleStatus::SkippedMissingDep("a".into()));
}

#[test]
fn required_commands() {
    let mut modules = vec![module("a", "1.0.0", &[]), module("b", "1.0.0", &[]), module("c", "1.0.0", &[])];
    modules[0].manifest.module.requires_cmd = vec!["ls".into(), "nope".into(), "gone".into()];
    modules[1].manifest.module.requires_any_cmd = vec!["eza".into(), "ls".into()];
    modules[2].manifest.module.requires_any_cmd = vec!["eza".into(), "exa".into()];
    let available = vec!["ls".to_string()];
    CommandValidator::cmds(&mut modules, &available);
    CommandValidator::any_cmds(&mut modules, &available);
    assert_eq!(modules[0].status, ModuleStatus::SkippedMissingCmd("nope".into()));
    assert_eq!(modules[1].status, ModuleStatus::Loaded);
    assert_eq!(modules[2].status, ModuleStatus::SkippedMissingAnyCmd(vec!["eza".into(), "exa".into()]));
}

#[test]
fn completion_warnings() {
    let mut modules = vec![module("a", "1.0.0", &[]), module("b", "1.0.0", &[])];
    modules[0].manifest.api.completions = vec![("lt".into(), "_comp_dirs".into()), ("x".into(), "_nowhere".into())];
    modules[1].status = ModuleStatus::SkippedMissingCmd("z".into());
    let contents = vec![Some("_comp_dirs() { _path_files -/; }\n".to_string()), Some("_nowhere() {}\n".to_string())];
    let warnings = CommandValidator::comps(&modules, &contents);
    assert_eq!(
        warnings,
        vec!["module 'a': completion function '_nowhere' not found in any init.zsh (if it is defined in a sourced sub-file, this warning can be ignored)".to_string()]
    );
}

#[test]
fn validator_satisfies() {
    assert_eq!(DependencyValidator::satisfies("1.2.3", ">=1.0.0"), Ok(true));
    assert!(DependencyValidator::satisfies("nope", ">=1.0.0").is_err());
}
