use gaiety::graph::Sorter;
use gaiety::loader::Loader;
use gaiety::manifest::{ApiMeta, Dependency, Manifest, ModuleMeta};
use gaiety::source::{dedup_modules, prefix_order, read_module, validate_version, LocalSource};
use gaiety::types::{DiscoveredModule, ModuleStatus};

fn module(name: &str, dir_index: usize, prefix: Option<u32>, deps: &[&str]) -> DiscoveredModule {
    DiscoveredModule {
        path: format!("/dir{}/{}", dir_index, name),
        manifest: Manifest {
            module: ModuleMeta {
                name: name.to_string(),
                description: None,
                version: "1.0.0".to_string(),
                deps: deps.iter().map(|n| Dependency { name: n.to_string(), version: None, source: None }).collect(),
                tags: vec![],
                requires_cmd: vec![],
                requires_any_cmd: vec![],
                implicit: None,
                enabled: Some(true),
            },
            api: ApiMeta::empty(),
            load: None,
            source: None,
        },
        prefix_order: prefix,
        dir_index,
        status: ModuleStatus::Loaded,
    }
}

fn names(modules: &[DiscoveredModule]) -> Vec<String> {
    modules.iter().map(|m| m.manifest.module.name.clone()).collect()
}

#[test]
fn loader_test_loader_new_empty_or_invalid() {
    assert!(Loader::new("").is_err());
    assert!(Loader::new("/nonexistent/path/gaiety/test").is_err());
}

#[test]
fn mod_test_loader_new_empty_or_invalid() {
    assert!(Loader::new("").is_err());
    assert!(Loader::new("/nonexistent/path/gaiety/test").is_err());
}

#[test]
fn loader_messages_and_order() {
    assert_eq!(Loader::new("::").err().unwrap(), "no module directories specified");
    assert_eq!(
        Loader::new("/nonexistent/path/gaiety/test").err().unwrap(),
        "module directory does not exist: /nonexistent/path/gaiety/test"
    );
    let l = Loader::new("/:/tmp:").unwrap();
    assert_eq!(l.dirs, vec!["/".to_string(), "/tmp".to_string()]);
    assert_eq!(l.default_write(), "/tmp");
    assert_eq!(l.default_write_dir(), "/tmp");
}

#[test]
fn sort_puts_dependencies_first() {
    let mut modules = vec![
        module("app", 0, Some(1), &["lib"]),
        module("lib", 0, Some(2), &[]),
        module("other", 0, Some(3), &[]),
    ];
    Sorter::sort_modules(&mut modules);
    assert_eq!(names(&modules), vec!["lib", "app", "other"]);
}

#[test]
fn sort_by_directory_prefix_and_name() {
    let mut modules = vec![
        module("zeta", 1, Some(1), &[]),
        module("beta", 0, None, &[]),
        module("alpha", 0, None, &[]),
        module("gamma", 0, Some(7), &[]),
    ];
    Sorter::sort_modules(&mut modules);
    assert_eq!(names(&modules), vec!["gamma", "alpha", "beta", "zeta"]);
}

#[test]
fn sort_marks_cycles_and_duplicates() {
    let mut modules = vec![
        module("a", 0, Some(1), &["b"]),
        module("b", 0, Some(2), &["a"]),
        module("c", 0, Some(3), &["d", "d"]),
        module("d", 0, Some(4), &[]),
    ];
    Sorter::sort_modules(&mut modules);
    assert_eq!(names(&modules), vec!["d", "c", "a", "b"]);
    assert_eq!(modules[1].status, ModuleStatus::WarnDuplicateDep("d".into()));
    match &modules[2].status {
        ModuleStatus::SkippedCycle(path) => {
            assert_eq!(path.first().map(String::as_str), Some("a"));
            assert_eq!(path.last().map(String::as_str), Some("a"));
        }
        other => panic!("unexpected status {:?}", other),
    }
    assert!(matches!(modules[3].status, ModuleStatus::SkippedCycle(_)));
}

#[test]
fn prefix_orders() {
    assert_eq!(prefix_order("05_list"), Some(5));
    assert_eq!(prefix_order("list"), None);
    assert_eq!(prefix_order("+7_x"), Some(7));
    assert_eq!(prefix_order("4294967295_x"), Some(4294967295));
    assert_eq!(prefix_order("4294967296_x"), None);
    assert_eq!(prefix_order("_x"), None);
    assert_eq!(prefix_order("12"), Some(12));
    assert_eq!(prefix_order("1a_x"), None);
}

#[test]
fn reading_modules() {
    let m = module("x", 0, None, &[]).manifest;
    let r = read_module("/d/03_x".to_string(), 2, Ok(m));
    assert_eq!(r.prefix_order, Some(3));
    assert_eq!(r.dir_index, 2);
    assert_eq!(r.status, ModuleStatus::Loaded);
    let b = read_module("/d/04_y".to_string(), 1, Err("Failed to parse manifest: /d/04_y/module.toml".into()));
    assert_eq!(b.manifest.module.name, "04_y");
    assert_eq!(b.prefix_order, None);
    assert_eq!(b.status, ModuleStatus::FailedManifest("Failed to parse manifest: /d/04_y/module.toml".into()));
    assert_eq!(
        validate_version("one"),
        ModuleStatus::FailedManifest("invalid version string: 'one' (expected semver, e.g, 1.2.3)".into())
    );
    assert_eq!(validate_version("2"), ModuleStatus::Loaded);
}

#[test]
fn last_directory_wins() {
    let mut modules = vec![module("a", 0, None, &[]), module("b", 0, None, &[]), module("a", 1, None, &[])];
    dedup_modules(&mut modules);
    assert_eq!(names(&modules), vec!["b", "a"]);
    assert_eq!(modules[1].dir_index, 1);
    assert_eq!(LocalSource::new(vec!["/x".into()]).dirs, vec!["/x".to_string()]);
}

#[test]
fn full_pipeline() {
    let l = Loader::new("/").unwrap();
    let mut found = vec![
        module("app", 0, Some(1), &["lib"]),
        module("lib", 0, Some(2), &[]),
        module("tool", 0, Some(3), &[]),
    ];
    found[1].manifest.module.requires_cmd = vec!["git".into()];
    let out = l.get_modules(found, &vec![]);
    assert_eq!(names(&out), vec!["lib", "app", "tool"]);
    assert_eq!(out[0].status, ModuleStatus::SkippedMissingCmd("git".into()));
    assert_eq!(out[1].status, ModuleStatus::SkippedMissingDep("lib".into()));
    assert_eq!(out[2].status, ModuleStatus::Loaded);
}

#[test]
fn sort_marks_only_the_cycle() {
    let mut modules = vec![module("a", 0, None, &["b"]), module("b", 0, None, &["a"]), module("c", 0, None, &["a"])];
    Sorter::sort_modules(&mut modules);
    let status_of = |n: &str| modules.iter().find(|m| m.manifest.module.name == n).unwrap().status.clone();
    assert_eq!(status_of("a"), ModuleStatus::SkippedCycle(vec!["a".into(), "b".into(), "a".into()]));
    assert_eq!(status_of("b"), ModuleStatus::SkippedCycle(vec!["b".into(), "a".into(), "b".into()]));
    assert_eq!(status_of("c"), ModuleStatus::Loaded);
}

#[test]
fn cycle_dependents_miss_a_dependency() {
    let l = Loader::new("/").unwrap();
    let found = vec![module("a", 0, None, &["b"]), module("b", 0, None, &["a"]), module("c", 0, None, &["a"])];
    let out = l.get_modules(found, &vec![]);
    let status_of = |n: &str| out.iter().find(|m| m.manifest.module.name == n).unwrap().status.clone();
    assert!(matches!(status_of("a"), ModuleStatus::SkippedCycle(_)));
    assert!(matches!(status_of("b"), ModuleStatus::SkippedCycle(_)));
    assert_eq!(status_of("c"), ModuleStatus::SkippedMissingDep("a".into()));
}

#[test]
fn get_modules_keeps_the_last_directory() {
    let l = Loader::new("/").unwrap();
    let found = vec![module("a", 0, None, &[]), module("b", 0, None, &[]), module("a", 1, None, &[])];
    let out = l.get_modules(found, &vec![]);
    assert_eq!(out.len(), 2);
    let a = out.iter().find(|m| m.manifest.module.name == "a").unwrap();
    assert_eq!(a.dir_index, 1);
}

#[test]
fn loader_from_answers() {
    assert_eq!(Loader::loader_from(vec![], &vec![]).err().unwrap(), "no module directories specified");
    let missing = Loader::loader_from(vec!["/a".into(), "/b".into(), "/c".into()], &vec![true, false, false]);
    assert_eq!(missing.err().unwrap(), "module directory does not exist: /b");
    let l = Loader::loader_from(vec!["/a".into(), "/b".into()], &vec![true, true]).unwrap();
    assert_eq!(l.dirs, vec!["/a".to_string(), "/b".to_string()]);
}

#[test]
fn validation_names_the_first_dropped_dependency() {
    use_validate();
}

fn use_validate() {
    let mut modules = vec![
        module("a", 0, None, &["missing"]),
        module("b", 0, None, &["a"]),
        module("c", 0, None, &["b", "a"]),
        module("d", 0, None, &["c"]),
    ];
    gaiety::validator::DependencyValidator::validate(&mut modules);
    assert_eq!(modules[0].status, ModuleStatus::SkippedMissingDep("missing".into()));
    assert_eq!(modules[1].status, ModuleStatus::SkippedMissingDep("a".into()));
    assert_eq!(modules[2].status, ModuleStatus::SkippedMissingDep("a".into()));
    assert_eq!(modules[3].status, ModuleStatus::SkippedMissingDep("c".into()));
}
