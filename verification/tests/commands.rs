use gaiety::browse::{fzf_selection, generate_fzf_input};
use gaiety::common::{name_valid, next_prefix, valid_fn};
use gaiety::file_guard::{TempDirGuard, TempFileGuard, TempFilesGuard};
use gaiety::info;
use gaiety::list;
use gaiety::manifest::{ApiMeta, Dependency, LoadMeta, LoadMode, Manifest, ModuleMeta, SourceMeta};
use gaiety::path::module_init_path;
use gaiety::profile::generate_profile_script;
use gaiety::prune::orphaned_modules;
use gaiety::remove::{calculate_cascade, renumber_modules, target_module};
use gaiety::rename::{dependents_to_rewrite, rename_target, renamed_dir};
use gaiety::resolve::resolvable_deps;
use gaiety::sync::{default_cache_path, sq_escape, sync_counts, sync_summary, zcompile_script};
use gaiety::types::{DiscoveredModule, ModuleStatus, Tone};
use gaiety::update::{column_width, group_by_url, group_up_to_date, managed_modules, nothing_managed, pull_up_to_date};

fn module(path: &str, name: &str, deps: &[(&str, Option<&str>)]) -> DiscoveredModule {
    DiscoveredModule {
        path: path.to_string(),
        manifest: Manifest {
            module: ModuleMeta {
                name: name.to_string(),
                description: None,
                version: "1.0.0".to_string(),
                deps: deps
                    .iter()
                    .map(|(n, v)| Dependency { name: n.to_string(), version: v.map(|s| s.to_string()), source: None })
                    .collect(),
                tags: vec![],
                requires_cmd: vec![],
                requires_any_cmd: vec![],
                implicit: None,
                enabled: Some(true),
            },
            api: ApiMeta::empty(),
            load: None,
            source: None,
        },
        prefix_order: None,
        dir_index: 0,
        status: ModuleStatus::Loaded,
    }
}

fn strings(v: &[&str]) -> Vec<String> {
    v.iter().map(|s| s.to_string()).collect()
}

#[test]
fn new_test_is_valid_name() {
    assert!(name_valid("my_module"));
    assert!(name_valid("_private_mod"));
    assert!(name_valid("mod123"));
    assert!(!name_valid("123mod"));
    assert!(!name_valid("my-mod"));
    assert!(!name_valid(""));
}

#[test]
fn name_characters() {
    assert!(valid_fn('a') && valid_fn('Z') && valid_fn('0') && valid_fn('_'));
    assert!(!valid_fn('-') && !valid_fn(' ') && !valid_fn('\u{e9}'));
}

#[test]
fn next_prefix_is_above_the_directory() {
    let mut a = module("/m/03_a", "a", &[]);
    a.prefix_order = Some(3);
    let mut b = module("/m/09_b", "b", &[]);
    b.prefix_order = Some(9);
    b.dir_index = 1;
    let mut c = module("/other/20_c", "c", &[]);
    c.prefix_order = Some(20);
    let modules = vec![a, b, c];
    assert_eq!(next_prefix(&modules, Some(0), "/m"), 21);
    assert_eq!(next_prefix(&modules, Some(1), "/m"), 10);
    assert_eq!(next_prefix(&modules, None, "/m"), 10);
    assert_eq!(next_prefix(&modules, None, "/empty"), 1);
}

#[test]
fn removal_target() {
    let modules = vec![module("/a/01_x", "x", &[]), module("/b/01_x", "x", &[])];
    assert_eq!(target_module(&modules, "x", &None).unwrap().path, "/a/01_x");
    assert_eq!(target_module(&modules, "x", &Some("/b".into())).unwrap().path, "/b/01_x");
    assert_eq!(target_module(&modules, "x", &Some("/c".into())).err().unwrap(), "Module 'x' not found in '/c'.");
    assert_eq!(target_module(&modules, "y", &None).err().unwrap(), "Module 'y' not found.");
}

#[test]
fn cascade_of_removals() {
    let modules = vec![
        module("/m/01_app", "app", &[("lib", None), ("util", None)]),
        module("/m/02_lib", "lib", &[("core", None)]),
        module("/m/03_util", "util", &[]),
        module("/m/04_core", "core", &[]),
        module("/m/05_tool", "tool", &[("util", None)]),
    ];
    let out = calculate_cascade(&modules, &strings(&["app"]));
    assert_eq!(out, strings(&["app", "lib", "core"]));
    let out = calculate_cascade(&modules, &strings(&["tool", "app"]));
    assert_eq!(out, strings(&["tool", "app", "lib", "core", "util"]));
    let out = calculate_cascade(&modules, &strings(&["core"]));
    assert_eq!(out, strings(&["core"]));
}

#[test]
fn renumbering() {
    let plan = renumber_modules(&strings(&["05_foo", "12_bar", "03_baz_qux", "plain"]));
    assert_eq!(
        plan,
        vec![Some("01_foo".to_string()), Some("02_bar".to_string()), None, Some("04_plain".to_string())]
    );
    assert_eq!(renumber_modules(&strings(&["01_a", "02_b"])), vec![None, None]);
}

#[test]
fn pruning_orphans() {
    let mut modules = vec![
        module("/m/01_app", "app", &[("lib", None)]),
        module("/m/02_lib", "lib", &[("core", None)]),
        module("/m/03_core", "core", &[]),
        module("/m/04_loose", "loose", &[]),
    ];
    modules[1].manifest.module.implicit = Some(true);
    modules[2].manifest.module.implicit = Some(true);
    modules[3].manifest.module.implicit = Some(true);
    assert_eq!(orphaned_modules(&modules), vec![3]);
    modules.remove(0);
    assert_eq!(orphaned_modules(&modules), vec![0, 2, 1]);
}

#[test]
fn renaming() {
    let modules = vec![
        module("/m/01_old", "old", &[]),
        module("/m/02_user", "user", &[("old", Some(">=1"))]),
        module("/m/03_other", "other", &[("x", None)]),
    ];
    assert_eq!(rename_target(&modules, "old", "new"), Ok(0));
    assert_eq!(rename_target(&modules, "none", "new").err().unwrap(), "Module 'none' not found.");
    assert_eq!(rename_target(&modules, "old", "user").err().unwrap(), "Module 'user' already exists.");
    assert_eq!(renamed_dir("05_old_name", "fresh"), "05_fresh");
    assert_eq!(renamed_dir("old", "fresh"), "fresh");
    assert_eq!(dependents_to_rewrite(&modules, "old"), vec![1]);
}

#[test]
fn list_and_info_texts() {
    let mut m = module("/m/01_x", "x", &[("a", Some(">=1.0")), ("b", None)]);
    assert_eq!(list::format_dependencies(&m), "[a@>=1.0, b]");
    assert_eq!(info::format_dependencies(&m), "a@>=1.0, b");
    let empty = module("/m/02_y", "y", &[]);
    assert_eq!(list::format_dependencies(&empty), "[]");
    assert_eq!(info::format_dependencies(&empty), "\u{2014}");
    assert_eq!(list::format_status(&m), ("loaded", Tone::Green));
    m.manifest.api.defer_on_cmd = true;
    assert_eq!(list::format_status(&m), ("lazy", Tone::Cyan));
    m.manifest.api.defer_on_cmd = false;
    m.manifest.load = Some(LoadMeta { load_mode: LoadMode::Event, events: vec![] });
    assert_eq!(list::format_status(&m), ("event", Tone::Blue));
    m.status = ModuleStatus::SkippedCycle(strings(&["x", "y", "x"]));
    assert_eq!(list::format_status(&m), ("cycle", Tone::Red));
    assert_eq!(
        list::status_reason(&m.status),
        Some(("\u{21b3} circular dependency: x \u{2192} y \u{2192} x".to_string(), Tone::Red))
    );
    assert_eq!(list::status_reason(&ModuleStatus::Loaded), None);
    assert_eq!(info::status_word(&ModuleStatus::SkippedMissingDep("q".into())), ("skipped", Tone::Yellow));
    let note = info::status_note(&ModuleStatus::WarnDuplicateDep("d".into())).unwrap();
    assert_eq!((note.label, note.before, note.value.as_str(), note.after), ("warning", "duplicate dep entry in module.toml: '", "d", "'"));
    assert_eq!(info::tags_text(&empty), "\u{2014}");
    assert_eq!(info::description_text(&empty), "\u{2014}");
    assert!(!info::has_public_api(&empty));
}

#[test]
fn fzf_lines_and_choice() {
    let mut m = module("/m/01_x", "x", &[]);
    m.manifest.module.description = Some("desc".into());
    let text = generate_fzf_input(&vec![m]);
    let expected = format!(
        "{:<18}  {}  \x1b[2m{:<10}\x1b[0m  \x1b[2m{}\x1b[0m\n",
        "x", "\x1b[32mloaded \x1b[0m", "v1.0.0", "desc"
    );
    assert_eq!(text, expected);
    assert_eq!(fzf_selection("enter\n  x   loaded v1\n").as_deref(), Some("x"));
    assert_eq!(fzf_selection("esc\nx\n"), None);
    assert_eq!(fzf_selection("enter\n"), None);
    assert_eq!(fzf_selection(""), None);
}

#[test]
fn sync_texts() {
    assert_eq!(sq_escape("it's"), "it'\\''s");
    assert_eq!(default_cache_path(Some("/c/init.zsh".into()), None), "/c/init.zsh");
    assert_eq!(default_cache_path(Some(String::new()), Some("/xdg/".into())), "/xdg/gaiety/init.zsh");
    assert!(default_cache_path(None, None).ends_with(".cache/gaiety/init.zsh"));
    let mut modules = vec![module("/m/01_a", "a", &[]), module("/m/02_b", "b", &[]), module("/m/03_c", "c", &[])];
    modules[1].status = ModuleStatus::WarnDuplicateDep("z".into());
    modules[2].status = ModuleStatus::SkippedMissingCmd("z".into());
    assert_eq!(
        zcompile_script(&modules, &vec![true, true, true], "/c/i'.zsh"),
        "zcompile -- '/m/01_a/init.zsh' 2>/dev/null &\nzcompile -- '/c/i'\\''.zsh' 2>/dev/null &\nwait\n"
    );
    assert_eq!(sync_counts(&modules), (1, 1, 1));
    assert_eq!(sync_summary(1, 0, 0), "synced 1 module");
    assert_eq!(sync_summary(2, 1, 3), "synced 2 modules, 1 with warnings, 3 skipped");
}

#[test]
fn profile_script() {
    let modules = vec![module("/m/01_a", "a", &[]), module("/m/02_b", "b", &[])];
    assert_eq!(
        generate_profile_script(&modules, &vec![true, false]),
        "zmodload zsh/datetime\ncompdef() { : }\nt_start=$EPOCHREALTIME\n{ source '/m/01_a/init.zsh'; } >/dev/null 2>&1\nt_end=$EPOCHREALTIME\necho \"a: $(( (t_end - t_start) * 1000 ))\"\n"
    );
}

#[test]
fn init_paths() {
    let modules = vec![module("/m/01_a", "a", &[])];
    assert_eq!(module_init_path(&modules, "a").unwrap(), "/m/01_a/init.zsh");
    assert_eq!(module_init_path(&modules, "b").err().unwrap(), "Module 'b' not found.");
}

#[test]
fn updating() {
    let mut a = module("/m/01_a", "a", &[]);
    a.manifest.source = Some(SourceMeta { url: "u1".into(), branch: None, pin: None });
    let mut b = module("/m/02_bbbbbbbbbbbbbbbb", "bbbbbbbbbbbbbbbb", &[]);
    b.manifest.source = Some(SourceMeta { url: "u2".into(), branch: None, pin: None });
    let mut c = module("/m/03_c", "c", &[]);
    c.manifest.source = Some(SourceMeta { url: "u1".into(), branch: None, pin: None });
    let d = module("/m/04_d", "d", &[]);
    let modules = vec![a, b, c, d];
    let managed = managed_modules(&modules, &None);
    assert_eq!(managed, vec![0, 1, 2]);
    assert_eq!(managed_modules(&modules, &Some("c".into())), vec![2]);
    assert_eq!(column_width(&modules, &managed), 16);
    assert_eq!(column_width(&modules, &vec![0]), 12);
    let groups = group_by_url(&modules, &managed);
    assert_eq!(groups, vec![("u1".to_string(), vec![0, 2]), ("u2".to_string(), vec![1])]);
    assert!(pull_up_to_date("Already up to date.\n"));
    assert!(pull_up_to_date("x\nAlready up-to-date.\n"));
    assert!(!pull_up_to_date("Updating 1..2\n"));
    assert!(group_up_to_date(&Some("abc".into()), &Some("abc".into())));
    assert!(!group_up_to_date(&None, &None));
    assert!(!group_up_to_date(&Some("abc".into()), &Some("def".into())));
    assert!(nothing_managed(&Some("x".into())).is_err());
    assert!(nothing_managed(&None).is_ok());
}

#[test]
fn resolving() {
    let mut m = module("/m/01_a", "a", &[]);
    m.manifest.module.deps = vec![Dependency { name: "lib".into(), version: None, source: Some("user/lib".into()) }];
    m.status = ModuleStatus::SkippedMissingDep("lib".into());
    let mut n = module("/m/02_b", "b", &[("other", None)]);
    n.status = ModuleStatus::SkippedMissingDep("other".into());
    assert_eq!(resolvable_deps(&vec![m, n]), vec![("lib".to_string(), "user/lib".to_string())]);
}

#[test]
fn guards() {
    let mut d = TempDirGuard::new("/tmp/x".into());
    assert_eq!(d.pending().map(String::as_str), Some("/tmp/x"));
    d.defuse();
    assert!(d.pending().is_none());
    let mut f = TempFilesGuard::new();
    f.add("a".into());
    f.add("b".into());
    assert_eq!(f.pending(), &["a".to_string(), "b".to_string()][..]);
    f.defuse();
    assert!(f.pending().is_empty());
    let mut g = TempFileGuard::new("/tmp/y".into());
    g.defuse();
    assert!(g.pending().is_none());
}

#[test]
fn cascade_follows_the_stack() {
    let modules = vec![
        module("/m/01_app", "app", &[("b", None), ("c", None)]),
        module("/m/02_b", "b", &[("d", None)]),
        module("/m/03_c", "c", &[("e", None)]),
        module("/m/04_d", "d", &[]),
        module("/m/05_e", "e", &[]),
    ];
    let out = calculate_cascade(&modules, &strings(&["app"]));
    assert_eq!(out, strings(&["app", "b", "c", "e", "d"]));
}
