use gaiety::install::{
    append_source, build_source, check_incoming, detect_main, dir_name_for, init_for, manifest_for,
    missing_remote_deps, name_valid, repo_to_module, single_install_name, ParsedSpec,
};
use gaiety::manifest::{ApiMeta, Dependency, Manifest, ModuleMeta};
use gaiety::types::{DiscoveredModule, ModuleStatus};

fn module(name: &str, deps: &[(&str, Option<&str>)]) -> DiscoveredModule {
    DiscoveredModule {
        path: format!("/mods/01_{}", name),
        manifest: Manifest {
            module: ModuleMeta {
                name: name.to_string(),
                description: None,
                version: "1.0.0".to_string(),
                deps: deps
                    .iter()
                    .map(|(n, src)| Dependency {
                        name: n.to_string(),
                        version: None,
                        source: src.map(|s| s.to_string()),
                    })
                    .collect(),
                tags: vec![],
                requires_cmd: vec![],
                requires_any_cmd: vec![],
                implicit: None,
                enabled: Some(true),
            },
            api: ApiMeta::empty(),
            load: None,
            source: None,
        },
        prefix_order: Some(1),
        dir_index: 0,
        status: ModuleStatus::Loaded,
    }
}

fn strings(v: &[&str]) -> Vec<String> {
    v.iter().map(|s| s.to_string()).collect()
}

#[test]
fn test_repo_to_module() {
    assert_eq!(repo_to_module("zsh-syntax-highlighting"), "zsh_syntax_highlighting");
    assert_eq!(repo_to_module("MyPlugin.zsh"), "myplugin_zsh");
    assert_eq!(repo_to_module("123plugin"), "_123plugin");
}

#[test]
fn test_parse_spec_github_shorthand() {
    let p = ParsedSpec::new("zsh-users/zsh-syntax-highlighting", None).unwrap();
    assert_eq!(p.url, "https://github.com/zsh-users/zsh-syntax-highlighting.git");
    assert_eq!(p.repository, "zsh-syntax-highlighting");
    assert!(p.branch.is_none());
}

#[test]
fn test_parse_spec_with_inline_branch() {
    let p = ParsedSpec::new("zsh-users/zsh-autosuggestions@develop", None).unwrap();
    assert_eq!(p.branch.as_deref(), Some("develop"));
}

#[test]
fn test_parse_spec_branch_override_wins() {
    let p = ParsedSpec::new("zsh-users/zsh-autosuggestions@develop", Some("main".into())).unwrap();
    assert_eq!(p.branch.as_deref(), Some("main"));
}

#[test]
fn test_parse_spec_gitlab() {
    let p = ParsedSpec::new("gitlab:user/repo", None).unwrap();
    assert!(p.url.starts_with("https://gitlab.com/"));
}

#[test]
fn test_parse_spec_full_url() {
    let p = ParsedSpec::new("https://github.com/user/repo.git", None).unwrap();
    assert_eq!(p.url, "https://github.com/user/repo.git");
    assert_eq!(p.repository, "repo");
}

#[test]
fn test_parse_spec_invalid() {
    assert!(ParsedSpec::new("notaspec", None).is_err());
}

#[test]
fn install_test_is_valid_name() {
    assert!(name_valid("zsh_syntax_highlighting"));
    assert!(name_valid("_plugin"));
    assert!(!name_valid("123bad"));
    assert!(!name_valid("has-dash"));
    assert!(!name_valid(""));
}

#[test]
fn parse_spec_github_prefix_and_trailing_parts() {
    let p = ParsedSpec::new("github:user/repo.git/", None).unwrap();
    assert_eq!(p.url, "https://github.com/user/repo.git");
    assert_eq!(p.repository, "repo");
    let q = ParsedSpec::new("https://example.org/a/b.git.git", Some("x".into())).unwrap();
    assert_eq!(q.url, "https://example.org/a/b.git");
    assert_eq!(q.repository, "b");
    assert_eq!(q.branch.as_deref(), Some("x"));
}

#[test]
fn parse_spec_at_before_slash_is_not_a_branch() {
    let p = ParsedSpec::new("us@er/repo", None).unwrap();
    assert!(p.branch.is_none());
    assert_eq!(p.url, "https://github.com/us@er/repo.git");
    assert_eq!(p.repository, "repo");
}

#[test]
fn parse_spec_error_message() {
    let e = ParsedSpec::new("notaspec", None).err().unwrap();
    assert_eq!(
        e,
        "Cannot parse package spec 'notaspec'.\n  Expected one of:\n  \u{2022} user/repo\n  \u{2022} user/repo@branch\n  \u{2022} github:user/repo\n  \u{2022} gitlab:user/repo\n  \u{2022} https://host/user/repo.git"
    );
}

#[test]
fn repo_to_module_gives_valid_names() {
    for repo in ["zsh-you-should-use", "9lives", "A.B", "-"] {
        assert!(name_valid(&repo_to_module(repo)), "{}", repo);
    }
    assert_eq!(repo_to_module(""), "");
}

#[test]
fn build_source_block() {
    let p = ParsedSpec::new("user/repo@dev", None).unwrap();
    assert_eq!(
        build_source(&p, Some("abc1234")),
        "[source]\nurl    = \"https://github.com/user/repo.git\"\nbranch = \"dev\"\npin    = \"abc1234\"\n"
    );
    let q = ParsedSpec::new("user/repo", None).unwrap();
    assert_eq!(build_source(&q, None), "[source]\nurl    = \"https://github.com/user/repo.git\"\n");
}

#[test]
fn detect_main_prefers_repository_files() {
    let entries = strings(&["repo.plugin.zsh", "other.zsh", "init.zsh"]);
    let files = entries.clone();
    assert_eq!(detect_main(&entries, &files, "repo").as_deref(), Some("repo.plugin.zsh"));
    let entries = strings(&["x.plugin.zsh", "init.zsh", "y.zsh"]);
    assert_eq!(detect_main(&entries, &entries, "repo").as_deref(), Some("x.plugin.zsh"));
    let entries = strings(&["init.zsh", "y.zsh"]);
    assert_eq!(detect_main(&entries, &entries, "repo").as_deref(), Some("y.zsh"));
    let entries = strings(&["a.zsh", "b.zsh"]);
    assert_eq!(detect_main(&entries, &entries, "repo"), None);
    let entries = strings(&["repo.zsh-theme"]);
    assert_eq!(detect_main(&entries, &vec![], "repo").as_deref(), Some("repo.zsh-theme"));
}

#[test]
fn module_directory_names() {
    assert_eq!(dir_name_for(3, "x"), "03_x");
    assert_eq!(dir_name_for(0, "x"), "00_x");
    assert_eq!(dir_name_for(123, "abc"), "123_abc");
}

#[test]
fn collection_checks() {
    let modules = vec![module("taken", &[])];
    let mut incoming: Vec<(String, String)> = Vec::new();
    assert!(check_incoming(&incoming, "alpha", "/t/alpha", &modules).is_ok());
    incoming.push(("alpha".into(), "/t/alpha".into()));
    assert_eq!(
        check_incoming(&incoming, "alpha", "/t/beta", &modules).err().unwrap(),
        "Duplicate module name 'alpha' found in both /t/alpha and /t/beta."
    );
    assert_eq!(
        check_incoming(&incoming, "taken", "/t/c", &modules).err().unwrap(),
        "Module 'taken' already exists. Remove it with 'gai rm taken' before reinstalling."
    );
    assert_eq!(
        check_incoming(&incoming, "1bad", "/t/d", &modules).err().unwrap(),
        "Module name '1bad' in /t/d is not valid (must match [a-zA-Z_][a-zA-Z0-9_]*)."
    );
}

#[test]
fn single_install_names() {
    let modules = vec![module("zsh_foo", &[])];
    assert_eq!(single_install_name(None, "zsh-bar", &modules).unwrap(), "zsh_bar");
    assert_eq!(
        single_install_name(None, "zsh-foo", &modules).err().unwrap(),
        "Module 'zsh_foo' already exists. Use 'gai update zsh_foo' to pull the latest version."
    );
    assert_eq!(
        single_install_name(Some("bad-name".into()), "x", &modules).err().unwrap(),
        "Derived module name 'bad-name' is not valid (must match [a-zA-Z_][a-zA-Z0-9_]*).\n  Use --name to provide a valid name."
    );
}

#[test]
fn written_files() {
    let m = manifest_for("foo", "https://x/y.git", "[source]\n");
    assert!(m.starts_with("[module]\nname        = \"foo\"\ndescription = \"Installed from https://x/y.git\"\n"));
    assert!(m.ends_with("defer_on_cmd = false\n\n[source]\n"));
    assert_eq!(append_source("[module]\nname = \"a\"\n\n", "[source]\nurl = \"u\"\n").unwrap(), "[module]\nname = \"a\"\n[source]\nurl = \"u\"\n");
    assert!(append_source("[source]\nurl = \"u\"\n", "[source]\n").is_none());
    assert_eq!(
        init_for("https://x/y.git", &Some("y.plugin.zsh".into())),
        "# Auto-generated by gaiety install\n# Source: https://x/y.git\n\nsource \"${0:h}/y.plugin.zsh\"\n"
    );
    assert!(init_for("u", &None).contains("plugin.zsh"));
}

#[test]
fn missing_remote_dependencies() {
    let modules = vec![
        module("app", &[("lib", Some("user/lib")), ("core", None), ("here", Some("user/here"))]),
        module("here", &[]),
    ];
    assert_eq!(missing_remote_deps(&modules), vec![("lib".to_string(), "user/lib".to_string())]);
}

#[test]
fn repo_to_module_is_stable() {
    for repo in ["zsh-syntax-highlighting", "9lives", "Already_fine", "a.b-c"] {
        let once = repo_to_module(repo);
        assert_eq!(repo_to_module(&once), once);
        let extra = if repo.starts_with(|c: char| c.is_ascii_digit()) { 1 } else { 0 };
        assert_eq!(once.chars().count(), repo.chars().count() + extra);
    }
}
