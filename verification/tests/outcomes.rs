use gaiety::manifest::{parse_load_mode, LoadMode};
use gaiety::install::{enter_spec, install_kind, InstallKind};
use gaiety::update::{group_outcome, ModuleUpdate};

#[test]
fn group_outcome_per_module() {
    let old = Some("abc".to_string());
    let (u, s) = group_outcome(&old, true, &Some("def".to_string()), &vec![true, true, false], &vec![true, false, false]);
    assert_eq!(u, vec![ModuleUpdate::Updated, ModuleUpdate::SyncFailed, ModuleUpdate::NotFound]);
    assert_eq!((s.updated, s.already_current, s.failed), (1, 0, 2));
    let (u, s) = group_outcome(&old, true, &Some("abc".to_string()), &vec![false, false], &vec![false, false]);
    assert_eq!(u, vec![ModuleUpdate::UpToDate, ModuleUpdate::UpToDate]);
    assert_eq!((s.updated, s.already_current, s.failed), (0, 2, 0));
    let (u, s) = group_outcome(&old, false, &None, &vec![true], &vec![true]);
    assert_eq!(u, vec![ModuleUpdate::CloneFailed]);
    assert_eq!(s.failed, 1);
    let (u, _) = group_outcome(&None, true, &None, &vec![true], &vec![true]);
    assert_eq!(u, vec![ModuleUpdate::Updated]);
}

#[test]
fn enter_spec_refuses_a_repeat() {
    let mut visited = Vec::new();
    assert_eq!(enter_spec(&mut visited, "user/repo"), Ok(()));
    assert_eq!(visited, vec!["user/repo".to_string()]);
    assert_eq!(
        enter_spec(&mut visited, "user/repo"),
        Err("Circular remote dependency detected for the spec: user/repo".to_string())
    );
    assert_eq!(visited.len(), 1);
}

#[test]
fn install_kind_chooses() {
    assert_eq!(install_kind(true, &vec!["a".into()]), InstallKind::Single);
    assert_eq!(install_kind(false, &vec![]), InstallKind::Single);
    assert_eq!(install_kind(false, &vec!["a".into(), "b".into()]), InstallKind::Collection);
}

#[test]
fn load_mode_texts() {
    assert_eq!(parse_load_mode("eager"), Ok(LoadMode::Eager));
    assert_eq!(parse_load_mode("  LAZY\n"), Ok(LoadMode::Lazy));
    assert_eq!(parse_load_mode("Event"), Ok(LoadMode::Event));
    assert_eq!(parse_load_mode("later"), Err("invalid load_mode: later".to_string()));
}
