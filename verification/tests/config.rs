use switchboard::config::{
    add, delete, reorder, validate_loaded, AppEntry, ConfigError, ConfigFile, ReadyProbe, CONFIG_VERSION,
};
use switchboard::paths::{resolve_config_path, resolve_log_dir};

fn sample(id: &str) -> AppEntry {
    AppEntry {
        id: id.to_string(),
        name: format!("svc-{id}"),
        directory: "/tmp".to_string(),
        command: "echo hi".to_string(),
        tag: "#3b82f6".to_string(),
        port: None,
        ready: None,
        depends_on: Vec::new(),
    }
}

#[test]
fn add_then_delete() {
    let entry = sample("01H1");
    let after_add = add(Vec::new(), entry.clone()).unwrap();
    assert_eq!(after_add.len(), 1);
    assert_eq!(after_add[0], entry);
    let after_delete = delete(after_add, "01H1");
    assert!(after_delete.is_empty());
}

#[test]
fn add_rejects_duplicate_id() {
    let entry = sample("01H1");
    let apps = add(Vec::new(), entry.clone()).unwrap();
    let err = add(apps.clone(), entry).unwrap_err().message();
    assert!(err.contains("duplicate app id"), "got: {err}");
    // The list a caller keeps is unchanged after rejection.
    assert_eq!(apps.len(), 1);
}

#[test]
fn delete_unknown_id_is_noop() {
    let apps = add(Vec::new(), sample("01H1")).unwrap();
    let after = delete(apps, "does-not-exist");
    assert_eq!(after.len(), 1);
    assert_eq!(after[0].id, "01H1");
}

#[test]
fn reorder_changes_order() {
    let apps = vec![sample("A"), sample("B"), sample("C")];
    let new_order = vec!["C".into(), "A".into(), "B".into()];
    let out = reorder(apps, &new_order).unwrap();
    assert_eq!(out.iter().map(|a| a.id.as_str()).collect::<Vec<_>>(), vec!["C", "A", "B"]);
}

#[test]
fn reorder_rejects_missing_id() {
    let apps = vec![sample("A"), sample("B")];
    let err = reorder(apps, &["A".into(), "Z".into()]).unwrap_err().message();
    assert!(err.contains("not found"), "got: {err}");
}

#[test]
fn reorder_rejects_duplicate_id() {
    let apps = vec![sample("A"), sample("B")];
    let err = reorder(apps, &["A".into(), "A".into()]).unwrap_err().message();
    assert!(err.contains("duplicate"), "got: {err}");
}

#[test]
fn reorder_rejects_length_mismatch() {
    let apps = vec![sample("A"), sample("B"), sample("C")];
    let err = reorder(apps, &["A".into(), "B".into()]).unwrap_err().message();
    assert!(err.contains("length mismatch"), "got: {err}");
}

#[test]
fn resolve_config_path_debug_uses_project_root() {
    // manifest_dir is `<project>/src-tauri`; debug path is `<project>/apps.json`.
    let manifest = "/some/project/src-tauri";
    let cfg_dir = "/Users/x/Library/Application Support";
    let p = resolve_config_path(true, manifest, cfg_dir);
    assert_eq!(p, String::from("/some/project/apps.json"));
}

#[test]
fn resolve_config_path_release_uses_user_config_dir() {
    let manifest = "/some/project/src-tauri";
    let cfg_dir = "/Users/x/.config";
    let p = resolve_config_path(false, manifest, cfg_dir);
    assert_eq!(p, String::from("/Users/x/.config/switchboard/apps.json"));
}

#[test]
fn resolve_log_dir_follows_the_same_roots() {
    assert_eq!(resolve_log_dir(true, "/some/project/src-tauri", "/cfg"), "/some/project/logs");
    assert_eq!(resolve_log_dir(false, "/some/project/src-tauri", "/cfg"), "/cfg/switchboard/logs");
}

#[test]
fn add_appends_at_the_end() {
    let apps = add(vec![sample("A")], sample("B")).unwrap();
    assert_eq!(apps.iter().map(|a| a.id.as_str()).collect::<Vec<_>>(), vec!["A", "B"]);
}

#[test]
fn delete_removes_every_entry_with_the_id() {
    let apps = vec![sample("A"), sample("B"), sample("A"), sample("C")];
    let out = delete(apps, "A");
    assert_eq!(out.iter().map(|a| a.id.as_str()).collect::<Vec<_>>(), vec!["B", "C"]);
}

#[test]
fn reorder_keeps_entry_contents() {
    let mut b = sample("B");
    b.port = Some(8080);
    b.ready = Some(ReadyProbe::Tcp { port: 8080 });
    let apps = vec![sample("A"), b.clone()];
    let out = reorder(apps, &["B".into(), "A".into()]).unwrap();
    assert_eq!(out[0], b);
    assert_eq!(out[1], sample("A"));
}

#[test]
fn reorder_error_values() {
    let apps = vec![sample("A"), sample("B")];
    assert_eq!(
        reorder(apps.clone(), &["A".into()]),
        Err(ConfigError::ReorderLengthMismatch { have: 2, got: 1 })
    );
    assert_eq!(
        reorder(apps.clone(), &["B".into(), "B".into()]),
        Err(ConfigError::ReorderDuplicateId("B".into()))
    );
    assert_eq!(
        reorder(apps, &["A".into(), "Q".into()]),
        Err(ConfigError::ReorderIdNotFound("Q".into()))
    );
}

#[test]
fn config_error_messages() {
    assert_eq!(ConfigError::DuplicateAppId("x".into()).message(), "duplicate app id: x");
    assert_eq!(
        ConfigError::ReorderLengthMismatch { have: 3, got: 2 }.message(),
        "reorder length mismatch: have 3 apps, got 2 ids"
    );
    assert_eq!(ConfigError::ReorderDuplicateId("A".into()).message(), "duplicate id in reorder list: A");
    assert_eq!(ConfigError::ReorderIdNotFound("Z".into()).message(), "reorder id not found in apps: Z");
    assert_eq!(
        ConfigError::UnsupportedVersion { version: 99, path: "/p/apps.json".into() }.message(),
        "unsupported config version 99 at /p/apps.json (expected 1); refusing to load to avoid data loss"
    );
}

#[test]
fn load_rejects_unknown_version() {
    let cfg = ConfigFile { version: 99, apps: Vec::new() };
    let err = validate_loaded(cfg, "/tmp/apps.json").unwrap_err().message();
    assert!(err.contains("unsupported config version 99"), "got: {err}");
}

#[test]
fn validate_loaded_accepts_current_version() {
    let cfg = ConfigFile { version: CONFIG_VERSION, apps: vec![sample("01H1")] };
    assert_eq!(validate_loaded(cfg, "/tmp/apps.json").unwrap(), vec![sample("01H1")]);
}

#[test]
fn default_config_is_current_and_empty() {
    let cfg = ConfigFile::default();
    assert_eq!(cfg.version, CONFIG_VERSION);
    assert!(cfg.apps.is_empty());
}

#[test]
fn find_app_takes_the_first_match() {
    let mut second = sample("B");
    second.name = "second".into();
    let apps = vec![sample("A"), sample("B"), second];
    let found = switchboard::config::find_app(apps.clone(), "B").unwrap();
    assert_eq!(found, sample("B"));
    assert_eq!(switchboard::config::find_app(apps, "Q"), Err("app not found: Q".to_string()));
}

#[test]
fn config_paths_with_trailing_separator() {
    assert_eq!(resolve_config_path(false, "/p/src-tauri", "/cfg/"), "/cfg/switchboard/apps.json");
    assert_eq!(resolve_log_dir(false, "/p/src-tauri", "/cfg/"), "/cfg/switchboard/logs");
    assert_eq!(resolve_config_path(false, "/p/src-tauri", ""), "switchboard/apps.json");
}
