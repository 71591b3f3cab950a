use std::path::Path;

use switchboard::config::{AppEntry, ReadyProbe};
use switchboard::newapp::{
    build_entry, check_dependencies_known, check_fields, check_name_unique, check_new_app, check_probe,
    check_shell_directory, is_white_char, normalize_request, trim, NewAppError,
};

// The checks that run before the app list is read, as the command runs them:
// trim every field, look the directory up on disk, then check in order.
fn validate(name: &str, directory: &str, command: &str) -> Result<(), String> {
    let f = normalize_request(name, directory, command, "", None);
    let exists = Path::new(&f.directory).is_dir();
    check_fields(&f, exists, None).map_err(|e| e.message())
}

fn existing(id: &str) -> AppEntry {
    AppEntry {
        id: id.to_string(),
        name: id.to_string(),
        directory: "/tmp".into(),
        command: "echo".into(),
        tag: "#000".into(),
        port: None,
        ready: None,
        depends_on: Vec::new(),
    }
}

#[test]
fn rejects_empty_name() {
    let err = validate("  ", "/tmp", "echo hi").unwrap_err();
    assert!(err.contains("name"), "got: {err}");
}

#[test]
fn rejects_empty_directory() {
    let err = validate("svc", "  ", "echo hi").unwrap_err();
    assert!(err.contains("directory"), "got: {err}");
}

#[test]
fn rejects_empty_command() {
    let err = validate("svc", "/tmp", "  ").unwrap_err();
    assert!(err.contains("command"), "got: {err}");
}

#[test]
fn rejects_nonexistent_directory() {
    let err = validate("svc", "/definitely/not/here/zzz", "echo hi").unwrap_err();
    assert!(err.contains("does not exist"), "got: {err}");
}

#[test]
fn accepts_valid_input() {
    validate("svc", "/tmp", "echo hi").unwrap();
}

#[test]
fn trim_matches_std() {
    for s in ["", "   ", "  a b  ", "\t\nx\r\n", "\u{3000}y\u{2028}", "plain", "\u{85}z\u{a0}"] {
        assert_eq!(trim(s), s.trim(), "input {s:?}");
    }
}

#[test]
fn white_space_matches_std() {
    for c in ['\t', '\n', ' ', 'a', '\u{85}', '\u{a0}', '\u{1680}', '\u{2007}', '\u{200b}', '\u{3000}', 'é'] {
        assert_eq!(is_white_char(c), c.is_whitespace(), "char {c:?}");
    }
}

#[test]
fn normalize_trims_fields_and_drops_blank_dependencies() {
    let f = normalize_request(
        " svc ",
        " /tmp ",
        " echo hi ",
        "  ",
        Some(vec![" a ".into(), "   ".into(), "b".into()]),
    );
    assert_eq!(f.name, "svc");
    assert_eq!(f.directory, "/tmp");
    assert_eq!(f.command, "echo hi");
    assert_eq!(f.tag, "");
    assert_eq!(f.depends_on, vec!["a".to_string(), "b".to_string()]);
}

#[test]
fn port_zero_is_refused() {
    let f = normalize_request("svc", "/tmp", "echo", "", None);
    assert_eq!(check_fields(&f, true, Some(0)), Err(NewAppError::PortOutOfRange));
    assert_eq!(check_fields(&f, true, Some(1)), Ok(()));
    assert_eq!(check_fields(&f, true, None), Ok(()));
}

#[test]
fn duplicate_dependency_is_refused() {
    let f = normalize_request("svc", "/tmp", "echo", "", Some(vec!["a".into(), "b".into(), " a".into()]));
    let err = check_fields(&f, true, None).unwrap_err();
    assert_eq!(err, NewAppError::DuplicateDependency("a".into()));
    assert_eq!(err.message(), "duplicate dependency id: a");
}

#[test]
fn missing_directory_message_names_it() {
    let f = normalize_request("svc", "/nope", "echo", "", None);
    assert_eq!(check_fields(&f, false, None).unwrap_err().message(), "directory does not exist: /nope");
}

#[test]
fn unknown_dependency_is_refused() {
    let apps = vec![existing("a"), existing("b")];
    assert_eq!(check_dependencies_known(&vec!["a".into(), "b".into()], &apps), Ok(()));
    let err = check_dependencies_known(&vec!["a".into(), "zz".into(), "yy".into()], &apps).unwrap_err();
    assert_eq!(err, NewAppError::UnknownDependency("zz".into()));
    assert_eq!(err.message(), "dependency id not found: zz");
}

#[test]
fn probe_checks() {
    assert_eq!(check_probe(&None), Ok(()));
    assert_eq!(check_probe(&Some(ReadyProbe::Tcp { port: 0 })), Err(NewAppError::ProbeTcpPortOutOfRange));
    assert_eq!(check_probe(&Some(ReadyProbe::Tcp { port: 80 })), Ok(()));
    assert_eq!(
        check_probe(&Some(ReadyProbe::Http { url: "  ".into(), expect_status: None })),
        Err(NewAppError::ProbeHttpUrlEmpty)
    );
    assert_eq!(
        check_probe(&Some(ReadyProbe::Http { url: "http://localhost".into(), expect_status: Some(204) })),
        Ok(())
    );
    assert_eq!(
        check_probe(&Some(ReadyProbe::LogRegex { pattern: " ".into() })),
        Err(NewAppError::ProbeLogRegexEmpty)
    );
    assert_eq!(check_probe(&Some(ReadyProbe::LogRegex { pattern: "listening on".into() })), Ok(()));
}

#[test]
fn invalid_regex_reports_the_compile_error() {
    let err = check_probe(&Some(ReadyProbe::LogRegex { pattern: "(unclosed".into() })).unwrap_err();
    match &err {
        NewAppError::ProbeLogRegexInvalid(m) => assert!(!m.is_empty() && m != "(unclosed"),
        other => panic!("expected ProbeLogRegexInvalid, got {other:?}"),
    }
    assert!(err.message().starts_with("invalid log_regex pattern: "));
}

#[test]
fn build_entry_uses_default_tag_when_blank() {
    let f = normalize_request("svc", "/tmp", "echo", " ", Some(vec!["a".into()]));
    let e = build_entry("01ABC".into(), f, Some(8080), None);
    assert_eq!(e.id, "01ABC");
    assert_eq!(e.tag, "#64748b");
    assert_eq!(e.port, Some(8080));
    assert_eq!(e.depends_on, vec!["a".to_string()]);
    let g = normalize_request("svc", "/tmp", "echo", "#fff", None);
    assert_eq!(build_entry("x".into(), g, None, None).tag, "#fff");
}

#[test]
fn new_app_error_messages() {
    assert_eq!(NewAppError::EmptyName.message(), "name must not be empty");
    assert_eq!(NewAppError::EmptyDirectory.message(), "directory must not be empty");
    assert_eq!(NewAppError::EmptyCommand.message(), "command must not be empty");
    assert_eq!(NewAppError::PortOutOfRange.message(), "port must be between 1 and 65535");
    assert_eq!(NewAppError::ProbeTcpPortOutOfRange.message(), "ready.tcp.port must be between 1 and 65535");
    assert_eq!(NewAppError::ProbeHttpUrlEmpty.message(), "ready.http.url must not be empty");
    assert_eq!(NewAppError::ProbeLogRegexEmpty.message(), "ready.log_regex.pattern must not be empty");
}

#[test]
fn shell_directory_checks() {
    assert_eq!(check_shell_directory("", true), Err(NewAppError::EmptyDirectory));
    assert_eq!(check_shell_directory("/nope", false), Err(NewAppError::MissingDirectory("/nope".into())));
    assert_eq!(check_shell_directory("/tmp", true), Ok(()));
}

#[test]
fn duplicate_display_name_is_refused() {
    let mut a = existing("01A");
    a.name = "auth-service".into();
    let mut b = existing("01B");
    b.name = " web ".into();
    let apps = vec![a, b];
    let f = normalize_request("  auth-service ", "/tmp", "echo", "", None);
    let err = check_name_unique(&f.name, &apps).unwrap_err();
    assert_eq!(err, NewAppError::DuplicateName("auth-service".into()));
    assert_eq!(err.message(), "an app named auth-service already exists");
    assert_eq!(check_name_unique("web", &apps), Err(NewAppError::DuplicateName("web".into())));
    assert_eq!(check_name_unique("auth", &apps), Ok(()));
    assert_eq!(check_name_unique("x", &[]), Ok(()));
}

#[test]
fn new_app_checks_run_in_order() {
    let mut taken = existing("01A");
    taken.name = "svc".into();
    let apps = vec![taken, existing("db")];
    let bad_probe = Some(ReadyProbe::Tcp { port: 0 });

    let f = normalize_request("", "/tmp", "echo", "", None);
    assert_eq!(check_new_app(&f, true, None, &apps, &bad_probe), Err(NewAppError::EmptyName));

    let f = normalize_request("svc", "/tmp", "echo", "", Some(vec!["nope".into()]));
    assert_eq!(check_new_app(&f, true, None, &apps, &bad_probe), Err(NewAppError::DuplicateName("svc".into())));

    let f = normalize_request("api", "/tmp", "echo", "", Some(vec!["db".into(), "nope".into()]));
    assert_eq!(check_new_app(&f, true, None, &apps, &bad_probe), Err(NewAppError::UnknownDependency("nope".into())));

    let f = normalize_request("api", "/tmp", "echo", "", Some(vec!["db".into()]));
    assert_eq!(check_new_app(&f, true, None, &apps, &bad_probe), Err(NewAppError::ProbeTcpPortOutOfRange));
    assert_eq!(check_new_app(&f, true, Some(8080), &apps, &None), Ok(()));
    assert_eq!(check_new_app(&f, false, None, &apps, &None), Err(NewAppError::MissingDirectory("/tmp".into())));
}
