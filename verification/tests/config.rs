use fling::config::{CommandConfig, Config, SandboxGrants, SandboxSetting};
use fling::glob::GlobError;

fn strings(parts: &[&str]) -> Vec<String> {
    parts.iter().map(|s| s.to_string()).collect()
}

fn config() -> Config {
    let mut c = Config::new(None);
    c.insert(
        "foo".to_string(),
        CommandConfig::new("/bin/echo".to_string(), None, Some(strings(&["list*", "status"])), None),
    );
    c.insert(
        "open".to_string(),
        CommandConfig::new("/bin/cat".to_string(), None, Some(strings(&["*"])), None),
    );
    c.insert("locked".to_string(), CommandConfig::new("/bin/echo".to_string(), None, None, None));
    c
}

fn argv(parts: &[&str]) -> Vec<String> {
    strings(parts)
}

#[test]
fn allows_matching_subcommand() {
    let c = config();
    assert!(c.authorize("foo", &argv(&["list"])).is_ok());
    assert!(c.authorize("foo", &argv(&["list", "--all"])).is_ok());
    assert!(c.authorize("foo", &argv(&["status"])).is_ok());
}

#[test]
fn denies_unlisted_subcommand() {
    let c = config();
    assert!(c.authorize("foo", &argv(&["create"])).is_err());
    // `status` is exact-match only; trailing args are not permitted.
    assert!(c.authorize("foo", &argv(&["status", "--force"])).is_err());
}

#[test]
fn denies_unknown_command() {
    let c = config();
    let err = c.authorize("nope", &argv(&["list"])).unwrap_err();
    assert!(err.contains("not configured"), "got: {err}");
}

#[test]
fn wildcard_allows_everything() {
    let c = config();
    assert!(c.authorize("open", &argv(&[])).is_ok());
    assert!(c.authorize("open", &argv(&["whatever", "-x"])).is_ok());
}

#[test]
fn missing_allow_denies_by_default() {
    let c = config();
    assert!(c.authorize("locked", &argv(&[])).is_err());
    assert!(c.authorize("locked", &argv(&["anything"])).is_err());
}

#[test]
fn denial_messages_name_the_reason() {
    let c = config();
    assert_eq!(
        c.authorize("nope", &argv(&["list"])).unwrap_err(),
        "command 'nope' is not configured"
    );
    assert_eq!(
        c.authorize("foo", &argv(&["create", "thing"])).unwrap_err(),
        "'foo create thing' is not permitted by the access rules"
    );
    assert_eq!(
        c.authorize("locked", &argv(&[])).unwrap_err(),
        "'locked' is not permitted by the access rules"
    );
}

#[test]
fn authorize_returns_the_configured_entry() {
    let c = config();
    let entry = c.authorize("open", &argv(&["x"])).unwrap();
    assert_eq!(entry.executable, "/bin/cat");
}

#[test]
fn zero_arguments_join_to_the_empty_string() {
    let mut c = Config::new(None);
    c.insert("run".to_string(), CommandConfig::new("/bin/run".to_string(), None, Some(strings(&["run"])), None));
    assert!(c.authorize("run", &argv(&[])).is_err());
    c.insert("run".to_string(), CommandConfig::new("/bin/run".to_string(), None, Some(strings(&[""])), None));
    assert!(c.authorize("run", &argv(&[])).is_ok());
}

#[test]
fn pattern_with_space_demands_the_space() {
    let mut c = Config::new(None);
    c.insert("t".to_string(), CommandConfig::new("/bin/t".to_string(), None, Some(strings(&["list *"])), None));
    assert!(c.authorize("t", &argv(&["list"])).is_err());
    assert!(c.authorize("t", &argv(&["list", "x"])).is_ok());
}

#[test]
fn permits_joins_arguments_with_single_spaces() {
    let cmd = CommandConfig::new("/bin/x".to_string(), None, Some(strings(&["a b c"])), None);
    assert!(cmd.permits(&argv(&["a", "b", "c"])));
    assert!(cmd.permits(&argv(&["a b", "c"])));
    assert!(!cmd.permits(&argv(&["a", "b"])));
}

#[test]
fn insert_replaces_and_get_finds() {
    let mut c = config();
    assert!(c.get("foo").is_some());
    assert!(c.get("missing").is_none());
    c.insert("foo".to_string(), CommandConfig::new("/bin/other".to_string(), None, None, None));
    assert_eq!(c.get("foo").unwrap().executable, "/bin/other");
    assert_eq!(c.get("open").unwrap().executable, "/bin/cat");
}

#[test]
fn sandbox_settings_resolve_to_defaults() {
    let unset = CommandConfig::new("/bin/x".to_string(), None, None, None);
    let s = unset.sandbox.unwrap();
    assert!(s.ro_bind.is_empty() && s.rw_bind.is_empty() && s.proc && s.dev);

    let on = CommandConfig::new("/bin/x".to_string(), None, None, Some(SandboxSetting::Enabled(true)));
    assert!(on.sandbox.is_some());

    let off = CommandConfig::new("/bin/x".to_string(), None, None, Some(SandboxSetting::Enabled(false)));
    assert!(off.sandbox.is_none());

    let table = CommandConfig::new(
        "/bin/x".to_string(),
        None,
        None,
        Some(SandboxSetting::Grants(SandboxGrants {
            ro_bind: Some(strings(&["/srv/share"])),
            rw_bind: None,
            proc: Some(false),
            dev: None,
        })),
    );
    let s = table.sandbox.unwrap();
    assert_eq!(s.ro_bind, strings(&["/srv/share"]));
    assert!(s.rw_bind.is_empty());
    assert!(!s.proc);
    assert!(s.dev);
    assert!(table.allow.is_empty());
}

#[test]
fn bwrap_warning_only_when_needed() {
    let c = config();
    assert!(c.warn_missing_bwrap());
    assert!(c.needs_bwrap_warning(false));
    assert!(!c.needs_bwrap_warning(true));

    let quiet = {
        let mut q = Config::new(Some(false));
        q.insert("a".to_string(), CommandConfig::new("/bin/a".to_string(), None, None, None));
        q
    };
    assert!(!quiet.needs_bwrap_warning(false));

    let mut unconfined = Config::new(None);
    unconfined.insert(
        "a".to_string(),
        CommandConfig::new("/bin/a".to_string(), None, None, Some(SandboxSetting::Enabled(false))),
    );
    assert!(!unconfined.needs_bwrap_warning(false));
}

fn cc(allow: &[&str]) -> CommandConfig {
    CommandConfig::new("/bin/echo".to_string(), None, Some(strings(allow)), None)
}

#[test]
fn permits_uses_character_classes() {
    assert!(cc(&["--filter [a-z]"]).permits(&argv(&["--filter", "a"])));
    assert!(!cc(&["--filter [a-z]"]).permits(&argv(&["--filter", "[a-z]"])));
    assert!(!cc(&["--filter [a-z]"]).permits(&argv(&["--filter", "7"])));
}

#[test]
fn permits_uses_alternation() {
    assert!(cc(&["{a,b}"]).permits(&argv(&["b"])));
    assert!(cc(&["{a,b}"]).permits(&argv(&["a"])));
    assert!(!cc(&["{a,b}"]).permits(&argv(&["c"])));
}

#[test]
fn permits_honours_escapes() {
    assert!(cc(&["--filter \\[a-z\\]"]).permits(&argv(&["--filter", "[a-z]"])));
    assert!(!cc(&["--filter \\[a-z\\]"]).permits(&argv(&["--filter", "a"])));
}

#[test]
fn command_patterns_are_checked() {
    assert_eq!(cc(&["list*", "{a,b}"]).check_patterns(), Ok(()));
    assert_eq!(cc(&["list*", "[oops", "{x"]).check_patterns(), Err((1, GlobError::UnclosedClass)));
    assert_eq!(CommandConfig::new("/bin/echo".to_string(), None, None, None).check_patterns(), Ok(()));
}

#[test]
fn config_patterns_are_checked() {
    assert_eq!(config().check_patterns(), Ok(()));
    let mut c = config();
    c.insert("bad".to_string(), cc(&["ok", "[z-a]"]));
    assert_eq!(c.check_patterns(), Err(("bad".to_string(), 1, GlobError::InvalidRange('z', 'a'))));
}
