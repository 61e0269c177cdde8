use fling::config::{CommandConfig, SandboxGrants, SandboxSetting};
use fling::sandbox::{build_command, is_covered};

fn strings(parts: &[&str]) -> Vec<String> {
    parts.iter().map(|s| s.to_string()).collect()
}

fn full_argv(entry: &CommandConfig, args: &[&str]) -> Vec<String> {
    let spec = build_command(entry, &strings(args));
    let mut v = vec![spec.program];
    v.extend(spec.args);
    v
}

fn grants(ro: &[&str], rw: &[&str], proc: Option<bool>, dev: Option<bool>) -> Option<SandboxSetting> {
    Some(SandboxSetting::Grants(SandboxGrants {
        ro_bind: Some(strings(ro)),
        rw_bind: Some(strings(rw)),
        proc,
        dev,
    }))
}

fn window_contains(haystack: &[String], needle: &[&str]) -> bool {
    haystack.windows(needle.len()).any(|w| w == needle)
}

#[test]
fn sandbox_is_on_by_default() {
    // A command with no sandbox section must still be confined.
    let entry = CommandConfig::new("/bin/echo".to_string(), None, Some(strings(&["*"])), None);
    let argv = full_argv(&entry, &["hi"]);
    assert_eq!(argv[0], "bwrap", "commands must be sandboxed unless opted out");
}

#[test]
fn sandbox_false_runs_executable_directly() {
    let entry = CommandConfig::new(
        "/bin/echo".to_string(),
        None,
        Some(strings(&["*"])),
        Some(SandboxSetting::Enabled(false)),
    );
    let argv = full_argv(&entry, &["hi"]);
    assert_eq!(argv, vec!["/bin/echo", "hi"]);
}

#[test]
fn sandbox_wraps_in_bwrap_with_binds() {
    let entry = CommandConfig::new(
        "/bin/cat".to_string(),
        None,
        Some(strings(&["*"])),
        grants(&["/data/public"], &["/data/scratch"], None, None),
    );
    let argv = full_argv(&entry, &["/data/public/file"]);
    assert_eq!(argv[0], "bwrap");
    // Grants appear as bind pairs.
    assert!(window_contains(&argv, &["--ro-bind", "/data/public", "/data/public"]));
    assert!(window_contains(&argv, &["--bind", "/data/scratch", "/data/scratch"]));
    // The relayed command follows the `--` separator.
    let sep = argv.iter().position(|a| a == "--").unwrap();
    assert_eq!(&argv[sep + 1..], &["/bin/cat", "/data/public/file"]);
    // Network and other namespaces are isolated.
    assert!(argv.iter().any(|a| a == "--unshare-all"));
}

#[test]
fn proc_and_dev_default_on_but_can_be_disabled() {
    let on = CommandConfig::new("/bin/cat".to_string(), None, Some(strings(&["*"])), grants(&["/data"], &[], None, None));
    let argv = full_argv(&on, &[]);
    assert!(window_contains(&argv, &["--proc", "/proc"]));
    assert!(window_contains(&argv, &["--dev", "/dev"]));

    let off = CommandConfig::new(
        "/bin/cat".to_string(),
        None,
        Some(strings(&["*"])),
        grants(&["/data"], &[], Some(false), Some(false)),
    );
    let argv = full_argv(&off, &[]);
    assert!(!window_contains(&argv, &["--proc", "/proc"]));
    assert!(!window_contains(&argv, &["--dev", "/dev"]));
}

#[test]
fn default_sandbox_full_command_line() {
    let entry = CommandConfig::new("/bin/echo".to_string(), None, None, None);
    let spec = build_command(&entry, &strings(&["a", "b"]));
    assert_eq!(spec.program, "bwrap");
    assert_eq!(spec.current_dir, None);
    assert_eq!(
        spec.args,
        strings(&[
            "--ro-bind", "/usr", "/usr",
            "--ro-bind-try", "/lib", "/lib",
            "--ro-bind-try", "/lib64", "/lib64",
            "--ro-bind-try", "/bin", "/bin",
            "--ro-bind-try", "/sbin", "/sbin",
            "--proc", "/proc",
            "--dev", "/dev",
            "--tmpfs", "/tmp",
            "--unshare-all", "--die-with-parent", "--new-session",
            "--chdir", "/tmp",
            "--", "/bin/echo", "a", "b",
        ])
    );
}

#[test]
fn unsandboxed_working_directory() {
    let plain = CommandConfig::new("/bin/x".to_string(), None, None, Some(SandboxSetting::Enabled(false)));
    assert_eq!(build_command(&plain, &[]).current_dir.as_deref(), Some("/"));
    let wd = CommandConfig::new(
        "/bin/x".to_string(),
        Some("/srv/work".to_string()),
        None,
        Some(SandboxSetting::Enabled(false)),
    );
    assert_eq!(build_command(&wd, &[]).current_dir.as_deref(), Some("/srv/work"));
}

#[test]
fn working_dir_is_bound_unless_covered() {
    let uncovered = CommandConfig::new("/bin/cat".to_string(), Some("/srv/work".to_string()), None, None);
    let argv = full_argv(&uncovered, &[]);
    assert!(window_contains(&argv, &["--ro-bind", "/srv/work", "/srv/work", "--chdir", "/srv/work"]));

    let covered = CommandConfig::new(
        "/bin/cat".to_string(),
        Some("/srv/work/sub".to_string()),
        None,
        grants(&[], &["/srv/work"], None, None),
    );
    let argv = full_argv(&covered, &[]);
    assert!(!window_contains(&argv, &["--ro-bind", "/srv/work/sub", "/srv/work/sub"]));
    assert!(window_contains(&argv, &["--chdir", "/srv/work/sub"]));
}

#[test]
fn coverage_compares_whole_components() {
    let entry = CommandConfig::new("/bin/cat".to_string(), None, None, grants(&["/srv/data"], &["/tmp/x/"], None, None));
    let sandbox = entry.sandbox.unwrap();
    assert!(is_covered("/srv/data", &sandbox));
    assert!(is_covered("/srv/data/deep/er", &sandbox));
    assert!(is_covered("//srv//data/./x", &sandbox));
    assert!(!is_covered("/srv/database", &sandbox));
    assert!(!is_covered("/srv", &sandbox));
    assert!(!is_covered("srv/data", &sandbox));
    assert!(is_covered("/tmp/x", &sandbox));
    assert!(is_covered("/srv/data/../etc", &sandbox));
}
