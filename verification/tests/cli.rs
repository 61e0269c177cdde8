use fling::cli::{client_socket_path, invoked_as, parse_socket_path, plan, Invocation};

fn strings(parts: &[&str]) -> Vec<String> {
    parts.iter().map(|s| s.to_string()).collect()
}

#[test]
fn socket_paths_accept_both_forms() {
    assert_eq!(parse_socket_path("unix:/run/fling/fling.sock"), "/run/fling/fling.sock");
    assert_eq!(parse_socket_path("/run/fling/fling.sock"), "/run/fling/fling.sock");
    assert_eq!(parse_socket_path("unix:"), "");
    assert_eq!(parse_socket_path("unix"), "unix");
}

#[test]
fn client_socket_precedence() {
    assert_eq!(client_socket_path(Some("unix:/a".to_string()), Some("/b".to_string())), "/a");
    assert_eq!(client_socket_path(None, Some("unix:/b".to_string())), "/b");
    assert_eq!(client_socket_path(None, None), "/run/fling/fling.sock");
}

#[test]
fn invoked_as_takes_the_basename() {
    assert_eq!(invoked_as("/usr/local/bin/fling"), "fling");
    assert_eq!(invoked_as("/usr/local/bin/mytool"), "mytool");
    assert_eq!(invoked_as("greet"), "greet");
    assert_eq!(invoked_as("./bin/tool/"), "tool");
    assert_eq!(invoked_as("/"), "fling");
    assert_eq!(invoked_as(""), "fling");
    assert_eq!(invoked_as("bin/.."), "fling");
    assert_eq!(invoked_as("bin/."), "bin");
}

#[test]
fn symlink_name_is_the_command() {
    match plan(&strings(&["/usr/local/bin/greet", "hello", "--socket", "x"]), Some("unix:/s".to_string())) {
        Invocation::Relay { socket_path, cmd, args } => {
            assert_eq!(socket_path, "/s");
            assert_eq!(cmd, "greet");
            assert_eq!(args, strings(&["hello", "--socket", "x"]));
        }
        Invocation::Parse(_) => panic!("expected relay mode"),
    }
    match plan(&strings(&["tool"]), None) {
        Invocation::Relay { socket_path, args, .. } => {
            assert_eq!(socket_path, "/run/fling/fling.sock");
            assert!(args.is_empty());
        }
        Invocation::Parse(_) => panic!("expected relay mode"),
    }
}

#[test]
fn anything_but_server_is_client_mode() {
    match plan(&strings(&["fling", "mytool", "--flag", "arg"]), None) {
        Invocation::Parse(args) => assert_eq!(args, strings(&["fling", "client", "mytool", "--flag", "arg"])),
        Invocation::Relay { .. } => panic!("expected parse mode"),
    }
    match plan(&strings(&["/bin/fling", "server", "--socket", "/s"]), None) {
        Invocation::Parse(args) => assert_eq!(args, strings(&["/bin/fling", "server", "--socket", "/s"])),
        Invocation::Relay { .. } => panic!("expected parse mode"),
    }
    match plan(&strings(&["fling"]), None) {
        Invocation::Parse(args) => assert_eq!(args, strings(&["fling"])),
        Invocation::Relay { .. } => panic!("expected parse mode"),
    }
}
