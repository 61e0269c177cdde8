use fling::client::{client_action, refusal, refusal_line, request, ClientAction};
use fling::config::{CommandConfig, Config};
use fling::protocol::{read_frame, ClientRequest, ServerAck, CH_ERROR, CH_EXIT, CH_STDERR, CH_STDIN, CH_STDIN_EOF, CH_STDOUT};
use fling::server::{answer, reported_exit_code, spawn_failure_frame, stdin_action, StdinAction};

fn strings(parts: &[&str]) -> Vec<String> {
    parts.iter().map(|s| s.to_string()).collect()
}

fn config() -> Config {
    let mut c = Config::new(None);
    c.insert(
        "foo".to_string(),
        CommandConfig::new("/bin/echo".to_string(), None, Some(strings(&["list*", "status"])), None),
    );
    c
}

#[test]
fn denials_are_uniform() {
    let c = config();
    let unknown = ClientRequest { cmd: "nope".to_string(), args: strings(&["list"]) };
    let refused = ClientRequest { cmd: "foo".to_string(), args: strings(&["create"]) };
    let (a1, d1) = answer(&c, &unknown);
    let (a2, d2) = answer(&c, &refused);
    assert!(!a1.ok && !a2.ok);
    assert_eq!(a1.error.as_deref(), Some("You are not authorized to execute this command"));
    assert_eq!(a1.error, a2.error);
    assert!(d1.unwrap_err().contains("not configured"));
    assert!(d2.unwrap_err().contains("not permitted"));
}

#[test]
fn accepted_request_gets_ok() {
    let c = config();
    let req = request("foo", &strings(&["list", "everything"]));
    assert_eq!(req.cmd, "foo");
    assert_eq!(req.args, strings(&["list", "everything"]));
    let (ack, decision) = answer(&c, &req);
    assert!(ack.ok);
    assert!(ack.error.is_none());
    assert_eq!(decision.unwrap().executable, "/bin/echo");
}

#[test]
fn client_reads_refusals() {
    assert_eq!(refusal(&ServerAck { ok: true, error: None }), None);
    assert_eq!(
        refusal(&ServerAck { ok: false, error: Some("You are not authorized to execute this command".to_string()) }),
        Some("You are not authorized to execute this command".to_string())
    );
    assert_eq!(refusal(&ServerAck { ok: false, error: None }), Some("unknown server error".to_string()));
}

#[test]
fn client_frame_actions() {
    assert_eq!(client_action(CH_STDOUT, b"x"), ClientAction::WriteStdout);
    assert_eq!(client_action(CH_STDERR, b"x"), ClientAction::WriteStderr);
    assert_eq!(client_action(CH_EXIT, &7i32.to_be_bytes()), ClientAction::Exit(7));
    assert_eq!(client_action(CH_EXIT, &[]), ClientAction::Exit(0));
    assert_eq!(client_action(CH_ERROR, b"boom"), ClientAction::ServerError);
    assert_eq!(client_action(0x7f, b""), ClientAction::Ignore);
}

#[test]
fn server_frame_actions() {
    assert_eq!(stdin_action(CH_STDIN), StdinAction::Forward);
    assert_eq!(stdin_action(CH_STDIN_EOF), StdinAction::Close);
    assert_eq!(stdin_action(CH_STDOUT), StdinAction::Ignore);
    assert_eq!(reported_exit_code(Some(3)), 3);
    assert_eq!(reported_exit_code(None), -1);
}

#[test]
fn spawn_failure_names_the_program() {
    let f = spawn_failure_frame("bwrap", "No such file or directory (os error 2)");
    let (channel, payload) = read_frame(&f).unwrap();
    assert_eq!(channel, CH_ERROR);
    assert_eq!(
        String::from_utf8(payload).unwrap(),
        "failed to spawn 'bwrap': No such file or directory (os error 2)"
    );
}

#[test]
fn refusal_line_is_the_message_and_a_newline() {
    let c = config();
    let refused = ClientRequest { cmd: "foo".to_string(), args: strings(&["create"]) };
    let (ack, _) = answer(&c, &refused);
    assert_eq!(
        refusal_line(&ack),
        Some(b"You are not authorized to execute this command\n".to_vec())
    );
    let fallback = ServerAck { ok: false, error: None };
    assert_eq!(refusal_line(&fallback), Some(b"unknown server error\n".to_vec()));
    let accepted = ServerAck { ok: true, error: None };
    assert_eq!(refusal_line(&accepted), None);
}
