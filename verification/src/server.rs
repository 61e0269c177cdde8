//! The server's decisions: the handshake reply, what each client frame means,
//! and the frames that end a relayed command.
use vstd::prelude::*;

use crate::config::{not_configured_message, not_permitted_message, CommandConfig, Config};
use crate::protocol::{frame, write_frame, ClientRequest, ServerAck, CH_ERROR, CH_STDIN, CH_STDIN_EOF};
use crate::text::views;
use vstd::utf8::encode_utf8;

verus! {

/// The one message every denial carries, so the rules don't reveal which commands exist.
pub open spec fn denial_message() -> Seq<char> {
    "You are not authorized to execute this command"@
}

/// Whether the configuration lets `cmd` run with `args`.
pub open spec fn permitted(config: Config, cmd: Seq<char>, args: Seq<Seq<char>>) -> bool {
    config.command(cmd) matches Some(c) && c.allows(args)
}

/// The reply's content: whether it accepts, and the error it carries.
pub open spec fn ack_view(ack: ServerAck) -> (bool, Option<Seq<char>>) {
    (
        ack.ok,
        match ack.error {
            Some(e) => Some(e@),
            None => None,
        },
    )
}

/// The reply owed to a request that is or is not permitted.
pub open spec fn expected_ack(permitted: bool) -> (bool, Option<Seq<char>>) {
    if permitted {
        (true, None)
    } else {
        (false, Some(denial_message()))
    }
}

/// Answers a handshake: authorizes the request under the default-deny rules,
/// and returns the reply for the client together with the authorization,
/// whose error gives the specific reason for the server's own log.
pub fn answer<'a>(config: &'a Config, request: &ClientRequest) -> (res: (
    ServerAck,
    Result<&'a CommandConfig, String>,
))
    ensures
        ack_view(res.0) == expected_ack(permitted(*config, request.cmd@, views(request.args@))),
        res.1 is Ok <==> permitted(*config, request.cmd@, views(request.args@)),
        res.1 matches Ok(c) ==> config.command(request.cmd@) == Some(*c),
        res.1 matches Err(reason) ==> reason@ == (match config.command(request.cmd@) {
            None => not_configured_message(request.cmd@),
            Some(_) => not_permitted_message(request.cmd@, views(request.args@)),
        }),
{
    let decision = config.authorize(request.cmd.as_str(), request.args.as_slice());
    let ack = match &decision {
        Ok(_) => ServerAck { ok: true, error: None },
        Err(_) => ServerAck {
            ok: false,
            error: Some("You are not authorized to execute this command".to_owned()),
        },
    };
    (ack, decision)
}

/// Every denial gets the same reply, whatever its reason.
pub proof fn lemma_denials_are_uniform(
    config: Config,
    cmd1: Seq<char>,
    args1: Seq<Seq<char>>,
    cmd2: Seq<char>,
    args2: Seq<Seq<char>>,
)
    requires
        !permitted(config, cmd1, args1),
        !permitted(config, cmd2, args2),
    ensures
        expected_ack(permitted(config, cmd1, args1)) == expected_ack(
            permitted(config, cmd2, args2),
        ),
        expected_ack(permitted(config, cmd1, args1)) == (false, Some(denial_message())),
{
}

/// What the server does with one frame from the client.
#[derive(Debug, PartialEq, Eq)]
pub enum StdinAction {
    /// Write the payload to the command's stdin.
    Forward,
    /// Close the command's stdin.
    Close,
    /// Ignore the frame.
    Ignore,
}

/// What the server does with a client frame on `channel`.
pub fn stdin_action(channel: u8) -> (a: StdinAction)
    ensures
        channel == CH_STDIN ==> a == StdinAction::Forward,
        channel == CH_STDIN_EOF ==> a == StdinAction::Close,
        channel != CH_STDIN && channel != CH_STDIN_EOF ==> a == StdinAction::Ignore,
{
    if channel == CH_STDIN {
        StdinAction::Forward
    } else if channel == CH_STDIN_EOF {
        StdinAction::Close
    } else {
        StdinAction::Ignore
    }
}

/// The exit code reported for a finished command: its own code, or -1 when it
/// has none (it was ended by a signal).
pub fn reported_exit_code(code: Option<i32>) -> (c: i32)
    ensures
        c == (match code {
            Some(v) => v as int,
            None => -1,
        }),
{
    match code {
        Some(v) => v,
        None => -1,
    }
}

/// The message sent when `program` could not be started.
pub open spec fn spawn_failure_message(program: Seq<char>, error: Seq<char>) -> Seq<char> {
    "failed to spawn '"@ + program + "': "@ + error
}

/// The error frame sent when `program` could not be started; it names the
/// program that actually failed to start (`bwrap` for a sandboxed command).
pub fn spawn_failure_frame(program: &str, error: &str) -> (bytes: Vec<u8>)
    ensures
        bytes@ == frame(CH_ERROR, encode_utf8(spawn_failure_message(program@, error@))),
{
    let mut msg = String::new();
    msg.append("failed to spawn '");
    msg.append(program);
    msg.append("': ");
    msg.append(error);
    let text = msg.as_str();
    write_frame(CH_ERROR, text.as_bytes())
}

} // verus!
