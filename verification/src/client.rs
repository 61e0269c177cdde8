//! The client's decisions: what to send, and what each server frame means.
use vstd::prelude::*;
use vstd::utf8::encode_utf8;

use crate::protocol::{
    exit_code_in, exit_code_of, ClientRequest, ServerAck, CH_ERROR, CH_EXIT, CH_STDERR, CH_STDOUT,
};
use crate::text::{line_bytes, views};

verus! {

/// What the client does with one frame from the server.
#[derive(Debug, PartialEq, Eq)]
pub enum ClientAction {
    /// Write the payload to stdout.
    WriteStdout,
    /// Write the payload to stderr.
    WriteStderr,
    /// Stop, exiting with this code.
    Exit(i32),
    /// Print the payload as the server's error and exit with code 1.
    ServerError,
    /// Ignore the frame.
    Ignore,
}

/// The handshake request for relaying `cmd` with `args`.
pub fn request(cmd: &str, args: &[String]) -> (r: ClientRequest)
    ensures
        r.cmd@ == cmd@,
        views(r.args@) == views(args@),
{
    let mut v: Vec<String> = Vec::new();
    let mut i: usize = 0;
    while i < args.len()
        invariant
            i <= args@.len(),
            views(v@) == views(args@).take(i as int),
        decreases args@.len() - i,
    {
        let ghost prev = views(v@);
        v.push(args[i].clone());
        proof {
            assert(views(v@) =~= prev.push(args@[i as int]@));
            assert(views(args@).take(i + 1) =~= views(args@).take(i as int).push(args@[i as int]@));
        }
        i = i + 1;
    }
    proof {
        assert(views(args@).take(args@.len() as int) =~= views(args@));
    }
    ClientRequest { cmd: cmd.to_owned(), args: v }
}

/// The message the client prints before exiting with code 1 when the server
/// refuses the request; `None` when the request was accepted.
pub fn refusal(ack: &ServerAck) -> (msg: Option<String>)
    ensures
        ack.ok ==> msg is None,
        !ack.ok ==> (msg matches Some(m) && m@ == (match ack.error {
            Some(e) => e@,
            None => "unknown server error"@,
        })),
{
    if ack.ok {
        None
    } else {
        match &ack.error {
            Some(e) => Some(e.clone()),
            None => Some("unknown server error".to_owned()),
        }
    }
}

/// The bytes the client writes to its stderr, exactly, before exiting with
/// code 1 when the server refuses the request: the refusal message and a
/// newline. `None` when the request was accepted.
pub fn refusal_line(ack: &ServerAck) -> (line: Option<Vec<u8>>)
    ensures
        ack.ok ==> line is None,
        !ack.ok ==> (line matches Some(l) && l@ == encode_utf8(
            match ack.error {
                Some(e) => e@,
                None => "unknown server error"@,
            },
        ).push(10)),
{
    match refusal(ack) {
        None => None,
        Some(msg) => {
            let text = msg.as_str();
            Some(line_bytes(text))
        },
    }
}

/// What the client does with a frame on `channel` carrying `payload`.
pub fn client_action(channel: u8, payload: &[u8]) -> (a: ClientAction)
    ensures
        channel == CH_STDOUT ==> a == ClientAction::WriteStdout,
        channel == CH_STDERR ==> a == ClientAction::WriteStderr,
        channel == CH_EXIT ==> a == ClientAction::Exit(exit_code_in(payload@)),
        channel == CH_ERROR ==> a == ClientAction::ServerError,
        channel != CH_STDOUT && channel != CH_STDERR && channel != CH_EXIT && channel != CH_ERROR
            ==> a == ClientAction::Ignore,
{
    if channel == CH_STDOUT {
        ClientAction::WriteStdout
    } else if channel == CH_STDERR {
        ClientAction::WriteStderr
    } else if channel == CH_EXIT {
        ClientAction::Exit(exit_code_of(payload))
    } else if channel == CH_ERROR {
        ClientAction::ServerError
    } else {
        ClientAction::Ignore
    }
}

} // verus!
