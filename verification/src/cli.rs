//! Command-line decisions: which mode the binary runs in, which socket it
//! uses, and the arguments handed to the argument parser.
use vstd::prelude::*;

use crate::path::{file_name, file_name_range};
use crate::text::{chars_of, views};

verus! {

/// The parsed command line.
pub struct Cli {
    pub command: Commands,
}

/// The two modes of the binary.
#[allow(inconsistent_fields)]
pub enum Commands {
    /// Run in server mode, listening on a Unix socket.
    Server {
        /// Socket path: `unix:/run/fling/fling.sock` or `/run/fling/fling.sock`.
        socket: String,
        /// Config file listing allowed commands.
        config: String,
    },
    /// Relay a command through a Unix socket (default mode).
    Client {
        /// Socket path; `$FLING_SOCKET` and then the default apply when absent.
        socket: Option<String>,
        /// Command name (must be in the server's allowlist).
        cmd: String,
        /// Arguments forwarded verbatim to the command.
        args: Vec<String>,
    },
}

/// The canonical program name. When the binary is invoked under any other
/// name (e.g. via a symlink), that name is treated as the command to relay.
pub open spec fn program_name() -> Seq<char> {
    "fling"@
}

/// The socket used when none is given.
pub open spec fn default_socket() -> Seq<char> {
    "unix:/run/fling/fling.sock"@
}

/// A socket address with any `unix:` prefix removed.
pub open spec fn socket_path_of(s: Seq<char>) -> Seq<char> {
    if s.len() >= 5 && s.take(5) == "unix:"@ {
        s.skip(5)
    } else {
        s
    }
}

/// The basename the binary was invoked as, or the program name when there is none.
pub open spec fn invoked_name(argv0: Seq<char>) -> Seq<char> {
    match file_name(argv0) {
        Some(n) => n,
        None => program_name(),
    }
}

/// Socket paths accept `unix:/path` or a bare `/path`.
pub fn parse_socket_path(s: &str) -> (path: String)
    ensures
        path@ == socket_path_of(s@),
{
    let cs = chars_of(s);
    proof {
        reveal_strlit("unix:");
    }
    if cs.len() >= 5 && cs[0] == 'u' && cs[1] == 'n' && cs[2] == 'i' && cs[3] == 'x' && cs[4]
        == ':' {
        proof {
            assert(s@.take(5) =~= "unix:"@);
        }
        s.substring_char(5, cs.len()).to_owned()
    } else {
        proof {
            if s@.len() >= 5 && s@.take(5) == "unix:"@ {
                assert(s@.take(5)[0] == 'u' && s@.take(5)[1] == 'n' && s@.take(5)[2] == 'i'
                    && s@.take(5)[3] == 'x' && s@.take(5)[4] == ':');
            }
        }
        s.to_owned()
    }
}

/// The basename the binary was invoked as (argv[0] with directories stripped).
pub fn invoked_as(argv0: &str) -> (name: &str)
    ensures
        name@ == invoked_name(argv0@),
{
    let cs = chars_of(argv0);
    match file_name_range(cs.as_slice()) {
        Some(r) => argv0.substring_char(r.0, r.1),
        None => "fling",
    }
}

/// The client's socket: the `--socket` flag, else `$FLING_SOCKET`, else the
/// default, with any `unix:` prefix removed.
pub fn client_socket_path(flag: Option<String>, env: Option<String>) -> (path: String)
    ensures
        path@ == socket_path_of(
            match flag {
                Some(f) => f@,
                None => match env {
                    Some(e) => e@,
                    None => default_socket(),
                },
            },
        ),
{
    match flag {
        Some(f) => parse_socket_path(f.as_str()),
        None => match env {
            Some(e) => parse_socket_path(e.as_str()),
            None => parse_socket_path("unix:/run/fling/fling.sock"),
        },
    }
}

/// How a run of the binary proceeds.
pub enum Invocation {
    /// Symlink mode: relay `cmd` with every remaining argument, verbatim.
    Relay { socket_path: String, cmd: String, args: Vec<String> },
    /// Parse these arguments as a command line.
    Parse(Vec<String>),
}

/// The arguments handed to the parser in `fling` mode: when the first argument
/// is not `server`, `client` is put before it, so anything that isn't
/// `fling server` is client mode.
pub open spec fn parser_args(args: Seq<Seq<char>>) -> Seq<Seq<char>> {
    if args.len() > 1 && args[1] != "server"@ {
        seq![args[0], "client"@] + args.skip(1)
    } else {
        args
    }
}

/// Whether two strings hold the same characters.
fn same_text(a: &str, b: &str) -> (res: bool)
    ensures
        res == (a@ == b@),
{
    a.to_owned() == b.to_owned()
}

/// Decides the mode from the process arguments (`args[0]` is the name the
/// binary was invoked as) and the value of `$FLING_SOCKET`.
///
/// Invoked under any name other than `fling`, that name is the command to
/// relay and every remaining argument is forwarded verbatim, so the socket can
/// only come from the environment.
pub fn plan(args: &Vec<String>, env_socket: Option<String>) -> (inv: Invocation)
    requires
        args@.len() >= 1,
    ensures
        match inv {
            Invocation::Relay { socket_path, cmd, args: rest } => {
                &&& invoked_name(args@[0]@) != program_name()
                &&& cmd@ == invoked_name(args@[0]@)
                &&& views(rest@) == views(args@).skip(1)
                &&& socket_path@ == socket_path_of(
                    match env_socket {
                        Some(e) => e@,
                        None => default_socket(),
                    },
                )
            },
            Invocation::Parse(parsed) => {
                &&& invoked_name(args@[0]@) == program_name()
                &&& views(parsed@) == parser_args(views(args@))
            },
        },
{
    let program = invoked_as(args[0].as_str());
    if !same_text(program, "fling") {
        let socket_path = client_socket_path(None, env_socket);
        let mut rest: Vec<String> = Vec::new();
        let mut i: usize = 1;
        while i < args.len()
            invariant
                1 <= i <= args@.len(),
                views(rest@) == views(args@).subrange(1, i as int),
            decreases args@.len() - i,
        {
            let ghost prev = views(rest@);
            rest.push(args[i].clone());
            proof {
                assert(views(rest@) =~= prev.push(args@[i as int]@));
                assert(views(args@).subrange(1, i + 1) =~= views(args@).subrange(1, i as int).push(
                    args@[i as int]@,
                ));
            }
            i = i + 1;
        }
        proof {
            assert(views(args@).subrange(1, args@.len() as int) =~= views(args@).skip(1));
        }
        return Invocation::Relay { socket_path, cmd: program.to_owned(), args: rest };
    }
    let mut parsed: Vec<String> = Vec::new();
    parsed.push(args[0].clone());
    let insert = args.len() > 1 && !same_text(args[1].as_str(), "server");
    if insert {
        parsed.push("client".to_owned());
    }
    let ghost head = views(parsed@);
    let mut i: usize = 1;
    while i < args.len()
        invariant
            1 <= i <= args@.len(),
            views(parsed@) == head + views(args@).subrange(1, i as int),
        decreases args@.len() - i,
    {
        let ghost prev = views(parsed@);
        parsed.push(args[i].clone());
        proof {
            assert(views(parsed@) =~= prev.push(args@[i as int]@));
            assert(views(args@).subrange(1, i + 1) =~= views(args@).subrange(1, i as int).push(
                args@[i as int]@,
            ));
        }
        i = i + 1;
    }
    proof {
        assert(views(args@).subrange(1, args@.len() as int) =~= views(args@).skip(1));
        if insert {
            assert(head =~= seq![args@[0]@, "client"@]);
        } else {
            assert(head =~= seq![args@[0]@]);
            assert(views(args@) =~= seq![args@[0]@] + views(args@).skip(1));
        }
    }
    Invocation::Parse(parsed)
}

/// In `fling` mode anything but `fling server` is client mode: when there is a
/// first argument other than `server`, whatever it starts with (a flag such as
/// `--socket` included), the parser gets the program name, `client`, and then
/// every argument unchanged and in order; otherwise it gets the arguments as
/// they are.
pub proof fn lemma_client_inserted(args: Seq<Seq<char>>)
    ensures
        args.len() > 1 && args[1] != "server"@ ==> {
            let r = parser_args(args);
            &&& r.len() == args.len() + 1
            &&& r[0] == args[0]
            &&& r[1] == "client"@
            &&& forall|i: int| 1 <= i < args.len() ==> #[trigger] r[i + 1] == args[i]
        },
        !(args.len() > 1 && args[1] != "server"@) ==> parser_args(args) == args,
{
}

/// A `unix:` socket address names the path after the prefix.
pub proof fn lemma_unix_prefix_stripped(path: Seq<char>)
    ensures
        socket_path_of("unix:"@ + path) == path,
{
    let s = "unix:"@ + path;
    reveal_strlit("unix:");
    assert(s.take(5) =~= "unix:"@);
    assert(s.skip(5) =~= path);
}

/// A bare absolute path is used as it is.
pub proof fn lemma_bare_path_kept(path: Seq<char>)
    requires
        path.len() > 0,
        path[0] == '/',
    ensures
        socket_path_of(path) == path,
{
    reveal_strlit("unix:");
    if path.len() >= 5 && path.take(5) == "unix:"@ {
        assert(path.take(5)[0] == path[0]);
    }
}

} // verus!
