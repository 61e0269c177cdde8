//! Builds the command line for a relayed command, optionally wrapping it in a
//! `bwrap` (bubblewrap) sandbox that restricts the command's filesystem view.
//!
//! A sandboxed executable is launched inside a fresh mount/user/pid/net
//! namespace where only the runtime libraries and the explicitly bound paths
//! are visible. This is how, e.g., a relayed `cat` can be restricted to a
//! single directory: bind that directory read-only and nothing else (so
//! `/etc/passwd` simply isn't present).
use vstd::prelude::*;

use crate::config::{resolved_sandbox, sandbox_parts, CommandConfig, Sandbox, SandboxSetting};
use crate::path::{path_starts_with, starts_with};
use crate::text::{chars_of, views};

verus! {

/// What to spawn for a relayed command: the program, its arguments, and the
/// working directory to start it in (`None` leaves the spawner's own).
pub struct CommandSpec {
    pub program: String,
    pub args: Vec<String>,
    pub current_dir: Option<String>,
}

/// `flag path path` for every path, in order.
pub open spec fn bind_args(flag: Seq<char>, paths: Seq<Seq<char>>) -> Seq<Seq<char>>
    decreases paths.len(),
{
    if paths.len() == 0 {
        Seq::empty()
    } else {
        bind_args(flag, paths.drop_last()) + seq![flag, paths.last(), paths.last()]
    }
}

/// Whether `path` is already visible in the sandbox through one of its binds,
/// either exactly or as a descendant.
pub open spec fn covered(path: Seq<char>, sandbox: Sandbox) -> bool {
    exists|i: int|
        0 <= i < sandbox.ro_bind@.len() + sandbox.rw_bind@.len() && #[trigger] path_starts_with(
            path,
            (sandbox.ro_bind@ + sandbox.rw_bind@)[i]@,
        )
}

/// The runtime directories bound read-only (when present) into every sandbox,
/// so the executable and its shared libraries resolve.
pub open spec fn runtime_binds() -> Seq<Seq<char>> {
    bind_args("--ro-bind-try"@, seq!["/lib"@, "/lib64"@, "/bin"@, "/sbin"@])
}

/// The arguments handed to `bwrap` to run `entry` with `args` in `sandbox`.
pub open spec fn sandbox_args(entry: CommandConfig, sandbox: Sandbox, args: Seq<Seq<char>>) -> Seq<
    Seq<char>,
> {
    seq!["--ro-bind"@, "/usr"@, "/usr"@] + runtime_binds() + (if sandbox.proc {
        seq!["--proc"@, "/proc"@]
    } else {
        Seq::empty()
    }) + (if sandbox.dev {
        seq!["--dev"@, "/dev"@]
    } else {
        Seq::empty()
    }) + seq![
        "--tmpfs"@,
        "/tmp"@,
        "--unshare-all"@,
        "--die-with-parent"@,
        "--new-session"@,
    ] + bind_args("--ro-bind"@, views(sandbox.ro_bind@)) + bind_args(
        "--bind"@,
        views(sandbox.rw_bind@),
    ) + (match entry.working_dir {
        Some(wd) => (if covered(wd@, sandbox) {
            Seq::empty()
        } else {
            seq!["--ro-bind"@, wd@, wd@]
        }) + seq!["--chdir"@, wd@],
        None => seq!["--chdir"@, "/tmp"@],
    }) + seq!["--"@, entry.executable@] + args
}

/// The program, arguments and working directory that run `entry` with `args`.
pub open spec fn command_line(entry: CommandConfig, args: Seq<Seq<char>>) -> (
    Seq<char>,
    Seq<Seq<char>>,
    Option<Seq<char>>,
) {
    match entry.sandbox {
        None => (
            entry.executable@,
            args,
            Some(
                match entry.working_dir {
                    Some(wd) => wd@,
                    None => "/"@,
                },
            ),
        ),
        Some(sandbox) => ("bwrap"@, sandbox_args(entry, sandbox, args), None),
    }
}

/// The view of a built command.
pub open spec fn spec_of(c: CommandSpec) -> (Seq<char>, Seq<Seq<char>>, Option<Seq<char>>) {
    (
        c.program@,
        views(c.args@),
        match c.current_dir {
            Some(d) => Some(d@),
            None => None,
        },
    )
}

/// Appends `s` to `argv`.
fn push_arg(argv: &mut Vec<String>, s: &str)
    ensures
        views(final(argv)@) == views(old(argv)@).push(s@),
{
    argv.push(s.to_owned());
    proof {
        assert(views(argv@) =~= views(old(argv)@).push(s@));
    }
}

/// Appends `flag path path` for every path in `paths`.
fn push_binds(argv: &mut Vec<String>, flag: &str, paths: &Vec<String>)
    ensures
        views(final(argv)@) == views(old(argv)@) + bind_args(flag@, views(paths@)),
{
    let ghost start = views(argv@);
    let mut i: usize = 0;
    while i < paths.len()
        invariant
            i <= paths@.len(),
            views(argv@) == start + bind_args(flag@, views(paths@).take(i as int)),
        decreases paths@.len() - i,
    {
        push_arg(argv, flag);
        push_arg(argv, paths[i].as_str());
        push_arg(argv, paths[i].as_str());
        proof {
            let t = views(paths@).take(i + 1);
            assert(t.drop_last() =~= views(paths@).take(i as int));
            assert(t.last() == paths@[i as int]@);
            assert(views(argv@) =~= start + bind_args(flag@, t));
        }
        i = i + 1;
    }
    proof {
        assert(views(paths@).take(paths@.len() as int) =~= views(paths@));
    }
}

/// Appends every argument in `args`.
fn push_all(argv: &mut Vec<String>, args: &[String])
    ensures
        views(final(argv)@) == views(old(argv)@) + views(args@),
{
    let ghost start = views(argv@);
    let mut i: usize = 0;
    while i < args.len()
        invariant
            i <= args@.len(),
            views(argv@) == start + views(args@).take(i as int),
        decreases args@.len() - i,
    {
        push_arg(argv, args[i].as_str());
        proof {
            assert(views(args@).take(i + 1) =~= views(args@).take(i as int).push(args@[i as int]@));
        }
        i = i + 1;
    }
    proof {
        assert(views(args@).take(args@.len() as int) =~= views(args@));
    }
}

/// True if `path` is already visible inside the sandbox through one of its
/// configured binds, either exactly or as a descendant.
pub fn is_covered(path: &str, sandbox: &Sandbox) -> (res: bool)
    ensures
        res == covered(path@, *sandbox),
{
    let p = chars_of(path);
    let ghost all = sandbox.ro_bind@ + sandbox.rw_bind@;
    let nro = sandbox.ro_bind.len();
    let mut i: usize = 0;
    while i < nro
        invariant
            nro == sandbox.ro_bind@.len(),
            all == sandbox.ro_bind@ + sandbox.rw_bind@,
            p@ == path@,
            i <= nro,
            forall|k: int| 0 <= k < i ==> !#[trigger] path_starts_with(path@, all[k]@),
        decreases nro - i,
    {
        let b = chars_of(sandbox.ro_bind[i].as_str());
        proof {
            assert(all[i as int] == sandbox.ro_bind@[i as int]);
        }
        if starts_with(p.as_slice(), b.as_slice()) {
            return true;
        }
        i = i + 1;
    }
    let mut j: usize = 0;
    while j < sandbox.rw_bind.len()
        invariant
            nro == sandbox.ro_bind@.len(),
            all == sandbox.ro_bind@ + sandbox.rw_bind@,
            p@ == path@,
            j <= sandbox.rw_bind@.len(),
            forall|k: int| 0 <= k < nro + j ==> !#[trigger] path_starts_with(path@, all[k]@),
        decreases sandbox.rw_bind@.len() - j,
    {
        let b = chars_of(sandbox.rw_bind[j].as_str());
        proof {
            assert(all[nro + j] == sandbox.rw_bind@[j as int]);
        }
        if starts_with(p.as_slice(), b.as_slice()) {
            return true;
        }
        j = j + 1;
    }
    false
}

/// Builds the command to spawn for `entry` with `args`.
///
/// Stdio configuration is left to the caller; only the program, arguments,
/// working directory and (if configured) sandbox wrapping are set here.
pub fn build_command(entry: &CommandConfig, args: &[String]) -> (c: CommandSpec)
    ensures
        spec_of(c) == command_line(*entry, views(args@)),
{
    match &entry.sandbox {
        None => {
            let mut argv: Vec<String> = Vec::new();
            push_all(&mut argv, args);
            proof {
                assert(views(argv@) =~= views(args@));
            }
            let dir = match &entry.working_dir {
                Some(wd) => wd.clone(),
                // Relayed commands must never inherit the server's own working directory.
                None => "/".to_owned(),
            };
            CommandSpec { program: entry.executable.clone(), args: argv, current_dir: Some(dir) }
        },
        Some(sandbox) => build_sandboxed(entry, sandbox, args),
    }
}

/// `runtime_binds` written out.
proof fn lemma_runtime_binds()
    ensures
        runtime_binds() == seq![
            "--ro-bind-try"@,
            "/lib"@,
            "/lib"@,
            "--ro-bind-try"@,
            "/lib64"@,
            "/lib64"@,
            "--ro-bind-try"@,
            "/bin"@,
            "/bin"@,
            "--ro-bind-try"@,
            "/sbin"@,
            "/sbin"@,
        ],
{
    let f = "--ro-bind-try"@;
    let s1 = seq!["/lib"@];
    let s2 = seq!["/lib"@, "/lib64"@];
    let s3 = seq!["/lib"@, "/lib64"@, "/bin"@];
    let s4 = seq!["/lib"@, "/lib64"@, "/bin"@, "/sbin"@];
    assert(s1.drop_last() =~= Seq::<Seq<char>>::empty());
    assert(s2.drop_last() =~= s1);
    assert(s3.drop_last() =~= s2);
    assert(s4.drop_last() =~= s3);
    assert(bind_args(f, Seq::<Seq<char>>::empty()) =~= Seq::<Seq<char>>::empty());
    assert(bind_args(f, s1) =~= seq![f, "/lib"@, "/lib"@]);
    assert(bind_args(f, s2) =~= seq![f, "/lib"@, "/lib"@, f, "/lib64"@, "/lib64"@]);
    assert(bind_args(f, s3) =~= seq![
        f,
        "/lib"@,
        "/lib"@,
        f,
        "/lib64"@,
        "/lib64"@,
        f,
        "/bin"@,
        "/bin"@,
    ]);
    assert(bind_args(f, s4) =~= seq![
        f,
        "/lib"@,
        "/lib"@,
        f,
        "/lib64"@,
        "/lib64"@,
        f,
        "/bin"@,
        "/bin"@,
        f,
        "/sbin"@,
        "/sbin"@,
    ]);
}

/// `/usr` and the runtime directories.
fn push_runtime(argv: &mut Vec<String>)
    ensures
        views(final(argv)@) == views(old(argv)@) + seq!["--ro-bind"@, "/usr"@, "/usr"@]
            + runtime_binds(),
{
    push_arg(argv, "--ro-bind");
    push_arg(argv, "/usr");
    push_arg(argv, "/usr");
    push_arg(argv, "--ro-bind-try");
    push_arg(argv, "/lib");
    push_arg(argv, "/lib");
    push_arg(argv, "--ro-bind-try");
    push_arg(argv, "/lib64");
    push_arg(argv, "/lib64");
    push_arg(argv, "--ro-bind-try");
    push_arg(argv, "/bin");
    push_arg(argv, "/bin");
    push_arg(argv, "--ro-bind-try");
    push_arg(argv, "/sbin");
    push_arg(argv, "/sbin");
    proof {
        lemma_runtime_binds();
        assert(views(argv@) =~= views(old(argv)@) + seq!["--ro-bind"@, "/usr"@, "/usr"@]
            + runtime_binds());
    }
}

/// The optional `/proc` and `/dev`, a fresh `/tmp`, and the namespace flags.
fn push_mounts(argv: &mut Vec<String>, sandbox: &Sandbox)
    ensures
        views(final(argv)@) == views(old(argv)@) + (if sandbox.proc {
            seq!["--proc"@, "/proc"@]
        } else {
            Seq::empty()
        }) + (if sandbox.dev {
            seq!["--dev"@, "/dev"@]
        } else {
            Seq::empty()
        }) + seq![
            "--tmpfs"@,
            "/tmp"@,
            "--unshare-all"@,
            "--die-with-parent"@,
            "--new-session"@,
        ],
{
    let ghost start = views(argv@);
    if sandbox.proc {
        push_arg(argv, "--proc");
        push_arg(argv, "/proc");
    }
    let ghost after_proc = views(argv@);
    if sandbox.dev {
        push_arg(argv, "--dev");
        push_arg(argv, "/dev");
    }
    let ghost after_dev = views(argv@);
    push_arg(argv, "--tmpfs");
    push_arg(argv, "/tmp");
    // Isolate namespaces (incl. network), reap on parent death, and detach the
    // controlling terminal to block TIOCSTI-style input injection.
    push_arg(argv, "--unshare-all");
    push_arg(argv, "--die-with-parent");
    push_arg(argv, "--new-session");
    proof {
        assert(after_proc =~= start + (if sandbox.proc {
            seq!["--proc"@, "/proc"@]
        } else {
            Seq::empty()
        }));
        assert(after_dev =~= after_proc + (if sandbox.dev {
            seq!["--dev"@, "/dev"@]
        } else {
            Seq::empty()
        }));
        assert(views(argv@) =~= after_dev + seq![
            "--tmpfs"@,
            "/tmp"@,
            "--unshare-all"@,
            "--die-with-parent"@,
            "--new-session"@,
        ]);
    }
}

/// The working directory: bound read-only unless already covered, then entered.
fn push_workdir(argv: &mut Vec<String>, entry: &CommandConfig, sandbox: &Sandbox)
    ensures
        views(final(argv)@) == views(old(argv)@) + (match entry.working_dir {
            Some(wd) => (if covered(wd@, *sandbox) {
                Seq::empty()
            } else {
                seq!["--ro-bind"@, wd@, wd@]
            }) + seq!["--chdir"@, wd@],
            None => seq!["--chdir"@, "/tmp"@],
        }),
{
    let ghost start = views(argv@);
    match &entry.working_dir {
        // Setting `working_dir` is the admin's explicit grant for that
        // directory: bind it so it exists inside the sandbox, unless an
        // existing bind already covers it (which would otherwise clobber a
        // read-write grant with a read-only one).
        Some(wd) => {
            let c = is_covered(wd.as_str(), sandbox);
            if !c {
                push_arg(argv, "--ro-bind");
                push_arg(argv, wd.as_str());
                push_arg(argv, wd.as_str());
            }
            let ghost mid = views(argv@);
            push_arg(argv, "--chdir");
            push_arg(argv, wd.as_str());
            proof {
                assert(mid =~= start + (if c {
                    Seq::empty()
                } else {
                    seq!["--ro-bind"@, wd@, wd@]
                }));
                assert(views(argv@) =~= mid + seq!["--chdir"@, wd@]);
            }
        },
        // No working directory configured: start on the sandbox's own tmpfs,
        // which is mounted above and contains nothing from the host.
        None => {
            push_arg(argv, "--chdir");
            push_arg(argv, "/tmp");
            proof {
                assert(views(argv@) =~= start + seq!["--chdir"@, "/tmp"@]);
            }
        },
    }
}

fn build_sandboxed(entry: &CommandConfig, sandbox: &Sandbox, args: &[String]) -> (c: CommandSpec)
    requires
        entry.sandbox == Some(*sandbox),
    ensures
        spec_of(c) == command_line(*entry, views(args@)),
{
    let mut argv: Vec<String> = Vec::new();
    // Minimal runtime image: libraries needed to load the executable, an
    // optional private /proc and /dev, a fresh /tmp, and nothing writable from
    // the host by default.
    push_runtime(&mut argv);
    push_mounts(&mut argv, sandbox);
    // Explicitly granted paths.
    push_binds(&mut argv, "--ro-bind", &sandbox.ro_bind);
    push_binds(&mut argv, "--bind", &sandbox.rw_bind);
    push_workdir(&mut argv, entry, sandbox);
    // End of bwrap options; the relayed command follows.
    push_arg(&mut argv, "--");
    push_arg(&mut argv, entry.executable.as_str());
    push_all(&mut argv, args);
    proof {
        assert(views(argv@) =~= sandbox_args(*entry, *sandbox, views(args@)));
    }
    CommandSpec { program: "bwrap".to_owned(), args: argv, current_dir: None }
}

/// Whether `w` occurs in `a` as consecutive elements.
pub open spec fn has_window(a: Seq<Seq<char>>, w: Seq<Seq<char>>) -> bool {
    exists|k: int| 0 <= k && k + w.len() <= a.len() && #[trigger] a.subrange(k, k + w.len()) == w
}

proof fn lemma_window_in_concat(
    pre: Seq<Seq<char>>,
    x: Seq<Seq<char>>,
    post: Seq<Seq<char>>,
    w: Seq<Seq<char>>,
)
    requires
        has_window(x, w),
    ensures
        has_window(pre + x + post, w),
{
    let k = choose|k: int|
        0 <= k && k + w.len() <= x.len() && #[trigger] x.subrange(k, k + w.len()) == w;
    let a = pre + x + post;
    assert(a.subrange(k + pre.len(), k + pre.len() + w.len()) =~= x.subrange(k, k + w.len()));
}

proof fn lemma_bind_args_shape(flag: Seq<char>, paths: Seq<Seq<char>>, i: int)
    requires
        0 <= i < paths.len(),
    ensures
        bind_args(flag, paths).len() == 3 * paths.len(),
        bind_args(flag, paths).subrange(3 * i, 3 * i + 3) == seq![flag, paths[i], paths[i]],
    decreases paths.len(),
{
    let b = bind_args(flag, paths);
    let d = paths.drop_last();
    if i < paths.len() - 1 {
        lemma_bind_args_shape(flag, d, i);
        assert(b.subrange(3 * i, 3 * i + 3) =~= bind_args(flag, d).subrange(3 * i, 3 * i + 3));
    } else {
        if d.len() > 0 {
            lemma_bind_args_shape(flag, d, 0);
        } else {
            assert(bind_args(flag, d) =~= Seq::<Seq<char>>::empty());
        }
        assert(b.subrange(3 * i, 3 * i + 3) =~= seq![flag, paths[i], paths[i]]);
    }
}

/// Every command is confined by default: with no `sandbox` key it runs inside `bwrap`.
pub proof fn lemma_confined_by_default(entry: CommandConfig, args: Seq<Seq<char>>)
    requires
        sandbox_parts(entry.sandbox) == resolved_sandbox(None),
    ensures
        command_line(entry, args).0 == "bwrap"@,
        command_line(entry, args).2 is None,
{
}

/// `sandbox = false` runs the executable itself, with the arguments verbatim,
/// in the working directory or else in `/`.
pub proof fn lemma_opt_out_runs_directly(entry: CommandConfig, args: Seq<Seq<char>>)
    requires
        sandbox_parts(entry.sandbox) == resolved_sandbox(Some(SandboxSetting::Enabled(false))),
    ensures
        command_line(entry, args).0 == entry.executable@,
        command_line(entry, args).1 == args,
{
}

/// In a sandbox the relayed command and its arguments come last, after `--`.
pub proof fn lemma_command_after_separator(
    entry: CommandConfig,
    sandbox: Sandbox,
    args: Seq<Seq<char>>,
)
    ensures
        ({
            let a = sandbox_args(entry, sandbox, args);
            &&& a.len() >= args.len() + 2
            &&& a.skip(a.len() - args.len() - 2) == seq!["--"@, entry.executable@] + args
        }),
{
    let a = sandbox_args(entry, sandbox, args);
    let tail = seq!["--"@, entry.executable@] + args;
    assert(a.skip(a.len() - args.len() - 2) =~= tail);
}

/// Namespaces are always isolated, network included.
pub proof fn lemma_namespaces_unshared(entry: CommandConfig, sandbox: Sandbox, args: Seq<Seq<char>>)
    ensures
        has_window(sandbox_args(entry, sandbox, args), seq!["--unshare-all"@]),
{
    let a = sandbox_args(entry, sandbox, args);
    let k = 15 + (if sandbox.proc {
        2int
    } else {
        0
    }) + (if sandbox.dev {
        2int
    } else {
        0
    }) + 2;
    lemma_runtime_binds();
    assert(a.subrange(k, k + 1) =~= seq!["--unshare-all"@]);
}

/// `/proc` and `/dev` are mounted when the sandbox asks for them.
pub proof fn lemma_proc_and_dev_mounted(entry: CommandConfig, sandbox: Sandbox, args: Seq<Seq<char>>)
    ensures
        sandbox.proc ==> has_window(sandbox_args(entry, sandbox, args), seq!["--proc"@, "/proc"@]),
        sandbox.dev ==> has_window(sandbox_args(entry, sandbox, args), seq!["--dev"@, "/dev"@]),
{
    let a = sandbox_args(entry, sandbox, args);
    lemma_runtime_binds();
    if sandbox.proc {
        assert(a.subrange(15, 17) =~= seq!["--proc"@, "/proc"@]);
    }
    if sandbox.dev {
        let k = 15 + (if sandbox.proc {
            2int
        } else {
            0
        });
        assert(a.subrange(k, k + 2) =~= seq!["--dev"@, "/dev"@]);
    }
}

/// Every granted path is bound at the same place: read-only grants as
/// `--ro-bind path path`, read-write grants as `--bind path path`.
pub proof fn lemma_grants_bound(
    entry: CommandConfig,
    sandbox: Sandbox,
    args: Seq<Seq<char>>,
    i: int,
)
    ensures
        0 <= i < sandbox.ro_bind@.len() ==> has_window(
            sandbox_args(entry, sandbox, args),
            seq!["--ro-bind"@, sandbox.ro_bind@[i]@, sandbox.ro_bind@[i]@],
        ),
        0 <= i < sandbox.rw_bind@.len() ==> has_window(
            sandbox_args(entry, sandbox, args),
            seq!["--bind"@, sandbox.rw_bind@[i]@, sandbox.rw_bind@[i]@],
        ),
{
    let pre = seq!["--ro-bind"@, "/usr"@, "/usr"@] + runtime_binds() + (if sandbox.proc {
        seq!["--proc"@, "/proc"@]
    } else {
        Seq::empty()
    }) + (if sandbox.dev {
        seq!["--dev"@, "/dev"@]
    } else {
        Seq::empty()
    }) + seq![
        "--tmpfs"@,
        "/tmp"@,
        "--unshare-all"@,
        "--die-with-parent"@,
        "--new-session"@,
    ];
    let ro = bind_args("--ro-bind"@, views(sandbox.ro_bind@));
    let rw = bind_args("--bind"@, views(sandbox.rw_bind@));
    let wd = match entry.working_dir {
        Some(wd) => (if covered(wd@, sandbox) {
            Seq::empty()
        } else {
            seq!["--ro-bind"@, wd@, wd@]
        }) + seq!["--chdir"@, wd@],
        None => seq!["--chdir"@, "/tmp"@],
    };
    let post = seq!["--"@, entry.executable@] + args;
    let a = sandbox_args(entry, sandbox, args);
    if 0 <= i < sandbox.ro_bind@.len() {
        lemma_bind_args_shape("--ro-bind"@, views(sandbox.ro_bind@), i);
        assert(ro.subrange(3 * i, 3 * i + 3) == seq![
            "--ro-bind"@,
            sandbox.ro_bind@[i]@,
            sandbox.ro_bind@[i]@,
        ]);
        lemma_window_in_concat(
            pre,
            ro,
            rw + wd + post,
            seq!["--ro-bind"@, sandbox.ro_bind@[i]@, sandbox.ro_bind@[i]@],
        );
        assert(a =~= pre + ro + (rw + wd + post));
    }
    if 0 <= i < sandbox.rw_bind@.len() {
        lemma_bind_args_shape("--bind"@, views(sandbox.rw_bind@), i);
        assert(rw.subrange(3 * i, 3 * i + 3) == seq![
            "--bind"@,
            sandbox.rw_bind@[i]@,
            sandbox.rw_bind@[i]@,
        ]);
        lemma_window_in_concat(
            pre + ro,
            rw,
            wd + post,
            seq!["--bind"@, sandbox.rw_bind@[i]@, sandbox.rw_bind@[i]@],
        );
        assert(a =~= (pre + ro) + rw + (wd + post));
    }
}

/// A working directory is entered with `--chdir`, and bound read-only unless
/// an existing bind already covers it; without one the command starts in `/tmp`.
pub proof fn lemma_working_dir_granted(entry: CommandConfig, sandbox: Sandbox, args: Seq<Seq<char>>)
    ensures
        entry.working_dir matches Some(wd) ==> has_window(
            sandbox_args(entry, sandbox, args),
            seq!["--chdir"@, wd@],
        ),
        entry.working_dir matches Some(wd) ==> (!covered(wd@, sandbox) ==> has_window(
            sandbox_args(entry, sandbox, args),
            seq!["--ro-bind"@, wd@, wd@, "--chdir"@, wd@],
        )),
        entry.working_dir is None ==> has_window(
            sandbox_args(entry, sandbox, args),
            seq!["--chdir"@, "/tmp"@],
        ),
{
    let pre = seq!["--ro-bind"@, "/usr"@, "/usr"@] + runtime_binds() + (if sandbox.proc {
        seq!["--proc"@, "/proc"@]
    } else {
        Seq::empty()
    }) + (if sandbox.dev {
        seq!["--dev"@, "/dev"@]
    } else {
        Seq::empty()
    }) + seq![
        "--tmpfs"@,
        "/tmp"@,
        "--unshare-all"@,
        "--die-with-parent"@,
        "--new-session"@,
    ] + bind_args("--ro-bind"@, views(sandbox.ro_bind@)) + bind_args(
        "--bind"@,
        views(sandbox.rw_bind@),
    );
    let post = seq!["--"@, entry.executable@] + args;
    let a = sandbox_args(entry, sandbox, args);
    match entry.working_dir {
        Some(wd) => {
            let grant = if covered(wd@, sandbox) {
                Seq::empty()
            } else {
                seq!["--ro-bind"@, wd@, wd@]
            };
            let x = grant + seq!["--chdir"@, wd@];
            assert(a =~= pre + x + post);
            assert(x.subrange(grant.len() as int, grant.len() + 2int) =~= seq!["--chdir"@, wd@]);
            lemma_window_in_concat(pre, x, post, seq!["--chdir"@, wd@]);
            if !covered(wd@, sandbox) {
                let w = seq!["--ro-bind"@, wd@, wd@, "--chdir"@, wd@];
                assert(x.subrange(0, 0int + w.len()) =~= w);
                lemma_window_in_concat(pre, x, post, w);
            }
        },
        None => {
            let x = seq!["--chdir"@, "/tmp"@];
            assert(a =~= pre + x + post);
            assert(x.subrange(0, 0int + x.len()) =~= x);
            lemma_window_in_concat(pre, x, post, x);
        },
    }
}

/// Where the grants start in the sandbox arguments: after the `/usr` and
/// runtime binds, the optional `/proc` and `/dev` mounts, the `/tmp` tmpfs and
/// the three isolation flags.
pub open spec fn grants_start(sandbox: Sandbox) -> int {
    20 + (if sandbox.proc {
        2int
    } else {
        0
    }) + (if sandbox.dev {
        2int
    } else {
        0
    })
}

/// What follows the grants: the working-directory part (`--chdir`, after a
/// read-only bind of the directory when no grant covers it; `/tmp` without
/// one), the `--` separator, the executable and its arguments.
pub open spec fn after_grants(entry: CommandConfig, sandbox: Sandbox, args: Seq<Seq<char>>) -> Seq<
    Seq<char>,
> {
    (match entry.working_dir {
        Some(wd) => (if covered(wd@, sandbox) {
            Seq::empty()
        } else {
            seq!["--ro-bind"@, wd@, wd@]
        }) + seq!["--chdir"@, wd@],
        None => seq!["--chdir"@, "/tmp"@],
    }) + seq!["--"@, entry.executable@] + args
}

/// The grants are laid out exactly: each read-only path, in order, as
/// `--ro-bind path path`; then each read-write path, in order, as
/// `--bind path path`; then nothing else before the working-directory part.
/// A read-write grant is therefore never bound read-only after it.
pub proof fn lemma_grants_layout(entry: CommandConfig, sandbox: Sandbox, args: Seq<Seq<char>>)
    ensures
        sandbox_args(entry, sandbox, args).len() == grants_start(sandbox) + 3
            * sandbox.ro_bind@.len() + 3 * sandbox.rw_bind@.len() + after_grants(
            entry,
            sandbox,
            args,
        ).len(),
        forall|k: int|
            0 <= k < sandbox.ro_bind@.len() ==> #[trigger] sandbox_args(entry, sandbox, args).subrange(
                grants_start(sandbox) + 3 * k,
                grants_start(sandbox) + 3 * k + 3,
            ) == seq!["--ro-bind"@, sandbox.ro_bind@[k]@, sandbox.ro_bind@[k]@],
        forall|k: int|
            0 <= k < sandbox.rw_bind@.len() ==> #[trigger] sandbox_args(entry, sandbox, args).subrange(
                grants_start(sandbox) + 3 * sandbox.ro_bind@.len() + 3 * k,
                grants_start(sandbox) + 3 * sandbox.ro_bind@.len() + 3 * k + 3,
            ) == seq!["--bind"@, sandbox.rw_bind@[k]@, sandbox.rw_bind@[k]@],
        sandbox_args(entry, sandbox, args).skip(
            grants_start(sandbox) + 3 * sandbox.ro_bind@.len() + 3 * sandbox.rw_bind@.len(),
        ) == after_grants(entry, sandbox, args),
{
    let pre = seq!["--ro-bind"@, "/usr"@, "/usr"@] + runtime_binds() + (if sandbox.proc {
        seq!["--proc"@, "/proc"@]
    } else {
        Seq::empty()
    }) + (if sandbox.dev {
        seq!["--dev"@, "/dev"@]
    } else {
        Seq::empty()
    }) + seq![
        "--tmpfs"@,
        "/tmp"@,
        "--unshare-all"@,
        "--die-with-parent"@,
        "--new-session"@,
    ];
    let ro = bind_args("--ro-bind"@, views(sandbox.ro_bind@));
    let rw = bind_args("--bind"@, views(sandbox.rw_bind@));
    let tail = after_grants(entry, sandbox, args);
    let a = sandbox_args(entry, sandbox, args);
    let b = grants_start(sandbox);
    let r = sandbox.ro_bind@.len() as int;
    let w = sandbox.rw_bind@.len() as int;
    lemma_runtime_binds();
    assert(pre.len() == b);
    lemma_bind_args_len("--ro-bind"@, views(sandbox.ro_bind@));
    lemma_bind_args_len("--bind"@, views(sandbox.rw_bind@));
    assert(a =~= pre + ro + rw + tail);
    assert forall|k: int| 0 <= k < r implies #[trigger] a.subrange(b + 3 * k, b + 3 * k + 3)
        == seq!["--ro-bind"@, sandbox.ro_bind@[k]@, sandbox.ro_bind@[k]@] by {
        lemma_bind_args_shape("--ro-bind"@, views(sandbox.ro_bind@), k);
        assert(a.subrange(b + 3 * k, b + 3 * k + 3) =~= ro.subrange(3 * k, 3 * k + 3));
    }
    assert forall|k: int| 0 <= k < w implies #[trigger] a.subrange(
        b + 3 * r + 3 * k,
        b + 3 * r + 3 * k + 3,
    ) == seq!["--bind"@, sandbox.rw_bind@[k]@, sandbox.rw_bind@[k]@] by {
        lemma_bind_args_shape("--bind"@, views(sandbox.rw_bind@), k);
        assert(a.subrange(b + 3 * r + 3 * k, b + 3 * r + 3 * k + 3) =~= rw.subrange(
            3 * k,
            3 * k + 3,
        ));
    }
    assert(a.skip(b + 3 * r + 3 * w) =~= tail);
}

/// `bind_args` has three entries per path.
proof fn lemma_bind_args_len(flag: Seq<char>, paths: Seq<Seq<char>>)
    ensures
        bind_args(flag, paths).len() == 3 * paths.len(),
    decreases paths.len(),
{
    if paths.len() > 0 {
        lemma_bind_args_len(flag, paths.drop_last());
    }
}

} // verus!
