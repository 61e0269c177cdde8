//! The server's configuration: which commands exist, how each is run, and the
//! default-deny access rules that gate them.
use vstd::prelude::*;

use crate::glob::{glob_match, glob_matches, parse_glob, Glob, GlobError};
use crate::text::{join_strings, join_words, views};

verus! {

/// The filesystem view granted to a sandboxed command.
#[derive(Clone, Debug)]
pub struct Sandbox {
    /// Host paths bound read-only at the same path inside the sandbox.
    pub ro_bind: Vec<String>,
    /// Host paths bound read-write at the same path inside the sandbox.
    pub rw_bind: Vec<String>,
    /// Whether a private `/proc` is mounted.
    pub proc: bool,
    /// Whether a minimal `/dev` is mounted.
    pub dev: bool,
}

impl Default for Sandbox {
    /// No paths granted, `/proc` and `/dev` mounted.
    fn default() -> (s: Self)
        ensures
            s.ro_bind@.len() == 0,
            s.rw_bind@.len() == 0,
            s.proc,
            s.dev,
    {
        Sandbox { ro_bind: Vec::new(), rw_bind: Vec::new(), proc: true, dev: true }
    }
}

/// The explicit grants of a `[commands.<name>.sandbox]` table; unset keys are `None`.
#[derive(Debug)]
pub struct SandboxGrants {
    pub ro_bind: Option<Vec<String>>,
    pub rw_bind: Option<Vec<String>>,
    pub proc: Option<bool>,
    pub dev: Option<bool>,
}

/// What a command's `sandbox` key holds when it is present: a flag or a table.
#[derive(Debug)]
pub enum SandboxSetting {
    Enabled(bool),
    Grants(SandboxGrants),
}

/// The sandbox that a command runs in, given its `sandbox` key: absent or
/// `true` means the default sandbox, `false` means none, and a table fills its
/// unset keys with the defaults.
pub open spec fn resolved_sandbox(setting: Option<SandboxSetting>) -> Option<
    (Seq<String>, Seq<String>, bool, bool),
> {
    match setting {
        None => Some((Seq::empty(), Seq::empty(), true, true)),
        Some(SandboxSetting::Enabled(true)) => Some((Seq::empty(), Seq::empty(), true, true)),
        Some(SandboxSetting::Enabled(false)) => None,
        Some(SandboxSetting::Grants(g)) => Some(
            (
                match g.ro_bind {
                    Some(v) => v@,
                    None => Seq::empty(),
                },
                match g.rw_bind {
                    Some(v) => v@,
                    None => Seq::empty(),
                },
                match g.proc {
                    Some(b) => b,
                    None => true,
                },
                match g.dev {
                    Some(b) => b,
                    None => true,
                },
            ),
        ),
    }
}

/// The parts of a sandbox that its contract speaks of.
pub open spec fn sandbox_parts(s: Option<Sandbox>) -> Option<(Seq<String>, Seq<String>, bool, bool)> {
    match s {
        None => None,
        Some(s) => Some((s.ro_bind@, s.rw_bind@, s.proc, s.dev)),
    }
}

impl Sandbox {
    /// Resolves a command's `sandbox` key to the sandbox it runs in, if any.
    pub fn from_setting(setting: Option<SandboxSetting>) -> (s: Option<Sandbox>)
        ensures
            sandbox_parts(s) == resolved_sandbox(setting),
    {
        match setting {
            None => Some(Sandbox::default()),
            Some(SandboxSetting::Enabled(true)) => Some(Sandbox::default()),
            Some(SandboxSetting::Enabled(false)) => None,
            Some(SandboxSetting::Grants(g)) => {
                let ro_bind = match g.ro_bind {
                    Some(v) => v,
                    None => Vec::new(),
                };
                let rw_bind = match g.rw_bind {
                    Some(v) => v,
                    None => Vec::new(),
                };
                let proc = match g.proc {
                    Some(b) => b,
                    None => true,
                };
                let dev = match g.dev {
                    Some(b) => b,
                    None => true,
                };
                Some(Sandbox { ro_bind, rw_bind, proc, dev })
            },
        }
    }
}

/// How one relayed command is run and who may run it.
#[derive(Clone, Debug)]
pub struct CommandConfig {
    pub executable: String,
    pub working_dir: Option<String>,
    /// Glob patterns matched against the space-joined arguments. The default is
    /// an empty list, which denies every invocation (default-deny).
    pub allow: Vec<String>,
    /// The sandbox the command runs in; `None` runs it unconfined.
    pub sandbox: Option<Sandbox>,
}

impl CommandConfig {
    /// Builds a command's configuration from its keys: a missing `allow`
    /// denies everything, and the sandbox is resolved by `resolved_sandbox`.
    pub fn new(
        executable: String,
        working_dir: Option<String>,
        allow: Option<Vec<String>>,
        sandbox: Option<SandboxSetting>,
    ) -> (c: CommandConfig)
        ensures
            c.executable == executable,
            c.working_dir == working_dir,
            c.allow@ == (match allow {
                Some(v) => v@,
                None => Seq::empty(),
            }),
            sandbox_parts(c.sandbox) == resolved_sandbox(sandbox),
    {
        let allow = match allow {
            Some(v) => v,
            None => Vec::new(),
        };
        CommandConfig { executable, working_dir, allow, sandbox: Sandbox::from_setting(sandbox) }
    }

    /// Whether some allow pattern matches the space-joined `args`.
    pub open spec fn allows(self, args: Seq<Seq<char>>) -> bool {
        exists|i: int|
            0 <= i < self.allow@.len() && #[trigger] glob_matches(
                self.allow@[i]@,
                join_words(args),
            )
    }

    /// Returns true if `args` are permitted by this command's allow patterns.
    ///
    /// The arguments are joined with single spaces and matched against each
    /// glob pattern; a match against any one pattern permits the invocation.
    /// With no patterns configured, nothing is permitted.
    pub fn permits(&self, args: &[String]) -> (res: bool)
        ensures
            res == self.allows(views(args@)),
    {
        let joined = join_strings(args);
        let mut i: usize = 0;
        while i < self.allow.len()
            invariant
                i <= self.allow@.len(),
                joined@ == join_words(views(args@)),
                forall|k: int|
                    0 <= k < i ==> !#[trigger] glob_matches(self.allow@[k]@, joined@),
            decreases self.allow@.len() - i,
        {
            if glob_match(self.allow[i].as_str(), joined.as_str()) {
                return true;
            }
            i = i + 1;
        }
        false
    }
}

impl CommandConfig {
    /// Whether every allow pattern is a well-formed glob.
    pub open spec fn patterns_ok(self) -> bool {
        forall|k: int| 0 <= k < self.allow@.len() ==> #[trigger] parse_glob(self.allow@[k]@) is Ok
    }

    /// Compiles every allow pattern; the first malformed one, by its index,
    /// and why it is malformed, make this an error. A server checks this at
    /// startup, so a typo in a pattern stops it rather than denying quietly.
    pub fn check_patterns(&self) -> (res: Result<(), (usize, GlobError)>)
        ensures
            match res {
                Ok(()) => self.patterns_ok(),
                Err((i, e)) => {
                    &&& i < self.allow@.len()
                    &&& parse_glob(self.allow@[i as int]@) == Err::<Seq<crate::glob::GlobPiece>, GlobError>(e)
                    &&& forall|k: int| 0 <= k < i ==> #[trigger] parse_glob(self.allow@[k]@) is Ok
                },
            },
    {
        let mut i: usize = 0;
        while i < self.allow.len()
            invariant
                i <= self.allow@.len(),
                forall|k: int| 0 <= k < i ==> #[trigger] parse_glob(self.allow@[k]@) is Ok,
            decreases self.allow@.len() - i,
        {
            match Glob::new(self.allow[i].as_str()) {
                Ok(_) => {},
                Err(e) => {
                    return Err((i, e));
                },
            }
            i = i + 1;
        }
        Ok(())
    }
}

/// The entry stored last under `name`, if any.
pub open spec fn lookup(entries: Seq<(String, CommandConfig)>, name: Seq<char>) -> Option<
    CommandConfig,
>
    decreases entries.len(),
{
    if entries.len() == 0 {
        None
    } else if entries.last().0@ == name {
        Some(entries.last().1)
    } else {
        lookup(entries.drop_last(), name)
    }
}

/// No name occurs twice.
pub open spec fn distinct_names(entries: Seq<(String, CommandConfig)>) -> bool {
    forall|i: int, j: int|
        0 <= i < entries.len() && 0 <= j < entries.len() && i != j ==> #[trigger] entries[i].0@
            != #[trigger] entries[j].0@
}

proof fn lemma_lookup_at(entries: Seq<(String, CommandConfig)>, i: int)
    requires
        distinct_names(entries),
        0 <= i < entries.len(),
    ensures
        lookup(entries, entries[i].0@) == Some(entries[i].1),
    decreases entries.len(),
{
    if i != entries.len() - 1 {
        let d = entries.drop_last();
        assert(d[i] == entries[i]);
        assert(entries[entries.len() - 1].0@ != entries[i].0@);
        lemma_lookup_at(d, i);
    }
}

proof fn lemma_lookup_absent(entries: Seq<(String, CommandConfig)>, name: Seq<char>)
    requires
        forall|i: int| 0 <= i < entries.len() ==> (#[trigger] entries[i]).0@ != name,
    ensures
        lookup(entries, name) is None,
    decreases entries.len(),
{
    if entries.len() > 0 {
        let d = entries.drop_last();
        assert forall|i: int| 0 <= i < d.len() implies (#[trigger] d[i]).0@ != name by {
            assert(d[i] == entries[i]);
        }
        assert(entries[entries.len() - 1] == entries.last());
        lemma_lookup_absent(d, name);
    }
}

/// Either `name` is stored at exactly the index that `lookup` reads, or nowhere.
proof fn lemma_lookup_cases(entries: Seq<(String, CommandConfig)>, name: Seq<char>)
    requires
        distinct_names(entries),
    ensures
        match lookup(entries, name) {
            Some(c) => exists|i: int|
                0 <= i < entries.len() && (#[trigger] entries[i]).0@ == name && entries[i].1
                    == c,
            None => forall|i: int| 0 <= i < entries.len() ==> (#[trigger] entries[i]).0@ != name,
        },
{
    if exists|i: int| 0 <= i < entries.len() && (#[trigger] entries[i]).0@ == name {
        let i = choose|i: int| 0 <= i < entries.len() && (#[trigger] entries[i]).0@ == name;
        lemma_lookup_at(entries, i);
    } else {
        lemma_lookup_absent(entries, name);
    }
}

/// Whether a command is configured and runs in a sandbox.
pub open spec fn runs_sandboxed(c: Option<CommandConfig>) -> bool {
    c matches Some(c) && c.sandbox is Some
}

/// The server's configuration.
///
/// The commands are kept as a list of named entries with distinct names (the
/// type invariant) rather than in a `HashMap<String, _>`: with `String` keys,
/// vstd's map specifications let nothing be proved about lookups, while the
/// list's contents are fully visible to the proofs.
pub struct Config {
    commands: Vec<(String, CommandConfig)>,
    warn_missing_bwrap: bool,
}

/// The message returned when `cmd` is not configured.
pub open spec fn not_configured_message(cmd: Seq<char>) -> Seq<char> {
    "command '"@ + cmd + "' is not configured"@
}

/// The message returned when the arguments of a configured `cmd` match no pattern.
pub open spec fn not_permitted_message(cmd: Seq<char>, args: Seq<Seq<char>>) -> Seq<char> {
    "'"@ + join_words(seq![cmd] + args) + "' is not permitted by the access rules"@
}

impl Config {
    #[verifier::type_invariant]
    spec fn names_are_distinct(self) -> bool {
        distinct_names(self.commands@)
    }

    /// The configuration of the command named `name`, if there is one.
    pub closed spec fn command(self, name: Seq<char>) -> Option<CommandConfig> {
        lookup(self.commands@, name)
    }

    /// Whether the server should warn at startup when `bwrap` is missing.
    pub closed spec fn warns(self) -> bool {
        self.warn_missing_bwrap
    }

    /// Whether some configured command runs in a sandbox.
    pub open spec fn has_sandboxed_command(self) -> bool {
        exists|name: Seq<char>| runs_sandboxed(#[trigger] self.command(name))
    }

    /// A configuration with no commands; the startup warning defaults to on.
    pub fn new(warn_missing_bwrap: Option<bool>) -> (c: Config)
        ensures
            forall|name: Seq<char>| #[trigger] c.command(name) is None,
            c.warns() == (match warn_missing_bwrap {
                Some(b) => b,
                None => true,
            }),
    {
        let warn = match warn_missing_bwrap {
            Some(b) => b,
            None => true,
        };
        Config { commands: Vec::new(), warn_missing_bwrap: warn }
    }

    /// Whether the server warns at startup when `bwrap` is missing.
    pub fn warn_missing_bwrap(&self) -> (b: bool)
        ensures
            b == self.warns(),
    {
        self.warn_missing_bwrap
    }

    /// Configures the command `name`, replacing any earlier configuration of it.
    pub fn insert(&mut self, name: String, command: CommandConfig)
        ensures
            final(self).command(name@) == Some(command),
            forall|other: Seq<char>|
                other != name@ ==> #[trigger] final(self).command(other) == old(self).command(
                    other,
                ),
            final(self).warns() == old(self).warns(),
    {
        proof {
            use_type_invariant(&*self);
        }
        let ghost before = self.commands@;
        let mut i: usize = 0;
        while i < self.commands.len()
            invariant
                i <= self.commands@.len(),
                self.commands@ == before,
                old(self).commands@ == before,
                distinct_names(before),
                self.warn_missing_bwrap == old(self).warn_missing_bwrap,
                forall|k: int| 0 <= k < i ==> (#[trigger] before[k]).0@ != name@,
            decreases self.commands@.len() - i,
        {
            if self.commands[i].0 == name {
                let ghost key = name@;
                let mut commands = Vec::new();
                std::mem::swap(&mut commands, &mut self.commands);
                commands.set(i, (name, command));
                let ghost after = commands@;
                proof {
                    assert(after == before.update(i as int, after[i as int]));
                    assert(distinct_names(after)) by {
                        assert forall|a: int, b: int|
                            0 <= a < after.len() && 0 <= b < after.len() && a != b implies #[trigger] after[a].0@
                            != #[trigger] after[b].0@ by {
                            if a != i && b != i {
                                assert(before[a].0@ != before[b].0@);
                            } else if a == i {
                                assert(before[a].0@ != before[b].0@);
                            } else {
                                assert(before[a].0@ != before[b].0@);
                            }
                        }
                    }
                    lemma_lookup_at(after, i as int);
                    assert forall|other: Seq<char>| other != key implies #[trigger] lookup(
                        after,
                        other,
                    ) == lookup(before, other) by {
                        lemma_lookup_cases(before, other);
                        lemma_lookup_cases(after, other);
                        match lookup(before, other) {
                            Some(c) => {
                                let j = choose|j: int|
                                    0 <= j < before.len() && (#[trigger] before[j]).0@ == other
                                        && before[j].1 == c;
                                assert(after[j] == before[j]);
                                lemma_lookup_at(after, j);
                            },
                            None => {
                                assert forall|j: int| 0 <= j < after.len() implies (
                                #[trigger] after[j]).0@ != other by {
                                    if j != i {
                                        assert(after[j] == before[j]);
                                    }
                                }
                                lemma_lookup_absent(after, other);
                            },
                        }
                    }
                }
                self.commands = commands;
                return ;
            }
            i = i + 1;
        }
        let ghost key = name@;
        let mut commands = Vec::new();
        std::mem::swap(&mut commands, &mut self.commands);
        commands.push((name, command));
        proof {
            let after = commands@;
            assert(after.drop_last() =~= before);
            assert(distinct_names(after)) by {
                assert forall|a: int, b: int|
                    0 <= a < after.len() && 0 <= b < after.len() && a != b implies #[trigger] after[a].0@
                    != #[trigger] after[b].0@ by {
                    if a < before.len() && b < before.len() {
                        assert(after[a] == before[a]);
                        assert(after[b] == before[b]);
                    } else if a < before.len() {
                        assert(after[a] == before[a]);
                    } else {
                        assert(after[b] == before[b]);
                    }
                }
            }
            assert(after.last().0@ == key);
        }
        self.commands = commands;
    }

    /// The configuration of the command named `name`, if there is one.
    pub fn get(&self, name: &str) -> (res: Option<&CommandConfig>)
        ensures
            match res {
                Some(c) => self.command(name@) == Some(*c),
                None => self.command(name@) is None,
            },
    {
        proof {
            use_type_invariant(self);
        }
        let key = name.to_owned();
        let mut i: usize = 0;
        while i < self.commands.len()
            invariant
                i <= self.commands@.len(),
                key@ == name@,
                distinct_names(self.commands@),
                forall|k: int| 0 <= k < i ==> (#[trigger] self.commands@[k]).0@ != name@,
            decreases self.commands@.len() - i,
        {
            if self.commands[i].0 == key {
                proof {
                    lemma_lookup_at(self.commands@, i as int);
                }
                return Some(&self.commands[i].1);
            }
            i = i + 1;
        }
        proof {
            lemma_lookup_absent(self.commands@, name@);
        }
        None
    }

    /// Authorizes a relayed invocation under the default-deny policy.
    ///
    /// Returns the matching command config, or an error message suitable for
    /// returning to the client when the command is unknown or its arguments are
    /// not permitted by any allow pattern.
    pub fn authorize(&self, cmd: &str, args: &[String]) -> (res: Result<&CommandConfig, String>)
        ensures
            match self.command(cmd@) {
                None => res matches Err(msg) && msg@ == not_configured_message(cmd@),
                Some(c) => if c.allows(views(args@)) {
                    res matches Ok(r) && *r == c
                } else {
                    res matches Err(msg) && msg@ == not_permitted_message(cmd@, views(args@))
                },
            },
    {
        let entry = match self.get(cmd) {
            Some(e) => e,
            None => {
                let mut msg = String::new();
                msg.append("command '");
                msg.append(cmd);
                msg.append("' is not configured");
                return Err(msg);
            },
        };
        if entry.permits(args) {
            Ok(entry)
        } else {
            let mut parts: Vec<String> = Vec::new();
            let mut first = String::new();
            first.append(cmd);
            parts.push(first);
            let mut i: usize = 0;
            while i < args.len()
                invariant
                    i <= args@.len(),
                    views(parts@) =~= seq![cmd@] + views(args@).take(i as int),
                decreases args@.len() - i,
            {
                let ghost before = views(parts@);
                parts.push(args[i].clone());
                proof {
                    assert(views(parts@) =~= before.push(args@[i as int]@));
                    assert(views(args@).take(i + 1) =~= views(args@).take(i as int).push(
                        args@[i as int]@,
                    ));
                }
                i = i + 1;
            }
            proof {
                assert(views(args@).take(args@.len() as int) =~= views(args@));
            }
            let joined = join_strings(parts.as_slice());
            let mut msg = String::new();
            msg.append("'");
            msg.append(joined.as_str());
            msg.append("' is not permitted by the access rules");
            Err(msg)
        }
    }

    /// Compiles the allow patterns of every command; a malformed one makes
    /// this an error naming the command, the pattern's index, and the fault.
    pub fn check_patterns(&self) -> (res: Result<(), (String, usize, GlobError)>)
        ensures
            match res {
                Ok(()) => forall|name: Seq<char>|
                    #[trigger] self.command(name) matches Some(c) ==> c.patterns_ok(),
                Err((name, i, e)) => self.command(name@) matches Some(c) && i < c.allow@.len()
                    && parse_glob(c.allow@[i as int]@) == Err::<
                    Seq<crate::glob::GlobPiece>,
                    GlobError,
                >(e),
            },
    {
        proof {
            use_type_invariant(self);
        }
        let mut i: usize = 0;
        while i < self.commands.len()
            invariant
                i <= self.commands@.len(),
                distinct_names(self.commands@),
                forall|q: int| 0 <= q < i ==> (#[trigger] self.commands@[q]).1.patterns_ok(),
            decreases self.commands@.len() - i,
        {
            match self.commands[i].1.check_patterns() {
                Ok(()) => {},
                Err((k, e)) => {
                    proof {
                        lemma_lookup_at(self.commands@, i as int);
                    }
                    return Err((self.commands[i].0.clone(), k, e));
                },
            }
            i = i + 1;
        }
        proof {
            assert forall|name: Seq<char>| #[trigger] self.command(name) is Some implies self.command(
                name,
            )->Some_0.patterns_ok() by {
                lemma_lookup_cases(self.commands@, name);
                let c = self.command(name)->Some_0;
                let q = choose|q: int|
                    0 <= q < self.commands@.len() && (#[trigger] self.commands@[q]).0@ == name
                        && self.commands@[q].1 == c;
                assert(self.commands@[q].1.patterns_ok());
            }
        }
        Ok(())
    }

    /// Whether the server must warn at startup: the warning is on, `bwrap`
    /// was not found, and some command runs in a sandbox.
    pub fn needs_bwrap_warning(&self, bwrap_found: bool) -> (res: bool)
        ensures
            res == (self.warns() && !bwrap_found && self.has_sandboxed_command()),
    {
        proof {
            use_type_invariant(self);
        }
        if !self.warn_missing_bwrap || bwrap_found {
            return false;
        }
        let mut i: usize = 0;
        while i < self.commands.len()
            invariant
                i <= self.commands@.len(),
                distinct_names(self.commands@),
                self.warn_missing_bwrap,
                !bwrap_found,
                forall|k: int|
                    0 <= k < i ==> (#[trigger] self.commands@[k]).1.sandbox is None,
            decreases self.commands@.len() - i,
        {
            if self.commands[i].1.sandbox.is_some() {
                proof {
                    lemma_lookup_at(self.commands@, i as int);
                    let witness = self.commands@[i as int].0@;
                    assert(runs_sandboxed(self.command(witness)));
                    assert(self.has_sandboxed_command());
                }
                return true;
            }
            i = i + 1;
        }
        proof {
            assert forall|name: Seq<char>| !runs_sandboxed(#[trigger] self.command(name)) by {
                lemma_lookup_cases(self.commands@, name);
            }
        }
        false
    }
}

/// A command with no allow patterns permits no invocation (default-deny).
pub proof fn lemma_no_patterns_deny(command: CommandConfig, args: Seq<Seq<char>>)
    requires
        command.allow@.len() == 0,
    ensures
        !command.allows(args),
{
}

/// There are no deny rules: one matching pattern permits the invocation,
/// whatever the other patterns say.
pub proof fn lemma_one_match_permits(command: CommandConfig, args: Seq<Seq<char>>, i: int)
    requires
        0 <= i < command.allow@.len(),
        glob_matches(command.allow@[i]@, join_words(args)),
    ensures
        command.allows(args),
{
}

} // verus!
