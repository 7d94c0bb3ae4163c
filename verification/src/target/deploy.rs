//! A deployment, step by step: what has to be done next, and what follows from how it went.

use crate::compile::pipeline::CompiledConfig;
use crate::compile::secrets::Secrets;
use crate::config::models::{config_entries, list_configs, Declared, Section, Settings};
use crate::target::diff::{
    build_discovery_command, discovery_command, extract_desired_map, flat_settings, parse_services,
    parse_uci_show, services, settings_shown, slices, Flat, SERVICE_SEPARATOR,
};
use crate::target::script::{
    build_remote_script, orphan_delete_commands, orphan_script, remote_script,
};
use crate::utils::error::{ConfigError, Failure};
use crate::utils::path::{base_name, file_name};
use crate::utils::split::{decimal, decimal_text, lines, parts, split_lines, split_parts};
use crate::utils::text::texts;
use crate::utils::text_map::TextMap;
use indexmap::IndexMap;
use vstd::prelude::*;

verus! {

// ---- reaching the target ----

/// How a target is reached and deployed to.
#[derive(Debug)]
pub struct DeployConfig {
    pub port: u16,
    pub identity_file: Option<String>,
    /// Deploys even where nothing would change.
    pub force: bool,
    /// Leaves encrypted secrets alone.
    pub no_sops: bool,
    /// Seconds until the watchdog restores the settings.
    pub watchdog_timeout: u64,
}

/// The arguments of `ssh` that do not depend on the configuration.
pub open spec fn ssh_options() -> Seq<Seq<char>> {
    seq![
        "-o"@,
        "StrictHostKeyChecking=no"@,
        "-o"@,
        "BatchMode=yes"@,
        "-o"@,
        "IdentitiesOnly=yes"@,
        "-o"@,
        "UserKnownHostsFile=/dev/null"@,
        "-o"@,
        "ControlMaster=auto"@,
        "-o"@,
        "ControlPath=/tmp/ssh-%C"@,
        "-o"@,
        "ControlPersist=5m"@,
    ]
}

/// The arguments of `ssh`: a port other than the usual one and an identity are named.
pub open spec fn ssh_args(config: DeployConfig) -> Seq<Seq<char>> {
    let port = if config.port != 22 {
        seq!["-p"@, decimal(config.port as nat)]
    } else {
        Seq::empty()
    };
    let identity = match config.identity_file {
        Some(f) => seq!["-i"@, f@],
        None => Seq::empty(),
    };
    ssh_options() + port + identity
}

pub fn build_ssh_args(config: &DeployConfig) -> (r: Vec<String>)
    ensures
        texts(r@) == ssh_args(*config),
{
    let mut args: Vec<String> = Vec::new();
    args.push("-o".to_owned());
    args.push("StrictHostKeyChecking=no".to_owned());
    args.push("-o".to_owned());
    args.push("BatchMode=yes".to_owned());
    args.push("-o".to_owned());
    args.push("IdentitiesOnly=yes".to_owned());
    args.push("-o".to_owned());
    args.push("UserKnownHostsFile=/dev/null".to_owned());
    args.push("-o".to_owned());
    args.push("ControlMaster=auto".to_owned());
    args.push("-o".to_owned());
    args.push("ControlPath=/tmp/ssh-%C".to_owned());
    args.push("-o".to_owned());
    args.push("ControlPersist=5m".to_owned());
    assert(texts(args@) =~= ssh_options());
    if config.port != 22 {
        args.push("-p".to_owned());
        args.push(decimal_text(config.port as u64));
        assert(texts(args@) =~= ssh_options() + seq!["-p"@, decimal(config.port as nat)]);
    } else {
        assert(texts(args@) =~= ssh_options() + Seq::<Seq<char>>::empty());
    }
    let ghost so_far = texts(args@);
    if let Some(identity) = &config.identity_file {
        args.push("-i".to_owned());
        args.push(identity.clone());
        assert(texts(args@) =~= so_far + seq!["-i"@, identity@]);
    } else {
        assert(texts(args@) =~= so_far + Seq::<Seq<char>>::empty());
    }
    args
}

/// A number with its sign.
pub open spec fn signed(n: int) -> Seq<char> {
    if n < 0 {
        "-"@ + decimal((-n) as nat)
    } else {
        decimal(n as nat)
    }
}

fn signed_text(n: i32) -> (r: String)
    ensures
        r@ == signed(n as int),
{
    if n < 0 {
        let mut s = "-".to_owned();
        s.append(decimal_text((-(n as i64)) as u64).as_str());
        s
    } else {
        decimal_text(n as u64)
    }
}

/// The error for a command that failed on the target. A process that was killed has no exit code
/// and counts as `-1`.
pub fn ssh_failure(target: &str, cmd: &str, code: Option<i32>) -> (r: ConfigError)
    ensures
        r@ == Failure::Deploy(
            "SSH command failed on "@ + target@ + ": "@ + cmd@ + " (exit "@ + signed(
                match code {
                    Some(c) => c as int,
                    None => -1,
                },
            ) + ")"@,
        ),
{
    let c: i32 = match code {
        Some(c) => c,
        None => -1,
    };
    let mut m = "SSH command failed on ".to_owned();
    m.append(target);
    m.append(": ");
    m.append(cmd);
    m.append(" (exit ");
    m.append(signed_text(c).as_str());
    m.append(")");
    ConfigError::Deploy(m)
}

/// The deployer's key: the first line of what the agent lists.
pub fn deployer_key(agent_output: &str) -> (r: Option<String>)
    ensures
        match r {
            Some(k) => lines(agent_output@).len() > 0 && k@ == lines(agent_output@)[0],
            None => lines(agent_output@).len() == 0,
        },
{
    let list = split_lines(agent_output);
    if list.len() > 0 {
        assert(texts(list@)[0] == list@[0]@);
        Some(list[0].clone())
    } else {
        None
    }
}

// ---- package files ----

/// A package file and the name under which it arrives.
#[derive(Debug)]
pub struct Staged {
    pub path: String,
    pub file_name: String,
}

/// The name under which a package file arrives: the final piece of its path, or all of it where
/// there is none.
pub open spec fn staged_name(path: Seq<char>) -> Seq<char> {
    match base_name(path) {
        Some(n) => n,
        None => path,
    }
}

pub open spec fn staged(v: Seq<Staged>) -> Seq<(Seq<char>, Seq<char>)> {
    Seq::new(v.len(), |i: int| (v[i].path@, v[i].file_name@))
}

/// The package files of a configuration, with the names under which they arrive.
pub open spec fn package_files(d: Declared) -> Seq<(Seq<char>, Seq<char>)> {
    match d.package_sources {
        Some(s) => match s.local_packages {
            Some(p) => Seq::new(p.len(), |i: int| (p[i], staged_name(p[i]))),
            None => Seq::empty(),
        },
        None => Seq::empty(),
    }
}

/// Lists the package files to transfer.
pub fn packages_to_transfer(compiled: &CompiledConfig) -> (r: Vec<Staged>)
    ensures
        staged(r@) == package_files(compiled.resolved_root@),
{
    let mut out: Vec<Staged> = Vec::new();
    assert(staged(out@) =~= Seq::empty());
    if let Some(sources) = &compiled.resolved_root.package_sources {
        if let Some(paths) = &sources.local_packages {
            let mut i: usize = 0;
            while i < paths.len()
                invariant
                    i <= paths@.len(),
                    out@.len() == i,
                    forall|j: int|
                        0 <= j < i ==> (#[trigger] out@[j]).path@ == paths@[j]@
                            && out@[j].file_name@ == staged_name(paths@[j]@),
                decreases paths@.len() - i,
            {
                let name = match file_name(paths[i].as_str()) {
                    Some(n) => n,
                    None => paths[i].clone(),
                };
                out.push(Staged { path: paths[i].clone(), file_name: name });
                i += 1;
            }
            proof {
                let p = texts(paths@);
                assert(staged(out@) =~= Seq::new(p.len(), |j: int| (p[j], staged_name(p[j]))));
            }
        }
    }
    out
}

/// The error for a package file that is not there.
pub fn missing_package(path: &str) -> (r: ConfigError)
    ensures
        r@ == Failure::Validation("Local package not found: "@ + path@),
{
    let mut m = "Local package not found: ".to_owned();
    m.append(path);
    ConfigError::Validation(m)
}

// ---- what there is to do ----

/// The names of the configuration files, in their order.
pub open spec fn config_names(s: Settings) -> Seq<Seq<char>> {
    Seq::new(s.len(), |i: int| s[i].0)
}

/// Lists the names of the configuration files.
pub fn managed_configs(settings: &IndexMap<String, IndexMap<String, Section>>) -> (r: Vec<String>)
    ensures
        texts(r@) == config_names(config_entries(*settings)),
{
    let list = list_configs(settings);
    let ghost s = config_entries(*settings);
    let mut out: Vec<String> = Vec::new();
    let mut i: usize = 0;
    while i < list.len()
        invariant
            i <= list@.len() == s.len(),
            forall|k: int| 0 <= k < list@.len() ==> (#[trigger] list@[k]).0@ == s[k].0,
            out@.len() == i,
            forall|j: int| 0 <= j < i ==> (#[trigger] out@[j])@ == s[j].0,
        decreases list@.len() - i,
    {
        let (name, _) = list[i];
        out.push(name.clone());
        i += 1;
    }
    assert(texts(out@) =~= config_names(s));
    out
}

/// The settings that the target printed; none where it could not be asked.
pub open spec fn remote_settings(output: Option<Seq<char>>) -> Flat {
    match output {
        Some(o) => {
            let l = lines(parts(o, SERVICE_SEPARATOR@).0);
            settings_shown(l, l.len())
        },
        None => Map::empty(),
    }
}

/// The services that the target printed.
pub open spec fn remote_services(output: Option<Seq<char>>) -> Map<Seq<char>, Seq<char>> {
    match output {
        Some(o) => {
            let l = lines(parts(o, SERVICE_SEPARATOR@).1);
            services(l, l.len())
        },
        None => Map::empty(),
    }
}

/// Whether a target already holds what is declared: the same settings, and no section besides.
pub open spec fn up_to_date(s: Settings, output: Option<Seq<char>>) -> bool {
    orphan_script(remote_settings(output), s).len() == 0 && remote_settings(output)
        == flat_settings(s, s.len())
}

/// The commands that change the settings: sections that are no longer declared are deleted first.
pub open spec fn all_commands(s: Settings, batch: Seq<char>, output: Option<Seq<char>>) -> Seq<
    char,
> {
    orphan_script(remote_settings(output), s) + batch
}

/// What there is to do on a target.
pub enum Plan {
    /// Nothing.
    UpToDate,
    /// To run commands, and then to reload services.
    Deploy { commands: String, services: TextMap<String> },
}

/// Decides what there is to do, from what the discovery command printed.
pub fn plan_deployment(compiled: &CompiledConfig, force: bool, remote_output: Option<&str>) -> (r:
    Plan)
    ensures
        ({
            let s = compiled.resolved_root@.settings;
            let output = match remote_output {
                Some(o) => Some(o@),
                None => None,
            };
            match r {
                Plan::UpToDate => !force && up_to_date(s, output),
                Plan::Deploy { commands, services } => {
                    &&& force || !up_to_date(s, output)
                    &&& commands@ == all_commands(s, compiled.uci_batch@, output)
                    &&& services@ == remote_services(output)
                },
            }
        }),
{
    let mut remote: TextMap<String> = TextMap::new();
    let mut services: TextMap<String> = TextMap::new();
    if let Some(output) = remote_output {
        let (uci, svc) = split_parts(output, SERVICE_SEPARATOR);
        remote = parse_uci_show(uci.as_str());
        services = parse_services(svc.as_str());
    }
    let settings = &compiled.resolved_root.settings;
    let desired = extract_desired_map(settings);
    let orphans = orphan_delete_commands(&remote, settings);
    if !force && orphans.as_str().is_empty() && remote.same(&desired) {
        return Plan::UpToDate;
    }
    let mut commands = orphans;
    commands.append(compiled.uci_batch.as_str());
    Plan::Deploy { commands, services }
}

// ---- step by step ----

/// How far a deployment has come.
#[derive(Debug)]
pub enum Stage {
    /// The target is to be asked for its settings.
    Discover,
    /// Package files are to be transferred.
    Transfer,
    /// The deployer's key is to be found out.
    Key,
    /// The script is to be run.
    Apply,
    /// The target is to be reached again; so many attempts have failed.
    Wait(u32),
    /// The backup and the hook are to be removed.
    Clean,
    /// There was nothing to do.
    UpToDate,
    /// The settings are deployed.
    Deployed,
    /// The deployment has failed.
    Failed(ConfigError),
}

/// How far a deployment has come, as the contracts speak of it.
pub enum Phase {
    Discover,
    Transfer,
    Key,
    Apply,
    Wait(nat),
    Clean,
    UpToDate,
    Deployed,
    Failed(Failure),
}

impl View for Stage {
    type V = Phase;

    open spec fn view(&self) -> Phase {
        match self {
            Stage::Discover => Phase::Discover,
            Stage::Transfer => Phase::Transfer,
            Stage::Key => Phase::Key,
            Stage::Apply => Phase::Apply,
            Stage::Wait(n) => Phase::Wait(*n as nat),
            Stage::Clean => Phase::Clean,
            Stage::UpToDate => Phase::UpToDate,
            Stage::Deployed => Phase::Deployed,
            Stage::Failed(e) => Phase::Failed(e@),
        }
    }
}

/// A deployment under way.
pub struct Deployment {
    pub compiled: CompiledConfig,
    pub force: bool,
    pub watchdog_timeout: String,
    pub stage: Stage,
    pub commands: String,
    pub services: TextMap<String>,
    pub deployer_key: Option<String>,
}

/// A deployment under way, as the contracts speak of it.
pub struct Progress {
    pub declared: Declared,
    pub secrets: Secrets,
    pub batch: Seq<char>,
    pub force: bool,
    pub watchdog_timeout: Seq<char>,
    pub phase: Phase,
    pub commands: Seq<char>,
    pub services: Map<Seq<char>, Seq<char>>,
    pub deployer_key: Option<Seq<char>>,
}

impl View for Deployment {
    type V = Progress;

    open spec fn view(&self) -> Progress {
        Progress {
            declared: self.compiled.resolved_root@,
            secrets: self.compiled.secrets@,
            batch: self.compiled.uci_batch@,
            force: self.force,
            watchdog_timeout: self.watchdog_timeout@,
            phase: self.stage@,
            commands: self.commands@,
            services: self.services@,
            deployer_key: match self.deployer_key {
                Some(k) => Some(k@),
                None => None,
            },
        }
    }
}

/// What a deployment asks for next.
#[derive(Debug)]
pub enum Request {
    /// To run a command on the target, with input where there is some.
    Run { command: String, input: Option<String> },
    /// To wait two seconds and then to run a command on the target.
    Retry { command: String },
    /// To transfer package files to `/tmp` on the target.
    Transfer { packages: Vec<Staged> },
    /// To find out the deployer's key.
    FindKey,
    /// Nothing more.
    Nothing,
}

pub enum Wish {
    Run { command: Seq<char>, input: Option<Seq<char>> },
    Retry { command: Seq<char> },
    Transfer { packages: Seq<(Seq<char>, Seq<char>)> },
    FindKey,
    Nothing,
}

impl View for Request {
    type V = Wish;

    open spec fn view(&self) -> Wish {
        match self {
            Request::Run { command, input } => Wish::Run {
                command: command@,
                input: match input {
                    Some(i) => Some(i@),
                    None => None,
                },
            },
            Request::Retry { command } => Wish::Retry { command: command@ },
            Request::Transfer { packages } => Wish::Transfer { packages: staged(packages@) },
            Request::FindKey => Wish::FindKey,
            Request::Nothing => Wish::Nothing,
        }
    }
}

/// How it went.
#[derive(Debug)]
pub enum Reply {
    /// The command ran; this is what it printed. Files are transferred.
    Done(String),
    /// The command or the transfer failed.
    Failed(ConfigError),
    /// The deployer's key, where there is one.
    Key(Option<String>),
}

pub enum Answer {
    Done(Seq<char>),
    Failed(Failure),
    Key(Option<Seq<char>>),
}

impl View for Reply {
    type V = Answer;

    open spec fn view(&self) -> Answer {
        match self {
            Reply::Done(o) => Answer::Done(o@),
            Reply::Failed(e) => Answer::Failed(e@),
            Reply::Key(k) => Answer::Key(
                match k {
                    Some(k) => Some(k@),
                    None => None,
                },
            ),
        }
    }
}

/// What a deployment asks for in each phase.
pub open spec fn wish(p: Progress) -> Wish {
    match p.phase {
        Phase::Discover => Wish::Run {
            command: discovery_command(config_names(p.declared.settings)),
            input: None,
        },
        Phase::Transfer => Wish::Transfer { packages: package_files(p.declared) },
        Phase::Key => Wish::FindKey,
        Phase::Apply => Wish::Run {
            command: "cat > /tmp/deploy.sh && sh /tmp/deploy.sh"@,
            input: Some(
                remote_script(
                    p.declared,
                    p.secrets,
                    p.commands,
                    p.deployer_key,
                    config_names(p.declared.settings),
                    p.services,
                    p.watchdog_timeout,
                ),
            ),
        },
        Phase::Wait(_) => Wish::Retry {
            command: "kill $(cat /tmp/.uci-watchdog-pid) 2>/dev/null"@,
        },
        Phase::Clean => Wish::Run {
            command:
                "rm -rf /etc/.uci-rollback-backup /etc/init.d/nuci_rollback /etc/rc.d/S15nuci_rollback /tmp/.uci-watchdog-pid /tmp/deploy.sh"@,
            input: None,
        },
        _ => Wish::Nothing,
    }
}

/// A deployment once the target's settings are known, or could not be found out.
pub open spec fn decided(p: Progress, output: Option<Seq<char>>) -> Progress {
    let s = p.declared.settings;
    if !p.force && up_to_date(s, output) {
        Progress { phase: Phase::UpToDate, ..p }
    } else {
        Progress {
            phase: if package_files(p.declared).len() > 0 {
                Phase::Transfer
            } else {
                Phase::Key
            },
            commands: all_commands(s, p.batch, output),
            services: remote_services(output),
            ..p
        }
    }
}

/// How often the target is tried before it is given up.
pub open spec fn attempts() -> nat {
    30
}

/// The error where the target does not come back.
pub open spec fn lost_contact() -> Failure {
    Failure::Deploy("Failed to reconnect within 60s. Target may have rolled back."@)
}

/// A deployment after a reply. One that does not fit the phase changes nothing.
pub open spec fn advanced(p: Progress, a: Answer) -> Progress {
    match (p.phase, a) {
        (Phase::Discover, Answer::Done(o)) => decided(p, Some(o)),
        (Phase::Discover, Answer::Failed(_)) => decided(p, None),
        (Phase::Transfer, Answer::Done(_)) => Progress { phase: Phase::Key, ..p },
        (Phase::Transfer, Answer::Failed(e)) => Progress { phase: Phase::Failed(e), ..p },
        (Phase::Key, Answer::Key(k)) => Progress { phase: Phase::Apply, deployer_key: k, ..p },
        (Phase::Apply, Answer::Done(_)) => Progress { phase: Phase::Wait(0), ..p },
        (Phase::Apply, Answer::Failed(e)) => Progress { phase: Phase::Failed(e), ..p },
        (Phase::Wait(_), Answer::Done(_)) => Progress { phase: Phase::Clean, ..p },
        (Phase::Wait(n), Answer::Failed(_)) => Progress {
            phase: if n + 1 < attempts() {
                Phase::Wait(n + 1)
            } else {
                Phase::Failed(lost_contact())
            },
            ..p
        },
        (Phase::Clean, Answer::Done(_)) => Progress { phase: Phase::Deployed, ..p },
        (Phase::Clean, Answer::Failed(_)) => Progress { phase: Phase::Deployed, ..p },
        _ => p,
    }
}

/// A deployment before it starts.
pub open spec fn fresh(
    declared: Declared,
    secrets: Secrets,
    batch: Seq<char>,
    force: bool,
    timeout: Seq<char>,
) -> Progress {
    Progress {
        declared,
        secrets,
        batch,
        force,
        watchdog_timeout: timeout,
        phase: Phase::Discover,
        commands: Seq::empty(),
        services: Map::empty(),
        deployer_key: None,
    }
}

/// A deployment that starts: a target is asked for its settings unless none are declared.
pub open spec fn started(p: Progress) -> Progress {
    if p.declared.settings.len() == 0 {
        decided(p, None)
    } else {
        p
    }
}

fn as_slices<'a>(list: &'a Vec<String>) -> (r: Vec<&'a str>)
    ensures
        slices(r@) == texts(list@),
{
    let mut out: Vec<&'a str> = Vec::new();
    let mut i: usize = 0;
    while i < list.len()
        invariant
            i <= list@.len(),
            out@.len() == i,
            forall|j: int| 0 <= j < i ==> (#[trigger] out@[j])@ == list@[j]@,
        decreases list@.len() - i,
    {
        out.push(list[i].as_str());
        i += 1;
    }
    assert(slices(out@) =~= texts(list@));
    out
}

impl Deployment {
    /// Starts a deployment.
    pub fn new(compiled: CompiledConfig, force: bool, watchdog_timeout: String) -> (r: Deployment)
        ensures
            r@ == started(
                fresh(
                    compiled.resolved_root@,
                    compiled.secrets@,
                    compiled.uci_batch@,
                    force,
                    watchdog_timeout@,
                ),
            ),
    {
        let mut d = Deployment {
            compiled,
            force,
            watchdog_timeout,
            stage: Stage::Discover,
            commands: String::new(),
            services: TextMap::new(),
            deployer_key: None,
        };
        assert(d.commands@ =~= Seq::empty());
        let names = managed_configs(&d.compiled.resolved_root.settings);
        assert(names@.len() == texts(names@).len());
        if names.len() == 0 {
            d.decide(None);
        }
        d
    }

    fn decide(&mut self, output: Option<&str>)
        ensures
            final(self)@ == decided(
                old(self)@,
                match output {
                    Some(o) => Some(o@),
                    None => None,
                },
            ),
    {
        match plan_deployment(&self.compiled, self.force, output) {
            Plan::UpToDate => {
                self.stage = Stage::UpToDate;
            },
            Plan::Deploy { commands, services } => {
                let packages = packages_to_transfer(&self.compiled);
                assert(packages@.len() == staged(packages@).len());
                self.commands = commands;
                self.services = services;
                if packages.len() > 0 {
                    self.stage = Stage::Transfer;
                } else {
                    self.stage = Stage::Key;
                }
            },
        }
    }

    /// What has to be done next.
    pub fn request(&self) -> (r: Request)
        ensures
            r@ == wish(self@),
    {
        match &self.stage {
            Stage::Discover => {
                let names = managed_configs(&self.compiled.resolved_root.settings);
                let list = as_slices(&names);
                Request::Run {
                    command: build_discovery_command(list.as_slice()),
                    input: None,
                }
            },
            Stage::Transfer => Request::Transfer { packages: packages_to_transfer(&self.compiled) },
            Stage::Key => Request::FindKey,
            Stage::Apply => {
                let names = managed_configs(&self.compiled.resolved_root.settings);
                let key = match &self.deployer_key {
                    Some(k) => Some(k.as_str()),
                    None => None,
                };
                let script = build_remote_script(
                    &self.compiled.resolved_root,
                    &self.compiled.secrets,
                    self.commands.as_str(),
                    key,
                    names.as_slice(),
                    &self.services,
                    self.watchdog_timeout.as_str(),
                );
                Request::Run {
                    command: "cat > /tmp/deploy.sh && sh /tmp/deploy.sh".to_owned(),
                    input: Some(script),
                }
            },
            Stage::Wait(_) => Request::Retry {
                command: "kill $(cat /tmp/.uci-watchdog-pid) 2>/dev/null".to_owned(),
            },
            Stage::Clean => Request::Run {
                command:
                    "rm -rf /etc/.uci-rollback-backup /etc/init.d/nuci_rollback /etc/rc.d/S15nuci_rollback /tmp/.uci-watchdog-pid /tmp/deploy.sh".to_owned(),
                input: None,
            },
            _ => Request::Nothing,
        }
    }

    /// Goes on with how it went.
    pub fn reply(&mut self, reply: Reply)
        ensures
            final(self)@ == advanced(old(self)@, reply@),
    {
        match &self.stage {
            Stage::Discover => match reply {
                Reply::Done(o) => self.decide(Some(o.as_str())),
                Reply::Failed(_) => self.decide(None),
                Reply::Key(_) => {},
            },
            Stage::Transfer => match reply {
                Reply::Done(_) => {
                    self.stage = Stage::Key;
                },
                Reply::Failed(e) => {
                    self.stage = Stage::Failed(e);
                },
                Reply::Key(_) => {},
            },
            Stage::Key => match reply {
                Reply::Key(k) => {
                    self.deployer_key = k;
                    self.stage = Stage::Apply;
                },
                _ => {},
            },
            Stage::Apply => match reply {
                Reply::Done(_) => {
                    self.stage = Stage::Wait(0);
                },
                Reply::Failed(e) => {
                    self.stage = Stage::Failed(e);
                },
                Reply::Key(_) => {},
            },
            Stage::Wait(n) => {
                let failed: u32 = *n;
                match reply {
                    Reply::Done(_) => {
                        self.stage = Stage::Clean;
                    },
                    Reply::Failed(_) => {
                        if failed < 29 {
                            self.stage = Stage::Wait(failed + 1);
                        } else {
                            self.stage =
                            Stage::Failed(
                                ConfigError::Deploy(
                                    "Failed to reconnect within 60s. Target may have rolled back.".to_owned(),
                                ),
                            );
                        }
                    },
                    Reply::Key(_) => {},
                }
            },
            Stage::Clean => match reply {
                Reply::Done(_) => {
                    self.stage = Stage::Deployed;
                },
                Reply::Failed(_) => {
                    self.stage = Stage::Deployed;
                },
                Reply::Key(_) => {},
            },
            _ => {},
        }
    }
}

// ---- laws ----

/// A deployment after so many replies.
pub open spec fn after(p: Progress, replies: Seq<Answer>) -> Progress
    decreases replies.len(),
{
    if replies.len() == 0 {
        p
    } else {
        advanced(after(p, replies.drop_last()), replies.last())
    }
}

/// Whether a deployment has come to its end.
pub open spec fn ended(p: Progress) -> bool {
    p.phase is UpToDate || p.phase is Deployed || p.phase is Failed
}

/// Where nothing would change, nothing is run: the target is left as it is.
pub proof fn up_to_date_targets_are_left_alone(p: Progress, output: Seq<char>)
    requires
        p.phase is Discover,
        !p.force,
        up_to_date(p.declared.settings, Some(output)),
    ensures
        advanced(p, Answer::Done(output)).phase is UpToDate,
        wish(advanced(p, Answer::Done(output))) is Nothing,
{
}

/// Force deploys whatever the target holds.
pub proof fn force_always_deploys(p: Progress, output: Option<Seq<char>>)
    requires
        p.force,
    ensures
        !(decided(p, output).phase is UpToDate),
{
}

/// What has ended stays as it is.
pub proof fn ends_are_final(p: Progress, a: Answer)
    requires
        ended(p),
    ensures
        advanced(p, a) == p,
        wish(p) is Nothing,
{
}

/// The backup is only removed once the target was reached again: no other phase leads to the one
/// that removes it.
pub proof fn backups_outlive_doubt(p: Progress, a: Answer)
    requires
        advanced(p, a).phase is Clean,
        !(p.phase is Clean),
    ensures
        p.phase is Wait,
        a is Done,
{
}

/// A target that cannot be reached again is given up after as many attempts as are allowed, and
/// the deployment has failed; before that it is tried again.
pub proof fn contact_is_given_up(p: Progress, replies: Seq<Answer>)
    requires
        p.phase == Phase::Wait(0),
        0 < replies.len() <= attempts(),
        forall|i: int| 0 <= i < replies.len() ==> (#[trigger] replies[i]) is Failed,
    ensures
        after(p, replies).phase == if replies.len() < attempts() {
            Phase::Wait(replies.len())
        } else {
            Phase::Failed(lost_contact())
        },
    decreases replies.len(),
{
    assert(replies.last() is Failed);
    if replies.len() > 1 {
        contact_is_given_up(p, replies.drop_last());
    } else {
        assert(replies.drop_last() =~= Seq::empty());
    }
}

/// The script is run at most once: once it was run, no reply leads back to it.
pub proof fn scripts_run_once(p: Progress, replies: Seq<Answer>)
    requires
        p.phase is Wait || p.phase is Clean || ended(p),
    ensures
        !(after(p, replies).phase is Apply),
        after(p, replies).phase is Wait || after(p, replies).phase is Clean || ended(
            after(p, replies),
        ),
    decreases replies.len(),
{
    if replies.len() > 0 {
        scripts_run_once(p, replies.drop_last());
    }
}

/// What is deployed does not change under way: the configuration, its commands and its secrets
/// are those that the deployment started with.
pub proof fn deployments_keep_their_configuration(p: Progress, replies: Seq<Answer>)
    ensures
        after(p, replies).declared == p.declared,
        after(p, replies).secrets == p.secrets,
        after(p, replies).batch == p.batch,
    decreases replies.len(),
{
    if replies.len() > 0 {
        deployments_keep_their_configuration(p, replies.drop_last());
    }
}

} // verus!
