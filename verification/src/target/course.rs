//! The course that a deployment takes.

use crate::compile::secrets::Secrets;
use crate::config::models::{Declared, Settings};
use crate::target::deploy::{
    advanced, config_names, decided, fresh, package_files, remote_services, remote_settings, signed,
    ssh_args, ssh_options, started, up_to_date, wish, Answer, DeployConfig, Phase, Progress, Wish,
};
use crate::target::diff::{discovery_command, flat_settings, services, settings_shown};
use crate::target::idempotence::desired_keys_are_no_orphans;
use crate::target::script::{orphan_script, remote_script};
use crate::utils::equations::parts_make_the_text;
use crate::utils::error::Failure;
use crate::utils::path::base_name;
use crate::utils::split::{decimal, lines, parts};
use crate::utils::within::{pieces, within};
use vstd::prelude::*;

verus! {

// ---- deciding ----

/// What the target printed falls at the first separator into its settings and its services; without
/// a separator it is settings only, and a target that printed nothing told of neither.
pub proof fn answers_are_read_by_their_parts(o: Seq<char>)
    ensures
        within(o, "===NUCI_SERVICES==="@) ==> exists|a: Seq<char>, b: Seq<char>|
            #[trigger] pieces(o, a, "===NUCI_SERVICES==="@, b) && !within(a, "===NUCI_SERVICES==="@)
                && remote_settings(Some(o)) == settings_shown(lines(a), lines(a).len())
                && remote_services(Some(o)) == services(lines(b), lines(b).len()),
        !within(o, "===NUCI_SERVICES==="@) ==> remote_settings(Some(o)) == settings_shown(
            lines(o),
            lines(o).len(),
        ) && remote_services(Some(o)) == Map::<Seq<char>, Seq<char>>::empty(),
        remote_settings(None) == Map::<Seq<char>, Seq<char>>::empty(),
        remote_services(None) == Map::<Seq<char>, Seq<char>>::empty(),
{
    reveal_strlit("===NUCI_SERVICES===");
    let p = "===NUCI_SERVICES==="@;
    parts_make_the_text(o, p);
    if within(o, p) {
        assert(pieces(o, parts(o, p).0, p, parts(o, p).1));
    } else {
        assert(lines(Seq::<char>::empty()) =~= Seq::<Seq<char>>::empty());
    }
}

/// A target is up to date if and only if its settings are exactly those that are declared.
pub proof fn equal_settings_are_up_to_date(s: Settings, output: Option<Seq<char>>)
    ensures
        up_to_date(s, output) <==> remote_settings(output) == flat_settings(s, s.len()),
{
    desired_keys_are_no_orphans(s);
}

/// Unless it is forced, a deployment ends at once where the target's settings are those that are
/// declared. Any other deletes the sections that are no longer declared, and then runs all the
/// compiled commands; it goes on with the package files, or where there are none with the key, and
/// reloads services as the target told.
pub proof fn deployments_do_what_there_is_to_do(p: Progress, output: Option<Seq<char>>)
    ensures
        ({
            let s = p.declared.settings;
            let d = decided(p, output);
            if !p.force && remote_settings(output) == flat_settings(s, s.len()) {
                d == Progress { phase: Phase::UpToDate, ..p }
            } else {
                &&& d.commands == orphan_script(remote_settings(output), s) + p.batch
                &&& d.services == remote_services(output)
                &&& package_files(p.declared).len() > 0 ==> d.phase is Transfer
                &&& package_files(p.declared).len() == 0 ==> d.phase is Key
                &&& d.declared == p.declared && d.secrets == p.secrets && d.batch == p.batch
                &&& d.watchdog_timeout == p.watchdog_timeout && d.force == p.force
                &&& d.deployer_key == p.deployer_key
            }
        }),
{
    equal_settings_are_up_to_date(p.declared.settings, output);
}

/// A deployment starts by asking the target for the settings of every declared configuration file;
/// where none is declared there is nothing to ask, and it decides at once.
pub proof fn deployments_start_by_asking(
    declared: Declared,
    secrets: Secrets,
    batch: Seq<char>,
    force: bool,
    timeout: Seq<char>,
)
    ensures
        ({
            let p = started(fresh(declared, secrets, batch, force, timeout));
            &&& p.declared == declared && p.secrets == secrets && p.batch == batch
            &&& p.force == force && p.watchdog_timeout == timeout && p.deployer_key is None
            &&& declared.settings.len() > 0 ==> p.phase is Discover && wish(p) == (Wish::Run {
                command: discovery_command(
                    Seq::new(declared.settings.len(), |i: int| declared.settings[i].0),
                ),
                input: None,
            })
            &&& declared.settings.len() == 0 && force ==> !(p.phase is UpToDate || p.phase is Discover)
            &&& declared.settings.len() == 0 && !force ==> p.phase is UpToDate
        }),
{
    let f = fresh(declared, secrets, batch, force, timeout);
    assert(config_names(declared.settings) =~= Seq::new(
        declared.settings.len(),
        |i: int| declared.settings[i].0,
    ));
    if declared.settings.len() == 0 {
        equal_settings_are_up_to_date(declared.settings, None);
    }
}

/// A target that cannot be asked is deployed to as one without settings.
pub proof fn silence_does_not_end_a_deployment(p: Progress, e: Failure)
    requires
        p.phase is Discover,
    ensures
        advanced(p, Answer::Failed(e)) == decided(p, None),
{
}

// ---- going on ----

/// What is asked for on the way: the package files are transferred; the key is found out; the
/// script with all that is declared is run, once it stands in a file; then the watchdog is stopped;
/// and last everything that a deployment leaves on the target is removed.
pub proof fn every_phase_asks_for_its_part(p: Progress)
    ensures
        p.phase is Transfer ==> wish(p) == (Wish::Transfer { packages: package_files(p.declared) }),
        p.phase is Key ==> wish(p) is FindKey,
        p.phase is Apply ==> wish(p) == (Wish::Run {
            command: "cat > /tmp/deploy.sh && sh /tmp/deploy.sh"@,
            input: Some(
                remote_script(
                    p.declared,
                    p.secrets,
                    p.commands,
                    p.deployer_key,
                    Seq::new(p.declared.settings.len(), |i: int| p.declared.settings[i].0),
                    p.services,
                    p.watchdog_timeout,
                ),
            ),
        }),
        p.phase is Wait ==> wish(p) == (Wish::Retry {
            command: "kill $(cat /tmp/.uci-watchdog-pid) 2>/dev/null"@,
        }),
        p.phase is Clean ==> wish(p) == (Wish::Run {
            command:
                "rm -rf /etc/.uci-rollback-backup /etc/init.d/nuci_rollback /etc/rc.d/S15nuci_rollback /tmp/.uci-watchdog-pid /tmp/deploy.sh"@,
            input: None,
        }),
{
    assert(config_names(p.declared.settings) =~= Seq::new(
        p.declared.settings.len(),
        |i: int| p.declared.settings[i].0,
    ));
}

/// A deployment in which everything works goes from the package files to the key, with the key to
/// the script, from there to the stopping of the watchdog, to the removal of what is left, and to
/// its end; nothing but its phase and its key changes.
pub proof fn deployments_go_on(p: Progress, out: Seq<char>, key: Option<Seq<char>>)
    ensures
        p.phase is Transfer ==> advanced(p, Answer::Done(out)) == (Progress {
            phase: Phase::Key,
            ..p
        }),
        p.phase is Key ==> advanced(p, Answer::Key(key)) == (Progress {
            phase: Phase::Apply,
            deployer_key: key,
            ..p
        }),
        p.phase is Apply ==> advanced(p, Answer::Done(out)) == (Progress {
            phase: Phase::Wait(0),
            ..p
        }),
        p.phase is Wait ==> advanced(p, Answer::Done(out)) == (Progress {
            phase: Phase::Clean,
            ..p
        }),
        p.phase is Clean ==> advanced(p, Answer::Done(out)) == (Progress {
            phase: Phase::Deployed,
            ..p
        }),
{
}

/// Where package files cannot be transferred, or the script fails, the deployment ends with that
/// very error; where only the removal of what is left fails, it has succeeded all the same.
pub proof fn failures_end_a_deployment(p: Progress, e: Failure)
    ensures
        p.phase is Transfer || p.phase is Apply ==> advanced(p, Answer::Failed(e)) == (Progress {
            phase: Phase::Failed(e),
            ..p
        }),
        p.phase is Clean ==> advanced(p, Answer::Failed(e)).phase is Deployed,
{
}

/// A reply that answers another question changes nothing.
pub proof fn stray_replies_change_nothing(p: Progress, a: Answer)
    requires
        (a is Key) != (p.phase is Key),
    ensures
        advanced(p, a) == p,
{
}

/// A target is tried thirty times, two seconds apart, before contact is given up.
pub proof fn contact_is_tried_for_a_minute(p: Progress, n: nat, e: Failure)
    requires
        p.phase == Phase::Wait(n),
    ensures
        n + 1 < 30 ==> advanced(p, Answer::Failed(e)) == (Progress {
            phase: Phase::Wait(n + 1),
            ..p
        }),
        n + 1 >= 30 ==> advanced(p, Answer::Failed(e)) == (Progress {
            phase: Phase::Failed(
                Failure::Deploy("Failed to reconnect within 60s. Target may have rolled back."@),
            ),
            ..p
        }),
{
}

// ---- connecting ----

/// What `ssh` is told: never to ask anything, to keep its connection, and to use the port and the
/// identity of the configuration; the usual port is not named.
pub proof fn connections_follow_the_configuration(c: DeployConfig)
    ensures
        ({
            let a = ssh_args(c);
            let port = if c.port == 22 {
                Seq::empty()
            } else {
                seq!["-p"@, decimal(c.port as nat)]
            };
            let identity = if c.identity_file is Some {
                seq!["-i"@, c.identity_file->Some_0@]
            } else {
                Seq::empty()
            };
            let told = seq![
                "StrictHostKeyChecking=no"@,
                "BatchMode=yes"@,
                "IdentitiesOnly=yes"@,
                "UserKnownHostsFile=/dev/null"@,
                "ControlMaster=auto"@,
                "ControlPath=/tmp/ssh-%C"@,
                "ControlPersist=5m"@,
            ];
            a == Seq::new(
                14,
                |i: int|
                    if i % 2 == 0 {
                        "-o"@
                    } else {
                        told[i / 2]
                    },
            ) + port + identity
        }),
{
    let told = seq![
        "StrictHostKeyChecking=no"@,
        "BatchMode=yes"@,
        "IdentitiesOnly=yes"@,
        "UserKnownHostsFile=/dev/null"@,
        "ControlMaster=auto"@,
        "ControlPath=/tmp/ssh-%C"@,
        "ControlPersist=5m"@,
    ];
    let options = Seq::new(
        14,
        |i: int|
            if i % 2 == 0 {
                "-o"@
            } else {
                told[i / 2]
            },
    );
    assert(ssh_options() =~= options);
}

/// A number below zero is written with a minus sign.
pub proof fn numbers_have_their_sign(n: nat)
    ensures
        signed(n as int) == decimal(n),
        n > 0 ==> signed(-(n as int)) == "-"@ + decimal(n),
{
}

/// Every declared package file is transferred, in the declared order, under its own name.
pub proof fn every_package_file_is_transferred(d: Declared)
    ensures
        ({
            let paths = match d.package_sources {
                Some(s) => match s.local_packages {
                    Some(p) => p,
                    None => Seq::empty(),
                },
                None => Seq::empty(),
            };
            &&& package_files(d).len() == paths.len()
            &&& forall|i: int|
                0 <= i < paths.len() ==> (#[trigger] package_files(d)[i]).0 == paths[i]
                    && package_files(d)[i].1 == if base_name(paths[i]) is Some {
                    base_name(paths[i])->Some_0
                } else {
                    paths[i]
                }
        }),
{
}

} // verus!
