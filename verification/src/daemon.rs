//! The daemon's decisions: which entries the enabled plugins contribute and
//! with what priority, what a request byte asks for, and which directories a
//! rescan watches.

use vstd::prelude::*;

use crate::config::{Config, PowerCommands};
use crate::ipc::{
    byte_of, command_of, lemma_command_byte_roundtrip, reply_ok_spec, Command, RESP_ERR, RESP_OK,
};
use crate::plugins::apps::{apps_from, models, AppsPlugin, DesktopFile, DesktopFileModel};
use crate::plugins::commands::{commands_from, CommandsPlugin, PathCandidate, PathCandidateModel};
use crate::plugins::power::{lemma_power_entries_nonblank, power_actions, power_entries, PowerPlugin};
use crate::plugins::{clone_strings, opt_str, str_eq, Entry, EntryModel};
use crate::text::{chars_of, split_on, split_spans, string_of};

verus! {

/// Messages the daemon sends to the launcher window.
#[derive(Debug)]
pub enum DaemonEvent {
    Show,
    Hide,
    ReloadConfig { config: Box<Config>, entries: Vec<Entry> },
    EntriesUpdated(Vec<Entry>),
    Quit,
}

/// `es` with every entry's priority set to `p`.
pub open spec fn with_priority(es: Seq<EntryModel>, p: u8) -> Seq<EntryModel> {
    es.map_values(|e: EntryModel| EntryModel { priority: p, ..e })
}

/// The entry list built from the first `n` plugin names of `names`: the
/// applications (`app_es`) where the name is `apps` and that plugin is on,
/// the commands (`cmd_es`) where it is `commands` and that plugin is on, the
/// power actions (`power_es`) where it is `power` and that plugin is on, each
/// with the name's position as priority; other names add nothing.
pub open spec fn plugin_entries(
    names: Seq<Seq<char>>,
    on: (bool, bool, bool),
    app_es: Seq<EntryModel>,
    cmd_es: Seq<EntryModel>,
    power_es: Seq<EntryModel>,
    n: nat,
) -> Seq<EntryModel>
    decreases n,
{
    if n == 0 {
        Seq::empty()
    } else {
        let prev = plugin_entries(names, on, app_es, cmd_es, power_es, (n - 1) as nat);
        prev + with_priority(plugin_part(names[n - 1], on, app_es, cmd_es, power_es), (n - 1) as u8)
    }
}

/// The entries the plugin called `name` contributes, where it is on.
pub open spec fn plugin_part(
    name: Seq<char>,
    on: (bool, bool, bool),
    app_es: Seq<EntryModel>,
    cmd_es: Seq<EntryModel>,
    power_es: Seq<EntryModel>,
) -> Seq<EntryModel> {
    if name == "apps"@ && on.0 {
        app_es
    } else if name == "commands"@ && on.1 {
        cmd_es
    } else if name == "power"@ && on.2 {
        power_es
    } else {
        Seq::empty()
    }
}

/// Sets the priority of `out[start..]` to `p`.
fn set_priority(out: &mut Vec<Entry>, start: usize, p: u8)
    requires
        start <= old(out)@.len(),
    ensures
        models(final(out)@) == models(old(out)@).take(start as int) + with_priority(
            models(old(out)@).skip(start as int),
            p,
        ),
{
    let ghost orig = models(out@);
    let mut j: usize = start;
    while j < out.len()
        invariant
            start <= j <= out@.len() == orig.len(),
            models(out@).take(j as int) == orig.take(start as int) + with_priority(
                orig.skip(start as int),
                p,
            ).take(j - start),
            models(out@).skip(j as int) == orig.skip(j as int),
        decreases out@.len() - j,
    {
        let ghost before = models(out@);
        let mut e = out[j].clone();
        e.priority = p;
        out.set(j, e);
        proof {
            let after = models(out@);
            assert(after =~= before.update(j as int, EntryModel { priority: p, ..before[j as int] }));
            assert(before[j as int] == orig[j as int]) by {
                assert(before.skip(j as int)[0] == orig.skip(j as int)[0]);
            }
            assert(after.take(j + 1) =~= before.take(j as int).push(
                EntryModel { priority: p, ..orig[j as int] },
            ));
            assert(with_priority(orig.skip(start as int), p).take(j + 1 - start) =~= with_priority(
                orig.skip(start as int),
                p,
            ).take(j - start).push(EntryModel { priority: p, ..orig[j as int] }));
            assert(after.skip(j + 1) =~= orig.skip(j + 1)) by {
                assert forall|t: int| 0 <= t < after.skip(j + 1).len() implies #[trigger] after.skip(j + 1)[t]
                    == orig.skip(j + 1)[t] by {
                    assert(before.skip(j as int)[t + 1] == orig.skip(j as int)[t + 1]);
                }
            }
        }
        j += 1;
    }
    proof {
        assert(models(out@).take(j as int) =~= models(out@));
        assert(with_priority(orig.skip(start as int), p).take(j - start) =~= with_priority(
            orig.skip(start as int),
            p,
        ));
    }
}

/// The entries of the enabled plugins, in the order of `plugins.priority`:
/// the applications found in `desktop_files`, the commands found on
/// `path_found` and the power actions of `plugins.power_commands`, each
/// entry's priority the position of its plugin's name in that list (modulo
/// 256). Names of no plugin are passed over.
pub fn scan_entries(
    cfg: &Config,
    desktop_files: &Vec<DesktopFile>,
    path_found: &Vec<PathCandidate>,
) -> (r: Vec<Entry>)
    ensures
        models(r@) == plugin_entries(
            cfg.plugins.priority.deep_view(),
            (cfg.plugins.apps, cfg.plugins.commands, cfg.plugins.power),
            apps_from(desktop_files@.map_values(|f: DesktopFile| f@), desktop_files@.len()),
            commands_from(path_found@.map_values(|c: PathCandidate| c@), path_found@.len()),
            power_entries(power_actions(cfg.plugins.power_commands)),
            cfg.plugins.priority@.len(),
        ),
{
    let ghost names = cfg.plugins.priority.deep_view();
    let ghost on = (cfg.plugins.apps, cfg.plugins.commands, cfg.plugins.power);
    let ghost app_es = apps_from(
        desktop_files@.map_values(|f: DesktopFile| f@),
        desktop_files@.len(),
    );
    let ghost cmd_es = commands_from(
        path_found@.map_values(|c: PathCandidate| c@),
        path_found@.len(),
    );
    let ghost power_es = power_entries(power_actions(cfg.plugins.power_commands));
    let apps_name = String::from_str("apps");
    let commands_name = String::from_str("commands");
    let power_name = String::from_str("power");
    let mut out: Vec<Entry> = Vec::new();
    let mut i: usize = 0;
    while i < cfg.plugins.priority.len()
        invariant
            i <= cfg.plugins.priority@.len(),
            names == cfg.plugins.priority.deep_view(),
            on == (cfg.plugins.apps, cfg.plugins.commands, cfg.plugins.power),
            apps_name@ == "apps"@,
            commands_name@ == "commands"@,
            power_name@ == "power"@,
            app_es == apps_from(desktop_files@.map_values(|f: DesktopFile| f@), desktop_files@.len()),
            cmd_es == commands_from(path_found@.map_values(|c: PathCandidate| c@), path_found@.len()),
            power_es == power_entries(power_actions(cfg.plugins.power_commands)),
            models(out@) == plugin_entries(names, on, app_es, cmd_es, power_es, i as nat),
        decreases cfg.plugins.priority@.len() - i,
    {
        let name = &cfg.plugins.priority[i];
        assert(names[i as int] == name@);
        let start = out.len();
        let ghost before = models(out@);
        let ghost part = plugin_part(name@, on, app_es, cmd_es, power_es);
        #[verifier::truncate]
        let p = i as u8;
        if str_eq(name, &apps_name) && cfg.plugins.apps {
            AppsPlugin::new(cfg.plugins.terminal.clone()).scan(desktop_files, &mut out);
        } else if str_eq(name, &commands_name) && cfg.plugins.commands {
            let args = match &cfg.plugins.terminal_args {
                Some(a) => Some(clone_strings(a)),
                None => None,
            };
            CommandsPlugin::new(cfg.plugins.terminal.clone(), args).scan(path_found, &mut out);
        } else if str_eq(name, &power_name) && cfg.plugins.power {
            PowerPlugin::new(cfg.plugins.power_commands.clone()).scan(&mut out);
        }
        assert(models(out@) == before + part);
        assert(models(out@).len() == out@.len() && before.len() == start);
        set_priority(&mut out, start, p);
        assert(models(out@) =~= before + with_priority(part, p)) by {
            assert((before + part).take(start as int) =~= before);
            assert((before + part).skip(start as int) =~= part);
        }
        i += 1;
    }
    out
}

/// The entries' priorities follow the order of the plugin names: an entry
/// from an earlier name never comes after one from a later name, and while
/// the list of names is no longer than 256 each priority is the position of
/// the name that contributed the entry.
pub proof fn lemma_plugin_entries_ordered(
    names: Seq<Seq<char>>,
    on: (bool, bool, bool),
    app_es: Seq<EntryModel>,
    cmd_es: Seq<EntryModel>,
    power_es: Seq<EntryModel>,
    n: nat,
)
    requires
        n <= 256,
    ensures
        forall|i: int, j: int|
            0 <= i < j < plugin_entries(names, on, app_es, cmd_es, power_es, n).len() ==> (
            #[trigger] plugin_entries(names, on, app_es, cmd_es, power_es, n)[i]).priority
                <= (#[trigger] plugin_entries(names, on, app_es, cmd_es, power_es, n)[j]).priority,
        forall|i: int|
            0 <= i < plugin_entries(names, on, app_es, cmd_es, power_es, n).len() ==> (
            #[trigger] plugin_entries(names, on, app_es, cmd_es, power_es, n)[i]).priority < n,
    decreases n,
{
    if n > 0 {
        let prev = plugin_entries(names, on, app_es, cmd_es, power_es, (n - 1) as nat);
        let all = plugin_entries(names, on, app_es, cmd_es, power_es, n);
        lemma_plugin_entries_ordered(names, on, app_es, cmd_es, power_es, (n - 1) as nat);
        let p = (n - 1) as u8;
        assert(p == n - 1);
        let added = with_priority(plugin_part(names[n - 1], on, app_es, cmd_es, power_es), p);
        assert(all =~= prev + added);
        assert forall|t: int| 0 <= t < added.len() implies (#[trigger] added[t]).priority == p by {}
        assert forall|i: int| 0 <= i < all.len() implies (#[trigger] all[i]).priority < n by {
            if i < prev.len() {
                assert(all[i] == prev[i]);
            } else {
                assert(all[i] == added[i - prev.len()]);
            }
        }
        assert forall|i: int, j: int| 0 <= i < j < all.len() implies (#[trigger] all[i]).priority
            <= (#[trigger] all[j]).priority by {
            if j < prev.len() {
                assert(all[i] == prev[i]);
                assert(all[j] == prev[j]);
            } else if i < prev.len() {
                assert(all[i] == prev[i]);
                assert(all[j] == added[j - prev.len()]);
            } else {
                assert(all[i] == added[i - prev.len()]);
                assert(all[j] == added[j - prev.len()]);
            }
        }
    }
}

/// What the daemon does for one request.
pub enum DaemonAction {
    /// Hand this event to the launcher window.
    Forward(DaemonEvent),
    /// Load the configuration again, rescan, and hand the window a
    /// `ReloadConfig` with both.
    Reload,
    /// Nothing: the byte names no command.
    Ignore,
}

/// The byte the daemon answers a request byte with: `RESP_OK` for a
/// command, `RESP_ERR` for anything else.
pub open spec fn reply_byte(b: u8) -> u8 {
    if command_of(b) is Some {
        RESP_OK
    } else {
        RESP_ERR
    }
}

/// Every command a client sends is acknowledged as done, and a byte that
/// names no command is answered with an error the client reports.
pub proof fn lemma_commands_acknowledged(c: Command, b: u8)
    ensures
        reply_ok_spec(reply_byte(byte_of(c))),
        reply_ok_spec(reply_byte(b)) <==> command_of(b) is Some,
{
    lemma_command_byte_roundtrip(c);
}

/// The action for a request byte and the byte the daemon answers with:
/// `RESP_OK` for a command, `RESP_ERR` for anything else.
pub fn action_for(b: u8) -> (r: (DaemonAction, u8))
    ensures
        command_of(b) == Some(Command::Show) ==> r.0 matches DaemonAction::Forward(DaemonEvent::Show),
        command_of(b) == Some(Command::Hide) ==> r.0 matches DaemonAction::Forward(DaemonEvent::Hide),
        command_of(b) == Some(Command::Kill) ==> r.0 matches DaemonAction::Forward(DaemonEvent::Quit),
        command_of(b) == Some(Command::Reload) ==> r.0 is Reload,
        command_of(b) is None ==> r.0 is Ignore,
        r.1 == reply_byte(b),
{
    match Command::from_byte(b) {
        Some(Command::Show) => (DaemonAction::Forward(DaemonEvent::Show), RESP_OK),
        Some(Command::Hide) => (DaemonAction::Forward(DaemonEvent::Hide), RESP_OK),
        Some(Command::Reload) => (DaemonAction::Reload, RESP_OK),
        Some(Command::Kill) => (DaemonAction::Forward(DaemonEvent::Quit), RESP_OK),
        None => (DaemonAction::Ignore, RESP_ERR),
    }
}

/// The directories a rescan watches: the applications directories when the
/// applications plugin is on, then the pieces of `$PATH` between colons when
/// the commands plugin is on (`None` where `PATH` is unset).
pub open spec fn watch_list(
    apps: bool,
    commands: bool,
    app_dirs: Seq<Seq<char>>,
    path_var: Option<Seq<char>>,
) -> Seq<Seq<char>> {
    (if apps {
        app_dirs
    } else {
        Seq::empty()
    }) + match path_var {
        Some(p) if commands => split_on(p, ':'),
        _ => Seq::empty(),
    }
}

/// The directories to watch for changes that call for a rescan.
pub fn watched_dirs(
    apps: bool,
    commands: bool,
    app_dirs: &Vec<String>,
    path_var: Option<&str>,
) -> (r: Vec<String>)
    ensures
        r.deep_view() == watch_list(apps, commands, app_dirs.deep_view(), opt_str(path_var)),
{
    let mut out: Vec<String> = if apps {
        clone_strings(app_dirs)
    } else {
        Vec::new()
    };
    let ghost head = out.deep_view();
    assert(head == if apps {
        app_dirs.deep_view()
    } else {
        Seq::<Seq<char>>::empty()
    });
    if commands {
        if let Some(p) = path_var {
            let v = chars_of(p);
            let spans = split_spans(&v, ':');
            let ghost pieces = split_on(v@, ':');
            let mut i: usize = 0;
            while i < spans.len()
                invariant
                    i <= spans@.len() == pieces.len(),
                    pieces == split_on(v@, ':'),
                    forall|k: int|
                        0 <= k < spans@.len() ==> {
                            &&& spans@[k].0 <= spans@[k].1 <= v@.len()
                            &&& v@.subrange(#[trigger] spans@[k].0 as int, spans@[k].1 as int)
                                == pieces[k]
                        },
                    out.deep_view() == head + pieces.take(i as int),
                decreases spans@.len() - i,
            {
                let (lo, hi) = spans[i];
                let piece = string_of(&v, lo, hi);
                let ghost before = out.deep_view();
                out.push(piece);
                assert(out.deep_view() =~= before.push(piece@));
                assert(head + pieces.take(i + 1) =~= (head + pieces.take(i as int)).push(pieces[i as int]));
                i += 1;
            }
            assert(pieces.take(spans@.len() as int) =~= pieces);
            assert(v@ == opt_str(path_var).unwrap());
            return out;
        }
    }
    assert(out.deep_view() =~= head + Seq::<Seq<char>>::empty());
    out
}

/// What to do about the socket path before listening on it.
#[derive(Debug, Clone, Copy, PartialEq, Eq, Structural)]
pub enum SocketClaim {
    /// Nothing is there: bind.
    Bind,
    /// A socket file is there but nobody answers on it: remove it, then bind.
    ClearStaleThenBind,
    /// A daemon answers on it: another instance is running; give up.
    AlreadyRunning,
}

/// The claim on the socket path, from whether a file is there and whether
/// connecting to it succeeded.
pub fn socket_claim(exists: bool, live: bool) -> (r: SocketClaim)
    ensures
        !exists ==> r == SocketClaim::Bind,
        exists && live ==> r == SocketClaim::AlreadyRunning,
        exists && !live ==> r == SocketClaim::ClearStaleThenBind,
{
    if !exists {
        SocketClaim::Bind
    } else if live {
        SocketClaim::AlreadyRunning
    } else {
        SocketClaim::ClearStaleThenBind
    }
}

/// The kinds of file system change a watcher reports.
#[derive(Debug, Clone, Copy, PartialEq, Eq, Structural)]
pub enum FsChange {
    Any,
    Access,
    Create,
    Modify,
    Remove,
    Other,
}

/// Whether a change in a watched directory calls for a rescan: a file was
/// created, modified or removed.
pub fn rescan_on(change: FsChange) -> (r: bool)
    ensures
        r == (change == FsChange::Create || change == FsChange::Modify || change
            == FsChange::Remove),
{
    match change {
        FsChange::Create | FsChange::Modify | FsChange::Remove => true,
        _ => false,
    }
}

/// Where the watcher stands: waiting for a change, or letting a burst of
/// changes settle before rescanning.
#[derive(Debug, Clone, Copy, PartialEq, Eq, Structural)]
pub enum WatchPhase {
    Idle,
    Settling,
}

/// What the watcher hears: a change that calls for a rescan, or the end of
/// the quiet period it started.
#[derive(Debug, Clone, Copy, PartialEq, Eq, Structural)]
pub enum WatchInput {
    Change,
    QuietPeriodOver,
}

/// What the watcher does next.
#[derive(Debug, Clone, Copy, PartialEq, Eq, Structural)]
pub enum WatchStep {
    /// Wait half a second, so that a burst of changes collapses into one.
    StartQuietPeriod,
    /// Nothing: the change joins the burst being settled.
    Nothing,
    /// Rescan the entries.
    Rescan,
}

/// The watcher's next phase and step: the first change of a burst starts
/// the quiet period, further changes join it, and its end rescans once.
pub open spec fn watch_transition(phase: WatchPhase, input: WatchInput) -> (WatchPhase, WatchStep) {
    match (phase, input) {
        (WatchPhase::Idle, WatchInput::Change) => (WatchPhase::Settling, WatchStep::StartQuietPeriod),
        (WatchPhase::Idle, WatchInput::QuietPeriodOver) => (WatchPhase::Idle, WatchStep::Nothing),
        (WatchPhase::Settling, WatchInput::Change) => (WatchPhase::Settling, WatchStep::Nothing),
        (WatchPhase::Settling, WatchInput::QuietPeriodOver) => (WatchPhase::Idle, WatchStep::Rescan),
    }
}

/// The watcher's next phase and step.
pub fn watch_next(phase: WatchPhase, input: WatchInput) -> (r: (WatchPhase, WatchStep))
    ensures
        r == watch_transition(phase, input),
{
    match (phase, input) {
        (WatchPhase::Idle, WatchInput::Change) => (WatchPhase::Settling, WatchStep::StartQuietPeriod),
        (WatchPhase::Idle, WatchInput::QuietPeriodOver) => (WatchPhase::Idle, WatchStep::Nothing),
        (WatchPhase::Settling, WatchInput::Change) => (WatchPhase::Settling, WatchStep::Nothing),
        (WatchPhase::Settling, WatchInput::QuietPeriodOver) => (WatchPhase::Idle, WatchStep::Rescan),
    }
}

/// The phase after `inputs`, from `phase`, and how many rescans they caused.
pub open spec fn watch_run(phase: WatchPhase, inputs: Seq<WatchInput>) -> (WatchPhase, nat)
    decreases inputs.len(),
{
    if inputs.len() == 0 {
        (phase, 0)
    } else {
        let (p, n) = watch_run(phase, inputs.drop_last());
        let (q, step) = watch_transition(p, inputs.last());
        (q, n + if step == WatchStep::Rescan {
            1nat
        } else {
            0nat
        })
    }
}

/// A burst of changes followed by the end of the quiet period causes
/// exactly one rescan and leaves the watcher idle; the end of a quiet period
/// with no change before it causes none.
pub proof fn lemma_one_rescan_per_burst(n: nat)
    requires
        n >= 1,
    ensures
        watch_run(WatchPhase::Idle, Seq::new(n, |i: int| WatchInput::Change).push(
            WatchInput::QuietPeriodOver,
        )) == (WatchPhase::Idle, 1nat),
        watch_run(WatchPhase::Idle, seq![WatchInput::QuietPeriodOver]) == (WatchPhase::Idle, 0nat),
{
    lemma_changes_settle(n);
    let burst = Seq::new(n, |i: int| WatchInput::Change);
    assert(burst.push(WatchInput::QuietPeriodOver).drop_last() =~= burst);
    let single = seq![WatchInput::QuietPeriodOver];
    assert(single.drop_last() =~= Seq::<WatchInput>::empty());
    assert(single.last() == WatchInput::QuietPeriodOver);
    assert(watch_run(WatchPhase::Idle, Seq::<WatchInput>::empty()) == (WatchPhase::Idle, 0nat));
    assert(watch_run(WatchPhase::Idle, single) == (WatchPhase::Idle, 0nat));
}

proof fn lemma_changes_settle(n: nat)
    ensures
        watch_run(WatchPhase::Idle, Seq::new(n, |i: int| WatchInput::Change)) == if n == 0 {
            (WatchPhase::Idle, 0nat)
        } else {
            (WatchPhase::Settling, 0nat)
        },
    decreases n,
{
    if n > 0 {
        lemma_changes_settle((n - 1) as nat);
        assert(Seq::new(n, |i: int| WatchInput::Change).drop_last() =~= Seq::new(
            (n - 1) as nat,
            |i: int| WatchInput::Change,
        ));
    }
}

proof fn lemma_apps_are_apps(files: Seq<DesktopFileModel>, n: nat)
    requires
        n <= files.len(),
    ensures
        forall|j: int| 0 <= j < apps_from(files, n).len() ==> (#[trigger] apps_from(files, n)[j]).kind is App,
    decreases n,
{
    if n > 0 {
        lemma_apps_are_apps(files, (n - 1) as nat);
        let prev = apps_from(files, (n - 1) as nat);
        let cur = apps_from(files, n);
        assert forall|j: int| 0 <= j < cur.len() implies (#[trigger] cur[j]).kind is App by {
            if j < prev.len() {
                assert(cur[j] == prev[j]);
            }
        }
    }
}

proof fn lemma_commands_are_commands(cs: Seq<PathCandidateModel>, n: nat)
    requires
        n <= cs.len(),
    ensures
        forall|j: int|
            0 <= j < commands_from(cs, n).len() ==> (#[trigger] commands_from(cs, n)[j]).kind is Command,
    decreases n,
{
    if n > 0 {
        lemma_commands_are_commands(cs, (n - 1) as nat);
        let prev = commands_from(cs, (n - 1) as nat);
        let cur = commands_from(cs, n);
        assert forall|j: int| 0 <= j < cur.len() implies (#[trigger] cur[j]).kind is Command by {
            if j < prev.len() {
                assert(cur[j] == prev[j]);
            }
        }
    }
}

proof fn lemma_plugin_kinds(
    names: Seq<Seq<char>>,
    on: (bool, bool, bool),
    app_es: Seq<EntryModel>,
    cmd_es: Seq<EntryModel>,
    power_es: Seq<EntryModel>,
    n: nat,
)
    requires
        n <= names.len(),
        forall|j: int| 0 <= j < app_es.len() ==> (#[trigger] app_es[j]).kind is App,
        forall|j: int| 0 <= j < cmd_es.len() ==> (#[trigger] cmd_es[j]).kind is Command,
        forall|j: int| 0 <= j < power_es.len() ==> (#[trigger] power_es[j]).kind is Power,
    ensures
        n == 0 ==> plugin_entries(names, on, app_es, cmd_es, power_es, n).len() == 0,
        forall|j: int|
            0 <= j < plugin_entries(names, on, app_es, cmd_es, power_es, n).len() ==> {
                let e = #[trigger] plugin_entries(names, on, app_es, cmd_es, power_es, n)[j];
                &&& e.kind is App ==> on.0 && names.take(n as int).contains("apps"@)
                &&& e.kind is Command ==> on.1 && names.take(n as int).contains("commands"@)
                &&& e.kind is Power ==> on.2 && names.take(n as int).contains("power"@)
            },
    decreases n,
{
    if n > 0 {
        let m = (n - 1) as nat;
        lemma_plugin_kinds(names, on, app_es, cmd_es, power_es, m);
        let prev = plugin_entries(names, on, app_es, cmd_es, power_es, m);
        let part = plugin_part(names[n - 1], on, app_es, cmd_es, power_es);
        let added = with_priority(part, (n - 1) as u8);
        let cur = plugin_entries(names, on, app_es, cmd_es, power_es, n);
        assert(cur == prev + added);
        assert(names.take(n as int)[n - 1] == names[n - 1]);
        assert forall|x: Seq<char>| names.take(m as int).contains(x) implies names.take(
            n as int,
        ).contains(x) by {
            let k = choose|k: int| 0 <= k < m && names.take(m as int)[k] == x;
            assert(names.take(n as int)[k] == x);
        }
        assert forall|j: int| 0 <= j < cur.len() implies {
            let e = #[trigger] cur[j];
            &&& e.kind is App ==> on.0 && names.take(n as int).contains("apps"@)
            &&& e.kind is Command ==> on.1 && names.take(n as int).contains("commands"@)
            &&& e.kind is Power ==> on.2 && names.take(n as int).contains("power"@)
        } by {
            if j < prev.len() {
                assert(cur[j] == prev[j]);
            } else {
                let t = j - prev.len();
                assert(cur[j] == added[t]);
                assert(added[t].kind == part[t].kind);
                if names[n - 1] == "apps"@ && on.0 {
                    assert(part[t] == app_es[t]);
                } else if names[n - 1] == "commands"@ && on.1 {
                    assert(part[t] == cmd_es[t]);
                } else if names[n - 1] == "power"@ && on.2 {
                    assert(part[t] == power_es[t]);
                }
            }
        }
    }
}

/// The scan's entries come only from plugins that are on and named in the
/// priority list: an application entry only when the applications plugin is
/// on and `apps` is named, a command only for `commands`, a power action
/// only for `power`; an empty priority list gives no entries.
pub proof fn lemma_entries_from_enabled_plugins(
    names: Seq<Seq<char>>,
    on: (bool, bool, bool),
    files: Seq<DesktopFileModel>,
    found: Seq<PathCandidateModel>,
    commands: PowerCommands,
)
    ensures
        ({
            let es = plugin_entries(
                names,
                on,
                apps_from(files, files.len()),
                commands_from(found, found.len()),
                power_entries(power_actions(commands)),
                names.len(),
            );
            &&& names.len() == 0 ==> es.len() == 0
            &&& forall|j: int|
                0 <= j < es.len() ==> {
                    &&& (#[trigger] es[j]).kind is App ==> on.0 && names.contains("apps"@)
                    &&& es[j].kind is Command ==> on.1 && names.contains("commands"@)
                    &&& es[j].kind is Power ==> on.2 && names.contains("power"@)
                }
        }),
{
    let app_es = apps_from(files, files.len());
    let cmd_es = commands_from(found, found.len());
    let power_es = power_entries(power_actions(commands));
    lemma_apps_are_apps(files, files.len());
    lemma_commands_are_commands(found, found.len());
    lemma_power_entries_nonblank(power_actions(commands));
    assert forall|j: int| 0 <= j < power_es.len() implies (#[trigger] power_es[j]).kind is Power by {}
    lemma_plugin_kinds(names, on, app_es, cmd_es, power_es, names.len());
    assert(names.take(names.len() as int) =~= names);
}

} // verus!
