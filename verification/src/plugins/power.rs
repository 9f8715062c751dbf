//! System power and session actions.

use vstd::prelude::*;

use super::{Entry, EntryKind, EntryModel, KindModel, Launch, Plugin, launches_are};
use super::apps::models;
use crate::config::PowerCommands;
use crate::text::{chars_of, trim, trim_span};

verus! {

/// The four actions, in display order: name, icon and configured command.
pub open spec fn power_actions(c: PowerCommands) -> Seq<(Seq<char>, Seq<char>, Seq<char>)> {
    seq![
        ("Shutdown"@, "system-shutdown"@, c.shutdown@),
        ("Reboot"@, "system-reboot"@, c.reboot@),
        ("Suspend"@, "system-suspend"@, c.suspend@),
        ("Lock Screen"@, "system-lock-screen"@, c.lock@),
    ]
}

/// The entry for one action.
pub open spec fn power_entry(a: (Seq<char>, Seq<char>, Seq<char>)) -> EntryModel {
    EntryModel {
        name: a.0,
        description: Some(a.2),
        icon: Some(a.1),
        kind: KindModel::Power { command: a.2 },
        priority: 0,
        keywords: None,
    }
}

/// The entries of the actions among `acts` whose command is not blank.
pub open spec fn power_entries(acts: Seq<(Seq<char>, Seq<char>, Seq<char>)>) -> Seq<EntryModel>
    decreases acts.len(),
{
    if acts.len() == 0 {
        Seq::empty()
    } else {
        let prev = power_entries(acts.drop_last());
        if trim(acts.last().2).len() == 0 {
            prev
        } else {
            prev.push(power_entry(acts.last()))
        }
    }
}

/// The power plugin, with the configured command for each action.
pub struct PowerPlugin {
    commands: PowerCommands,
}

fn is_blank(s: &String) -> (r: bool)
    ensures
        r == (trim(s@).len() == 0),
{
    let v = chars_of(s.as_str());
    let (a, b) = trim_span(&v, 0, v.len());
    assert(v@.subrange(0, v@.len() as int) =~= v@);
    a == b
}

impl PowerPlugin {
    pub fn new(commands: PowerCommands) -> (r: Self)
        ensures
            r.commands() == commands,
    {
        PowerPlugin { commands }
    }

    pub closed spec fn commands(&self) -> PowerCommands {
        self.commands
    }

    /// Adds an entry for each action whose command is not blank to `out`.
    pub fn scan(&self, out: &mut Vec<Entry>)
        ensures
            models(final(out)@) == models(old(out)@) + power_entries(power_actions(self.commands())),
    {
        let ghost acts = power_actions(self.commands);
        let ghost start = models(out@);
        assert(acts.take(0) =~= Seq::<(Seq<char>, Seq<char>, Seq<char>)>::empty());
        assert(start + power_entries(acts.take(0)) =~= start);
        self.push_action(out, "Shutdown", "system-shutdown", &self.commands.shutdown);
        assert(acts.take(1).drop_last() =~= acts.take(0));
        assert(acts.take(1).last() == acts[0]);
        assert(models(out@) =~= start + power_entries(acts.take(1)));
        self.push_action(out, "Reboot", "system-reboot", &self.commands.reboot);
        assert(acts.take(2).drop_last() =~= acts.take(1));
        assert(acts.take(2).last() == acts[1]);
        assert(models(out@) =~= start + power_entries(acts.take(2)));
        self.push_action(out, "Suspend", "system-suspend", &self.commands.suspend);
        assert(acts.take(3).drop_last() =~= acts.take(2));
        assert(acts.take(3).last() == acts[2]);
        assert(models(out@) =~= start + power_entries(acts.take(3)));
        self.push_action(out, "Lock Screen", "system-lock-screen", &self.commands.lock);
        assert(acts.take(4).drop_last() =~= acts.take(3));
        assert(acts.take(4).last() == acts[3]);
        assert(models(out@) =~= start + power_entries(acts.take(4)));
        assert(acts.take(4) =~= acts);
    }

    fn push_action(&self, out: &mut Vec<Entry>, name: &str, icon: &str, command: &String)
        ensures
            models(final(out)@) == if trim(command@).len() == 0 {
                models(old(out)@)
            } else {
                models(old(out)@).push(power_entry((name@, icon@, command@)))
            },
    {
        if is_blank(command) {
            return;
        }
        let ghost before = out@;
        out.push(
            Entry {
                name: String::from_str(name),
                description: Some(command.clone()),
                icon: Some(String::from_str(icon)),
                kind: EntryKind::Power { command: command.clone() },
                priority: 0,
                keywords: None,
            },
        );
        assert(models(out@) =~= models(before).push(power_entry((name@, icon@, command@))));
    }
}

/// The invocation that runs a power command: `sh -c command`, unless the
/// command is blank.
pub open spec fn power_launch(command: Seq<char>) -> Seq<(Seq<char>, Seq<Seq<char>>)> {
    if trim(command).len() == 0 {
        Seq::empty()
    } else {
        seq![("sh"@, seq!["-c"@, command])]
    }
}

/// Run a configured power command through a shell, so that `||`, pipes and
/// variables work as written.
pub fn spawn_command(command: &String) -> (r: Vec<Launch>)
    ensures
        launches_are(r@, power_launch(command@)),
{
    let mut out: Vec<Launch> = Vec::new();
    if is_blank(command) {
        return out;
    }
    let mut args: Vec<String> = Vec::new();
    args.push(String::from_str("-c"));
    args.push(command.clone());
    assert(args.deep_view() =~= seq!["-c"@, command@]);
    out.push(Launch { program: String::from_str("sh"), args });
    out
}

impl Plugin for PowerPlugin {
    fn name(&self) -> (r: String)
        ensures
            r@ == "power"@,
    {
        String::from_str("power")
    }

    fn launch(&self, entry: &Entry) -> (r: Vec<Launch>)
        ensures
            launches_are(
                r@,
                match entry@.kind {
                    KindModel::Power { command } => power_launch(command),
                    _ => Seq::empty(),
                },
            ),
    {
        if let EntryKind::Power { command } = &entry.kind {
            spawn_command(command)
        } else {
            Vec::new()
        }
    }
}

/// The power plugin lists the actions in their fixed order, each one whose
/// command is not blank and none other, so never more than the actions there
/// are; every listed action carries its command.
pub proof fn lemma_power_entries_nonblank(acts: Seq<(Seq<char>, Seq<char>, Seq<char>)>)
    ensures
        power_entries(acts).len() <= acts.len(),
        forall|k: int|
            0 <= k < power_entries(acts).len() ==> match (#[trigger] power_entries(acts)[k]).kind {
                KindModel::Power { command } => trim(command).len() > 0 && power_entries(
                    acts,
                )[k].description == Some(command),
                _ => false,
            },
        (forall|k: int| 0 <= k < acts.len() ==> trim(#[trigger] acts[k].2).len() > 0)
            ==> power_entries(acts) == acts.map_values(
            |a: (Seq<char>, Seq<char>, Seq<char>)| power_entry(a),
        ),
    decreases acts.len(),
{
    if acts.len() > 0 {
        let d = acts.drop_last();
        lemma_power_entries_nonblank(d);
        let prev = power_entries(d);
        let cur = power_entries(acts);
        assert forall|k: int| 0 <= k < cur.len() implies match (#[trigger] cur[k]).kind {
            KindModel::Power { command } => trim(command).len() > 0 && cur[k].description == Some(
                command,
            ),
            _ => false,
        } by {
            if k < prev.len() {
                assert(cur[k] == prev[k]);
            }
        }
        if forall|k: int| 0 <= k < acts.len() ==> trim(#[trigger] acts[k].2).len() > 0 {
            assert forall|k: int| 0 <= k < d.len() implies trim(#[trigger] d[k].2).len() > 0 by {
                assert(d[k] == acts[k]);
            }
            assert(trim(acts[acts.len() - 1].2).len() > 0);
            assert(cur =~= acts.map_values(|a: (Seq<char>, Seq<char>, Seq<char>)| power_entry(a)));
        }
    }
}

/// Each entry among the power entries of `acts` is the entry of one action of
/// `acts` whose command is not blank, and each such action has its entry
/// among them.
proof fn lemma_power_entries_from_actions(acts: Seq<(Seq<char>, Seq<char>, Seq<char>)>)
    ensures
        forall|k: int|
            0 <= k < power_entries(acts).len() ==> exists|i: int|
                0 <= i < acts.len() && trim(acts[i].2).len() > 0 && #[trigger] power_entries(
                    acts,
                )[k] == power_entry(#[trigger] acts[i]),
        forall|i: int|
            0 <= i < acts.len() && trim(#[trigger] acts[i].2).len() > 0 ==> power_entries(
                acts,
            ).contains(power_entry(acts[i])),
    decreases acts.len(),
{
    if acts.len() > 0 {
        let d = acts.drop_last();
        lemma_power_entries_from_actions(d);
        let prev = power_entries(d);
        let cur = power_entries(acts);
        let last = acts.len() - 1;
        assert forall|k: int| 0 <= k < cur.len() implies exists|i: int|
            0 <= i < acts.len() && trim(acts[i].2).len() > 0 && #[trigger] cur[k] == power_entry(
                #[trigger] acts[i],
            ) by {
            if k < prev.len() {
                assert(cur[k] == prev[k]);
                let i = choose|i: int|
                    0 <= i < d.len() && trim(d[i].2).len() > 0 && #[trigger] prev[k] == power_entry(
                        #[trigger] d[i],
                    );
                assert(d[i] == acts[i]);
            } else {
                assert(cur[k] == power_entry(acts[last]));
            }
        }
        assert forall|i: int| 0 <= i < acts.len() && trim(#[trigger] acts[i].2).len() > 0 implies cur.contains(
            power_entry(acts[i]),
        ) by {
            if i < last {
                assert(d[i] == acts[i]);
                assert(prev.contains(power_entry(d[i])));
                let k = choose|k: int| 0 <= k < prev.len() && prev[k] == power_entry(d[i]);
                assert(cur[k] == prev[k]);
            } else {
                assert(cur[cur.len() - 1] == power_entry(acts[i]));
            }
        }
    }
}

/// Every listed power action carries the command configured for the action
/// it is named after, as its command and its description: the entry named
/// `Reboot` runs the reboot command and shows the `system-reboot` icon, and
/// likewise for `Shutdown`, `Suspend` and `Lock Screen`. An action is listed
/// exactly when its command is not blank.
pub proof fn lemma_power_entries_carry_their_commands(c: PowerCommands)
    ensures
        forall|k: int|
            0 <= k < power_entries(power_actions(c)).len() ==> {
                let e = #[trigger] power_entries(power_actions(c))[k];
                &&& e.name == "Shutdown"@ ==> e.kind == KindModel::Power { command: c.shutdown@ }
                    && e.description == Some(c.shutdown@) && e.icon == Some("system-shutdown"@)
                &&& e.name == "Reboot"@ ==> e.kind == KindModel::Power { command: c.reboot@ }
                    && e.description == Some(c.reboot@) && e.icon == Some("system-reboot"@)
                &&& e.name == "Suspend"@ ==> e.kind == KindModel::Power { command: c.suspend@ }
                    && e.description == Some(c.suspend@) && e.icon == Some("system-suspend"@)
                &&& e.name == "Lock Screen"@ ==> e.kind == KindModel::Power { command: c.lock@ }
                    && e.description == Some(c.lock@) && e.icon == Some("system-lock-screen"@)
                &&& e.name == "Shutdown"@ || e.name == "Reboot"@ || e.name == "Suspend"@
                    || e.name == "Lock Screen"@
            },
        (exists|k: int|
            0 <= k < power_entries(power_actions(c)).len() && #[trigger] power_entries(
                power_actions(c),
            )[k].name == "Shutdown"@) <==> trim(c.shutdown@).len() > 0,
        (exists|k: int|
            0 <= k < power_entries(power_actions(c)).len() && #[trigger] power_entries(
                power_actions(c),
            )[k].name == "Reboot"@) <==> trim(c.reboot@).len() > 0,
        (exists|k: int|
            0 <= k < power_entries(power_actions(c)).len() && #[trigger] power_entries(
                power_actions(c),
            )[k].name == "Suspend"@) <==> trim(c.suspend@).len() > 0,
        (exists|k: int|
            0 <= k < power_entries(power_actions(c)).len() && #[trigger] power_entries(
                power_actions(c),
            )[k].name == "Lock Screen"@) <==> trim(c.lock@).len() > 0,
{
    reveal_strlit("Shutdown");
    reveal_strlit("Reboot");
    reveal_strlit("Suspend");
    reveal_strlit("Lock Screen");
    let acts = power_actions(c);
    let es = power_entries(acts);
    lemma_power_entries_from_actions(acts);
    assert("Shutdown"@.len() == 8 && "Reboot"@.len() == 6 && "Suspend"@.len() == 7
        && "Lock Screen"@.len() == 11);
    assert forall|k: int| 0 <= k < es.len() implies {
        let e = #[trigger] es[k];
        &&& e.name == "Shutdown"@ ==> e.kind == KindModel::Power { command: c.shutdown@ }
            && e.description == Some(c.shutdown@) && e.icon == Some("system-shutdown"@)
        &&& e.name == "Reboot"@ ==> e.kind == KindModel::Power { command: c.reboot@ }
            && e.description == Some(c.reboot@) && e.icon == Some("system-reboot"@)
        &&& e.name == "Suspend"@ ==> e.kind == KindModel::Power { command: c.suspend@ }
            && e.description == Some(c.suspend@) && e.icon == Some("system-suspend"@)
        &&& e.name == "Lock Screen"@ ==> e.kind == KindModel::Power { command: c.lock@ }
            && e.description == Some(c.lock@) && e.icon == Some("system-lock-screen"@)
        &&& e.name == "Shutdown"@ || e.name == "Reboot"@ || e.name == "Suspend"@
            || e.name == "Lock Screen"@
    } by {
        let i = choose|i: int|
            0 <= i < acts.len() && trim(acts[i].2).len() > 0 && #[trigger] es[k] == power_entry(
                #[trigger] acts[i],
            );
        assert(0 <= i < 4);
    }
    assert(trim(c.shutdown@).len() > 0 ==> es.contains(power_entry(acts[0])));
    assert(trim(c.reboot@).len() > 0 ==> es.contains(power_entry(acts[1])));
    assert(trim(c.suspend@).len() > 0 ==> es.contains(power_entry(acts[2])));
    assert(trim(c.lock@).len() > 0 ==> es.contains(power_entry(acts[3])));
    assert forall|k: int| 0 <= k < es.len() && #[trigger] es[k].name == "Reboot"@ implies trim(
        c.reboot@,
    ).len() > 0 by {
        let i = choose|i: int|
            0 <= i < acts.len() && trim(acts[i].2).len() > 0 && #[trigger] es[k] == power_entry(
                #[trigger] acts[i],
            );
        assert(0 <= i < 4);
    }
    assert forall|k: int| 0 <= k < es.len() && #[trigger] es[k].name == "Shutdown"@ implies trim(
        c.shutdown@,
    ).len() > 0 by {
        let i = choose|i: int|
            0 <= i < acts.len() && trim(acts[i].2).len() > 0 && #[trigger] es[k] == power_entry(
                #[trigger] acts[i],
            );
        assert(0 <= i < 4);
    }
    assert forall|k: int| 0 <= k < es.len() && #[trigger] es[k].name == "Suspend"@ implies trim(
        c.suspend@,
    ).len() > 0 by {
        let i = choose|i: int|
            0 <= i < acts.len() && trim(acts[i].2).len() > 0 && #[trigger] es[k] == power_entry(
                #[trigger] acts[i],
            );
        assert(0 <= i < 4);
    }
    assert forall|k: int| 0 <= k < es.len() && #[trigger] es[k].name == "Lock Screen"@ implies trim(
        c.lock@,
    ).len() > 0 by {
        let i = choose|i: int|
            0 <= i < acts.len() && trim(acts[i].2).len() > 0 && #[trigger] es[k] == power_entry(
                #[trigger] acts[i],
            );
        assert(0 <= i < 4);
    }
}

} // verus!
