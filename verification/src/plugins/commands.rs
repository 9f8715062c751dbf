//! Executables found on `$PATH`.

use vstd::prelude::*;

use super::{
    Entry, EntryKind, EntryModel, KindModel, Launch, Plugin, launch_in_terminal, launches_are,
    opt_str, opt_strings, terminal_launches,
};
use super::apps::models;
use crate::text::{chars_of, join, join_path, span_eq, string_of_all};

verus! {

/// A directory entry found in a `$PATH` directory, with what the file system
/// says of it: whether it is (or links to) a directory, and whether this user
/// may execute it.
pub struct PathCandidate {
    pub dir: String,
    pub file_name: String,
    pub is_dir: bool,
    pub executable: bool,
}

pub struct PathCandidateModel {
    pub dir: Seq<char>,
    pub file_name: Seq<char>,
    pub is_dir: bool,
    pub executable: bool,
}

impl View for PathCandidate {
    type V = PathCandidateModel;

    open spec fn view(&self) -> PathCandidateModel {
        PathCandidateModel {
            dir: self.dir@,
            file_name: self.file_name@,
            is_dir: self.is_dir,
            executable: self.executable,
        }
    }
}

/// Whether a candidate is a command: an executable that is not a directory.
pub open spec fn usable(c: PathCandidateModel) -> bool {
    !c.is_dir && c.executable
}

/// Whether candidate `i` becomes an entry: it is a command and no earlier
/// command has the same name. Earlier `$PATH` directories win.
pub open spec fn first_command(cs: Seq<PathCandidateModel>, i: int) -> bool {
    usable(cs[i]) && forall|j: int|
        0 <= j < i && usable(#[trigger] cs[j]) ==> cs[j].file_name != cs[i].file_name
}

/// The entry for a command.
pub open spec fn command_entry(c: PathCandidateModel) -> EntryModel {
    EntryModel {
        name: c.file_name,
        description: Some(c.dir),
        icon: None,
        kind: KindModel::Command { path: join_path(c.dir, c.file_name) },
        priority: 0,
        keywords: None,
    }
}

/// The entries of the first `n` candidates.
pub open spec fn commands_from(cs: Seq<PathCandidateModel>, n: nat) -> Seq<EntryModel>
    decreases n,
{
    if n == 0 {
        Seq::empty()
    } else {
        let prev = commands_from(cs, (n - 1) as nat);
        if first_command(cs, n - 1) {
            prev.push(command_entry(cs[n - 1]))
        } else {
            prev
        }
    }
}

/// The commands plugin; commands run in `terminal`, driven by
/// `terminal_args`.
pub struct CommandsPlugin {
    pub terminal: Option<String>,
    pub terminal_args: Option<Vec<String>>,
}

fn name_seen(seen: &Vec<Vec<char>>, name: &Vec<char>) -> (r: bool)
    ensures
        r == exists|m: int| 0 <= m < seen@.len() && (#[trigger] seen@[m])@ == name@,
{
    let mut k: usize = 0;
    while k < seen.len()
        invariant
            k <= seen@.len(),
            forall|m: int| 0 <= m < k ==> (#[trigger] seen@[m])@ != name@,
        decreases seen@.len() - k,
    {
        let s = &seen[k];
        assert(s@.subrange(0, s@.len() as int) =~= s@);
        if span_eq(s, 0, s.len(), name) {
            return true;
        }
        k += 1;
    }
    false
}

impl CommandsPlugin {
    pub fn new(terminal: Option<String>, terminal_args: Option<Vec<String>>) -> (r: Self)
        ensures
            r.terminal == terminal,
            r.terminal_args == terminal_args,
    {
        CommandsPlugin { terminal, terminal_args }
    }

    /// Adds an entry for each command among `found` (listed directory by
    /// directory in `$PATH` order) to `out`.
    pub fn scan(&self, found: &Vec<PathCandidate>, out: &mut Vec<Entry>)
        ensures
            models(final(out)@) == models(old(out)@) + commands_from(
                found@.map_values(|c: PathCandidate| c@),
                found@.len(),
            ),
    {
        let ghost cs = found@.map_values(|c: PathCandidate| c@);
        let ghost start = models(out@);
        let mut seen: Vec<Vec<char>> = Vec::new();
        let mut i: usize = 0;
        while i < found.len()
            invariant
                i <= found.len(),
                cs == found@.map_values(|c: PathCandidate| c@),
                models(out@) == start + commands_from(cs, i as nat),
                seen@.len() == command_names(cs, i as nat).len(),
                forall|k: int| 0 <= k < seen@.len() ==> (#[trigger] seen@[k])@ == command_names(cs, i as nat)[k],
            decreases found.len() - i,
        {
            let c = &found[i];
            assert(cs[i as int] == c@);
            let ghost names = command_names(cs, i as nat);
            proof {
                lemma_first_command(cs, i as nat);
            }
            if !c.is_dir && c.executable {
                let name = chars_of(c.file_name.as_str());
                let dup = name_seen(&seen, &name);
                proof {
                    if dup {
                        let m = choose|m: int| 0 <= m < seen@.len() && (#[trigger] seen@[m])@ == name@;
                        assert(names[m] == name@);
                        assert(names.contains(name@));
                    } else {
                        if names.contains(name@) {
                            let m = choose|m: int| 0 <= m < names.len() && names[m] == name@;
                            assert(seen@[m]@ == name@);
                        }
                    }
                }
                if !dup {
                    let d = chars_of(c.dir.as_str());
                    let path = string_of_all(&join(&d, &name));
                    let ghost before = out@;
                    out.push(
                        Entry {
                            name: c.file_name.clone(),
                            description: Some(c.dir.clone()),
                            icon: None,
                            kind: EntryKind::Command { path },
                            priority: 0,
                            keywords: None,
                        },
                    );
                    assert(models(out@) =~= models(before).push(command_entry(cs[i as int])));
                    let ghost seen_before = seen@;
                    seen.push(name);
                    proof {
                        assert(command_names(cs, (i + 1) as nat) =~= names.push(cs[i as int].file_name));
                        assert forall|k: int| 0 <= k < seen@.len() implies (#[trigger] seen@[k])@
                            == command_names(cs, (i + 1) as nat)[k] by {
                            if k < seen_before.len() {
                                assert(seen@[k] == seen_before[k]);
                            }
                        }
                    }
                } else {
                    assert(command_names(cs, (i + 1) as nat) =~= names);
                }
            } else {
                assert(command_names(cs, (i + 1) as nat) =~= names);
            }
            i += 1;
        }
    }
}

/// The names of the entries of the first `n` candidates.
pub open spec fn command_names(cs: Seq<PathCandidateModel>, n: nat) -> Seq<Seq<char>> {
    commands_from(cs, n).map_values(|e: EntryModel| e.name)
}

proof fn lemma_names_cover(cs: Seq<PathCandidateModel>, n: nat)
    requires
        n <= cs.len(),
    ensures
        forall|j: int|
            0 <= j < n && usable(#[trigger] cs[j]) ==> command_names(cs, n).contains(cs[j].file_name),
        forall|x: Seq<char>|
            command_names(cs, n).contains(x) ==> exists|j: int|
                0 <= j < n && usable(#[trigger] cs[j]) && cs[j].file_name == x,
    decreases n,
{
    if n > 0 {
        let m = (n - 1) as nat;
        lemma_names_cover(cs, m);
        let prev = command_names(cs, m);
        let cur = command_names(cs, n);
        if first_command(cs, m as int) {
            assert(cur =~= prev.push(cs[m as int].file_name));
        } else {
            assert(cur =~= prev);
        }
        assert forall|j: int| 0 <= j < n && usable(#[trigger] cs[j]) implies cur.contains(
            cs[j].file_name,
        ) by {
            if j < m {
                assert(prev.contains(cs[j].file_name));
                let k = choose|k: int| 0 <= k < prev.len() && prev[k] == cs[j].file_name;
                assert(cur[k] == prev[k]);
            } else if first_command(cs, m as int) {
                assert(cur[cur.len() - 1] == cs[j].file_name);
            } else {
                let k = choose|k: int|
                    0 <= k < m && usable(#[trigger] cs[k]) && cs[k].file_name == cs[m as int].file_name;
                assert(prev.contains(cs[k].file_name));
                let q = choose|q: int| 0 <= q < prev.len() && prev[q] == cs[k].file_name;
                assert(cur[q] == prev[q]);
            }
        }
        assert forall|x: Seq<char>| cur.contains(x) implies exists|j: int|
            0 <= j < n && usable(#[trigger] cs[j]) && cs[j].file_name == x by {
            let k = choose|k: int| 0 <= k < cur.len() && cur[k] == x;
            if k < prev.len() {
                assert(prev[k] == x);
                assert(prev.contains(x));
            } else {
                assert(cs[m as int].file_name == x);
            }
        }
    }
}

/// A candidate becomes an entry exactly when it is a command whose name no
/// earlier entry has.
proof fn lemma_first_command(cs: Seq<PathCandidateModel>, i: nat)
    requires
        i < cs.len(),
    ensures
        first_command(cs, i as int) == (usable(cs[i as int]) && !command_names(cs, i).contains(
            cs[i as int].file_name,
        )),
{
    lemma_names_cover(cs, i);
    if usable(cs[i as int]) {
        if command_names(cs, i).contains(cs[i as int].file_name) {
            let j = choose|j: int|
                0 <= j < i && usable(#[trigger] cs[j]) && cs[j].file_name == cs[i as int].file_name;
            assert(!first_command(cs, i as int));
        } else {
            assert forall|j: int| 0 <= j < i && usable(#[trigger] cs[j]) implies cs[j].file_name
                != cs[i as int].file_name by {
                assert(command_names(cs, i).contains(cs[j].file_name));
            }
        }
    }
}

/// What launching entry `e` of the commands plugin runs: its path, alone, in
/// a terminal.
pub open spec fn command_launches(
    terminal: Option<Seq<char>>,
    terminal_args: Option<Seq<Seq<char>>>,
    e: EntryModel,
) -> Seq<(Seq<char>, Seq<Seq<char>>)> {
    match e.kind {
        KindModel::Command { path } => terminal_launches(seq![path], terminal, terminal_args),
        _ => Seq::empty(),
    }
}

impl Plugin for CommandsPlugin {
    fn name(&self) -> (r: String)
        ensures
            r@ == "commands"@,
    {
        String::from_str("commands")
    }

    fn launch(&self, entry: &Entry) -> (r: Vec<Launch>)
        ensures
            launches_are(
                r@,
                command_launches(
                    self.terminal.deep_view(),
                    match self.terminal_args {
                        Some(a) => Some(a.deep_view()),
                        None => None,
                    },
                    entry@,
                ),
            ),
    {
        if let EntryKind::Command { path } = &entry.kind {
            let mut argv: Vec<String> = Vec::new();
            argv.push(path.clone());
            assert(argv.deep_view() =~= seq![path@]);
            let term = match &self.terminal {
                Some(t) => Some(t.as_str()),
                None => None,
            };
            let targs = match &self.terminal_args {
                Some(a) => Some(a),
                None => None,
            };
            assert(opt_str(term) == self.terminal.deep_view());
            launch_in_terminal(&argv, term, targs)
        } else {
            Vec::new()
        }
    }
}

/// The commands scan lists each command name once, from the first `$PATH`
/// directory that has it, and leaves out no command.
pub proof fn lemma_commands_unique_and_complete(cs: Seq<PathCandidateModel>)
    ensures
        forall|i: int, j: int|
            0 <= i < j < commands_from(cs, cs.len()).len() ==> (#[trigger] commands_from(
                cs,
                cs.len(),
            )[i]).name != (#[trigger] commands_from(cs, cs.len())[j]).name,
        forall|j: int|
            0 <= j < cs.len() && usable(#[trigger] cs[j]) ==> command_names(cs, cs.len()).contains(
                cs[j].file_name,
            ),
{
    lemma_names_cover(cs, cs.len());
    lemma_names_distinct(cs, cs.len());
}

proof fn lemma_names_distinct(cs: Seq<PathCandidateModel>, n: nat)
    requires
        n <= cs.len(),
    ensures
        forall|i: int, j: int|
            0 <= i < j < commands_from(cs, n).len() ==> (#[trigger] commands_from(cs, n)[i]).name
                != (#[trigger] commands_from(cs, n)[j]).name,
    decreases n,
{
    if n > 0 {
        let m = (n - 1) as nat;
        lemma_names_distinct(cs, m);
        lemma_first_command(cs, m);
        let prev = commands_from(cs, m);
        let cur = commands_from(cs, n);
        if first_command(cs, m as int) {
            assert(cur == prev.push(command_entry(cs[m as int])));
            assert forall|i: int, j: int| 0 <= i < j < cur.len() implies (#[trigger] cur[i]).name
                != (#[trigger] cur[j]).name by {
                if j < prev.len() {
                    assert(cur[i] == prev[i] && cur[j] == prev[j]);
                } else {
                    assert(cur[i] == prev[i]);
                    assert(command_names(cs, m)[i] == prev[i].name);
                    assert(command_names(cs, m).contains(prev[i].name));
                }
            }
        }
    }
}

} // verus!
