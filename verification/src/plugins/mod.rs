//! Search entries, the plugin interface, and the process invocations that
//! launching an entry turns into.

pub mod apps;
pub mod commands;
pub mod emoji;
pub mod math;
pub mod power;


use vstd::prelude::*;

use crate::text::{chars_of, file_name, file_name_of, string_of_all};

verus! {

/// How an entry is launched: the plugin that produced it receives it back.
#[derive(Debug)]
pub enum EntryKind {
    /// XDG .desktop application
    App { exec_line: String, terminal: bool },
    /// Raw command found on $PATH
    Command { path: String },
    /// Evaluated math expression; the value is copied to the clipboard
    MathResult { value: String },
    /// Emoji character; copied to the clipboard
    EmojiResult { emoji: String },
    /// System power/session action, run through a shell
    Power { command: String },
}

/// The mathematical model of an [`EntryKind`].
pub enum KindModel {
    App { exec_line: Seq<char>, terminal: bool },
    Command { path: Seq<char> },
    MathResult { value: Seq<char> },
    EmojiResult { emoji: Seq<char> },
    Power { command: Seq<char> },
}

impl View for EntryKind {
    type V = KindModel;

    open spec fn view(&self) -> KindModel {
        match self {
            EntryKind::App { exec_line, terminal } => KindModel::App { exec_line: exec_line@, terminal: *terminal },
            EntryKind::Command { path } => KindModel::Command { path: path@ },
            EntryKind::MathResult { value } => KindModel::MathResult { value: value@ },
            EntryKind::EmojiResult { emoji } => KindModel::EmojiResult { emoji: emoji@ },
            EntryKind::Power { command } => KindModel::Power { command: command@ },
        }
    }
}

impl Clone for EntryKind {
    fn clone(&self) -> (r: Self)
        ensures
            r == *self,
    {
        match self {
            EntryKind::App { exec_line, terminal } => EntryKind::App {
                exec_line: exec_line.clone(),
                terminal: *terminal,
            },
            EntryKind::Command { path } => EntryKind::Command { path: path.clone() },
            EntryKind::MathResult { value } => EntryKind::MathResult { value: value.clone() },
            EntryKind::EmojiResult { emoji } => EntryKind::EmojiResult { emoji: emoji.clone() },
            EntryKind::Power { command } => EntryKind::Power { command: command.clone() },
        }
    }
}

/// A single searchable result that a plugin provides.
#[derive(Debug)]
pub struct Entry {
    /// Display name shown in the results list
    pub name: String,
    /// Secondary description shown below the name (e.g. path, category)
    pub description: Option<String>,
    /// Icon name (XDG theme name like "firefox") or absolute path to PNG/SVG
    pub icon: Option<String>,
    /// How to launch it
    pub kind: EntryKind,
    /// Lower value = higher priority in results; set by `scan_entries`
    pub priority: u8,
    /// Extra text the matcher searches but the row does not show.
    pub keywords: Option<String>,
}

/// The mathematical model of an [`Entry`].
pub struct EntryModel {
    pub name: Seq<char>,
    pub description: Option<Seq<char>>,
    pub icon: Option<Seq<char>>,
    pub kind: KindModel,
    pub priority: u8,
    pub keywords: Option<Seq<char>>,
}

impl View for Entry {
    type V = EntryModel;

    open spec fn view(&self) -> EntryModel {
        EntryModel {
            name: self.name@,
            description: self.description.deep_view(),
            icon: self.icon.deep_view(),
            kind: self.kind@,
            priority: self.priority,
            keywords: self.keywords.deep_view(),
        }
    }
}

/// Whether two strings hold the same text.
pub fn str_eq(a: &String, b: &String) -> (r: bool)
    ensures
        r == (a@ == b@),
{
    *a == *b
}

/// A copy of an optional string.
pub fn clone_opt(s: &Option<String>) -> (r: Option<String>)
    ensures
        r == *s,
{
    match s {
        Some(v) => Some(v.clone()),
        None => None,
    }
}

/// Whether two optional strings hold the same text.
pub fn opt_eq(a: &Option<String>, b: &Option<String>) -> (r: bool)
    ensures
        r == (a.deep_view() == b.deep_view()),
{
    match (a, b) {
        (Some(x), Some(y)) => str_eq(x, y),
        (None, None) => true,
        _ => false,
    }
}

impl Clone for Entry {
    fn clone(&self) -> (r: Self)
        ensures
            r == *self,
    {
        Entry {
            name: self.name.clone(),
            description: clone_opt(&self.description),
            icon: clone_opt(&self.icon),
            kind: self.kind.clone(),
            priority: self.priority,
            keywords: clone_opt(&self.keywords),
        }
    }
}

/// The text the matcher searches for an entry: the name, followed by a space
/// and the keywords when there are any.
pub open spec fn search_text_of(e: EntryModel) -> Seq<char> {
    match e.keywords {
        Some(k) if k.len() > 0 => e.name + seq![' '] + k,
        _ => e.name,
    }
}

impl Entry {
    /// Whether `self` and `other` are the same entry, field for field.
    pub fn same_as(&self, other: &Entry) -> (r: bool)
        ensures
            r == (self@ == other@),
    {
        let kinds = match (&self.kind, &other.kind) {
            (EntryKind::App { exec_line: a, terminal: t }, EntryKind::App { exec_line: b, terminal: u }) =>
            str_eq(a, b) && *t == *u,
            (EntryKind::Command { path: a }, EntryKind::Command { path: b }) => str_eq(a, b),
            (EntryKind::MathResult { value: a }, EntryKind::MathResult { value: b }) => str_eq(a, b),
            (EntryKind::EmojiResult { emoji: a }, EntryKind::EmojiResult { emoji: b }) => str_eq(a, b),
            (EntryKind::Power { command: a }, EntryKind::Power { command: b }) => str_eq(a, b),
            _ => false,
        };
        str_eq(&self.name, &other.name) && opt_eq(&self.description, &other.description) && opt_eq(
            &self.icon,
            &other.icon,
        ) && kinds && self.priority == other.priority && opt_eq(&self.keywords, &other.keywords)
    }

    /// The haystack the fuzzy matcher indexes for this entry.
    pub fn search_text(&self) -> (r: String)
        ensures
            r@ == search_text_of(self@),
    {
        match &self.keywords {
            Some(extra) => {
                if !extra.as_str().is_empty() {
                    let mut out = self.name.clone();
                    out.append(" ");
                    out.append(extra.as_str());
                    proof {
                        reveal_strlit(" ");
                        assert(out@ =~= self.name@ + seq![' '] + extra@);
                    }
                    out
                } else {
                    self.name.clone()
                }
            },
            None => self.name.clone(),
        }
    }
}

/// One process to start: a program and its arguments.
pub struct Launch {
    pub program: String,
    pub args: Vec<String>,
}

impl View for Launch {
    type V = (Seq<char>, Seq<Seq<char>>);

    open spec fn view(&self) -> (Seq<char>, Seq<Seq<char>>) {
        (self.program@, self.args.deep_view())
    }
}

/// The plugin interface. Each plugin names itself and says which processes
/// launching one of its entries starts. They are tried in order: the next is
/// tried only if the previous program could not be found.
pub trait Plugin {
    fn name(&self) -> String;

    fn launch(&self, entry: &Entry) -> Vec<Launch>;
}

/// How trying one invocation of a launch went.
#[derive(Debug, Clone, Copy, PartialEq, Eq, Structural)]
pub enum AttemptOutcome {
    /// The program started.
    Started,
    /// The program is not installed.
    NotInstalled,
    /// The program is there but would not start.
    Failed,
}

/// Whether to go on to the next invocation of a launch after one attempt:
/// only when the program tried is not installed.
pub fn try_next(outcome: AttemptOutcome) -> (r: bool)
    ensures
        r == (outcome == AttemptOutcome::NotInstalled),
{
    match outcome {
        AttemptOutcome::NotInstalled => true,
        _ => false,
    }
}

/// The terminals that can be driven, in auto-detection order, with the
/// arguments that make each of them run a command.
pub open spec fn known_terminals() -> Seq<(Seq<char>, Seq<Seq<char>>)> {
    seq![
        ("foot"@, seq!["-e"@]),
        ("alacritty"@, seq!["-e"@]),
        ("kitty"@, seq!["-e"@]),
        ("ghostty"@, seq!["-e"@]),
        ("wezterm"@, seq!["start"@, "--"@]),
        ("gnome-terminal"@, seq!["--"@]),
        ("konsole"@, seq!["-e"@]),
        ("xterm"@, seq!["-e"@]),
    ]
}

/// The arguments of the first terminal in `table` named `name`.
pub open spec fn lookup_terminal(table: Seq<(Seq<char>, Seq<Seq<char>>)>, name: Seq<char>) -> Option<
    Seq<Seq<char>>,
>
    decreases table.len(),
{
    if table.len() == 0 {
        None
    } else if table[0].0 == name {
        Some(table[0].1)
    } else {
        lookup_terminal(table.drop_first(), name)
    }
}

/// Arguments to run a command in `terminal`: the configured ones if given,
/// otherwise those of the known terminal with the same file name, otherwise
/// `-e`.
pub open spec fn terminal_args_of(terminal: Seq<char>, configured: Option<Seq<Seq<char>>>) -> Seq<
    Seq<char>,
> {
    match configured {
        Some(args) => args,
        None => {
            let base = match file_name(terminal) {
                Some(n) => n,
                None => terminal,
            };
            match lookup_terminal(known_terminals(), base) {
                Some(args) => args,
                None => seq!["-e"@],
            }
        },
    }
}

fn strings_of(lits: &[&str]) -> (r: Vec<String>)
    ensures
        r.deep_view() == lits@.map_values(|s: &str| s@),
{
    let mut out: Vec<String> = Vec::new();
    let mut i: usize = 0;
    while i < lits.len()
        invariant
            i <= lits@.len(),
            out.deep_view() == lits@.take(i as int).map_values(|s: &str| s@),
        decreases lits.len() - i,
    {
        out.push(String::from_str(lits[i]));
        assert(lits@.take(i + 1).map_values(|s: &str| s@) =~= lits@.take(i as int).map_values(
            |s: &str| s@,
        ).push(lits@[i as int]@));
        assert(out.deep_view() =~= lits@.take(i as int).map_values(|s: &str| s@).push(
            lits@[i as int]@,
        ));
        i += 1;
    }
    assert(lits@.take(lits@.len() as int) =~= lits@);
    out
}

/// The table of [`known_terminals`].
pub fn known_terminal_table() -> (r: Vec<(String, Vec<String>)>)
    ensures
        r@.len() == known_terminals().len(),
        forall|i: int|
            0 <= i < r@.len() ==> (#[trigger] r@[i]).0@ == known_terminals()[i].0 && r@[i].1.deep_view()
                == known_terminals()[i].1,
{
    let mut t: Vec<(String, Vec<String>)> = Vec::new();
    t.push((String::from_str("foot"), strings_of(&["-e"])));
    t.push((String::from_str("alacritty"), strings_of(&["-e"])));
    t.push((String::from_str("kitty"), strings_of(&["-e"])));
    t.push((String::from_str("ghostty"), strings_of(&["-e"])));
    t.push((String::from_str("wezterm"), strings_of(&["start", "--"])));
    t.push((String::from_str("gnome-terminal"), strings_of(&["--"])));
    t.push((String::from_str("konsole"), strings_of(&["-e"])));
    t.push((String::from_str("xterm"), strings_of(&["-e"])));
    assert forall|i: int| 0 <= i < t@.len() implies (#[trigger] t@[i]).0@ == known_terminals()[i].0
        && t@[i].1.deep_view() == known_terminals()[i].1 by {
        assert(seq!["-e"].map_values(|s: &str| s@) =~= seq!["-e"@]);
        assert(seq!["start", "--"].map_values(|s: &str| s@) =~= seq!["start"@, "--"@]);
        assert(seq!["--"].map_values(|s: &str| s@) =~= seq!["--"@]);
    }
    t
}

proof fn lemma_lookup_first(t: Seq<(Seq<char>, Seq<Seq<char>>)>, name: Seq<char>, i: int)
    requires
        0 <= i < t.len(),
        t[i].0 == name,
        forall|j: int| 0 <= j < i ==> (#[trigger] t[j]).0 != name,
    ensures
        lookup_terminal(t, name) == Some(t[i].1),
    decreases i,
{
    if i > 0 {
        assert forall|j: int| 0 <= j < i - 1 implies (#[trigger] t.drop_first()[j]).0 != name by {
            assert(t.drop_first()[j] == t[j + 1]);
        }
        lemma_lookup_first(t.drop_first(), name, i - 1);
    }
}

proof fn lemma_lookup_none(t: Seq<(Seq<char>, Seq<Seq<char>>)>, name: Seq<char>)
    requires
        forall|j: int| 0 <= j < t.len() ==> (#[trigger] t[j]).0 != name,
    ensures
        lookup_terminal(t, name) is None,
    decreases t.len(),
{
    if t.len() > 0 {
        assert(t[0].0 != name);
        assert forall|j: int| 0 <= j < t.len() - 1 implies (#[trigger] t.drop_first()[j]).0 != name by {
            assert(t.drop_first()[j] == t[j + 1]);
        }
        lemma_lookup_none(t.drop_first(), name);
    }
}

/// A copy of a list of strings.
pub fn clone_strings(v: &Vec<String>) -> (r: Vec<String>)
    ensures
        r.deep_view() == v.deep_view(),
{
    let mut out: Vec<String> = Vec::new();
    let mut i: usize = 0;
    while i < v.len()
        invariant
            i <= v.len(),
            out@.len() == i,
            out.deep_view() == v.deep_view().take(i as int),
        decreases v.len() - i,
    {
        let c = v[i].clone();
        let ghost prev = out@;
        let ghost prev_deep = out.deep_view();
        out.push(c);
        assert forall|j: int| 0 <= j < i implies #[trigger] out.deep_view()[j] == v.deep_view()[j] by {
            assert(out@[j] == prev[j]);
            assert(prev_deep[j] == prev[j].deep_view());
            assert(prev_deep[j] == v.deep_view().take(i as int)[j]);
        }
        assert(out.deep_view() =~= v.deep_view().take(i + 1));
        i += 1;
    }
    assert(v.deep_view().take(v.len() as int) =~= v.deep_view());
    out
}

/// The model of an optional list of strings.
pub open spec fn opt_strings(o: Option<&Vec<String>>) -> Option<Seq<Seq<char>>> {
    match o {
        Some(v) => Some(v.deep_view()),
        None => None,
    }
}

/// Arguments to run a command in `terminal`: the configured ones if given,
/// otherwise the known-terminal entry, otherwise `-e` as the best guess.
pub fn terminal_exec_args(terminal: &str, configured: Option<&Vec<String>>) -> (r: Vec<String>)
    ensures
        r.deep_view() == terminal_args_of(terminal@, opt_strings(configured)),
{
    if let Some(args) = configured {
        return clone_strings(args);
    }
    let term = chars_of(terminal);
    let base = match file_name_of(&term) {
        Some(n) => n,
        None => term,
    };
    let ghost gbase = match file_name(terminal@) {
        Some(n) => n,
        None => terminal@,
    };
    assert(base@ == gbase);
    let table = known_terminal_table();
    let mut i: usize = 0;
    while i < table.len()
        invariant
            i <= table@.len() == known_terminals().len(),
            base@ == gbase,
            configured is None,
            gbase == match file_name(terminal@) {
                Some(n) => n,
                None => terminal@,
            },
            forall|k: int|
                0 <= k < table@.len() ==> (#[trigger] table@[k]).0@ == known_terminals()[k].0
                    && table@[k].1.deep_view() == known_terminals()[k].1,
            forall|j: int| 0 <= j < i ==> (#[trigger] known_terminals()[j]).0 != gbase,
        decreases table@.len() - i,
    {
        let name = chars_of(table[i].0.as_str());
        if crate::text::span_eq(&name, 0, name.len(), &base) {
            assert(name@.subrange(0, name@.len() as int) =~= name@);
            assert(table@[i as int].0@ == known_terminals()[i as int].0);
            assert(name@ == gbase);
            proof {
                lemma_lookup_first(known_terminals(), gbase, i as int);
            }
            let r = clone_strings(&table[i].1);
            assert(r.deep_view() == known_terminals()[i as int].1);
            assert(configured is None);
            assert(terminal_args_of(terminal@, opt_strings(configured)) == known_terminals()[i as int].1);
            return r;
        }
        assert(name@.subrange(0, name@.len() as int) =~= name@);
        i += 1;
    }
    proof {
        lemma_lookup_none(known_terminals(), gbase);
    }
    strings_of(&["-e"])
}

/// Whether `c` makes `shell_words::quote` quote its input.
pub open spec fn is_shell_special(c: char) -> bool {
    c == '\n' || c == '\'' || c == '|' || c == '&' || c == ';' || c == '<' || c == '>' || c == '('
        || c == ')' || c == '$' || c == '`' || c == '\\' || c == '"' || c == ' ' || c == '\t' || c
        == '*' || c == '?' || c == '[' || c == '#' || c == '~' || c == '=' || c == '%'
}

/// `s` with every single quote written as `'\''`.
pub open spec fn escape_single_quotes(s: Seq<char>) -> Seq<char>
    decreases s.len(),
{
    if s.len() == 0 {
        s
    } else {
        escape_single_quotes(s.drop_last()) + if s.last() == '\'' {
            seq!['\'', '\\', '\'', '\'']
        } else {
            seq![s.last()]
        }
    }
}

/// `s` quoted for a POSIX shell: left alone when it is non-empty and holds no
/// character the shell treats specially, otherwise put in single quotes.
pub open spec fn shell_quoted(s: Seq<char>) -> Seq<char> {
    if s.len() == 0 || exists|i: int| 0 <= i < s.len() && is_shell_special(#[trigger] s[i]) {
        seq!['\''] + escape_single_quotes(s) + seq!['\'']
    } else {
        s
    }
}

/// `shell_words::quote`: quotes `s` for a POSIX shell as [`shell_quoted`]
/// states.
#[verifier::external_body]
fn shell_quote(s: &str) -> (r: String)
    ensures
        r@ == shell_quoted(s@),
{
    shell_words::quote(s).into_owned()
}

/// The words of `ws` separated by `sep`, as `[..].join(sep)`.
pub open spec fn join_with(ws: Seq<Seq<char>>, sep: Seq<char>) -> Seq<char>
    decreases ws.len(),
{
    if ws.len() == 0 {
        Seq::empty()
    } else if ws.len() == 1 {
        ws[0]
    } else {
        join_with(ws.drop_last(), sep) + sep + ws.last()
    }
}

/// The shell command that runs `argv` and then keeps the terminal open.
pub open spec fn keep_open_command(argv: Seq<Seq<char>>) -> Seq<char> {
    join_with(argv.map_values(|a: Seq<char>| shell_quoted(a)), " "@) + "; exec \"${SHELL:-/bin/sh}\""@
}

/// The invocations that run `argv` in a terminal: the configured terminal
/// only, or else each known terminal in turn.
pub open spec fn terminal_launches(
    argv: Seq<Seq<char>>,
    terminal: Option<Seq<char>>,
    configured: Option<Seq<Seq<char>>>,
) -> Seq<(Seq<char>, Seq<Seq<char>>)> {
    let tail = seq!["sh"@, "-c"@, keep_open_command(argv)];
    if argv.len() == 0 {
        Seq::empty()
    } else {
        match terminal {
            Some(t) => seq![(t, terminal_args_of(t, configured) + tail)],
            None => known_terminals().map_values(
                |p: (Seq<char>, Seq<Seq<char>>)| (p.0, p.1 + tail),
            ),
        }
    }
}

/// The model of an optional `&str`.
pub open spec fn opt_str(o: Option<&str>) -> Option<Seq<char>> {
    match o {
        Some(s) => Some(s@),
        None => None,
    }
}

/// Whether `r` models the sequence of invocations `m`.
pub open spec fn launches_are(r: Seq<Launch>, m: Seq<(Seq<char>, Seq<Seq<char>>)>) -> bool {
    r.len() == m.len() && forall|i: int| 0 <= i < r.len() ==> (#[trigger] r[i])@ == m[i]
}

fn keep_open(argv: &Vec<String>) -> (r: String)
    requires
        argv.len() > 0,
    ensures
        r@ == keep_open_command(argv.deep_view()),
{
    let ghost quoted = argv.deep_view().map_values(|a: Seq<char>| shell_quoted(a));
    let mut out = shell_quote(argv[0].as_str());
    let mut i: usize = 1;
    assert(quoted.take(1) =~= seq![quoted[0]]);
    while i < argv.len()
        invariant
            1 <= i <= argv.len(),
            quoted == argv.deep_view().map_values(|a: Seq<char>| shell_quoted(a)),
            out@ == join_with(quoted.take(i as int), " "@),
        decreases argv.len() - i,
    {
        let q = shell_quote(argv[i].as_str());
        out.append(" ");
        out.append(q.as_str());
        assert(quoted.take(i + 1).drop_last() =~= quoted.take(i as int));
        assert(quoted[i as int] == shell_quoted(argv.deep_view()[i as int]));
        i += 1;
    }
    assert(quoted.take(argv.len() as int) =~= quoted);
    out.append("; exec \"${SHELL:-/bin/sh}\"");
    out
}

fn with_tail(args: Vec<String>, shell_cmd: &String) -> (r: Vec<String>)
    ensures
        r.deep_view() == args.deep_view() + seq!["sh"@, "-c"@, shell_cmd@],
{
    let mut out = args;
    let ghost start = out.deep_view();
    out.push(String::from_str("sh"));
    out.push(String::from_str("-c"));
    out.push(shell_cmd.clone());
    assert(out.deep_view() =~= start + seq!["sh"@, "-c"@, shell_cmd@]);
    out
}

/// Run `argv` inside a terminal emulator, keeping the terminal open
/// afterwards: the invocations to try, in order. Each word is quoted for the
/// wrapping shell, so paths with spaces stay one word. An empty `argv` gives
/// no invocation.
pub fn launch_in_terminal(
    argv: &Vec<String>,
    terminal: Option<&str>,
    terminal_args: Option<&Vec<String>>,
) -> (r: Vec<Launch>)
    ensures
        launches_are(r@, terminal_launches(argv.deep_view(), opt_str(terminal), opt_strings(terminal_args))),
{
    if argv.len() == 0 {
        return Vec::new();
    }
    let shell_cmd = keep_open(argv);
    let ghost spec = terminal_launches(argv.deep_view(), opt_str(terminal), opt_strings(terminal_args));
    let ghost tail = seq!["sh"@, "-c"@, keep_open_command(argv.deep_view())];
    if let Some(term) = terminal {
        let args = with_tail(terminal_exec_args(term, terminal_args), &shell_cmd);
        let mut out: Vec<Launch> = Vec::new();
        out.push(Launch { program: String::from_str(term), args });
        return out;
    }
    let table = known_terminal_table();
    let mut out: Vec<Launch> = Vec::new();
    let mut i: usize = 0;
    while i < table.len()
        invariant
            i <= table@.len() == known_terminals().len(),
            argv.len() > 0,
            terminal is None,
            shell_cmd@ == keep_open_command(argv.deep_view()),
            tail == seq!["sh"@, "-c"@, keep_open_command(argv.deep_view())],
            spec == terminal_launches(argv.deep_view(), opt_str(terminal), opt_strings(terminal_args)),
            forall|k: int|
                0 <= k < table@.len() ==> (#[trigger] table@[k]).0@ == known_terminals()[k].0
                    && table@[k].1.deep_view() == known_terminals()[k].1,
            out@.len() == i,
            forall|k: int| 0 <= k < i ==> (#[trigger] out@[k])@ == spec[k],
        decreases table@.len() - i,
    {
        let args = with_tail(clone_strings(&table[i].1), &shell_cmd);
        out.push(Launch { program: table[i].0.clone(), args });
        i += 1;
    }
    out
}

/// The model of the invocation that copies `text` with the clipboard
/// `command`: its first word is the program, the rest come before `text`.
pub open spec fn clipboard_launch_of(text: Seq<char>, command: Seq<Seq<char>>) -> Option<
    (Seq<char>, Seq<Seq<char>>),
> {
    if command.len() == 0 {
        None
    } else {
        Some((command[0], command.drop_first().push(text)))
    }
}

/// Put `text` on the clipboard using the configured command: the invocation,
/// or `None` when no command is configured.
pub fn copy_to_clipboard(text: &str, command: &Vec<String>) -> (r: Option<Launch>)
    ensures
        match r {
            Some(l) => clipboard_launch_of(text@, command.deep_view()) == Some(l@),
            None => clipboard_launch_of(text@, command.deep_view()) is None,
        },
{
    if command.len() == 0 {
        return None;
    }
    let mut args: Vec<String> = Vec::new();
    let mut i: usize = 1;
    while i < command.len()
        invariant
            1 <= i <= command.len(),
            args@.len() == i - 1,
            args.deep_view() == command.deep_view().subrange(1, i as int),
        decreases command.len() - i,
    {
        let c = command[i].clone();
        let ghost prev = args@;
        let ghost prev_deep = args.deep_view();
        args.push(c);
        assert forall|j: int| 0 <= j < i - 1 implies #[trigger] args.deep_view()[j] == command.deep_view()[j + 1] by {
            assert(args@[j] == prev[j]);
            assert(prev_deep[j] == prev[j].deep_view());
            assert(prev_deep[j] == command.deep_view().subrange(1, i as int)[j]);
        }
        assert(args.deep_view() =~= command.deep_view().subrange(1, i + 1));
        i += 1;
    }
    args.push(String::from_str(text));
    assert(args.deep_view() =~= command.deep_view().drop_first().push(text@));
    Some(Launch { program: command[0].clone(), args })
}

/// The invocation that runs `argv` directly: its first word is the program.
pub fn launch_detached(argv: &Vec<String>) -> (r: Option<Launch>)
    ensures
        match r {
            Some(l) => argv.len() > 0 && l@ == (argv.deep_view()[0], argv.deep_view().drop_first()),
            None => argv.len() == 0,
        },
{
    if argv.len() == 0 {
        return None;
    }
    let mut args: Vec<String> = Vec::new();
    let mut i: usize = 1;
    while i < argv.len()
        invariant
            1 <= i <= argv.len(),
            args@.len() == i - 1,
            args.deep_view() == argv.deep_view().subrange(1, i as int),
        decreases argv.len() - i,
    {
        let c = argv[i].clone();
        let ghost prev = args@;
        let ghost prev_deep = args.deep_view();
        args.push(c);
        assert forall|j: int| 0 <= j < i - 1 implies #[trigger] args.deep_view()[j] == argv.deep_view()[j + 1] by {
            assert(args@[j] == prev[j]);
            assert(prev_deep[j] == prev[j].deep_view());
            assert(prev_deep[j] == argv.deep_view().subrange(1, i as int)[j]);
        }
        assert(args.deep_view() =~= argv.deep_view().subrange(1, i + 1));
        i += 1;
    }
    assert(args.deep_view() =~= argv.deep_view().drop_first());
    Some(Launch { program: argv[0].clone(), args })
}

} // verus!
