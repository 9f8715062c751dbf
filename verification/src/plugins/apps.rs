//! Installed applications, read from XDG `.desktop` files.

use vstd::prelude::*;

use super::{keep_open_command, known_terminals, launch_detached, launch_in_terminal, launches_are,
    terminal_args_of, terminal_launches, Entry,
    EntryKind, EntryModel, KindModel, Launch, Plugin, opt_str};
use crate::text::{
    chars_of, eq_ignore_ascii_case, find_char, is_first, join, join_path, lemma_split_once_at,
    lemma_split_once_none, parent_name, parent_name_of, span_eq, span_eq_ignore_ascii_case,
    split_once, split_on, split_spans, string_of, trim, trim_span,
};

verus! {

/// What the parser has gathered after some lines of a `.desktop` file.
pub struct DesktopFields {
    /// Whether the current section is `[Desktop Entry]`
    pub in_entry: bool,
    pub name: Seq<char>,
    pub generic_name: Seq<char>,
    pub exec_line: Seq<char>,
    pub icon: Seq<char>,
    pub keywords: Seq<char>,
    pub no_display: bool,
    pub hidden: bool,
    pub terminal: bool,
    /// A `Type` other than `Application` was seen
    pub rejected: bool,
}

pub open spec fn initial_fields() -> DesktopFields {
    DesktopFields {
        in_entry: false,
        name: Seq::empty(),
        generic_name: Seq::empty(),
        exec_line: Seq::empty(),
        icon: Seq::empty(),
        keywords: Seq::empty(),
        no_display: false,
        hidden: false,
        terminal: false,
        rejected: false,
    }
}

/// One `key=value` line of the `[Desktop Entry]` section. The first
/// non-empty `Name`, `GenericName`, `Exec`, `Icon` and `Keywords` win; the last
/// `NoDisplay`, `Hidden` and `Terminal` win, compared to `true` ignoring
/// ASCII case; a `Type` other than `Application` rejects the file.
pub open spec fn apply_key(st: DesktopFields, k: Seq<char>, v: Seq<char>) -> DesktopFields {
    if k == "Name"@ {
        if st.name.len() == 0 {
            DesktopFields { name: v, ..st }
        } else {
            st
        }
    } else if k == "GenericName"@ {
        if st.generic_name.len() == 0 {
            DesktopFields { generic_name: v, ..st }
        } else {
            st
        }
    } else if k == "Exec"@ {
        if st.exec_line.len() == 0 {
            DesktopFields { exec_line: v, ..st }
        } else {
            st
        }
    } else if k == "Icon"@ {
        if st.icon.len() == 0 {
            DesktopFields { icon: v, ..st }
        } else {
            st
        }
    } else if k == "Keywords"@ {
        if st.keywords.len() == 0 {
            DesktopFields { keywords: v, ..st }
        } else {
            st
        }
    } else if k == "NoDisplay"@ {
        DesktopFields { no_display: eq_ignore_ascii_case(v, "true"@), ..st }
    } else if k == "Hidden"@ {
        DesktopFields { hidden: eq_ignore_ascii_case(v, "true"@), ..st }
    } else if k == "Terminal"@ {
        DesktopFields { terminal: eq_ignore_ascii_case(v, "true"@), ..st }
    } else if k == "Type"@ && v != "Application"@ {
        DesktopFields { rejected: true, ..st }
    } else {
        st
    }
}

/// One line of a `.desktop` file, after trimming: a `[...]` header switches
/// sections, comments and lines outside `[Desktop Entry]` are skipped, and a
/// line with `=` is a key and a value, each trimmed.
pub open spec fn desktop_step(st: DesktopFields, line: Seq<char>) -> DesktopFields {
    let l = trim(line);
    if st.rejected {
        st
    } else if l.len() > 0 && l[0] == '[' {
        DesktopFields { in_entry: l == "[Desktop Entry]"@, ..st }
    } else if !st.in_entry || (l.len() > 0 && l[0] == '#') {
        st
    } else {
        match split_once(l, '=') {
            Some((k, v)) => apply_key(st, trim(k), trim(v)),
            None => st,
        }
    }
}

/// The fields gathered from `lines`, in order.
pub open spec fn desktop_fold(lines: Seq<Seq<char>>) -> DesktopFields
    decreases lines.len(),
{
    if lines.len() == 0 {
        initial_fields()
    } else {
        desktop_step(desktop_fold(lines.drop_last()), lines.last())
    }
}

/// The extra text the matcher searches for an application: its generic name
/// and its keywords, separated by a space, leaving out what is empty.
pub open spec fn keyword_text(generic: Seq<char>, keywords: Seq<char>) -> Option<Seq<char>> {
    if generic.len() == 0 && keywords.len() == 0 {
        None
    } else if generic.len() == 0 {
        Some(keywords)
    } else if keywords.len() == 0 {
        Some(generic)
    } else {
        Some(generic + seq![' '] + keywords)
    }
}

/// The entry a `.desktop` file at `path` describes, if it is a visible
/// application with a name and a command. The description is the generic
/// name, or else the name of the directory holding the file; the generic
/// name and the `Keywords` are searched but not shown.
pub open spec fn desktop_entry(raw: Seq<char>, path: Seq<char>) -> Option<EntryModel> {
    let st = desktop_fold(split_on(raw, '\n'));
    if st.rejected || st.no_display || st.hidden || st.name.len() == 0 || st.exec_line.len()
        == 0 {
        None
    } else {
        Some(
            EntryModel {
                name: st.name,
                description: if st.generic_name.len() == 0 {
                    parent_name(path)
                } else {
                    Some(st.generic_name)
                },
                icon: if st.icon.len() == 0 {
                    None
                } else {
                    Some(st.icon)
                },
                kind: KindModel::App { exec_line: st.exec_line, terminal: st.terminal },
                priority: 0,
                keywords: keyword_text(st.generic_name, st.keywords),
            },
        )
    }
}

/// The parser's state, with the text fields as spans into the file.
#[derive(Clone, Copy)]
struct Fields {
    in_entry: bool,
    name: (usize, usize),
    generic_name: (usize, usize),
    exec_line: (usize, usize),
    icon: (usize, usize),
    keywords: (usize, usize),
    no_display: bool,
    hidden: bool,
    terminal: bool,
    rejected: bool,
}

spec fn span_ok(s: (usize, usize), n: nat) -> bool {
    s.0 <= s.1 <= n
}

spec fn fields_ok(f: Fields, n: nat) -> bool {
    span_ok(f.name, n) && span_ok(f.generic_name, n) && span_ok(f.exec_line, n) && span_ok(
        f.icon,
        n,
    ) && span_ok(f.keywords, n)
}

spec fn text_of(v: Seq<char>, s: (usize, usize)) -> Seq<char> {
    v.subrange(s.0 as int, s.1 as int)
}

spec fn model(v: Seq<char>, f: Fields) -> DesktopFields {
    DesktopFields {
        in_entry: f.in_entry,
        name: text_of(v, f.name),
        generic_name: text_of(v, f.generic_name),
        exec_line: text_of(v, f.exec_line),
        icon: text_of(v, f.icon),
        keywords: text_of(v, f.keywords),
        no_display: f.no_display,
        hidden: f.hidden,
        terminal: f.terminal,
        rejected: f.rejected,
    }
}

/// The literals the parser compares against.
struct Keys {
    name: Vec<char>,
    generic_name: Vec<char>,
    exec_line: Vec<char>,
    icon: Vec<char>,
    keywords: Vec<char>,
    no_display: Vec<char>,
    hidden: Vec<char>,
    terminal: Vec<char>,
    type_key: Vec<char>,
    application: Vec<char>,
    true_word: Vec<char>,
    section: Vec<char>,
}

spec fn keys_ok(k: Keys) -> bool {
    &&& k.name@ == "Name"@
    &&& k.generic_name@ == "GenericName"@
    &&& k.exec_line@ == "Exec"@
    &&& k.icon@ == "Icon"@
    &&& k.keywords@ == "Keywords"@
    &&& k.no_display@ == "NoDisplay"@
    &&& k.hidden@ == "Hidden"@
    &&& k.terminal@ == "Terminal"@
    &&& k.type_key@ == "Type"@
    &&& k.application@ == "Application"@
    &&& k.true_word@ == "true"@
    &&& k.section@ == "[Desktop Entry]"@
}

fn make_keys() -> (r: Keys)
    ensures
        keys_ok(r),
{
    Keys {
        name: chars_of("Name"),
        generic_name: chars_of("GenericName"),
        exec_line: chars_of("Exec"),
        icon: chars_of("Icon"),
        keywords: chars_of("Keywords"),
        no_display: chars_of("NoDisplay"),
        hidden: chars_of("Hidden"),
        terminal: chars_of("Terminal"),
        type_key: chars_of("Type"),
        application: chars_of("Application"),
        true_word: chars_of("true"),
        section: chars_of("[Desktop Entry]"),
    }
}

fn apply_key_exec(v: &Vec<char>, st: Fields, k: (usize, usize), val: (usize, usize), keys: &Keys) -> (r:
    Fields)
    requires
        keys_ok(*keys),
        fields_ok(st, v@.len()),
        span_ok(k, v@.len()),
        span_ok(val, v@.len()),
    ensures
        fields_ok(r, v@.len()),
        model(v@, r) == apply_key(model(v@, st), text_of(v@, k), text_of(v@, val)),
{
    let (ka, kb) = k;
    let (va, vb) = val;
    let ghost m = model(v@, st);
    let ghost kk = text_of(v@, k);
    let ghost vv = text_of(v@, val);
    let mut r = st;
    if span_eq(v, ka, kb, &keys.name) {
        if st.name.0 == st.name.1 {
            r.name = val;
        }
    } else if span_eq(v, ka, kb, &keys.generic_name) {
        if st.generic_name.0 == st.generic_name.1 {
            r.generic_name = val;
        }
    } else if span_eq(v, ka, kb, &keys.exec_line) {
        if st.exec_line.0 == st.exec_line.1 {
            r.exec_line = val;
        }
    } else if span_eq(v, ka, kb, &keys.icon) {
        if st.icon.0 == st.icon.1 {
            r.icon = val;
        }
    } else if span_eq(v, ka, kb, &keys.keywords) {
        if st.keywords.0 == st.keywords.1 {
            r.keywords = val;
        }
    } else if span_eq(v, ka, kb, &keys.no_display) {
        r.no_display = span_eq_ignore_ascii_case(v, va, vb, &keys.true_word);
    } else if span_eq(v, ka, kb, &keys.hidden) {
        r.hidden = span_eq_ignore_ascii_case(v, va, vb, &keys.true_word);
    } else if span_eq(v, ka, kb, &keys.terminal) {
        r.terminal = span_eq_ignore_ascii_case(v, va, vb, &keys.true_word);
    } else if span_eq(v, ka, kb, &keys.type_key) && !span_eq(v, va, vb, &keys.application) {
        r.rejected = true;
    }
    assert(model(v@, r) =~~= apply_key(m, kk, vv));
    r
}

fn step_exec(v: &Vec<char>, lo: usize, hi: usize, st: Fields, keys: &Keys) -> (r: Fields)
    requires
        lo <= hi <= v.len(),
        keys_ok(*keys),
        fields_ok(st, v@.len()),
    ensures
        fields_ok(r, v@.len()),
        model(v@, r) == desktop_step(model(v@, st), v@.subrange(lo as int, hi as int)),
{
    let ghost line = v@.subrange(lo as int, hi as int);
    if st.rejected {
        return st;
    }
    let (a, b) = trim_span(v, lo, hi);
    let ghost l = v@.subrange(a as int, b as int);
    assert(l == trim(line));
    if a < b {
        assert(l[0] == v@[a as int]);
    }
    if a < b && v[a] == '[' {
        let mut r = st;
        r.in_entry = span_eq(v, a, b, &keys.section);
        assert(model(v@, r) =~~= desktop_step(model(v@, st), line));
        return r;
    }
    if !st.in_entry || (a < b && v[a] == '#') {
        return st;
    }
    let e = find_char(v, a, b, '=');
    if e == b {
        proof {
            assert forall|j: int| 0 <= j < l.len() implies l[j] != '=' by {
                assert(l[j] == v@[a + j]);
            }
            lemma_split_once_none(l, '=');
        }
        return st;
    }
    proof {
        assert forall|j: int| 0 <= j < e - a implies l[j] != '=' by {
            assert(l[j] == v@[a + j]);
        }
        assert(l[e - a] == v@[e as int]);
        assert(is_first(l, '=', e - a));
        lemma_split_once_at(l, '=', e - a);
        assert(l.take(e - a) =~= v@.subrange(a as int, e as int));
        assert(l.skip(e - a + 1) =~= v@.subrange(e + 1, b as int));
    }
    let k = trim_span(v, a, e);
    let val = trim_span(v, e + 1, b);
    apply_key_exec(v, st, k, val, keys)
}

/// The keyword text of the spans `generic` and `keywords` of `v`.
fn keyword_string(v: &Vec<char>, generic: (usize, usize), keywords: (usize, usize)) -> (r: Option<
    String,
>)
    requires
        span_ok(generic, v@.len()),
        span_ok(keywords, v@.len()),
    ensures
        r.deep_view() == keyword_text(text_of(v@, generic), text_of(v@, keywords)),
{
    let g_empty = generic.0 == generic.1;
    let k_empty = keywords.0 == keywords.1;
    if g_empty && k_empty {
        None
    } else if g_empty {
        Some(string_of(v, keywords.0, keywords.1))
    } else if k_empty {
        Some(string_of(v, generic.0, generic.1))
    } else {
        let mut s = string_of(v, generic.0, generic.1);
        s.append(" ");
        s.append(string_of(v, keywords.0, keywords.1).as_str());
        proof {
            reveal_strlit(" ");
            assert(" "@ =~= seq![' ']);
        }
        assert(s@ =~= text_of(v@, generic) + seq![' '] + text_of(v@, keywords));
        Some(s)
    }
}

/// Parses the `.desktop` file `raw` found at `path` into an application entry.
pub fn parse_desktop(raw: &str, path: &str) -> (r: Option<Entry>)
    ensures
        match r {
            Some(e) => desktop_entry(raw@, path@) == Some(e@),
            None => desktop_entry(raw@, path@) is None,
        },
{
    let v = chars_of(raw);
    let keys = make_keys();
    let lines = split_spans(&v, '\n');
    let ghost all = split_on(v@, '\n');
    let mut st = Fields {
        in_entry: false,
        name: (0, 0),
        generic_name: (0, 0),
        exec_line: (0, 0),
        icon: (0, 0),
        keywords: (0, 0),
        no_display: false,
        hidden: false,
        terminal: false,
        rejected: false,
    };
    assert(v@.subrange(0, 0) =~= Seq::<char>::empty());
    assert(model(v@, st) =~~= initial_fields());
    assert(all.take(0) =~= Seq::<Seq<char>>::empty());
    let mut i: usize = 0;
    while i < lines.len()
        invariant
            i <= lines@.len() == all.len(),
            all == split_on(v@, '\n'),
            keys_ok(keys),
            fields_ok(st, v@.len()),
            forall|k: int|
                0 <= k < lines@.len() ==> {
                    &&& lines@[k].0 <= lines@[k].1 <= v@.len()
                    &&& v@.subrange(#[trigger] lines@[k].0 as int, lines@[k].1 as int) == all[k]
                },
            model(v@, st) == desktop_fold(all.take(i as int)),
        decreases lines@.len() - i,
    {
        let (lo, hi) = lines[i];
        assert(v@.subrange(lines@[i as int].0 as int, lines@[i as int].1 as int) == all[i as int]);
        assert(all.take(i + 1).drop_last() =~= all.take(i as int));
        assert(all.take(i + 1).last() == all[i as int]);
        st = step_exec(&v, lo, hi, st, &keys);
        i += 1;
    }
    assert(all.take(all.len() as int) =~= all);
    let ghost f = model(v@, st);
    if st.rejected || st.no_display || st.hidden || st.name.0 == st.name.1 || st.exec_line.0
        == st.exec_line.1 {
        return None;
    }
    let icon = if st.icon.0 == st.icon.1 {
        None
    } else {
        Some(string_of(&v, st.icon.0, st.icon.1))
    };
    let description = if st.generic_name.0 == st.generic_name.1 {
        let p = chars_of(path);
        parent_name_of(&p)
    } else {
        Some(string_of(&v, st.generic_name.0, st.generic_name.1))
    };
    let keywords = keyword_string(&v, st.generic_name, st.keywords);
    let e = Entry {
        name: string_of(&v, st.name.0, st.name.1),
        description,
        icon,
        kind: EntryKind::App {
            exec_line: string_of(&v, st.exec_line.0, st.exec_line.1),
            terminal: st.terminal,
        },
        priority: 0,
        keywords,
    };
    assert(e@ =~~= desktop_entry(raw@, path@).unwrap());
    Some(e)
}

/// `exec` with its field codes removed: `%%` becomes `%`, and `%` with the
/// character after it (or a trailing lone `%`) is dropped.
pub open spec fn strip_codes(s: Seq<char>) -> Seq<char>
    decreases s.len(),
{
    if s.len() == 0 {
        s
    } else if s[0] == '%' {
        if s.len() >= 2 && s[1] == '%' {
            seq!['%'] + strip_codes(s.skip(2))
        } else if s.len() >= 2 {
            strip_codes(s.skip(2))
        } else {
            Seq::empty()
        }
    } else {
        seq![s[0]] + strip_codes(s.skip(1))
    }
}

/// Strip %u, %U, %f, %F, %i, %c, %k field codes from Exec values, then trim.
/// Per the desktop spec, `%%` is an escaped literal percent sign.
pub fn strip_field_codes(exec: &str) -> (r: String)
    ensures
        r@ == trim(strip_codes(exec@)),
{
    let v = chars_of(exec);
    let mut out: Vec<char> = Vec::new();
    let mut i: usize = 0;
    assert(v@.skip(0) =~= v@);
    while i < v.len()
        invariant
            i <= v.len(),
            strip_codes(v@) == out@ + strip_codes(v@.skip(i as int)),
        decreases v.len() - i,
    {
        let ghost rest = v@.skip(i as int);
        assert(rest[0] == v@[i as int]);
        if v[i] == '%' {
            if i + 1 < v.len() {
                assert(rest[1] == v@[i + 1]);
                assert(rest.skip(2) =~= v@.skip(i + 2));
                if v[i + 1] == '%' {
                    out.push('%');
                }
                i += 2;
            } else {
                assert(v@.skip(i + 1) =~= Seq::<char>::empty());
                i += 1;
            }
        } else {
            assert(rest.skip(1) =~= v@.skip(i + 1));
            out.push(v[i]);
            i += 1;
        }
    }
    assert(v@.skip(i as int) =~= Seq::<char>::empty());
    assert(out@ + Seq::<char>::empty() =~= out@);
    let (a, b) = trim_span(&out, 0, out.len());
    assert(out@.subrange(0, out@.len() as int) =~= out@);
    string_of(&out, a, b)
}

/// What `shell_words::split` returns for `s`: the words of a POSIX shell
/// command line, or `None` when a quote is left open.
pub uninterp spec fn shell_split(s: Seq<char>) -> Option<Seq<Seq<char>>>;

/// `shell_words::split`: the words of `s` as its parser reads them, or
/// `None` when it reports a missing closing quote. The words are named by
/// [`shell_split`]; nothing more is claimed of them.
#[verifier::external_body]
fn split_words(s: &str) -> (r: Option<Vec<String>>)
    ensures
        match r {
            Some(w) => shell_split(s@) == Some(w.deep_view()),
            None => shell_split(s@) is None,
        },
{
    match shell_words::split(s) {
        Ok(words) => Some(words),
        Err(_) => None,
    }
}

/// The argv an Exec value runs: its shell words, unless there are none or
/// they cannot be read.
pub open spec fn exec_argv(cmd: Seq<char>) -> Option<Seq<Seq<char>>> {
    match shell_split(cmd) {
        Some(words) => if words.len() > 0 {
            Some(words)
        } else {
            None
        },
        None => None,
    }
}

/// Splits an Exec value into its argv.
pub fn parse_exec(exec: &str) -> (r: Option<Vec<String>>)
    ensures
        match r {
            Some(w) => exec_argv(exec@) == Some(w.deep_view()),
            None => exec_argv(exec@) is None,
        },
{
    match split_words(exec) {
        Some(args) => {
            if args.len() > 0 {
                Some(args)
            } else {
                None
            }
        },
        None => None,
    }
}

/// A file found in an applications directory. `contents` is the text of the
/// file when it was read.
pub struct DesktopFile {
    pub dir: String,
    pub file_name: String,
    pub contents: Option<String>,
}

pub struct DesktopFileModel {
    pub dir: Seq<char>,
    pub file_name: Seq<char>,
    pub contents: Option<Seq<char>>,
}

impl View for DesktopFile {
    type V = DesktopFileModel;

    open spec fn view(&self) -> DesktopFileModel {
        DesktopFileModel {
            dir: self.dir@,
            file_name: self.file_name@,
            contents: self.contents.deep_view(),
        }
    }
}

/// Whether a file name has the `desktop` extension (`Path::extension`).
pub open spec fn has_desktop_ext(n: Seq<char>) -> bool {
    n.len() > 8 && n.subrange(n.len() - 8, n.len() as int) == ".desktop"@
}

/// Whether the scan reads file `i`: a `.desktop` file whose name (its
/// desktop file ID) no earlier file carries. Earlier directories shadow later
/// ones, whether or not the earlier file turns out to be usable.
pub open spec fn wanted(files: Seq<DesktopFileModel>, i: int) -> bool {
    first_desktop_id(files.map_values(|f: DesktopFileModel| f.file_name), i)
}

/// Whether `names[i]` has the `desktop` extension and no earlier name is the
/// same.
pub open spec fn first_desktop_id(names: Seq<Seq<char>>, i: int) -> bool {
    has_desktop_ext(names[i]) && forall|j: int| 0 <= j < i ==> #[trigger] names[j] != names[i]
}

/// The entries of the first `n` files: those that are wanted, were read, and
/// parse as a visible application.
pub open spec fn apps_from(files: Seq<DesktopFileModel>, n: nat) -> Seq<EntryModel>
    decreases n,
{
    if n == 0 {
        Seq::empty()
    } else {
        let prev = apps_from(files, (n - 1) as nat);
        let f = files[n - 1];
        if wanted(files, n - 1) {
            match f.contents {
                Some(c) => match desktop_entry(c, join_path(f.dir, f.file_name)) {
                    Some(e) => prev.push(e),
                    None => prev,
                },
                None => prev,
            }
        } else {
            prev
        }
    }
}

/// The models of a sequence of entries.
pub open spec fn models(s: Seq<Entry>) -> Seq<EntryModel> {
    s.map_values(|e: Entry| e@)
}

/// The applications plugin; `terminal` runs `Terminal=true` entries.
pub struct AppsPlugin {
    pub terminal: Option<String>,
}

fn file_is_wanted(names: &Vec<Vec<char>>, i: usize, ext: &Vec<char>) -> (r: bool)
    requires
        i < names.len(),
        ext@ == ".desktop"@,
    ensures
        r == first_desktop_id(names@.map_values(|v: Vec<char>| v@), i as int),
{
    let n = &names[i];
    if n.len() <= 8 {
        return false;
    }
    if !span_eq(n, n.len() - 8, n.len(), ext) {
        return false;
    }
    let ghost ns = names@.map_values(|v: Vec<char>| v@);
    let mut j: usize = 0;
    while j < i
        invariant
            j <= i < names.len(),
            ns == names@.map_values(|v: Vec<char>| v@),
            forall|k: int| 0 <= k < j ==> ns[k] != ns[i as int],
            n@ == names@[i as int]@,
            forall|k: int| 0 <= k < j ==> names@[k]@ != names@[i as int]@,
        decreases i - j,
    {
        let m = &names[j];
        assert(m@ == names@[j as int]@);
        assert(n@ == names@[i as int]@);
        assert(m@.subrange(0, m@.len() as int) =~= m@);
        if span_eq(m, 0, m.len(), n) {
            assert(names@[j as int]@ == names@[i as int]@);
            assert(ns[j as int] == ns[i as int]);
            return false;
        }
        assert(names@[j as int]@ != names@[i as int]@);
        assert(ns[j as int] != ns[i as int]);
        j += 1;
    }
    assert(ns[i as int] == n@);
    true
}

fn file_names(files: &Vec<DesktopFile>) -> (r: Vec<Vec<char>>)
    ensures
        r@.len() == files@.len(),
        forall|i: int| 0 <= i < r@.len() ==> (#[trigger] r@[i])@ == files@[i].file_name@,
{
    let mut out: Vec<Vec<char>> = Vec::new();
    let mut i: usize = 0;
    while i < files.len()
        invariant
            i <= files.len(),
            out@.len() == i,
            forall|k: int| 0 <= k < i ==> (#[trigger] out@[k])@ == files@[k].file_name@,
        decreases files.len() - i,
    {
        out.push(chars_of(files[i].file_name.as_str()));
        i += 1;
    }
    out
}

impl AppsPlugin {
    pub fn new(terminal: Option<String>) -> (r: Self)
        ensures
            r.terminal == terminal,
    {
        AppsPlugin { terminal }
    }

    /// Which of the files found in the applications directories (listed in
    /// directory priority order) the scan reads.
    pub fn files_to_read(files: &Vec<DesktopFile>) -> (r: Vec<bool>)
        ensures
            r@.len() == files@.len(),
            forall|i: int|
                0 <= i < r@.len() ==> r@[i] == wanted(files@.map_values(|f: DesktopFile| f@), i),
    {
        let ghost fs = files@.map_values(|f: DesktopFile| f@);
        let names = file_names(files);
        let ext = chars_of(".desktop");
        let mut out: Vec<bool> = Vec::new();
        let mut i: usize = 0;
        while i < files.len()
            invariant
                i <= files.len() == names@.len(),
                fs == files@.map_values(|f: DesktopFile| f@),
                ext@ == ".desktop"@,
                forall|k: int| 0 <= k < names@.len() ==> (#[trigger] names@[k])@ == files@[k].file_name@,
                out@.len() == i,
                forall|k: int| 0 <= k < i ==> out@[k] == wanted(fs, k),
            decreases files.len() - i,
        {
            let w = file_is_wanted(&names, i, &ext);
            proof {
                let ns = names@.map_values(|v: Vec<char>| v@);
                let fns = fs.map_values(|f: DesktopFileModel| f.file_name);
                assert forall|k: int| 0 <= k < names@.len() implies #[trigger] ns[k] == fns[k] by {
                    assert(fs[k] == files@[k]@);
                    assert(names@[k]@ == files@[k].file_name@);
                }
                assert(ns =~= fns);
            }
            let ghost prev = out@;
            out.push(w);
            assert(w == wanted(fs, i as int));
            assert forall|k: int| 0 <= k < i + 1 implies out@[k] == wanted(fs, k) by {
                if k < i {
                    assert(out@[k] == prev[k]);
                }
            }
            i += 1;
        }
        out
    }

    /// Adds the applications described by `files` (found in the applications
    /// directories, in priority order) to `out`.
    pub fn scan(&self, files: &Vec<DesktopFile>, out: &mut Vec<Entry>)
        ensures
            models(final(out)@) == models(old(out)@) + apps_from(
                files@.map_values(|f: DesktopFile| f@),
                files@.len(),
            ),
    {
        let ghost fs = files@.map_values(|f: DesktopFile| f@);
        let flags = Self::files_to_read(files);
        let ghost start = models(out@);
        let mut i: usize = 0;
        while i < files.len()
            invariant
                i <= files.len() == flags@.len(),
                fs == files@.map_values(|f: DesktopFile| f@),
                forall|k: int| 0 <= k < flags@.len() ==> flags@[k] == wanted(fs, k),
                models(out@) == start + apps_from(fs, i as nat),
            decreases files.len() - i,
        {
            let f = &files[i];
            assert(fs[i as int] == f@);
            if flags[i] {
                if let Some(c) = &f.contents {
                    let d = chars_of(f.dir.as_str());
                    let n = chars_of(f.file_name.as_str());
                    let p = join(&d, &n);
                    let ps = crate::text::string_of_all(&p);
                    if let Some(e) = parse_desktop(c.as_str(), ps.as_str()) {
                        let ghost before = out@;
                        out.push(e);
                        assert(models(out@) =~= models(before).push(e@));
                    }
                }
            }
            i += 1;
        }
    }
}

/// What launching entry `e` of the applications plugin runs: its Exec value
/// without field codes, split into words, either directly or in a terminal.
pub open spec fn app_launches(terminal: Option<Seq<char>>, e: EntryModel) -> Seq<
    (Seq<char>, Seq<Seq<char>>),
> {
    match e.kind {
        KindModel::App { exec_line, terminal: in_terminal } => match exec_argv(
            trim(strip_codes(exec_line)),
        ) {
            Some(argv) => if in_terminal {
                terminal_launches(argv, terminal, None)
            } else {
                seq![(argv[0], argv.drop_first())]
            },
            None => Seq::empty(),
        },
        _ => Seq::empty(),
    }
}

impl Plugin for AppsPlugin {
    fn name(&self) -> (r: String)
        ensures
            r@ == "apps"@,
    {
        String::from_str("apps")
    }

    fn launch(&self, entry: &Entry) -> (r: Vec<Launch>)
        ensures
            launches_are(r@, app_launches(self.terminal.deep_view(), entry@)),
    {
        if let EntryKind::App { exec_line, terminal } = &entry.kind {
            let cmd = strip_field_codes(exec_line.as_str());
            let argv = match parse_exec(cmd.as_str()) {
                Some(a) => a,
                None => return Vec::new(),
            };
            if *terminal {
                let term = match &self.terminal {
                    Some(t) => Some(t.as_str()),
                    None => None,
                };
                assert(opt_str(term) == self.terminal.deep_view());
                launch_in_terminal(&argv, term, None)
            } else {
                let mut out: Vec<Launch> = Vec::new();
                if let Some(l) = launch_detached(&argv) {
                    out.push(l);
                }
                out
            }
        } else {
            Vec::new()
        }
    }
}

/// The applications directories: `$HOME/.local/share/applications` first
/// when `HOME` is set, then `applications` under each entry of
/// `XDG_DATA_DIRS` (`/usr/local/share:/usr/share` when unset).
pub open spec fn application_dirs(data_dirs: Option<Seq<char>>, home: Option<Seq<char>>) -> Seq<
    Seq<char>,
> {
    let dd = match data_dirs {
        Some(d) => d,
        None => "/usr/local/share:/usr/share"@,
    };
    let system = split_on(dd, ':').map_values(|d: Seq<char>| join_path(d, "applications"@));
    match home {
        Some(h) => seq![join_path(h, ".local/share/applications"@)] + system,
        None => system,
    }
}

/// The applications directories, from the values of `XDG_DATA_DIRS` and
/// `HOME` (`None` where unset).
pub fn xdg_application_dirs(data_dirs: Option<&str>, home: Option<&str>) -> (r: Vec<String>)
    ensures
        r.deep_view() == application_dirs(opt_str(data_dirs), opt_str(home)),
{
    let dd = match data_dirs {
        Some(d) => chars_of(d),
        None => chars_of("/usr/local/share:/usr/share"),
    };
    let ghost gdd = match opt_str(data_dirs) {
        Some(d) => d,
        None => "/usr/local/share:/usr/share"@,
    };
    assert(dd@ == gdd);
    let app = chars_of("applications");
    let spans = split_spans(&dd, ':');
    assert(forall|k: int|
        0 <= k < spans@.len() ==> {
            &&& spans@[k].0 <= spans@[k].1 <= dd@.len()
            &&& dd@.subrange(#[trigger] spans@[k].0 as int, spans@[k].1 as int) == split_on(dd@, ':')[k]
        });
    let ghost pieces = split_on(gdd, ':');
    let ghost system = pieces.map_values(|d: Seq<char>| join_path(d, "applications"@));
    let mut out: Vec<String> = Vec::new();
    if let Some(h) = home {
        let hv = chars_of(h);
        let rel = chars_of(".local/share/applications");
        out.push(crate::text::string_of_all(&join(&hv, &rel)));
    }
    let ghost head = out.deep_view();
    assert(pieces == split_on(dd@, ':'));
    let mut i: usize = 0;
    while i < spans.len()
        invariant
            i <= spans@.len() == pieces.len(),
            pieces == split_on(dd@, ':'),
            app@ == "applications"@,
            system == pieces.map_values(|d: Seq<char>| join_path(d, "applications"@)),
            forall|k: int|
                0 <= k < spans@.len() ==> {
                    &&& spans@[k].0 <= spans@[k].1 <= dd@.len()
                    &&& dd@.subrange(#[trigger] spans@[k].0 as int, spans@[k].1 as int) == split_on(
                        dd@,
                        ':',
                    )[k]
                },
            out@.len() == head.len() + i,
            out.deep_view() == head + system.take(i as int),
        decreases spans@.len() - i,
    {
        let (a, b) = spans[i];
        assert(dd@.subrange(spans@[i as int].0 as int, spans@[i as int].1 as int) == pieces[i as int]);
        let mut piece: Vec<char> = Vec::new();
        let mut j: usize = a;
        while j < b
            invariant
                a <= j <= b <= dd@.len(),
                piece@ == dd@.subrange(a as int, j as int),
            decreases b - j,
        {
            piece.push(dd[j]);
            assert(dd@.subrange(a as int, j + 1) =~= dd@.subrange(a as int, j as int).push(dd@[j as int]));
            j += 1;
        }
        let s = crate::text::string_of_all(&join(&piece, &app));
        let ghost prev = out@;
        let ghost prev_deep = out.deep_view();
        out.push(s);
        assert forall|k: int| 0 <= k < out@.len() implies #[trigger] out.deep_view()[k] == (head
            + system.take(i + 1))[k] by {
            if k < prev.len() {
                assert(out@[k] == prev[k]);
                assert(prev_deep[k] == prev[k].deep_view());
            }
        }
        assert(out.deep_view() =~= head + system.take(i + 1));
        i += 1;
    }
    assert(system.take(spans@.len() as int) =~= system);
    out
}

/// The applications scan reads each desktop file ID at most once: of the
/// files sharing a name, only the first (from the highest-priority
/// directory) is read, and a file whose name an earlier one carries never is.
pub proof fn lemma_desktop_ids_read_once(files: Seq<DesktopFileModel>, i: int, j: int)
    requires
        0 <= i < j < files.len(),
        files[i].file_name == files[j].file_name,
    ensures
        !wanted(files, j),
{
    let names = files.map_values(|f: DesktopFileModel| f.file_name);
    assert(names[i] == names[j]);
}

/// Whether, after the first `n` lines, the current section is
/// `[Desktop Entry]`: the latest `[...]` line among them is that header.
pub open spec fn in_entry_section(lines: Seq<Seq<char>>, n: nat) -> bool
    decreases n,
{
    if n == 0 {
        false
    } else {
        let l = trim(lines[n - 1]);
        if l.len() > 0 && l[0] == '[' {
            l == "[Desktop Entry]"@
        } else {
            in_entry_section(lines, (n - 1) as nat)
        }
    }
}

/// The trimmed key and value of line `i` when it is a `key=value` line of
/// the `[Desktop Entry]` section (split at its first `=`; `[...]` and `#`
/// lines are none).
pub open spec fn entry_pair(lines: Seq<Seq<char>>, i: int) -> Option<(Seq<char>, Seq<char>)> {
    let l = trim(lines[i]);
    if l.len() > 0 && l[0] == '[' {
        None
    } else if !in_entry_section(lines, i as nat) || (l.len() > 0 && l[0] == '#') {
        None
    } else {
        match split_once(l, '=') {
            Some((k, v)) => Some((trim(k), trim(v))),
            None => None,
        }
    }
}

/// Whether line `i` sets `key` in the `[Desktop Entry]` section.
pub open spec fn sets_key(lines: Seq<Seq<char>>, i: int, key: Seq<char>) -> bool {
    entry_pair(lines, i) is Some && entry_pair(lines, i).unwrap().0 == key
}

/// The value line `i` gives its key.
pub open spec fn value_at(lines: Seq<Seq<char>>, i: int) -> Seq<char> {
    entry_pair(lines, i).unwrap().1
}

/// Whether one of the first `n` lines gives `key` a non-empty value.
pub open spec fn has_value(lines: Seq<Seq<char>>, n: nat, key: Seq<char>) -> bool {
    exists|i: int| 0 <= i < n && #[trigger] sets_key(lines, i, key) && value_at(lines, i).len() > 0
}

/// Whether one of the first `n` lines gives `Type` a value other than
/// `Application`.
pub open spec fn other_type(lines: Seq<Seq<char>>, n: nat) -> bool {
    exists|i: int|
        0 <= i < n && #[trigger] sets_key(lines, i, "Type"@) && value_at(lines, i) != "Application"@
}

/// Whether the last of the first `n` lines that sets `key` gives it the
/// value `true`, ignoring ASCII case.
pub open spec fn last_is_true(lines: Seq<Seq<char>>, n: nat, key: Seq<char>) -> bool {
    exists|i: int|
        0 <= i < n && #[trigger] sets_key(lines, i, key) && eq_ignore_ascii_case(
            value_at(lines, i),
            "true"@,
        ) && forall|j: int| i < j < n ==> !#[trigger] sets_key(lines, j, key)
}

/// Whether `v` is the value of the first of the first `n` lines that gives
/// `key` a non-empty value.
pub open spec fn first_value_is(lines: Seq<Seq<char>>, n: nat, key: Seq<char>, v: Seq<char>) -> bool {
    exists|i: int|
        0 <= i < n && #[trigger] sets_key(lines, i, key) && value_at(lines, i) == v && v.len() > 0
            && forall|j: int|
            0 <= j < i ==> !(#[trigger] sets_key(lines, j, key) && value_at(lines, j).len() > 0)
}

proof fn lemma_first_value_step(lines: Seq<Seq<char>>, n: nat, key: Seq<char>, v: Seq<char>)
    requires
        n < lines.len(),
    ensures
        first_value_is(lines, n, key, v) ==> first_value_is(lines, (n + 1) as nat, key, v),
        !has_value(lines, n, key) && sets_key(lines, n as int, key) && value_at(
            lines,
            n as int,
        ).len() > 0 ==> first_value_is(lines, (n + 1) as nat, key, value_at(lines, n as int)),
{
    if first_value_is(lines, n, key, v) {
        let i = choose|i: int|
            0 <= i < n && #[trigger] sets_key(lines, i, key) && value_at(lines, i) == v && v.len()
                > 0 && forall|j: int|
                0 <= j < i ==> !(#[trigger] sets_key(lines, j, key) && value_at(lines, j).len()
                    > 0);
        assert(0 <= i < n + 1);
    }
    if !has_value(lines, n, key) && sets_key(lines, n as int, key) && value_at(lines, n as int).len()
        > 0 {
        assert forall|j: int| 0 <= j < n implies !(#[trigger] sets_key(lines, j, key) && value_at(
            lines,
            j,
        ).len() > 0) by {}
    }
}

proof fn lemma_last_is_true_step(lines: Seq<Seq<char>>, n: nat, key: Seq<char>)
    requires
        n < lines.len(),
    ensures
        sets_key(lines, n as int, key) ==> (last_is_true(lines, (n + 1) as nat, key)
            <==> eq_ignore_ascii_case(value_at(lines, n as int), "true"@)),
        !sets_key(lines, n as int, key) ==> (last_is_true(lines, (n + 1) as nat, key)
            <==> last_is_true(lines, n, key)),
{
    if sets_key(lines, n as int, key) {
        if last_is_true(lines, (n + 1) as nat, key) {
            let i = choose|i: int|
                0 <= i < n + 1 && #[trigger] sets_key(lines, i, key) && eq_ignore_ascii_case(
                    value_at(lines, i),
                    "true"@,
                ) && forall|j: int| i < j < n + 1 ==> !#[trigger] sets_key(lines, j, key);
            if i < n {
                assert(!sets_key(lines, n as int, key));
            }
        }
        if eq_ignore_ascii_case(value_at(lines, n as int), "true"@) {
            assert(forall|j: int| n < j < n + 1 ==> !#[trigger] sets_key(lines, j, key));
        }
    } else {
        if last_is_true(lines, (n + 1) as nat, key) {
            let i = choose|i: int|
                0 <= i < n + 1 && #[trigger] sets_key(lines, i, key) && eq_ignore_ascii_case(
                    value_at(lines, i),
                    "true"@,
                ) && forall|j: int| i < j < n + 1 ==> !#[trigger] sets_key(lines, j, key);
            assert(i < n);
            assert(forall|j: int| i < j < n ==> !#[trigger] sets_key(lines, j, key));
        }
        if last_is_true(lines, n, key) {
            let i = choose|i: int|
                0 <= i < n && #[trigger] sets_key(lines, i, key) && eq_ignore_ascii_case(
                    value_at(lines, i),
                    "true"@,
                ) && forall|j: int| i < j < n ==> !#[trigger] sets_key(lines, j, key);
            assert forall|j: int| i < j < n + 1 implies !#[trigger] sets_key(lines, j, key) by {
                if j < n {
                } else {
                    assert(j == n);
                }
            }
        }
    }
}

proof fn lemma_has_value_step(lines: Seq<Seq<char>>, n: nat, key: Seq<char>)
    requires
        n < lines.len(),
    ensures
        has_value(lines, (n + 1) as nat, key) <==> (has_value(lines, n, key) || (sets_key(
            lines,
            n as int,
            key,
        ) && value_at(lines, n as int).len() > 0)),
        other_type(lines, (n + 1) as nat) <==> (other_type(lines, n) || (sets_key(
            lines,
            n as int,
            "Type"@,
        ) && value_at(lines, n as int) != "Application"@)),
{
    if has_value(lines, (n + 1) as nat, key) {
        let i = choose|i: int|
            0 <= i < n + 1 && #[trigger] sets_key(lines, i, key) && value_at(lines, i).len() > 0;
        if i < n {
            assert(has_value(lines, n, key));
        }
    }
    if has_value(lines, n, key) {
        let i = choose|i: int|
            0 <= i < n && #[trigger] sets_key(lines, i, key) && value_at(lines, i).len() > 0;
        assert(0 <= i < n + 1);
    }
    if sets_key(lines, n as int, key) && value_at(lines, n as int).len() > 0 {
        assert(0 <= n < n + 1);
    }
    if other_type(lines, (n + 1) as nat) {
        let i = choose|i: int|
            0 <= i < n + 1 && #[trigger] sets_key(lines, i, "Type"@) && value_at(lines, i)
                != "Application"@;
        if i < n {
            assert(other_type(lines, n));
        }
    }
    if other_type(lines, n) {
        let i = choose|i: int|
            0 <= i < n && #[trigger] sets_key(lines, i, "Type"@) && value_at(lines, i)
                != "Application"@;
        assert(0 <= i < n + 1);
    }
}


/// The keys the parser looks for are different words.
proof fn lemma_keys_distinct()
    ensures
        "Name"@ != "GenericName"@,
        "Name"@ != "Exec"@,
        "Name"@ != "Icon"@,
        "Name"@ != "Keywords"@,
        "Name"@ != "NoDisplay"@,
        "Name"@ != "Hidden"@,
        "Name"@ != "Terminal"@,
        "Name"@ != "Type"@,
        "GenericName"@ != "Exec"@,
        "GenericName"@ != "Icon"@,
        "GenericName"@ != "Keywords"@,
        "GenericName"@ != "NoDisplay"@,
        "GenericName"@ != "Hidden"@,
        "GenericName"@ != "Terminal"@,
        "GenericName"@ != "Type"@,
        "Exec"@ != "Icon"@,
        "Exec"@ != "Keywords"@,
        "Exec"@ != "NoDisplay"@,
        "Exec"@ != "Hidden"@,
        "Exec"@ != "Terminal"@,
        "Exec"@ != "Type"@,
        "Icon"@ != "Keywords"@,
        "Icon"@ != "NoDisplay"@,
        "Icon"@ != "Hidden"@,
        "Icon"@ != "Terminal"@,
        "Icon"@ != "Type"@,
        "Keywords"@ != "NoDisplay"@,
        "Keywords"@ != "Hidden"@,
        "Keywords"@ != "Terminal"@,
        "Keywords"@ != "Type"@,
        "NoDisplay"@ != "Hidden"@,
        "NoDisplay"@ != "Terminal"@,
        "NoDisplay"@ != "Type"@,
        "Hidden"@ != "Terminal"@,
        "Hidden"@ != "Type"@,
        "Terminal"@ != "Type"@,
{
    reveal_strlit("Name");
    reveal_strlit("GenericName");
    reveal_strlit("Exec");
    reveal_strlit("Icon");
    reveal_strlit("Keywords");
    reveal_strlit("NoDisplay");
    reveal_strlit("Hidden");
    reveal_strlit("Terminal");
    reveal_strlit("Type");
    assert("Name"@ != "GenericName"@) by { assert("Name"@.len() != "GenericName"@.len()); }
    assert("Name"@ != "Exec"@) by { assert("Name"@[0] != "Exec"@[0]); }
    assert("Name"@ != "Icon"@) by { assert("Name"@[0] != "Icon"@[0]); }
    assert("Name"@ != "Keywords"@) by { assert("Name"@.len() != "Keywords"@.len()); }
    assert("Name"@ != "NoDisplay"@) by { assert("Name"@.len() != "NoDisplay"@.len()); }
    assert("Name"@ != "Hidden"@) by { assert("Name"@.len() != "Hidden"@.len()); }
    assert("Name"@ != "Terminal"@) by { assert("Name"@.len() != "Terminal"@.len()); }
    assert("Name"@ != "Type"@) by { assert("Name"@[0] != "Type"@[0]); }
    assert("GenericName"@ != "Exec"@) by { assert("GenericName"@.len() != "Exec"@.len()); }
    assert("GenericName"@ != "Icon"@) by { assert("GenericName"@.len() != "Icon"@.len()); }
    assert("GenericName"@ != "Keywords"@) by { assert("GenericName"@.len() != "Keywords"@.len()); }
    assert("GenericName"@ != "NoDisplay"@) by { assert("GenericName"@.len() != "NoDisplay"@.len()); }
    assert("GenericName"@ != "Hidden"@) by { assert("GenericName"@.len() != "Hidden"@.len()); }
    assert("GenericName"@ != "Terminal"@) by { assert("GenericName"@.len() != "Terminal"@.len()); }
    assert("GenericName"@ != "Type"@) by { assert("GenericName"@.len() != "Type"@.len()); }
    assert("Exec"@ != "Icon"@) by { assert("Exec"@[0] != "Icon"@[0]); }
    assert("Exec"@ != "Keywords"@) by { assert("Exec"@.len() != "Keywords"@.len()); }
    assert("Exec"@ != "NoDisplay"@) by { assert("Exec"@.len() != "NoDisplay"@.len()); }
    assert("Exec"@ != "Hidden"@) by { assert("Exec"@.len() != "Hidden"@.len()); }
    assert("Exec"@ != "Terminal"@) by { assert("Exec"@.len() != "Terminal"@.len()); }
    assert("Exec"@ != "Type"@) by { assert("Exec"@[0] != "Type"@[0]); }
    assert("Icon"@ != "Keywords"@) by { assert("Icon"@.len() != "Keywords"@.len()); }
    assert("Icon"@ != "NoDisplay"@) by { assert("Icon"@.len() != "NoDisplay"@.len()); }
    assert("Icon"@ != "Hidden"@) by { assert("Icon"@.len() != "Hidden"@.len()); }
    assert("Icon"@ != "Terminal"@) by { assert("Icon"@.len() != "Terminal"@.len()); }
    assert("Icon"@ != "Type"@) by { assert("Icon"@[0] != "Type"@[0]); }
    assert("Keywords"@ != "NoDisplay"@) by { assert("Keywords"@.len() != "NoDisplay"@.len()); }
    assert("Keywords"@ != "Hidden"@) by { assert("Keywords"@.len() != "Hidden"@.len()); }
    assert("Keywords"@ != "Terminal"@) by { assert("Keywords"@[0] != "Terminal"@[0]); }
    assert("Keywords"@ != "Type"@) by { assert("Keywords"@.len() != "Type"@.len()); }
    assert("NoDisplay"@ != "Hidden"@) by { assert("NoDisplay"@.len() != "Hidden"@.len()); }
    assert("NoDisplay"@ != "Terminal"@) by { assert("NoDisplay"@.len() != "Terminal"@.len()); }
    assert("NoDisplay"@ != "Type"@) by { assert("NoDisplay"@.len() != "Type"@.len()); }
    assert("Hidden"@ != "Terminal"@) by { assert("Hidden"@.len() != "Terminal"@.len()); }
    assert("Hidden"@ != "Type"@) by { assert("Hidden"@.len() != "Type"@.len()); }
    assert("Terminal"@ != "Type"@) by { assert("Terminal"@.len() != "Type"@.len()); }
}

/// What the parser has gathered after `n` lines, read against the lines
/// themselves.
proof fn lemma_fold_reads_lines(lines: Seq<Seq<char>>, n: nat)
    requires
        n <= lines.len(),
    ensures
        desktop_fold(lines.take(n as int)).rejected == other_type(lines, n),
        !other_type(lines, n) ==> {
            let st = desktop_fold(lines.take(n as int));
            &&& st.in_entry == in_entry_section(lines, n)
            &&& (st.name.len() > 0 <==> has_value(lines, n, "Name"@))
            &&& (st.exec_line.len() > 0 <==> has_value(lines, n, "Exec"@))
            &&& (st.name.len() > 0 ==> first_value_is(lines, n, "Name"@, st.name))
            &&& (st.exec_line.len() > 0 ==> first_value_is(lines, n, "Exec"@, st.exec_line))
            &&& st.no_display == last_is_true(lines, n, "NoDisplay"@)
            &&& st.hidden == last_is_true(lines, n, "Hidden"@)
            &&& st.terminal == last_is_true(lines, n, "Terminal"@)
        },
    decreases n,
{
    reveal_strlit("Name");
    reveal_strlit("GenericName");
    reveal_strlit("Exec");
    reveal_strlit("Icon");
    reveal_strlit("Keywords");
    reveal_strlit("NoDisplay");
    reveal_strlit("Hidden");
    reveal_strlit("Terminal");
    reveal_strlit("Type");
    if n == 0 {
        assert(lines.take(0) =~= Seq::<Seq<char>>::empty());
        assert(!other_type(lines, 0));
        assert(!has_value(lines, 0, "Name"@));
        assert(!has_value(lines, 0, "Exec"@));
        assert(!last_is_true(lines, 0, "NoDisplay"@));
        assert(!last_is_true(lines, 0, "Hidden"@));
        assert(!last_is_true(lines, 0, "Terminal"@));
        assert(desktop_fold(lines.take(0)) == initial_fields());
    } else {
        let m = (n - 1) as nat;
        lemma_fold_reads_lines(lines, m);
        assert(lines.take(n as int).drop_last() =~= lines.take(m as int));
        assert(lines.take(n as int).last() == lines[m as int]);
        let st = desktop_fold(lines.take(m as int));
        let nx = desktop_fold(lines.take(n as int));
        assert(nx == desktop_step(st, lines[m as int]));
        lemma_has_value_step(lines, m, "Name"@);
        lemma_has_value_step(lines, m, "Exec"@);
        lemma_last_is_true_step(lines, m, "NoDisplay"@);
        lemma_first_value_step(lines, m, "Name"@, st.name);
        lemma_first_value_step(lines, m, "Exec"@, st.exec_line);
        lemma_last_is_true_step(lines, m, "Hidden"@);
        lemma_last_is_true_step(lines, m, "Terminal"@);
        let l = trim(lines[m as int]);
        assert(in_entry_section(lines, n) == if l.len() > 0 && l[0] == '[' {
            l == "[Desktop Entry]"@
        } else {
            in_entry_section(lines, m)
        });
        if other_type(lines, m) {
            assert(st.rejected);
            assert(nx == st);
            assert(other_type(lines, n));
        } else if l.len() > 0 && l[0] == '[' {
            assert(entry_pair(lines, m as int) is None);
            assert(!sets_key(lines, m as int, "Type"@));
            assert(nx == DesktopFields { in_entry: l == "[Desktop Entry]"@, ..st });
        } else if !st.in_entry || (l.len() > 0 && l[0] == '#') {
            assert(entry_pair(lines, m as int) is None);
            assert(!sets_key(lines, m as int, "Type"@));
            assert(nx == st);
        } else {
            match split_once(l, '=') {
                Some((k, v)) => {
                    let kk = trim(k);
                    let vv = trim(v);
                    lemma_keys_distinct();
                    assert(entry_pair(lines, m as int) == Some((kk, vv)));
                    assert(value_at(lines, m as int) == vv);
                    assert(nx == apply_key(st, kk, vv));
                    assert(sets_key(lines, m as int, "Name"@) == (kk == "Name"@));
                    assert(sets_key(lines, m as int, "Exec"@) == (kk == "Exec"@));
                    assert(sets_key(lines, m as int, "Type"@) == (kk == "Type"@));
                    assert(sets_key(lines, m as int, "NoDisplay"@) == (kk == "NoDisplay"@));
                    assert(sets_key(lines, m as int, "Hidden"@) == (kk == "Hidden"@));
                    assert(sets_key(lines, m as int, "Terminal"@) == (kk == "Terminal"@));
                    assert(nx.in_entry == st.in_entry);
                },
                None => {
                    assert(entry_pair(lines, m as int) is None);
                    assert(!sets_key(lines, m as int, "Type"@));
                    assert(nx == st);
                },
            }
        }
    }
}

/// A `.desktop` file describes an entry exactly when its `[Desktop Entry]`
/// section gives `Name` and `Exec` non-empty values, gives `Type` no value
/// other than `Application`, and neither the last `NoDisplay` nor the last
/// `Hidden` is `true` (ignoring ASCII case).
pub proof fn lemma_desktop_entry_accepts(raw: Seq<char>, path: Seq<char>)
    ensures
        desktop_entry(raw, path) is Some <==> {
            let lines = split_on(raw, '\n');
            let n = lines.len();
            &&& has_value(lines, n, "Name"@)
            &&& has_value(lines, n, "Exec"@)
            &&& !other_type(lines, n)
            &&& !last_is_true(lines, n, "NoDisplay"@)
            &&& !last_is_true(lines, n, "Hidden"@)
        },
{
    let lines = split_on(raw, '\n');
    lemma_fold_reads_lines(lines, lines.len());
    assert(lines.take(lines.len() as int) =~= lines);
}

/// A parsed application runs in a terminal exactly when the last `Terminal`
/// key of its `[Desktop Entry]` section is `true`, ignoring ASCII case: a
/// file without that key, or whose last `Terminal` is `false` or any other
/// value, runs its command directly.
pub proof fn lemma_desktop_entry_terminal(raw: Seq<char>, path: Seq<char>)
    ensures
        desktop_entry(raw, path) matches Some(e) ==> e.kind matches KindModel::App {
            terminal,
            ..
        } && terminal == last_is_true(
            split_on(raw, '\n'),
            split_on(raw, '\n').len(),
            "Terminal"@,
        ),
{
    let lines = split_on(raw, '\n');
    lemma_fold_reads_lines(lines, lines.len());
    assert(lines.take(lines.len() as int) =~= lines);
}

/// An application marked to run in a terminal runs the very words it would
/// run directly: where launching `direct` (same Exec value, not in a
/// terminal) runs `program` with `args`, launching `in_term` with a
/// configured terminal starts that terminal with its arguments and then
/// `sh -c` and the command line of `program` and `args`, quoted, which keeps
/// a shell open afterwards; with no terminal configured, each known terminal
/// is tried in turn with the same command line. Where the direct launch runs
/// nothing, neither does the one in a terminal.
pub proof fn lemma_terminal_launch_runs_direct_words(
    exec_line: Seq<char>,
    direct: EntryModel,
    in_term: EntryModel,
    configured: Option<Seq<char>>,
)
    requires
        direct.kind == (KindModel::App { exec_line, terminal: false }),
        in_term.kind == (KindModel::App { exec_line, terminal: true }),
    ensures
        app_launches(configured, direct).len() <= 1,
        app_launches(configured, direct).len() == 0 ==> app_launches(configured, in_term).len()
            == 0,
        app_launches(configured, direct).len() == 1 ==> {
            let (program, args) = app_launches(configured, direct)[0];
            let tail = seq!["sh"@, "-c"@, keep_open_command(seq![program] + args)];
            match configured {
                Some(t) => app_launches(configured, in_term) == seq![
                    (t, terminal_args_of(t, None) + tail),
                ],
                None => app_launches(configured, in_term) == known_terminals().map_values(
                    |p: (Seq<char>, Seq<Seq<char>>)| (p.0, p.1 + tail),
                ),
            }
        },
{
    match exec_argv(trim(strip_codes(exec_line))) {
        Some(argv) => {
            assert(seq![argv[0]] + argv.drop_first() =~= argv);
        },
        None => {},
    }
}

/// A parsed application takes its name and its command from the first
/// `Name` and the first `Exec` of its `[Desktop Entry]` section that have a
/// non-empty value; later ones do not override them.
pub proof fn lemma_desktop_entry_first_values(raw: Seq<char>, path: Seq<char>)
    ensures
        desktop_entry(raw, path) matches Some(e) ==> {
            let lines = split_on(raw, '\n');
            &&& first_value_is(lines, lines.len(), "Name"@, e.name)
            &&& e.kind matches KindModel::App { exec_line, .. } && first_value_is(
                lines,
                lines.len(),
                "Exec"@,
                exec_line,
            )
        },
{
    let lines = split_on(raw, '\n');
    lemma_fold_reads_lines(lines, lines.len());
    assert(lines.take(lines.len() as int) =~= lines);
}

} // verus!
