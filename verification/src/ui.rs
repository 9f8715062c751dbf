//! The launcher window's state: the query, the result list shown for it and
//! the highlighted row, and what each key and each late batch of matches does
//! to them.

use vstd::prelude::*;

use crate::config::{Config, WindowConfig};
use crate::plugins::apps::{app_launches, models, AppsPlugin};
use crate::plugins::commands::{command_launches, CommandsPlugin};
use crate::plugins::emoji::{emoji_launch, emoji_results, EmojiPlugin};
use crate::plugins::math::MathPlugin;
use crate::plugins::power::{power_launch, PowerPlugin};
use crate::plugins::{
    clipboard_launch_of, clone_strings, launches_are, str_eq, Entry, EntryKind, EntryModel, KindModel,
    Launch, Plugin,
};
use crate::search::{at_most, ranked, ranked_entries, Searcher};
use crate::text::chars_of;

verus! {

/// Which source answers a query.
#[derive(Debug, Clone, Copy, PartialEq, Eq, Structural)]
pub enum QueryRoute {
    /// `=`: the calculator
    Math,
    /// `:`: the emoji picker
    Emoji,
    /// anything else: the fuzzy matcher over the scanned entries
    Fuzzy,
}

/// The source that answers `q`, by its first character.
pub open spec fn route_of(q: Seq<char>) -> QueryRoute {
    if q.len() > 0 && q[0] == '=' {
        QueryRoute::Math
    } else if q.len() > 0 && q[0] == ':' {
        QueryRoute::Emoji
    } else {
        QueryRoute::Fuzzy
    }
}

/// The source that answers `query`.
pub fn route(query: &str) -> (r: QueryRoute)
    ensures
        r == route_of(query@),
{
    let v = chars_of(query);
    if v.len() > 0 && v[0] == '=' {
        QueryRoute::Math
    } else if v.len() > 0 && v[0] == ':' {
        QueryRoute::Emoji
    } else {
        QueryRoute::Fuzzy
    }
}

/// The highlighted row after a step down: the next row, or the last one.
pub open spec fn row_after_down(selected: usize, len: nat) -> usize {
    if selected + 1 < len {
        (selected + 1) as usize
    } else {
        (len - 1) as usize
    }
}

/// The row that shows as highlighted: `selected`, or the last row when
/// `selected` is past the end; none for an empty list.
pub open spec fn shown_row(selected: usize, len: nat) -> Option<usize> {
    if len == 0 {
        None
    } else if selected < len {
        Some(selected)
    } else {
        Some((len - 1) as usize)
    }
}

/// Whether `j` is the first position of `a` in `s`.
pub open spec fn first_position(s: Seq<EntryModel>, a: EntryModel, j: int) -> bool {
    0 <= j < s.len() && s[j] == a && forall|k: int| 0 <= k < j ==> s[k] != a
}

/// The row highlighted once `fresh` replaces the list: the first row holding
/// the anchor, or the top row when there is no anchor or it is gone.
pub open spec fn anchored_row(fresh: Seq<EntryModel>, anchor: Option<EntryModel>, row: usize) -> bool {
    match anchor {
        Some(a) => if fresh.contains(a) {
            first_position(fresh, a, row as int)
        } else {
            row == 0
        },
        None => row == 0,
    }
}

/// The entry that stays highlighted across a replacement of the list: the
/// highlighted one, once the user has moved the highlight.
pub open spec fn anchor_of(results: Seq<EntryModel>, selected: usize, moved: bool) -> Option<
    EntryModel,
> {
    if moved && selected < results.len() {
        Some(results[selected as int])
    } else {
        None
    }
}

/// What launching entry `e` runs under configuration `c`, in the order the
/// programs are tried.
pub open spec fn entry_launches(c: Config, e: EntryModel) -> Seq<(Seq<char>, Seq<Seq<char>>)> {
    match e.kind {
        KindModel::App { .. } => app_launches(c.plugins.terminal.deep_view(), e),
        KindModel::Command { .. } => command_launches(
            c.plugins.terminal.deep_view(),
            match c.plugins.terminal_args {
                Some(a) => Some(a.deep_view()),
                None => None,
            },
            e,
        ),
        KindModel::MathResult { value } => match clipboard_launch_of(
            value,
            c.plugins.clipboard.deep_view(),
        ) {
            Some(l) => seq![l],
            None => Seq::empty(),
        },
        KindModel::EmojiResult { .. } => emoji_launch(e),
        KindModel::Power { command } => power_launch(command),
    }
}

/// Whether two entry lists hold the same entries in the same order.
pub fn same_entries(a: &Vec<Entry>, b: &Vec<Entry>) -> (r: bool)
    ensures
        r == (models(a@) == models(b@)),
{
    if a.len() != b.len() {
        assert(models(a@).len() != models(b@).len());
        return false;
    }
    let mut i: usize = 0;
    while i < a.len()
        invariant
            i <= a@.len() == b@.len(),
            forall|k: int| 0 <= k < i ==> a@[k]@ == b@[k]@,
        decreases a@.len() - i,
    {
        if !a[i].same_as(&b[i]) {
            assert(models(a@)[i as int] != models(b@)[i as int]);
            return false;
        }
        i += 1;
    }
    assert(models(a@) =~= models(b@));
    true
}

/// The launcher's state between two events.
pub struct UiState<F> {
    pub config: Config,
    pub searcher: Searcher<F>,
    pub emoji: EmojiPlugin,
    pub query: String,
    /// The highlighted row.
    pub selected: usize,
    pub results: Vec<Entry>,
    /// Whether the user moved the highlight off the top row for this query.
    /// Until then a result list that arrives late highlights the top row;
    /// afterwards the highlight follows the entry the user picked.
    pub selection_moved: bool,
}

impl<F: Fn() + Send + Sync + 'static> UiState<F> {
    /// The state with an empty query: the matcher's results for it, the top
    /// row highlighted.
    pub fn new(config: Config, searcher: Searcher<F>, emoji: EmojiPlugin) -> (s: Self)
        requires
            searcher.wf(),
        ensures
            s.searcher.wf(),
            s.config == config,
            s.emoji == emoji,
            s.query@.len() == 0,
            s.selected == 0,
            !s.selection_moved,
            s.searcher.entries() == searcher.entries(),
            s.searcher.pattern() == Seq::<char>::empty(),
            models(s.results@) == ranked_entries(
                s.searcher.matches(),
                s.searcher.entries(),
                config.window.max_results as nat,
            ),
    {
        let mut searcher = searcher;
        searcher.update_pattern("");
        assert(""@ =~= Seq::<char>::empty()) by {
            reveal_strlit("");
        }
        let mut s = UiState {
            config,
            searcher,
            emoji,
            query: String::new(),
            selected: 0,
            results: Vec::new(),
            selection_moved: false,
        };
        let results = s.matcher_results();
        s.results = results;
        s
    }

    /// The matcher's current results, as entries.
    pub fn matcher_results(&mut self) -> (r: Vec<Entry>)
        requires
            old(self).searcher.wf(),
        ensures
            final(self).searcher.wf(),
            final(self).searcher.entries() == old(self).searcher.entries(),
            final(self).searcher.pattern() == old(self).searcher.pattern(),
            final(self).config == old(self).config,
            final(self).emoji == old(self).emoji,
            final(self).query == old(self).query,
            final(self).selected == old(self).selected,
            final(self).results == old(self).results,
            final(self).selection_moved == old(self).selection_moved,
            models(r@) == ranked_entries(
                final(self).searcher.matches(),
                final(self).searcher.entries(),
                old(self).config.window.max_results as nat,
            ),
    {
        let matches = self.searcher.results(self.config.window.max_results);
        let ghost idx = ranked(
            self.searcher.matches(),
            self.searcher.entries(),
            self.config.window.max_results as nat,
        );
        let ghost es = self.searcher.entries();
        let mut out: Vec<Entry> = Vec::new();
        let mut i: usize = 0;
        while i < matches.len()
            invariant
                i <= matches@.len() == idx.len(),
                forall|j: int| 0 <= j < matches@.len() ==> matches@[j].entry@ == es[idx[j] as int],
                models(out@) == idx.take(i as int).map_values(|x: usize| es[x as int]),
            decreases matches@.len() - i,
        {
            let e = matches[i].entry.clone();
            let ghost before = out@;
            out.push(e);
            assert(models(out@) =~= idx.take(i + 1).map_values(|x: usize| es[x as int])) by {
                assert(models(out@) =~= models(before).push(e@));
            }
            i += 1;
        }
        assert(idx.take(idx.len() as int) =~= idx);
        out
    }

    /// Recomputes the results for a query the user just changed, and
    /// highlights the top row. A calculator query shows `math_out`, what the
    /// calculator made of the query; an emoji query the first `max_results`
    /// emoji matches; any other query the matcher's results.
    pub fn refresh_results(&mut self, math_out: Vec<Entry>)
        requires
            old(self).searcher.wf(),
        ensures
            final(self).searcher.wf(),
            final(self).searcher.entries() == old(self).searcher.entries(),
            final(self).config == old(self).config,
            final(self).emoji == old(self).emoji,
            final(self).query == old(self).query,
            final(self).selected == 0,
            !final(self).selection_moved,
            route_of(old(self).query@) != QueryRoute::Fuzzy ==> final(self).searcher
                == old(self).searcher,
            route_of(old(self).query@) == QueryRoute::Math ==> final(self).results == math_out,
            route_of(old(self).query@) == QueryRoute::Emoji ==> models(final(self).results@)
                == at_most(
                emoji_results(old(self).emoji.index(), old(self).query@),
                old(self).config.window.max_results as nat,
            ),
            route_of(old(self).query@) == QueryRoute::Fuzzy ==> final(self).searcher.pattern()
                == old(self).query@,
            route_of(old(self).query@) == QueryRoute::Fuzzy ==> models(final(self).results@)
                == ranked_entries(
                final(self).searcher.matches(),
                final(self).searcher.entries(),
                old(self).config.window.max_results as nat,
            ),
    {
        match route(self.query.as_str()) {
            QueryRoute::Math => {
                self.results = math_out;
            },
            QueryRoute::Emoji => {
                let mut out: Vec<Entry> = Vec::new();
                self.emoji.query(self.query.as_str(), &mut out);
                let ghost all = out@;
                out.truncate(self.config.window.max_results);
                proof {
                    let lim = self.config.window.max_results as nat;
                    assert(models(all) =~= emoji_results(self.emoji.index(), self.query@)) by {
                        assert(models(Seq::<Entry>::empty()) =~= Seq::<EntryModel>::empty());
                        assert(Seq::<EntryModel>::empty() + emoji_results(self.emoji.index(), self.query@)
                            =~= emoji_results(self.emoji.index(), self.query@));
                    }
                    if lim < all.len() {
                        assert(models(out@) =~= models(all).take(lim as int));
                    }
                }
                self.results = out;
            },
            QueryRoute::Fuzzy => {
                self.searcher.update_pattern(self.query.as_str());
                let fresh = self.matcher_results();
                self.results = fresh;
            },
        }
        self.selected = 0;
        self.selection_moved = false;
    }

    /// Replaces the results with `fresh`, keeping the highlight on the entry
    /// the user moved it to as long as that entry is still in the list.
    pub fn adopt_results(&mut self, fresh: Vec<Entry>)
        ensures
            final(self).searcher == old(self).searcher,
            final(self).config == old(self).config,
            final(self).emoji == old(self).emoji,
            final(self).query == old(self).query,
            final(self).selection_moved == old(self).selection_moved,
            final(self).results == fresh,
            anchored_row(
                models(fresh@),
                anchor_of(models(old(self).results@), old(self).selected, old(self).selection_moved),
                final(self).selected,
            ),
            !old(self).selection_moved ==> final(self).selected == 0,
            old(self).selection_moved && old(self).selected < old(self).results@.len()
                && models(fresh@).contains(models(old(self).results@)[old(self).selected as int])
                ==> final(self).selected < fresh@.len()
                && models(fresh@)[final(self).selected as int]
                == models(old(self).results@)[old(self).selected as int],
    {
        let ghost anchor = anchor_of(models(self.results@), self.selected, self.selection_moved);
        let ghost fs = models(fresh@);
        let mut row: usize = 0;
        if self.selection_moved && self.selected < self.results.len() {
            let a = &self.results[self.selected];
            assert(anchor == Some(a@));
            let mut j: usize = 0;
            let mut found = false;
            while j < fresh.len() && !found
                invariant
                    j <= fresh@.len(),
                    fs == models(fresh@),
                    forall|k: int| 0 <= k < j ==> fs[k] != a@,
                    found ==> j < fresh@.len() && fs[j as int] == a@,
                decreases fresh@.len() - j, if found {
                    0int
                } else {
                    1int
                },
            {
                if fresh[j].same_as(a) {
                    found = true;
                } else {
                    j += 1;
                }
            }
            if found {
                row = j;
                assert(first_position(fs, a@, j as int));
                assert(fs.contains(a@));
            } else {
                assert(!fs.contains(a@));
            }
        }
        self.results = fresh;
        self.selected = row;
    }

    /// Reads the matcher again for the unchanged query and takes its results
    /// if they differ from those shown; returns whether they did. Calculator
    /// and emoji queries do not go through the matcher and change nothing.
    pub fn resync_results(&mut self) -> (changed: bool)
        requires
            old(self).searcher.wf(),
        ensures
            final(self).searcher.wf(),
            final(self).searcher.entries() == old(self).searcher.entries(),
            final(self).searcher.pattern() == old(self).searcher.pattern(),
            final(self).config == old(self).config,
            final(self).emoji == old(self).emoji,
            final(self).query == old(self).query,
            final(self).selection_moved == old(self).selection_moved,
            route_of(old(self).query@) != QueryRoute::Fuzzy ==> !changed && *final(self)
                == *old(self),
            route_of(old(self).query@) == QueryRoute::Fuzzy ==> {
                let fresh = ranked_entries(
                    final(self).searcher.matches(),
                    final(self).searcher.entries(),
                    old(self).config.window.max_results as nat,
                );
                &&& changed == (fresh != models(old(self).results@))
                &&& models(final(self).results@) == fresh
                &&& !changed ==> final(self).results == old(self).results && final(self).selected
                    == old(self).selected
                &&& changed ==> anchored_row(
                    fresh,
                    anchor_of(
                        models(old(self).results@),
                        old(self).selected,
                        old(self).selection_moved,
                    ),
                    final(self).selected,
                )
                &&& changed && !old(self).selection_moved ==> final(self).selected == 0
            },
    {
        if route(self.query.as_str()) != QueryRoute::Fuzzy {
            return false;
        }
        let fresh = self.matcher_results();
        if same_entries(&fresh, &self.results) {
            return false;
        }
        self.adopt_results(fresh);
        true
    }

    /// After the entry list changed under the searcher (a rescan or a
    /// reload), applies the query again and takes the new results if they
    /// differ; returns whether they did.
    pub fn refresh_after_entry_change(&mut self) -> (changed: bool)
        requires
            old(self).searcher.wf(),
        ensures
            final(self).searcher.wf(),
            final(self).searcher.entries() == old(self).searcher.entries(),
            route_of(old(self).query@) == QueryRoute::Fuzzy ==> final(self).searcher.pattern()
                == old(self).query@,
            final(self).config == old(self).config,
            final(self).query == old(self).query,
            route_of(old(self).query@) != QueryRoute::Fuzzy ==> !changed && *final(self)
                == *old(self),
            route_of(old(self).query@) == QueryRoute::Fuzzy ==> {
                let fresh = ranked_entries(
                    final(self).searcher.matches(),
                    final(self).searcher.entries(),
                    old(self).config.window.max_results as nat,
                );
                &&& changed == (fresh != models(old(self).results@))
                &&& models(final(self).results@) == fresh
                &&& !changed ==> final(self).results == old(self).results && final(self).selected
                    == old(self).selected
                &&& changed ==> anchored_row(
                    fresh,
                    anchor_of(
                        models(old(self).results@),
                        old(self).selected,
                        old(self).selection_moved,
                    ),
                    final(self).selected,
                )
                &&& changed && !old(self).selection_moved ==> final(self).selected == 0
            },
    {
        if route(self.query.as_str()) != QueryRoute::Fuzzy {
            return false;
        }
        self.searcher.update_pattern(self.query.as_str());
        self.resync_results()
    }

    /// Down (or Tab): highlights the next row, stopping at the last.
    pub fn move_down(&mut self)
        ensures
            final(self).searcher == old(self).searcher,
            final(self).config == old(self).config,
            final(self).emoji == old(self).emoji,
            final(self).query == old(self).query,
            final(self).results == old(self).results,
            old(self).results@.len() == 0 ==> *final(self) == *old(self),
            old(self).results@.len() > 0 ==> final(self).selected == row_after_down(
                old(self).selected,
                old(self).results@.len(),
            ) && final(self).selection_moved,
    {
        let len = self.results.len();
        if len > 0 {
            if self.selected < len - 1 {
                self.selected = self.selected + 1;
            } else {
                self.selected = len - 1;
            }
            self.selection_moved = true;
        }
    }

    /// Up (or Shift+Tab): highlights the previous row, stopping at the top.
    pub fn move_up(&mut self)
        ensures
            final(self).searcher == old(self).searcher,
            final(self).config == old(self).config,
            final(self).emoji == old(self).emoji,
            final(self).query == old(self).query,
            final(self).results == old(self).results,
            old(self).selected == 0 ==> *final(self) == *old(self),
            old(self).selected > 0 ==> final(self).selected == old(self).selected - 1
                && final(self).selection_moved,
    {
        if self.selected > 0 {
            self.selected = self.selected - 1;
            self.selection_moved = true;
        }
    }

    /// The row the list shows highlighted.
    pub fn shown_selection(&self) -> (r: Option<usize>)
        ensures
            r == shown_row(self.selected, self.results@.len()),
    {
        let len = self.results.len();
        if len == 0 {
            None
        } else if self.selected < len {
            Some(self.selected)
        } else {
            Some(len - 1)
        }
    }

    /// What launching the entry on row `index` runs, in the order the
    /// programs are tried; nothing for a row past the end.
    pub fn launch_at(&self, index: usize) -> (r: Vec<Launch>)
        ensures
            index < self.results@.len() ==> launches_are(
                r@,
                entry_launches(self.config, self.results@[index as int]@),
            ),
            index >= self.results@.len() ==> r@.len() == 0,
    {
        if index >= self.results.len() {
            return Vec::new();
        }
        let entry = &self.results[index];
        let plugins = &self.config.plugins;
        match &entry.kind {
            EntryKind::App { .. } => AppsPlugin::new(plugins.terminal.clone()).launch(entry),
            EntryKind::Command { .. } => {
                let args = match &plugins.terminal_args {
                    Some(a) => Some(clone_strings(a)),
                    None => None,
                };
                CommandsPlugin::new(plugins.terminal.clone(), args).launch(entry)
            },
            EntryKind::MathResult { .. } => {
                let r = MathPlugin::new(clone_strings(&plugins.clipboard)).launch(entry);
                proof {
                    if r@.len() == 1 {
                        assert(r@[0]@ == entry_launches(self.config, entry@)[0]);
                    }
                }
                r
            },
            EntryKind::EmojiResult { .. } => self.emoji.launch(entry),
            EntryKind::Power { .. } => PowerPlugin::new(plugins.power_commands.clone()).launch(entry),
        }
    }

}

/// The highlight never leaves a non-empty list: a step down lands on one of
/// its rows, the row shown highlighted is one of its rows, and a step down
/// followed by a step up returns to the starting row unless the last row
/// stopped the step down.
pub proof fn lemma_navigation_stays_in_list(selected: usize, len: nat)
    requires
        0 < len <= usize::MAX,
    ensures
        row_after_down(selected, len) < len,
        selected + 1 < len ==> row_after_down(selected, len) > 0 && row_after_down(selected, len)
            - 1 == selected,
        shown_row(selected, len) matches Some(r) && r < len,
{
}

/// When new results replace the list, the highlight stays on the entry the
/// user moved it to if that entry is still listed, on its first occurrence;
/// in every other case it goes back to the top row.
pub proof fn lemma_highlight_follows_entry(
    fresh: Seq<EntryModel>,
    anchor: Option<EntryModel>,
    row: usize,
)
    requires
        anchored_row(fresh, anchor, row),
    ensures
        match anchor {
            Some(a) => if fresh.contains(a) {
                row < fresh.len() && fresh[row as int] == a
            } else {
                row == 0
            },
            None => row == 0,
        },
{
}

/// Until the user moves the highlight, every new list of results is shown
/// from its top row, whatever the list held before; once the user has moved
/// it, the highlight stays on the entry it was on, as long as the new list
/// holds that entry.
pub proof fn lemma_highlight_stays_on_top_until_moved(
    results: Seq<EntryModel>,
    selected: usize,
    moved: bool,
    fresh: Seq<EntryModel>,
    row: usize,
)
    requires
        anchored_row(fresh, anchor_of(results, selected, moved), row),
    ensures
        !moved ==> row == 0,
        moved && selected < results.len() && fresh.contains(results[selected as int]) ==> row
            < fresh.len() && fresh[row as int] == results[selected as int],
{
}

/// Where the window sits and how large its parts are.
#[derive(Debug, Clone, Copy, PartialEq, Eq, Structural)]
pub struct WindowLayout {
    pub width: i32,
    /// Whether the window is anchored to the top edge
    pub anchor_top: bool,
    /// Whether the window is anchored to the bottom edge
    pub anchor_bottom: bool,
    /// The margin from the top edge, set only when anchored to it
    pub top_margin: Option<i32>,
    /// The margin from the bottom edge, set only when anchored to it
    pub bottom_margin: Option<i32>,
    /// Spacing between the parts and around the content
    pub padding: i32,
    /// The most the result list grows before it scrolls
    pub max_content_height: i32,
}

/// The edges (top, bottom) an anchor setting pins the window to: `bottom`,
/// `center` (neither), anything else the top.
pub open spec fn anchor_edges(anchor: Seq<char>) -> (bool, bool) {
    if anchor == "bottom"@ {
        (false, true)
    } else if anchor == "center"@ {
        (false, false)
    } else {
        (true, false)
    }
}

/// The layout the `[window]` settings call for. Every edge is set either
/// way, so a reload can move the window from one position to another.
pub fn window_layout(w: &WindowConfig) -> (r: WindowLayout)
    requires
        w.max_results * w.item_height <= usize::MAX,
    ensures
        r.width == w.width as i32,
        (r.anchor_top, r.anchor_bottom) == anchor_edges(w.anchor@),
        r.top_margin == if r.anchor_top {
            Some(w.margin as i32)
        } else {
            None
        },
        r.bottom_margin == if r.anchor_bottom {
            Some(w.margin as i32)
        } else {
            None
        },
        r.padding == w.padding as i32,
        r.max_content_height == (w.max_results * w.item_height) as i32,
{
    let bottom = String::from_str("bottom");
    let center = String::from_str("center");
    let (top, bot) = if str_eq(&w.anchor, &bottom) {
        (false, true)
    } else if str_eq(&w.anchor, &center) {
        (false, false)
    } else {
        (true, false)
    };
    #[verifier::truncate]
    let margin = w.margin as i32;
    let height = w.max_results * (w.item_height as usize);
    WindowLayout {
        width: #[verifier::truncate] (w.width as i32),
        anchor_top: top,
        anchor_bottom: bot,
        top_margin: if top {
            Some(margin)
        } else {
            None
        },
        bottom_margin: if bot {
            Some(margin)
        } else {
            None
        },
        padding: w.padding as i32,
        max_content_height: #[verifier::truncate] (height as i32),
    }
}

/// The keys the launcher window acts on.
#[derive(Debug, Clone, Copy, PartialEq, Eq, Structural)]
pub enum Key {
    Escape,
    Return,
    KeypadEnter,
    Down,
    Tab,
    Up,
    /// Shift+Tab, which compositors report as ISO_Left_Tab
    ShiftTab,
    Other,
}

/// What a key does.
#[derive(Debug, Clone, Copy, PartialEq, Eq, Structural)]
pub enum KeyAction {
    /// Hide the window and clear the query.
    Hide,
    /// Launch the highlighted entry, then hide the window and clear the query.
    LaunchSelected,
    MoveDown,
    MoveUp,
    /// Leave the key to the search field.
    PassOn,
}

/// The action for a key: Escape hides, Enter launches, Down and Tab move
/// down, Up and Shift+Tab move up, anything else goes to the search field.
pub fn key_action(key: Key) -> (r: KeyAction)
    ensures
        r == match key {
            Key::Escape => KeyAction::Hide,
            Key::Return | Key::KeypadEnter => KeyAction::LaunchSelected,
            Key::Down | Key::Tab => KeyAction::MoveDown,
            Key::Up | Key::ShiftTab => KeyAction::MoveUp,
            Key::Other => KeyAction::PassOn,
        },
{
    match key {
        Key::Escape => KeyAction::Hide,
        Key::Return | Key::KeypadEnter => KeyAction::LaunchSelected,
        Key::Down | Key::Tab => KeyAction::MoveDown,
        Key::Up | Key::ShiftTab => KeyAction::MoveUp,
        Key::Other => KeyAction::PassOn,
    }
}

} // verus!
