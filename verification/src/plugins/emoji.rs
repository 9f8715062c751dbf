//! Emoji search: queries starting with `:`.

use vstd::prelude::*;

use super::{Entry, EntryKind, EntryModel, KindModel, Launch, Plugin, launches_are};
use super::apps::models;
use crate::text::{
    chars_of, contains, contains_seq, strip_leading, strip_leading_span, string_of, trim, trim_span,
};

verus! {

/// What `str::to_lowercase` returns for `s`: its Unicode lower-case mapping.
pub uninterp spec fn lowercase(s: Seq<char>) -> Seq<char>;

/// `str::to_lowercase`, named by [`lowercase`]; the lower-case form of
/// the empty string is empty.
#[verifier::external_body]
fn to_lowercase(s: &str) -> (r: String)
    ensures
        r@ == lowercase(s@),
        s@.len() == 0 ==> r@.len() == 0,
{
    s.to_lowercase()
}

/// One emoji of the bundled table: the emoji itself, its Unicode name and
/// its first GitHub shortcode, if any.
pub struct EmojiInfo {
    pub emoji: String,
    pub name: String,
    pub shortcode: Option<String>,
}

/// `emojis::iter`: every emoji the `emojis` crate bundles (default skin
/// tones), with `as_str`, `name` and `shortcode` of each. Of the table's
/// contents only what the crate documents is claimed: it starts with
/// 😀 😃 😄 😁 😆.
#[verifier::external_body]
fn bundled_emojis() -> (r: Vec<EmojiInfo>)
    ensures
        r@.len() >= 5,
        r@[0].emoji@ == "😀"@,
        r@[1].emoji@ == "😃"@,
        r@[2].emoji@ == "😄"@,
        r@[3].emoji@ == "😁"@,
        r@[4].emoji@ == "😆"@,
{
    emojis::iter().map(
        |e| EmojiInfo {
            emoji: e.as_str().to_string(),
            name: e.name().to_string(),
            shortcode: e.shortcode().map(|s| s.to_string()),
        },
    ).collect()
}

/// One searchable emoji: the emoji and its name, with the name and shortcode
/// lower-cased once.
pub struct IndexedEmoji {
    pub emoji: String,
    pub name: String,
    pub name_lower: Vec<char>,
    pub shortcode_lower: Vec<char>,
}

pub struct IndexedModel {
    pub emoji: Seq<char>,
    pub name: Seq<char>,
    pub name_lower: Seq<char>,
    pub shortcode_lower: Seq<char>,
}

impl View for IndexedEmoji {
    type V = IndexedModel;

    open spec fn view(&self) -> IndexedModel {
        IndexedModel {
            emoji: self.emoji@,
            name: self.name@,
            name_lower: self.name_lower@,
            shortcode_lower: self.shortcode_lower@,
        }
    }
}

/// The index entry for one emoji of the table.
pub open spec fn indexed_of(e: EmojiInfo) -> IndexedModel {
    IndexedModel {
        emoji: e.emoji@,
        name: e.name@,
        name_lower: lowercase(e.name@),
        shortcode_lower: lowercase(
            match e.shortcode {
                Some(s) => s@,
                None => Seq::empty(),
            },
        ),
    }
}

/// The lower-cased search term of a query: the input without its leading
/// `:` signs, trimmed and lower-cased.
pub open spec fn emoji_search(input: Seq<char>) -> Seq<char> {
    lowercase(trim(strip_leading(input, ':')))
}

/// Whether an emoji matches a search term, by name or shortcode.
pub open spec fn emoji_hit(e: IndexedModel, search: Seq<char>) -> bool {
    contains_seq(e.name_lower, search) || contains_seq(e.shortcode_lower, search)
}

/// The result entry for an emoji: "<emoji> <name>", described by
/// ":<shortcode>:" when it has one.
pub open spec fn emoji_entry(e: IndexedModel) -> EntryModel {
    EntryModel {
        name: e.emoji + seq![' '] + e.name,
        description: if e.shortcode_lower.len() == 0 {
            None
        } else {
            Some(seq![':'] + e.shortcode_lower + seq![':'])
        },
        icon: None,
        kind: KindModel::EmojiResult { emoji: e.emoji },
        priority: 0,
        keywords: None,
    }
}

/// The entries of the emojis among `index` that match `search`, in index
/// order.
pub open spec fn emoji_matches(index: Seq<IndexedModel>, search: Seq<char>) -> Seq<EntryModel>
    decreases index.len(),
{
    if index.len() == 0 {
        Seq::empty()
    } else {
        let prev = emoji_matches(index.drop_last(), search);
        if emoji_hit(index.last(), search) {
            prev.push(emoji_entry(index.last()))
        } else {
            prev
        }
    }
}

/// The index of an emoji table: each emoji in order, with its name and
/// shortcode lower-cased.
pub open spec fn index_of(table: Seq<EmojiInfo>) -> Seq<IndexedModel> {
    table.map_values(|e: EmojiInfo| indexed_of(e))
}

/// The entries a query produces: none for an empty search term.
pub open spec fn emoji_results(index: Seq<IndexedModel>, input: Seq<char>) -> Seq<EntryModel> {
    let search = emoji_search(input);
    if search.len() == 0 {
        Seq::empty()
    } else {
        emoji_matches(index, search)
    }
}

/// The emoji plugin, holding the case-folded index of the bundled emojis.
pub struct EmojiPlugin {
    index: Vec<IndexedEmoji>,
}

fn index_entry(e: &EmojiInfo) -> (r: IndexedEmoji)
    ensures
        r@ == indexed_of(*e),
{
    let sc = match &e.shortcode {
        Some(s) => to_lowercase(s.as_str()),
        None => to_lowercase(""),
    };
    proof {
        if e.shortcode is None {
            assert(""@ =~= Seq::<char>::empty()) by {
                reveal_strlit("");
            }
        }
    }
    IndexedEmoji {
        emoji: e.emoji.clone(),
        name: e.name.clone(),
        name_lower: chars_of(to_lowercase(e.name.as_str()).as_str()),
        shortcode_lower: chars_of(sc.as_str()),
    }
}

impl EmojiPlugin {
    /// The plugin over the emojis the `emojis` crate bundles: the index of
    /// that table, each emoji with its name and shortcode lower-cased, which
    /// starts with 😀 😃 😄 😁 😆.
    pub fn new() -> (r: Self)
        ensures
            exists|table: Seq<EmojiInfo>| r.index() == #[trigger] index_of(table),
            r.index().len() >= 5,
            r.index()[0].emoji == "😀"@,
            r.index()[1].emoji == "😃"@,
            r.index()[2].emoji == "😄"@,
            r.index()[3].emoji == "😁"@,
            r.index()[4].emoji == "😆"@,
    {
        let table = bundled_emojis();
        let r = Self::from_emojis(&table);
        assert(r.index() =~= index_of(table@));
        r
    }

    /// The plugin over the emojis of `table`, in order.
    pub fn from_emojis(table: &Vec<EmojiInfo>) -> (r: Self)
        ensures
            r.index().len() == table@.len(),
            forall|i: int| 0 <= i < table@.len() ==> r.index()[i] == indexed_of(#[trigger] table@[i]),
    {
        let mut index: Vec<IndexedEmoji> = Vec::new();
        let mut i: usize = 0;
        while i < table.len()
            invariant
                i <= table@.len(),
                index@.len() == i,
                forall|k: int| 0 <= k < i ==> (#[trigger] index@[k])@ == indexed_of(table@[k]),
            decreases table@.len() - i,
        {
            index.push(index_entry(&table[i]));
            i += 1;
        }
        EmojiPlugin { index }
    }

    /// The model of the index.
    pub closed spec fn index(&self) -> Seq<IndexedModel> {
        self.index@.map_values(|e: IndexedEmoji| e@)
    }

    /// Adds the emojis matching the query `input` to `out`; nothing when
    /// the search term is empty.
    pub fn query(&self, input: &str, out: &mut Vec<Entry>)
        ensures
            models(final(out)@) == models(old(out)@) + emoji_results(self.index(), input@),
            trim(strip_leading(input@, ':')).len() == 0 ==> models(final(out)@) == models(
                old(out)@,
            ),
    {
        let v = chars_of(input);
        let a = strip_leading_span(&v, 0, v.len(), ':');
        assert(v@.subrange(0, v@.len() as int) =~= v@);
        let (lo, hi) = trim_span(&v, a, v.len());
        let trimmed = string_of(&v, lo, hi);
        let search_s = to_lowercase(trimmed.as_str());
        let search = chars_of(search_s.as_str());
        if search.len() == 0 {
            assert(models(out@) =~= models(out@) + Seq::<EntryModel>::empty());
            return;
        }
        let ghost idx = self.index();
        let ghost start = models(out@);
        assert(idx.take(0) =~= Seq::<IndexedModel>::empty());
        let mut i: usize = 0;
        while i < self.index.len()
            invariant
                i <= self.index@.len(),
                idx == self.index(),
                search@ == emoji_search(input@),
                models(out@) == start + emoji_matches(idx.take(i as int), search@),
            decreases self.index@.len() - i,
        {
            let e = &self.index[i];
            assert(idx[i as int] == e@);
            assert(idx.take(i + 1).drop_last() =~= idx.take(i as int));
            assert(idx.take(i + 1).last() == e@);
            if contains(&e.name_lower, &search) || contains(&e.shortcode_lower, &search) {
                let mut name = e.emoji.clone();
                name.append(" ");
                name.append(e.name.as_str());
                let description = if e.shortcode_lower.len() == 0 {
                    None
                } else {
                    let mut d = String::from_str(":");
                    d.append(string_of(&e.shortcode_lower, 0, e.shortcode_lower.len()).as_str());
                    d.append(":");
                    Some(d)
                };
                let entry = Entry {
                    name,
                    description,
                    icon: None,
                    kind: EntryKind::EmojiResult { emoji: e.emoji.clone() },
                    priority: 0,
                    keywords: None,
                };
                proof {
                    reveal_strlit(" ");
                    reveal_strlit(":");
                    assert(e.shortcode_lower@.subrange(0, e.shortcode_lower@.len() as int)
                        =~= e.shortcode_lower@);
                    assert(" "@ =~= seq![' ']);
                    assert(":"@ =~= seq![':']);
                    assert(entry.name@ =~= e.emoji@ + seq![' '] + e.name@);
                    assert(entry.description.deep_view() =~~= emoji_entry(e@).description);
                    assert(entry@ =~~= emoji_entry(e@));
                }
                let ghost before = out@;
                out.push(entry);
                assert(models(out@) =~= models(before).push(emoji_entry(e@)));
            }
            i += 1;
        }
        assert(idx.take(self.index@.len() as int) =~= idx);
    }
}

/// The invocation that copies an emoji: `wl-copy <emoji>`.
pub open spec fn emoji_launch(e: EntryModel) -> Seq<(Seq<char>, Seq<Seq<char>>)> {
    match e.kind {
        KindModel::EmojiResult { emoji } => seq![("wl-copy"@, seq![emoji])],
        _ => Seq::empty(),
    }
}

impl Plugin for EmojiPlugin {
    fn name(&self) -> (r: String)
        ensures
            r@ == "emoji"@,
    {
        String::from_str("emoji")
    }

    fn launch(&self, entry: &Entry) -> (r: Vec<Launch>)
        ensures
            launches_are(r@, emoji_launch(entry@)),
    {
        let mut out: Vec<Launch> = Vec::new();
        if let EntryKind::EmojiResult { emoji } = &entry.kind {
            let mut args: Vec<String> = Vec::new();
            args.push(emoji.clone());
            assert(args.deep_view() =~= seq![emoji@]);
            out.push(Launch { program: String::from_str("wl-copy"), args });
        }
        out
    }
}

/// Two queries whose search terms agree once the leading colons and the
/// surrounding white space are dropped and the rest is lower-cased give the
/// same results, in the same order; a query whose term is empty gives none.
pub proof fn lemma_results_follow_search_term(index: Seq<IndexedModel>, a: Seq<char>, b: Seq<char>)
    requires
        emoji_search(a) == emoji_search(b),
    ensures
        emoji_results(index, a) == emoji_results(index, b),
        emoji_search(a).len() == 0 ==> emoji_results(index, a).len() == 0,
{
}

/// The emojis of `index` that match `search`, in index order.
pub open spec fn matching_rows(index: Seq<IndexedModel>, search: Seq<char>) -> Seq<IndexedModel> {
    index.filter(|e: IndexedModel| emoji_hit(e, search))
}

proof fn lemma_matches_follow_rows(index: Seq<IndexedModel>, search: Seq<char>)
    ensures
        emoji_matches(index, search).len() == matching_rows(index, search).len(),
        forall|k: int|
            0 <= k < matching_rows(index, search).len() ==> {
                let e = #[trigger] matching_rows(index, search)[k];
                let r = emoji_matches(index, search)[k];
                &&& r.kind == KindModel::EmojiResult { emoji: e.emoji }
                &&& r.name == e.emoji + seq![' '] + e.name
                &&& r.description == if e.shortcode_lower.len() == 0 {
                    None
                } else {
                    Some(seq![':'] + e.shortcode_lower + seq![':'])
                }
            },
    decreases index.len(),
{
    if index.len() > 0 {
        let d = index.drop_last();
        lemma_matches_follow_rows(d, search);
        let rows = matching_rows(index, search);
        let prev_rows = matching_rows(d, search);
        reveal(Seq::filter);
        assert(rows == if emoji_hit(index.last(), search) {
            prev_rows.push(index.last())
        } else {
            prev_rows
        });
        let cur = emoji_matches(index, search);
        let prev = emoji_matches(d, search);
        assert forall|k: int| 0 <= k < rows.len() implies {
            let e = #[trigger] rows[k];
            let r = cur[k];
            &&& r.kind == KindModel::EmojiResult { emoji: e.emoji }
            &&& r.name == e.emoji + seq![' '] + e.name
            &&& r.description == if e.shortcode_lower.len() == 0 {
                None
            } else {
                Some(seq![':'] + e.shortcode_lower + seq![':'])
            }
        } by {
            if k < prev_rows.len() {
                assert(rows[k] == prev_rows[k]);
                assert(cur[k] == prev[k]);
            }
        }
    }
}

/// The results of an emoji query are the matching emojis of the index, one
/// for one and in index order: the k-th result is named after the k-th
/// matching emoji and its name, described by its lower-cased shortcode
/// between colons when it has one, and choosing it copies exactly that
/// emoji. A query whose search term is empty gives none.
pub proof fn lemma_emoji_results_copy_matching_rows(index: Seq<IndexedModel>, input: Seq<char>)
    ensures
        emoji_search(input).len() == 0 ==> emoji_results(index, input).len() == 0,
        emoji_search(input).len() > 0 ==> {
            let rows = matching_rows(index, emoji_search(input));
            let res = emoji_results(index, input);
            &&& res.len() == rows.len()
            &&& forall|k: int|
                0 <= k < rows.len() ==> {
                    &&& (#[trigger] res[k]).kind == KindModel::EmojiResult { emoji: rows[k].emoji }
                    &&& res[k].name == rows[k].emoji + seq![' '] + rows[k].name
                    &&& res[k].description == if rows[k].shortcode_lower.len() == 0 {
                        None
                    } else {
                        Some(seq![':'] + rows[k].shortcode_lower + seq![':'])
                    }
                    &&& emoji_launch(res[k]) == seq![("wl-copy"@, seq![rows[k].emoji])]
                }
        },
{
    lemma_matches_follow_rows(index, emoji_search(input));
}

} // verus!
