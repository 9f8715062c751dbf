//! Fuzzy search over the entry list, ranked plugin by plugin.
//!
//! The fuzzy matcher runs on background threads: a snapshot of its matches
//! can lag behind the pattern. What the matcher hands back is taken as it
//! comes; how those matches become the visible result list is stated exactly.

use std::sync::Arc;

use nucleo::pattern::{CaseMatching, Normalization};
use nucleo::{Config as MatcherConfig, Nucleo};
use vstd::prelude::*;

use crate::plugins::apps::models;
use crate::plugins::{search_text_of, Entry, EntryModel};

verus! {

#[verifier::external_type_specification]
#[verifier::external_body]
#[verifier::reject_recursive_types(T)]
pub struct ExNucleo<T: Sync + Send + 'static>(Nucleo<T>);

/// The items pushed into a matcher, in push order: each item's data and the
/// text it is matched on.
pub uninterp spec fn injected(n: Nucleo<usize>) -> Seq<(usize, Seq<char>)>;

/// The data of the items in a matcher's current snapshot of matches, best
/// match first.
pub uninterp spec fn matched(n: Nucleo<usize>) -> Seq<usize>;

/// The text a matcher's pattern was last parsed from.
pub uninterp spec fn pattern_text(n: Nucleo<usize>) -> Seq<char>;

/// Whether the matcher's last tick found its workers idle with every pushed
/// item seen, nothing having been pushed or re-parsed since.
pub uninterp spec fn matcher_settled(n: Nucleo<usize>) -> bool;

/// Whether nucleo's matcher, in its default configuration, ignoring case and
/// with smart normalization, matches `text` against the pattern parsed from
/// `pattern` (a pattern parsed from empty text matches every text).
pub uninterp spec fn nucleo_matches(pattern: Seq<char>, text: Seq<char>) -> bool;

/// `Nucleo::new` with the default matcher configuration, one matching column
/// and one worker per hardware thread. A new matcher has no items, an empty
/// snapshot and the empty pattern, which matches every text.
#[verifier::external_body]
fn new_matcher<F: Fn() + Send + Sync + 'static>(notify: Arc<F>) -> (n: Nucleo<usize>)
    ensures
        injected(n) == Seq::<(usize, Seq<char>)>::empty(),
        matched(n) == Seq::<usize>::empty(),
        pattern_text(n) == Seq::<char>::empty(),
        forall|t: Seq<char>| #[trigger] nucleo_matches(pattern_text(n), t),
{
    Nucleo::new(MatcherConfig::DEFAULT, notify, None, 1)
}

/// `Injector::push` on an injector of `n`: appends the item `index`, matched
/// on `text`. The snapshot only changes on a tick, which the new item awaits.
#[verifier::external_body]
fn push_item(n: &mut Nucleo<usize>, index: usize, text: &str)
    ensures
        injected(*final(n)) == injected(*old(n)).push((index, text@)),
        matched(*final(n)) == matched(*old(n)),
        pattern_text(*final(n)) == pattern_text(*old(n)),
        !matcher_settled(*final(n)),
{
    n.injector().push(index, |_, cols| cols[0] = text.into());
}

/// `MultiPattern::reparse` of the single column from `query`, ignoring case
/// and with smart normalization. Only the pattern changes; the snapshot
/// waits for the next tick. The pattern parsed from empty text matches
/// every text.
#[verifier::external_body]
fn set_pattern(n: &mut Nucleo<usize>, query: &str)
    ensures
        injected(*final(n)) == injected(*old(n)),
        matched(*final(n)) == matched(*old(n)),
        pattern_text(*final(n)) == query@,
        !matcher_settled(*final(n)),
        query@.len() == 0 ==> forall|t: Seq<char>| #[trigger] nucleo_matches(
            pattern_text(*final(n)),
            t,
        ),
{
    n.pattern.reparse(0, query, CaseMatching::Ignore, Normalization::Smart, false);
}

/// Whether everything in a matcher's snapshot is the data of a pushed item
/// whose text its pattern matches, and, when no two items carry the same
/// data, nothing is there twice.
pub open spec fn snapshot_sound(n: Nucleo<usize>) -> bool {
    let inj = injected(n);
    let m = matched(n);
    let pat = pattern_text(n);
    &&& forall|k: int|
        0 <= k < m.len() ==> exists|j: int|
            0 <= j < inj.len() && (#[trigger] inj[j]).0 == #[trigger] m[k] && nucleo_matches(
                pat,
                inj[j].1,
            )
    &&& (forall|a: int, b: int|
        0 <= a < b < inj.len() ==> (#[trigger] inj[a]).0 != (#[trigger] inj[b]).0)
        ==> m.no_duplicates()
}

/// `Nucleo::tick` with a one millisecond timeout; returns whether the workers
/// are still running. The items stay as they are; the new snapshot, which
/// depends on how far the workers got, holds only data of pushed items.
/// When nothing is running any more the workers have seen every item under
/// the current pattern and the snapshot holds their finished run: exactly
/// the items whose text the pattern matches, each once. A tick after such a
/// tick, with nothing pushed or re-parsed in between, changes nothing.
#[verifier::external_body]
fn tick(n: &mut Nucleo<usize>) -> (running: bool)
    ensures
        injected(*final(n)) == injected(*old(n)),
        pattern_text(*final(n)) == pattern_text(*old(n)),
        forall|k: int|
            0 <= k < matched(*final(n)).len() ==> exists|j: int|
                0 <= j < injected(*final(n)).len() && (#[trigger] injected(*final(n))[j]).0
                    == #[trigger] matched(*final(n))[k],
        matcher_settled(*final(n)) == !running,
        matcher_settled(*old(n)) ==> !running && matched(*final(n)) == matched(*old(n)),
        !running ==> forall|j: int|
            0 <= j < injected(*final(n)).len() && #[trigger] nucleo_matches(
                pattern_text(*final(n)),
                injected(*final(n))[j].1,
            ) ==> matched(*final(n)).contains(injected(*final(n))[j].0),
        !running ==> snapshot_sound(*final(n)),
{
    n.tick(1).running
}

/// The data of every matched item of `Nucleo::snapshot`, in match order.
#[verifier::external_body]
fn snapshot_matches(n: &Nucleo<usize>) -> (r: Vec<usize>)
    ensures
        r@ == matched(*n),
{
    let snapshot = n.snapshot();
    snapshot.matched_items(..snapshot.matched_item_count()).map(|item| *item.data).collect()
}

/// The items a searcher over `es` pushes: entry `i` under its index, matched
/// on its search text (its name and keywords).
pub open spec fn items_of(es: Seq<EntryModel>) -> Seq<(usize, Seq<char>)> {
    Seq::new(es.len(), |i: int| (i as usize, search_text_of(es[i])))
}

/// Whether some entry of `es` has priority `p`.
pub open spec fn has_priority(es: Seq<EntryModel>, p: int) -> bool {
    exists|i: int| 0 <= i < es.len() && es[i].priority == p
}

/// For each priority value, whether some entry of `es` has it.
pub open spec fn priority_flags(es: Seq<EntryModel>) -> Seq<bool> {
    Seq::new(256, |p: int| has_priority(es, p))
}

/// How many of the first `q` flags of `s` are set.
pub open spec fn count_true(s: Seq<bool>, q: nat) -> nat
    decreases q,
{
    if q == 0 {
        0
    } else {
        count_true(s, (q - 1) as nat) + if s[q - 1] {
            1nat
        } else {
            0nat
        }
    }
}

/// How many distinct priorities the entries of `es` have.
pub open spec fn distinct_priorities(es: Seq<EntryModel>) -> nat {
    count_true(priority_flags(es), 256)
}

/// The indices in `m` that name an entry of `es` of priority `p`, in the
/// order of `m`; an index past the end of `es` names no entry.
pub open spec fn hits(m: Seq<usize>, es: Seq<EntryModel>, p: int) -> Seq<usize>
    decreases m.len(),
{
    if m.len() == 0 {
        Seq::empty()
    } else {
        let rest = hits(m.drop_last(), es, p);
        let i = m.last();
        if (i as int) < es.len() && es[i as int].priority == p {
            rest.push(i)
        } else {
            rest
        }
    }
}

/// The first `n` elements of `s`, or all of them if it has fewer.
pub open spec fn at_most<T>(s: Seq<T>, n: nat) -> Seq<T> {
    if s.len() <= n {
        s
    } else {
        s.take(n as int)
    }
}

/// The matches of priority `p` that the result list can show: the first
/// `limit` of them.
pub open spec fn bucket(m: Seq<usize>, es: Seq<EntryModel>, p: int, limit: nat) -> Seq<usize> {
    at_most(hits(m, es, p), limit)
}

/// The buckets of the priorities below `q`, one after the other.
pub open spec fn buckets_below(m: Seq<usize>, es: Seq<EntryModel>, limit: nat, q: nat) -> Seq<
    usize,
>
    decreases q,
{
    if q == 0 {
        Seq::empty()
    } else {
        buckets_below(m, es, limit, (q - 1) as nat) + bucket(m, es, q - 1, limit)
    }
}

/// The result list for the matches `m` (indices into `es`, best match first):
/// up to `limit` entries, the priorities in ascending order, and within one
/// priority its matches in match order.
pub open spec fn ranked(m: Seq<usize>, es: Seq<EntryModel>, limit: nat) -> Seq<usize> {
    at_most(buckets_below(m, es, limit, 256), limit)
}

/// The entries of the result list for the matches `m`.
pub open spec fn ranked_entries(m: Seq<usize>, es: Seq<EntryModel>, limit: nat) -> Seq<EntryModel> {
    ranked(m, es, limit).map_values(|x: usize| es[x as int])
}

/// For each priority value, whether the matches `m` hold an entry of it.
pub open spec fn seen_flags(m: Seq<usize>, es: Seq<EntryModel>) -> Seq<bool> {
    Seq::new(256, |p: int| hits(m, es, p).len() > 0)
}

/// For each priority value, whether the matches `m` hold an entry of it and
/// already fill its bucket.
pub open spec fn full_flags(m: Seq<usize>, es: Seq<EntryModel>, limit: nat) -> Seq<bool> {
    Seq::new(256, |p: int| hits(m, es, p).len() > 0 && bucket(m, es, p, limit).len() >= limit)
}

proof fn lemma_hits_push(m: Seq<usize>, es: Seq<EntryModel>, p: int, i: usize)
    ensures
        hits(m.push(i), es, p) == if (i as int) < es.len() && es[i as int].priority == p {
            hits(m, es, p).push(i)
        } else {
            hits(m, es, p)
        },
{
    assert(m.push(i).drop_last() =~= m);
}

proof fn lemma_hits_valid(m: Seq<usize>, es: Seq<EntryModel>, p: int)
    ensures
        forall|t: int|
            0 <= t < hits(m, es, p).len() ==> (hits(m, es, p)[t] as int) < es.len() && es[hits(
                m,
                es,
                p,
            )[t] as int].priority == p,
    decreases m.len(),
{
    if m.len() > 0 {
        lemma_hits_valid(m.drop_last(), es, p);
    }
}

proof fn lemma_no_priority_no_hits(m: Seq<usize>, es: Seq<EntryModel>, p: int)
    requires
        !has_priority(es, p),
    ensures
        hits(m, es, p).len() == 0,
    decreases m.len(),
{
    if m.len() > 0 {
        lemma_no_priority_no_hits(m.drop_last(), es, p);
        let i = m.last();
        if (i as int) < es.len() && es[i as int].priority == p {
            assert(has_priority(es, p));
        }
    }
}

proof fn lemma_hits_split(m: Seq<usize>, es: Seq<EntryModel>, p: int, k: int)
    requires
        0 <= k <= m.len(),
    ensures
        hits(m, es, p) == hits(m.take(k), es, p) + hits(m.skip(k), es, p),
    decreases m.len(),
{
    if k == m.len() {
        assert(m.take(k) =~= m);
        assert(m.skip(k).len() == 0);
        assert(hits(m, es, p) + Seq::<usize>::empty() =~= hits(m, es, p));
    } else {
        let d = m.drop_last();
        lemma_hits_split(d, es, p, k);
        assert(d.take(k) =~= m.take(k));
        assert(m.skip(k) =~= d.skip(k).push(m.last()));
        assert(m =~= d.push(m.last()));
        lemma_hits_push(d, es, p, m.last());
        lemma_hits_push(d.skip(k), es, p, m.last());
        let a = hits(m.take(k), es, p);
        let b = hits(d.skip(k), es, p);
        assert((a + b).push(m.last()) =~= a + b.push(m.last()));
    }
}

proof fn lemma_at_most_prefix<T>(a: Seq<T>, b: Seq<T>, n: nat)
    requires
        a.len() >= n,
    ensures
        at_most(a + b, n) == at_most(a, n),
{
    assert((a + b).take(n as int) =~= a.take(n as int));
    if a.len() == n {
        assert(a.take(n as int) =~= a);
    }
}

proof fn lemma_buckets_split(m: Seq<usize>, es: Seq<EntryModel>, limit: nat, q: nat, r: nat)
    requires
        q <= r,
    ensures
        exists|rest: Seq<usize>|
            buckets_below(m, es, limit, r) == buckets_below(m, es, limit, q) + rest,
    decreases r,
{
    if q == r {
        assert(buckets_below(m, es, limit, r) =~= buckets_below(m, es, limit, q) + Seq::<
            usize,
        >::empty());
    } else {
        lemma_buckets_split(m, es, limit, q, (r - 1) as nat);
        let rest = choose|rest: Seq<usize>|
            buckets_below(m, es, limit, (r - 1) as nat) == buckets_below(m, es, limit, q) + rest;
        let b = bucket(m, es, r - 1, limit);
        assert(buckets_below(m, es, limit, r) =~= buckets_below(m, es, limit, q) + (rest + b));
    }
}

proof fn lemma_buckets_same(
    m1: Seq<usize>,
    m2: Seq<usize>,
    es: Seq<EntryModel>,
    limit: nat,
    q: nat,
)
    requires
        q <= 256,
        forall|p: int| 0 <= p < 256 ==> bucket(m1, es, p, limit) == bucket(m2, es, p, limit),
    ensures
        buckets_below(m1, es, limit, q) == buckets_below(m2, es, limit, q),
    decreases q,
{
    if q > 0 {
        lemma_buckets_same(m1, m2, es, limit, (q - 1) as nat);
    }
}

proof fn lemma_count_update(s: Seq<bool>, p: int, v: bool, q: nat)
    requires
        0 <= p < s.len(),
        q <= s.len(),
    ensures
        count_true(s.update(p, v), q) + (if p < q && s[p] {
            1int
        } else {
            0int
        }) == count_true(s, q) + (if p < q && v {
            1int
        } else {
            0int
        }),
    decreases q,
{
    if q > 0 {
        lemma_count_update(s, p, v, (q - 1) as nat);
    }
}

proof fn lemma_count_none(s: Seq<bool>, q: nat)
    requires
        q <= s.len(),
        forall|i: int| 0 <= i < q ==> !s[i],
    ensures
        count_true(s, q) == 0,
    decreases q,
{
    if q > 0 {
        lemma_count_none(s, (q - 1) as nat);
    }
}

proof fn lemma_count_bounded(s: Seq<bool>, q: nat)
    ensures
        count_true(s, q) <= q,
    decreases q,
{
    if q > 0 {
        lemma_count_bounded(s, (q - 1) as nat);
    }
}

proof fn lemma_count_implied(a: Seq<bool>, b: Seq<bool>, q: nat)
    requires
        q <= a.len(),
        q <= b.len(),
        forall|i: int| 0 <= i < q && #[trigger] a[i] ==> b[i],
    ensures
        count_true(a, q) <= count_true(b, q),
        count_true(a, q) == count_true(b, q) ==> forall|i: int| 0 <= i < q ==> a[i] == b[i],
    decreases q,
{
    if q > 0 {
        lemma_count_implied(a, b, (q - 1) as nat);
    }
}

proof fn lemma_hits_from_m(m: Seq<usize>, es: Seq<EntryModel>, p: int)
    ensures
        forall|t: int| 0 <= t < hits(m, es, p).len() ==> m.contains(#[trigger] hits(m, es, p)[t]),
    decreases m.len(),
{
    if m.len() > 0 {
        let d = m.drop_last();
        lemma_hits_from_m(d, es, p);
        assert forall|t: int| 0 <= t < hits(m, es, p).len() implies m.contains(
            #[trigger] hits(m, es, p)[t],
        ) by {
            if t < hits(d, es, p).len() {
                assert(hits(m, es, p)[t] == hits(d, es, p)[t]);
                let u = choose|u: int| 0 <= u < d.len() && d[u] == hits(d, es, p)[t];
                assert(m[u] == d[u]);
            } else {
                assert(hits(m, es, p)[t] == m[m.len() - 1]);
            }
        }
    }
}

proof fn lemma_buckets_below_facts(m: Seq<usize>, es: Seq<EntryModel>, limit: nat, q: nat)
    ensures
        forall|t: int|
            0 <= t < buckets_below(m, es, limit, q).len() ==> {
                let x = #[trigger] buckets_below(m, es, limit, q)[t];
                &&& (x as int) < es.len()
                &&& es[x as int].priority < q
                &&& m.contains(x)
            },
        forall|s: int, t: int|
            0 <= s < t < buckets_below(m, es, limit, q).len() ==> es[buckets_below(
                m,
                es,
                limit,
                q,
            )[s] as int].priority <= es[buckets_below(m, es, limit, q)[t] as int].priority,
    decreases q,
{
    if q > 0 {
        let prev = buckets_below(m, es, limit, (q - 1) as nat);
        let b = bucket(m, es, q - 1, limit);
        lemma_buckets_below_facts(m, es, limit, (q - 1) as nat);
        lemma_hits_valid(m, es, q - 1);
        lemma_hits_from_m(m, es, q - 1);
        let all = buckets_below(m, es, limit, q);
        assert(all == prev + b);
        assert forall|t: int| 0 <= t < b.len() implies (b[t] as int) < es.len() && es[b[t] as int].priority == q - 1 && m.contains(b[t]) by {
            assert(b[t] == hits(m, es, q - 1)[t]);
        }
        assert forall|t: int| 0 <= t < all.len() implies {
            let x = #[trigger] all[t];
            &&& (x as int) < es.len()
            &&& es[x as int].priority < q
            &&& m.contains(x)
        } by {
            if t < prev.len() {
                assert(all[t] == prev[t]);
            } else {
                assert(all[t] == b[t - prev.len()]);
            }
        }
        assert forall|s: int, t: int| 0 <= s < t < all.len() implies es[all[s] as int].priority
            <= es[all[t] as int].priority by {
            if t < prev.len() {
                assert(all[s] == prev[s]);
                assert(all[t] == prev[t]);
            } else if s < prev.len() {
                assert(all[s] == prev[s]);
                assert(all[t] == b[t - prev.len()]);
            } else {
                assert(all[s] == b[s - prev.len()]);
                assert(all[t] == b[t - prev.len()]);
            }
        }
    }
}

/// How many of the matches `m` name an entry of `es`.
pub open spec fn valid_count(m: Seq<usize>, es: Seq<EntryModel>) -> nat
    decreases m.len(),
{
    if m.len() == 0 {
        0
    } else {
        valid_count(m.drop_last(), es) + if (m.last() as int) < es.len() {
            1nat
        } else {
            0nat
        }
    }
}

/// How many matches the priorities below `q` have together.
spec fn hits_total(m: Seq<usize>, es: Seq<EntryModel>, q: nat) -> nat
    decreases q,
{
    if q == 0 {
        0
    } else {
        hits_total(m, es, (q - 1) as nat) + hits(m, es, q - 1).len()
    }
}

proof fn lemma_hits_total_push(m: Seq<usize>, es: Seq<EntryModel>, i: usize, q: nat)
    ensures
        hits_total(m.push(i), es, q) == hits_total(m, es, q) + if (i as int) < es.len()
            && es[i as int].priority < q {
            1int
        } else {
            0int
        },
    decreases q,
{
    if q > 0 {
        lemma_hits_total_push(m, es, i, (q - 1) as nat);
        lemma_hits_push(m, es, q - 1, i);
    }
}

proof fn lemma_hits_total_counts_valid(m: Seq<usize>, es: Seq<EntryModel>)
    ensures
        hits_total(m, es, 256) == valid_count(m, es),
    decreases m.len(),
{
    if m.len() == 0 {
        lemma_hits_total_empty(m, es, 256);
    } else {
        let d = m.drop_last();
        lemma_hits_total_counts_valid(d, es);
        assert(m =~= d.push(m.last()));
        lemma_hits_total_push(d, es, m.last(), 256);
    }
}

proof fn lemma_hits_total_empty(m: Seq<usize>, es: Seq<EntryModel>, q: nat)
    requires
        m.len() == 0,
    ensures
        hits_total(m, es, q) == 0,
    decreases q,
{
    if q > 0 {
        lemma_hits_total_empty(m, es, (q - 1) as nat);
    }
}

proof fn lemma_hits_total_bounds(m: Seq<usize>, es: Seq<EntryModel>, q: nat, p: int)
    requires
        0 <= p < q,
    ensures
        hits_total(m, es, q) >= hits(m, es, p).len(),
    decreases q,
{
    if p < q - 1 {
        lemma_hits_total_bounds(m, es, (q - 1) as nat, p);
    }
}

proof fn lemma_buckets_below_len(m: Seq<usize>, es: Seq<EntryModel>, limit: nat, q: nat)
    ensures
        (forall|p: int| 0 <= p < q ==> #[trigger] hits(m, es, p).len() <= limit) ==> buckets_below(
            m,
            es,
            limit,
            q,
        ).len() == hits_total(m, es, q),
        (exists|p: int| 0 <= p < q && #[trigger] hits(m, es, p).len() > limit) ==> buckets_below(
            m,
            es,
            limit,
            q,
        ).len() >= limit,
    decreases q,
{
    if q > 0 {
        lemma_buckets_below_len(m, es, limit, (q - 1) as nat);
        if exists|p: int| 0 <= p < q && #[trigger] hits(m, es, p).len() > limit {
            let p = choose|p: int| 0 <= p < q && #[trigger] hits(m, es, p).len() > limit;
            if p < q - 1 {
                assert(exists|p: int| 0 <= p < q - 1 && #[trigger] hits(m, es, p).len() > limit);
            }
        }
    }
}

/// The result list holds as many entries as the limit allows: `limit`, or
/// every match that names an entry when there are fewer.
pub proof fn lemma_ranked_length(m: Seq<usize>, es: Seq<EntryModel>, limit: nat)
    ensures
        ranked(m, es, limit).len() == if limit <= valid_count(m, es) {
            limit
        } else {
            valid_count(m, es)
        },
{
    lemma_buckets_below_len(m, es, limit, 256);
    lemma_hits_total_counts_valid(m, es);
    if exists|p: int| 0 <= p < 256 && #[trigger] hits(m, es, p).len() > limit {
        let p = choose|p: int| 0 <= p < 256 && #[trigger] hits(m, es, p).len() > limit;
        lemma_hits_total_bounds(m, es, 256, p);
    }
}

/// When every match names an entry, there are as many of them as matches.
pub proof fn lemma_valid_count_all(m: Seq<usize>, es: Seq<EntryModel>)
    requires
        forall|k: int| 0 <= k < m.len() ==> (#[trigger] m[k] as int) < es.len(),
    ensures
        valid_count(m, es) == m.len(),
    decreases m.len(),
{
    if m.len() > 0 {
        let d = m.drop_last();
        assert forall|k: int| 0 <= k < d.len() implies (#[trigger] d[k] as int) < es.len() by {
            assert(d[k] == m[k]);
        }
        lemma_valid_count_all(d, es);
        assert((m.last() as int) < es.len()) by {
            assert(m[m.len() - 1] == m.last());
        }
    }
}

proof fn lemma_hits_no_duplicates(m: Seq<usize>, es: Seq<EntryModel>, p: int)
    requires
        m.no_duplicates(),
    ensures
        hits(m, es, p).no_duplicates(),
    decreases m.len(),
{
    if m.len() > 0 {
        let d = m.drop_last();
        let x = m.last();
        assert(m =~= d.push(x));
        assert(d.no_duplicates()) by {
            assert forall|a: int, b: int| 0 <= a < d.len() && 0 <= b < d.len() && a != b implies d[a]
                != d[b] by {
                assert(d[a] == m[a] && d[b] == m[b]);
            }
        }
        lemma_hits_no_duplicates(d, es, p);
        lemma_hits_push(d, es, p, x);
        lemma_hits_from_m(d, es, p);
        let h = hits(d, es, p);
        if (x as int) < es.len() && es[x as int].priority == p {
            assert forall|t: int| 0 <= t < h.len() implies h[t] != x by {
                assert(d.contains(h[t]));
                let u = choose|u: int| 0 <= u < d.len() && d[u] == h[t];
                assert(m[u] == d[u]);
                assert(m[m.len() - 1] == x);
            }
            assert forall|a: int, b: int| 0 <= a < h.push(x).len() && 0 <= b < h.push(x).len() && a
                != b implies h.push(x)[a] != h.push(x)[b] by {
                if a < h.len() && b < h.len() {
                    assert(h.push(x)[a] == h[a] && h.push(x)[b] == h[b]);
                } else if a < h.len() {
                    assert(h.push(x)[a] == h[a]);
                } else if b < h.len() {
                    assert(h.push(x)[b] == h[b]);
                }
            }
        }
    }
}

proof fn lemma_buckets_no_duplicates(m: Seq<usize>, es: Seq<EntryModel>, limit: nat, q: nat)
    requires
        m.no_duplicates(),
    ensures
        buckets_below(m, es, limit, q).no_duplicates(),
    decreases q,
{
    if q > 0 {
        let prev = buckets_below(m, es, limit, (q - 1) as nat);
        let b = bucket(m, es, q - 1, limit);
        let all = buckets_below(m, es, limit, q);
        lemma_buckets_no_duplicates(m, es, limit, (q - 1) as nat);
        lemma_buckets_below_facts(m, es, limit, (q - 1) as nat);
        lemma_hits_no_duplicates(m, es, q - 1);
        lemma_hits_valid(m, es, q - 1);
        let h = hits(m, es, q - 1);
        assert forall|t: int| 0 <= t < b.len() implies b[t] == h[t] by {}
        assert(all == prev + b);
        assert forall|a: int, c: int| 0 <= a < all.len() && 0 <= c < all.len() && a != c implies all[a]
            != all[c] by {
            if a < prev.len() && c < prev.len() {
                assert(all[a] == prev[a] && all[c] == prev[c]);
            } else if a >= prev.len() && c >= prev.len() {
                assert(all[a] == h[a - prev.len()] && all[c] == h[c - prev.len()]);
            } else if a < prev.len() {
                assert(all[a] == prev[a]);
                assert(all[c] == h[c - prev.len()]);
                assert(es[prev[a] as int].priority < q - 1);
            } else {
                assert(all[c] == prev[c]);
                assert(all[a] == h[a - prev.len()]);
                assert(es[prev[c] as int].priority < q - 1);
            }
        }
    }
}

/// Matches that hold no entry twice give a result list that holds no entry
/// twice.
pub proof fn lemma_ranked_no_duplicates(m: Seq<usize>, es: Seq<EntryModel>, limit: nat)
    requires
        m.no_duplicates(),
    ensures
        ranked(m, es, limit).no_duplicates(),
{
    let all = buckets_below(m, es, limit, 256);
    lemma_buckets_no_duplicates(m, es, limit, 256);
    let r = ranked(m, es, limit);
    assert forall|a: int, c: int| 0 <= a < r.len() && 0 <= c < r.len() && a != c implies r[a] != r[c] by {
        assert(r[a] == all[a] && r[c] == all[c]);
    }
}

/// Once a searcher has settled on a query, its result list holds as many
/// entries as the limit allows out of the entries whose search text the
/// query matches (`m` holds exactly those, each once), each such entry at
/// most once, and only such entries.
pub proof fn lemma_settled_result_list(
    m: Seq<usize>,
    es: Seq<EntryModel>,
    pattern: Seq<char>,
    limit: nat,
)
    requires
        matches_exactly(m, es, pattern),
    ensures
        ranked(m, es, limit).len() == if limit <= m.len() {
            limit
        } else {
            m.len()
        },
        ranked(m, es, limit).no_duplicates(),
        forall|j: int|
            0 <= j < ranked(m, es, limit).len() ==> nucleo_matches(
                pattern,
                search_text_of(es[#[trigger] ranked(m, es, limit)[j] as int]),
            ),
{
    lemma_valid_count_all(m, es);
    lemma_ranked_length(m, es, limit);
    lemma_ranked_no_duplicates(m, es, limit);
    lemma_ranked_shape(m, es, limit);
    let r = ranked(m, es, limit);
    assert forall|j: int| 0 <= j < r.len() implies nucleo_matches(
        pattern,
        search_text_of(es[#[trigger] r[j] as int]),
    ) by {
        let x = r[j];
        assert(m.contains(x));
        assert((x as int) < es.len());
        let i = x as int;
        assert(m.contains(i as usize));
    }
}

/// The result list holds at most `limit` entries, each an entry of `es`
/// that `m` matched, and its priorities never decrease from one entry to the
/// next. While it is not full it holds every bucket whole.
pub proof fn lemma_ranked_shape(m: Seq<usize>, es: Seq<EntryModel>, limit: nat)
    ensures
        ranked(m, es, limit).len() <= limit,
        forall|j: int|
            0 <= j < ranked(m, es, limit).len() ==> (#[trigger] ranked(m, es, limit)[j] as int)
                < es.len() && m.contains(ranked(m, es, limit)[j]),
        forall|i: int, j: int|
            0 <= i < j < ranked(m, es, limit).len() ==> es[ranked(m, es, limit)[i] as int].priority
                <= es[ranked(m, es, limit)[j] as int].priority,
        ranked(m, es, limit).len() < limit ==> ranked(m, es, limit) == buckets_below(
            m,
            es,
            limit,
            256,
        ),
{
    let all = buckets_below(m, es, limit, 256);
    let r = ranked(m, es, limit);
    lemma_buckets_below_facts(m, es, limit, 256);
    assert forall|j: int| 0 <= j < r.len() implies r[j] == all[j] by {}
    assert forall|j: int| 0 <= j < r.len() implies (#[trigger] r[j] as int) < es.len() && m.contains(
        r[j],
    ) by {
        assert(r[j] == all[j]);
    }
    assert forall|i: int, j: int| 0 <= i < j < r.len() implies es[r[i] as int].priority
        <= es[r[j] as int].priority by {
        assert(r[i] == all[i]);
        assert(r[j] == all[j]);
    }
}

/// A lower-priority match never pushes out a higher-priority one: when one of
/// the first `limit` matches of priority `p` is missing from the result list,
/// the list is full and every entry on it has priority `p` or a higher one
/// (a number no larger than `p`).
pub proof fn lemma_ranked_priority_first(
    m: Seq<usize>,
    es: Seq<EntryModel>,
    limit: nat,
    p: int,
    t: int,
)
    requires
        0 <= p < 256,
        0 <= t < bucket(m, es, p, limit).len(),
        !ranked(m, es, limit).contains(bucket(m, es, p, limit)[t]),
    ensures
        ranked(m, es, limit).len() == limit,
        forall|j: int|
            0 <= j < ranked(m, es, limit).len() ==> es[ranked(m, es, limit)[j] as int].priority
                <= p,
{
    let all = buckets_below(m, es, limit, 256);
    let r = ranked(m, es, limit);
    let low = buckets_below(m, es, limit, p as nat);
    let upto = buckets_below(m, es, limit, (p + 1) as nat);
    let b = bucket(m, es, p, limit);
    lemma_buckets_split(m, es, limit, (p + 1) as nat, 256);
    let rest = choose|rest: Seq<usize>| all == upto + rest;
    assert(upto == low + b);
    let pos = low.len() + t;
    assert(all[pos] == b[t]);
    if all.len() <= limit {
        assert(r == all);
        assert(r[pos] == b[t]);
        assert(r.contains(b[t]));
    }
    assert(r.len() == limit);
    if pos < limit {
        assert(r[pos] == all[pos]);
        assert(r.contains(b[t]));
    }
    lemma_buckets_below_facts(m, es, limit, (p + 1) as nat);
    assert forall|j: int| 0 <= j < r.len() implies es[r[j] as int].priority <= p by {
        assert(r[j] == all[j]);
        assert(all[j] == upto[j]);
        assert(upto[j] == (#[trigger] buckets_below(m, es, limit, (p + 1) as nat)[j]));
    }
}

/// Whether the matches `m` are exactly the entries of `es` whose search text
/// `pattern` matches, each once.
pub open spec fn matches_exactly(m: Seq<usize>, es: Seq<EntryModel>, pattern: Seq<char>) -> bool {
    &&& m.no_duplicates()
    &&& forall|k: int| 0 <= k < m.len() ==> (#[trigger] m[k] as int) < es.len()
    &&& forall|i: int|
        0 <= i < es.len() ==> (m.contains(i as usize) <==> nucleo_matches(
            pattern,
            #[trigger] search_text_of(es[i]),
        ))
}

/// What a tick that leaves nothing running says of the snapshot, read for a
/// matcher that holds the search texts of `es`: exactly the matching
/// entries, each once.
proof fn lemma_exact_after_tick(n: Nucleo<usize>, es: Seq<EntryModel>)
    requires
        es.len() <= usize::MAX,
        injected(n) == items_of(es),
        forall|j: int|
            0 <= j < injected(n).len() && #[trigger] nucleo_matches(pattern_text(n), injected(n)[j].1)
                ==> matched(n).contains(injected(n)[j].0),
        snapshot_sound(n),
    ensures
        matches_exactly(matched(n), es, pattern_text(n)),
{
    let m = matched(n);
    let inj = injected(n);
    let pat = pattern_text(n);
    assert forall|a: int, b: int| 0 <= a < b < inj.len() implies (#[trigger] inj[a]).0 != (
    #[trigger] inj[b]).0 by {
        assert(inj[a] == items_of(es)[a]);
        assert(inj[b] == items_of(es)[b]);
    }
    assert forall|k: int| 0 <= k < m.len() implies (#[trigger] m[k] as int) < es.len() by {
        let j = choose|j: int|
            0 <= j < inj.len() && (#[trigger] inj[j]).0 == m[k] && nucleo_matches(pat, inj[j].1);
        assert(inj[j] == items_of(es)[j]);
    }
    assert forall|i: int| 0 <= i < es.len() implies (m.contains(i as usize) <==> nucleo_matches(
        pat,
        #[trigger] search_text_of(es[i]),
    )) by {
        assert(inj[i] == items_of(es)[i]);
        if nucleo_matches(pat, search_text_of(es[i])) {
            assert(nucleo_matches(pat, inj[i].1));
        }
        if m.contains(i as usize) {
            let k = choose|k: int| 0 <= k < m.len() && m[k] == i as usize;
            let j = choose|j: int|
                0 <= j < inj.len() && (#[trigger] inj[j]).0 == m[k] && nucleo_matches(pat, inj[j].1);
            assert(inj[j] == items_of(es)[j]);
            assert(j == i);
        }
    }
}

/// The indices, in ascending order, of the first `n` entries of `es` whose
/// search text `pattern` matches.
pub open spec fn matching_indices(es: Seq<EntryModel>, pattern: Seq<char>, n: nat) -> Seq<usize>
    decreases n,
{
    if n == 0 {
        Seq::empty()
    } else {
        let prev = matching_indices(es, pattern, (n - 1) as nat);
        if nucleo_matches(pattern, search_text_of(es[n - 1])) {
            prev.push((n - 1) as usize)
        } else {
            prev
        }
    }
}

proof fn lemma_matching_indices(es: Seq<EntryModel>, pattern: Seq<char>, n: nat)
    requires
        n <= es.len() <= usize::MAX,
    ensures
        matching_indices(es, pattern, n).no_duplicates(),
        forall|x: usize|
            matching_indices(es, pattern, n).contains(x) <==> (x < n && nucleo_matches(
                pattern,
                search_text_of(es[x as int]),
            )),
        (forall|t: Seq<char>| #[trigger] nucleo_matches(pattern, t)) ==> matching_indices(
            es,
            pattern,
            n,
        ).len() == n,
    decreases n,
{
    if n > 0 {
        let prev = matching_indices(es, pattern, (n - 1) as nat);
        lemma_matching_indices(es, pattern, (n - 1) as nat);
        let cur = matching_indices(es, pattern, n);
        let x = (n - 1) as usize;
        if nucleo_matches(pattern, search_text_of(es[n - 1])) {
            assert(!prev.contains(x));
            assert forall|a: int, b: int| 0 <= a < cur.len() && 0 <= b < cur.len() && a != b implies cur[a]
                != cur[b] by {
                if a < prev.len() && b < prev.len() {
                    assert(cur[a] == prev[a] && cur[b] == prev[b]);
                } else if a < prev.len() {
                    assert(cur[a] == prev[a]);
                    assert(prev.contains(prev[a]));
                } else if b < prev.len() {
                    assert(cur[b] == prev[b]);
                    assert(prev.contains(prev[b]));
                }
            }
            assert forall|y: usize| cur.contains(y) <==> (y < n && nucleo_matches(
                pattern,
                search_text_of(es[y as int]),
            )) by {
                if cur.contains(y) && y != x {
                    let k = choose|k: int| 0 <= k < cur.len() && cur[k] == y;
                    assert(k < prev.len());
                    assert(prev[k] == y);
                    assert(prev.contains(y));
                }
                if y < n && nucleo_matches(pattern, search_text_of(es[y as int])) {
                    if y == x {
                        assert(cur[cur.len() - 1] == x);
                    } else {
                        assert(prev.contains(y));
                        let k = choose|k: int| 0 <= k < prev.len() && prev[k] == y;
                        assert(cur[k] == y);
                    }
                }
            }
        } else {
            assert forall|y: usize| cur.contains(y) <==> (y < n && nucleo_matches(
                pattern,
                search_text_of(es[y as int]),
            )) by {
                if y == x {
                    assert(!prev.contains(y));
                }
            }
        }
    }
}

/// Matches that are exactly the matching entries, each once, are as many as
/// the matching entries.
proof fn lemma_exact_count(m: Seq<usize>, es: Seq<EntryModel>, pattern: Seq<char>)
    requires
        es.len() <= usize::MAX,
        matches_exactly(m, es, pattern),
    ensures
        m.len() == matching_indices(es, pattern, es.len()).len(),
{
    let mi = matching_indices(es, pattern, es.len());
    lemma_matching_indices(es, pattern, es.len());
    assert(m.to_set() =~= mi.to_set()) by {
        assert forall|x: usize| m.to_set().contains(x) <==> mi.to_set().contains(x) by {
            if m.contains(x) {
                let k = choose|k: int| 0 <= k < m.len() && m[k] == x;
                assert((m[k] as int) < es.len());
                let i = x as int;
                assert(m.contains(i as usize));
            }
            if mi.contains(x) {
                let i = x as int;
                assert(i < es.len());
                assert(nucleo_matches(pattern, search_text_of(es[i])));
                assert(m.contains(i as usize));
            }
        }
    }
    m.unique_seq_to_set();
    mi.unique_seq_to_set();
}

proof fn lemma_hits_contains(m: Seq<usize>, es: Seq<EntryModel>, x: usize)
    requires
        m.contains(x),
        (x as int) < es.len(),
    ensures
        hits(m, es, es[x as int].priority as int).contains(x),
    decreases m.len(),
{
    let p = es[x as int].priority as int;
    let d = m.drop_last();
    assert(m =~= d.push(m.last()));
    lemma_hits_push(d, es, p, m.last());
    if m.last() == x {
        assert(hits(m, es, p)[hits(m, es, p).len() - 1] == x);
    } else {
        let k = choose|k: int| 0 <= k < m.len() && m[k] == x;
        assert(k < d.len());
        assert(d[k] == x);
        lemma_hits_contains(d, es, x);
        let h = hits(d, es, p);
        let t = choose|t: int| 0 <= t < h.len() && h[t] == x;
        assert(hits(m, es, p)[t] == x);
    }
}

/// A match that the result list leaves out is never pushed out by a
/// lower-priority entry: the list is full and every entry on it has that
/// match's priority or a higher one.
pub proof fn lemma_left_out_only_when_full(m: Seq<usize>, es: Seq<EntryModel>, limit: nat, x: usize)
    requires
        m.contains(x),
        (x as int) < es.len(),
        !ranked(m, es, limit).contains(x),
    ensures
        ranked(m, es, limit).len() == limit,
        forall|j: int|
            0 <= j < ranked(m, es, limit).len() ==> es[ranked(m, es, limit)[j] as int].priority
                <= es[x as int].priority,
{
    let p = es[x as int].priority as int;
    lemma_hits_contains(m, es, x);
    let h = hits(m, es, p);
    let t = choose|t: int| 0 <= t < h.len() && h[t] == x;
    if t < limit {
        assert(bucket(m, es, p, limit)[t] == x);
        lemma_ranked_priority_first(m, es, limit, p, t);
    } else {
        let all = buckets_below(m, es, limit, 256);
        let upto = buckets_below(m, es, limit, (p + 1) as nat);
        let r = ranked(m, es, limit);
        assert(bucket(m, es, p, limit).len() == limit);
        assert(upto.len() >= limit);
        lemma_buckets_split(m, es, limit, (p + 1) as nat, 256);
        let rest = choose|rest: Seq<usize>| all == upto + rest;
        lemma_at_most_prefix(upto, rest, limit);
        lemma_buckets_below_facts(m, es, limit, (p + 1) as nat);
        assert forall|j: int| 0 <= j < r.len() implies es[r[j] as int].priority <= p by {
            assert(r[j] == upto[j]);
            assert(upto[j] == (#[trigger] buckets_below(m, es, limit, (p + 1) as nat)[j]));
        }
    }
}

/// A matcher over a list of entries, matching each entry by its search text.
pub struct Searcher<F> {
    nucleo: Nucleo<usize>,
    entries: Vec<Entry>,
    notify: Arc<F>,
    distinct_priorities: usize,
}

/// A matched entry.
#[derive(Debug)]
pub struct MatchedEntry {
    pub entry: Entry,
}

impl Clone for MatchedEntry {
    fn clone(&self) -> (r: Self)
        ensures
            r == *self,
    {
        MatchedEntry { entry: self.entry.clone() }
    }
}

impl<F> Searcher<F> {
    /// The searcher's invariant: the matcher holds each entry's search text
    /// under the entry's index, the distinct priorities are counted, and a
    /// settled matcher holds exactly the matching entries.
    pub closed spec fn wf(self) -> bool {
        &&& self.distinct_priorities == distinct_priorities(models(self.entries@))
        &&& injected(self.nucleo) == items_of(models(self.entries@))
        &&& matcher_settled(self.nucleo) ==> matches_exactly(
            matched(self.nucleo),
            models(self.entries@),
            pattern_text(self.nucleo),
        )
        &&& pattern_text(self.nucleo).len() == 0 ==> forall|t: Seq<char>|
            #[trigger] nucleo_matches(pattern_text(self.nucleo), t)
    }

    /// Whether the matcher has settled: its last check found no work left,
    /// and nothing changed since.
    pub closed spec fn settled(self) -> bool {
        matcher_settled(self.nucleo)
    }

    /// The texts the matcher searches: entry `i`'s search text under `i`.
    pub closed spec fn haystack(self) -> Seq<(usize, Seq<char>)> {
        injected(self.nucleo)
    }

    /// A searcher searches each entry's search text (its name and keywords),
    /// and once it has settled its matches are exactly the entries whose
    /// search text the query matches, each once.
    pub proof fn lemma_settled_matches(self)
        requires
            self.wf(),
        ensures
            self.haystack() == items_of(self.entries()),
            self.settled() ==> matches_exactly(self.matches(), self.entries(), self.pattern()),
    {
    }

    /// What `results` returns once the searcher has settled on its query
    /// (`ranked` over its matches): as many entries as the limit allows out
    /// of those whose search text the query matches, none twice, each one
    /// matching, their priorities ascending; and a matching entry is left
    /// out only when the list is full of entries of its priority or higher.
    pub proof fn lemma_settled_search(self, limit: nat)
        requires
            self.wf(),
            self.settled(),
        ensures
            ({
                let r = ranked(self.matches(), self.entries(), limit);
                let found = matching_indices(self.entries(), self.pattern(), self.entries().len());
                &&& r.len() == if limit <= found.len() {
                    limit
                } else {
                    found.len()
                }
                &&& r.no_duplicates()
                &&& forall|j: int|
                    0 <= j < r.len() ==> nucleo_matches(
                        self.pattern(),
                        search_text_of(self.entries()[#[trigger] r[j] as int]),
                    )
                &&& forall|i: int, j: int|
                    0 <= i < j < r.len() ==> self.entries()[r[i] as int].priority
                        <= self.entries()[r[j] as int].priority
                &&& forall|x: usize|
                    #[trigger] found.contains(x) && !r.contains(x) ==> r.len() == limit && forall|
                        j: int,
                    |
                        0 <= j < r.len() ==> self.entries()[r[j] as int].priority
                            <= self.entries()[x as int].priority
            }),
    {
        let m = self.matches();
        let es = self.entries();
        let pat = self.pattern();
        let r = ranked(m, es, limit);
        let found = matching_indices(es, pat, es.len());
        assert(es.len() == self.entries.len());
        lemma_settled_result_list(m, es, pat, limit);
        lemma_exact_count(m, es, pat);
        lemma_ranked_shape(m, es, limit);
        lemma_matching_indices(es, pat, es.len());
        assert forall|x: usize| #[trigger] found.contains(x) && !r.contains(x) implies r.len() == limit
            && forall|j: int|
            0 <= j < r.len() ==> es[r[j] as int].priority <= es[x as int].priority by {
            let i = x as int;
            assert(m.contains(i as usize));
            lemma_left_out_only_when_full(m, es, limit, x);
        }
    }

    /// An empty query matches every entry: once settled, the result list
    /// holds as many entries as the limit allows out of all of them.
    pub proof fn lemma_empty_query_lists_all(self, limit: nat)
        requires
            self.wf(),
            self.settled(),
            self.pattern().len() == 0,
        ensures
            ranked(self.matches(), self.entries(), limit).len() == if limit <= self.entries().len() {
                limit
            } else {
                self.entries().len()
            },
    {
        let es = self.entries();
        assert(es.len() == self.entries.len());
        self.lemma_settled_search(limit);
        lemma_matching_indices(es, self.pattern(), es.len());
    }

    /// The entries searched, in the order given.
    pub closed spec fn entries(self) -> Seq<EntryModel> {
        models(self.entries@)
    }

    /// The matcher's current matches: indices into `entries()`, best first.
    pub closed spec fn matches(self) -> Seq<usize> {
        matched(self.nucleo)
    }

    /// The query the entries are matched against.
    pub closed spec fn pattern(self) -> Seq<char> {
        pattern_text(self.nucleo)
    }

    /// The callback the matcher calls when new matches are ready.
    pub closed spec fn notifier(self) -> Arc<F> {
        self.notify
    }
}

impl<F: Fn() + Send + Sync + 'static> Searcher<F> {
    /// A searcher over `entries`; `notify` is called from a worker thread
    /// whenever new matches are ready to be read.
    pub fn new(entries: Vec<Entry>, notify: Arc<F>) -> (s: Self)
        ensures
            s.wf(),
            s.entries() == models(entries@),
            s.pattern() == Seq::<char>::empty(),
            s.notifier() == notify,
            s.haystack() == items_of(models(entries@)),
    {
        let mut nucleo = new_matcher(notify.clone());
        let mut i: usize = 0;
        while i < entries.len()
            invariant
                i <= entries.len(),
                injected(nucleo) == items_of(models(entries@)).take(i as int),
                pattern_text(nucleo) == Seq::<char>::empty(),
                matched(nucleo) == Seq::<usize>::empty(),
                i > 0 ==> !matcher_settled(nucleo),
                forall|t: Seq<char>| #[trigger] nucleo_matches(pattern_text(nucleo), t),
            decreases entries.len() - i,
        {
            let text = entries[i].search_text();
            push_item(&mut nucleo, i, text.as_str());
            assert(items_of(models(entries@)).take(i + 1) =~= items_of(models(entries@)).take(
                i as int,
            ).push((i, search_text_of(entries@[i as int]@))));
            i += 1;
        }
        assert(items_of(models(entries@)).take(entries.len() as int) =~= items_of(
            models(entries@),
        ));
        let distinct = count_priorities(&entries);
        proof {
            if matcher_settled(nucleo) {
                assert(models(entries@).len() == 0);
                assert(Seq::<usize>::empty().no_duplicates());
            }
        }
        Searcher { nucleo, entries, notify, distinct_priorities: distinct }
    }

    /// The result list for the matches `m`, indices into `entries()` best
    /// match first: up to `limit` entries, those of the highest priority
    /// (lowest number) first, at most `limit` of any one priority, each
    /// priority's matches in the order of `m`.
    pub fn rank(&self, m: &Vec<usize>, limit: usize) -> (r: Vec<MatchedEntry>)
        requires
            self.wf(),
        ensures
            r@.len() == ranked(m@, self.entries(), limit as nat).len(),
            forall|j: int|
                0 <= j < r@.len() ==> r@[j].entry@ == self.entries()[ranked(
                    m@,
                    self.entries(),
                    limit as nat,
                )[j] as int],
    {
        let ghost es = self.entries();
        let ghost lim = limit as nat;
        let mut buckets: Vec<Vec<usize>> = Vec::new();
        let mut seen: Vec<bool> = Vec::new();
        let mut p: usize = 0;
        while p < 256
            invariant
                p <= 256,
                buckets@.len() == p,
                seen@.len() == p,
                forall|q: int| 0 <= q < p ==> !seen@[q],
                forall|q: int| 0 <= q < p ==> (#[trigger] buckets@[q])@.len() == 0,
            decreases 256 - p,
        {
            buckets.push(Vec::new());
            seen.push(false);
            p += 1;
        }
        proof {
            assert forall|q: int| 0 <= q < 256 implies buckets@[q]@ == bucket(m@.take(0), es, q, lim)
                && seen@[q] == seen_flags(m@.take(0), es)[q] by {
                assert(m@.take(0).len() == 0);
                assert(buckets@[q]@ =~= Seq::<usize>::empty());
            }
            assert(seen@ =~= seen_flags(m@.take(0), es));
            lemma_count_none(seen_flags(m@.take(0), es), 256);
            lemma_count_none(full_flags(m@.take(0), es, lim), 256);
        }
        let mut seen_count: usize = 0;
        let mut full_count: usize = 0;
        let mut k: usize = 0;
        let mut done = false;
        while k < m.len() && !done
            invariant
                k <= m@.len(),
                es == self.entries(),
                lim == limit as nat,
                self.distinct_priorities == distinct_priorities(es),
                buckets@.len() == 256,
                forall|q: int| 0 <= q < 256 ==> (#[trigger] buckets@[q])@ == bucket(m@.take(k as int), es, q, lim),
                seen@ == seen_flags(m@.take(k as int), es),
                seen_count == count_true(seen_flags(m@.take(k as int), es), 256),
                full_count == count_true(full_flags(m@.take(k as int), es, lim), 256),
                done ==> seen_count == self.distinct_priorities && full_count == seen_count,
            decreases m@.len() - k,
        {
            let i = m[k];
            let ghost mk = m@.take(k as int);
            let ghost mk1 = m@.take(k + 1);
            let ghost old_seen = seen_flags(mk, es);
            let ghost old_full = full_flags(mk, es, lim);
            proof {
                assert forall|q: int| 0 <= q < 256 implies #[trigger] hits(mk1, es, q) == if (i as int)
                    < es.len() && es[i as int].priority == q {
                    hits(mk, es, q).push(i)
                } else {
                    hits(mk, es, q)
                } by {
                    lemma_rank_step(m@, k as int, es, lim, q);
                }
                lemma_count_bounded(old_seen, 256);
                lemma_count_bounded(old_full, 256);
            }
            if i < self.entries.len() {
                let pr = self.entries[i].priority;
                let pi = pr as usize;
                assert(es[i as int].priority == pr);
                let ghost new_seen = seen_flags(mk1, es);
                let ghost new_full = full_flags(mk1, es, lim);
                proof {
                    assert(new_seen =~= old_seen.update(pi as int, true));
                    lemma_count_update(old_seen, pi as int, true, 256);
                    let hv = hits(mk1, es, pi as int);
                    assert(new_full =~= old_full.update(pi as int, at_most(hv, lim).len() >= lim));
                    lemma_count_update(old_full, pi as int, at_most(hv, lim).len() >= lim, 256);
                    lemma_count_implied(old_full, old_seen, 256);
                }
                if !seen[pi] {
                    seen.set(pi, true);
                    seen_count += 1;
                    if limit == 0 {
                        full_count += 1;
                    }
                } else {
                    assert(seen@ =~= new_seen);
                }
                assert(seen@ =~= new_seen);
                if buckets[pi].len() < limit {
                    buckets[pi].push(i);
                    if buckets[pi].len() == limit {
                        full_count += 1;
                    }
                }
                proof {
                    assert forall|q: int| 0 <= q < 256 implies (#[trigger] buckets@[q])@ == bucket(mk1, es, q, lim) by {
                        if q == pi as int {
                            let h = hits(mk, es, q);
                            assert(h.push(i).take(lim as int) =~= h.take(lim as int)
                                || h.len() < lim);
                            if h.len() >= lim {
                                assert(h.push(i).take(lim as int) =~= h.take(lim as int));
                            } else {
                                assert(bucket(mk, es, q, lim) == h);
                            }
                        }
                    }
                }
            } else {
                proof {
                    assert(seen_flags(mk1, es) =~= old_seen);
                    assert(full_flags(mk1, es, lim) =~= old_full);
                    assert forall|q: int| 0 <= q < 256 implies (#[trigger] buckets@[q])@ == bucket(mk1, es, q, lim) by {}
                }
            }
            k += 1;
            if seen_count == self.distinct_priorities && full_count == seen_count {
                done = true;
            }
        }
        proof {
            let mk = m@.take(k as int);
            assert forall|q: int| 0 <= q < 256 implies bucket(mk, es, q, lim) == bucket(m@, es, q, lim) by {
                if k == m@.len() {
                    assert(mk =~= m@);
                } else {
                    assert(done);
                    assert forall|t: int| 0 <= t < 256 && #[trigger] seen_flags(mk, es)[t] implies priority_flags(es)[t] by {
                        lemma_hits_valid(mk, es, t);
                        let x = hits(mk, es, t)[0];
                        assert(es[x as int].priority == t);
                    }
                    lemma_count_implied(seen_flags(mk, es), priority_flags(es), 256);
                    assert forall|t: int| 0 <= t < 256 && #[trigger] full_flags(mk, es, lim)[t] implies seen_flags(mk, es)[t] by {}
                    lemma_count_implied(full_flags(mk, es, lim), seen_flags(mk, es), 256);
                    lemma_hits_split(m@, es, q, k as int);
                    assert(m@.take(k as int) == mk);
                    if has_priority(es, q) {
                        assert(priority_flags(es)[q]);
                        assert(full_flags(mk, es, lim)[q]);
                        lemma_at_most_prefix(hits(mk, es, q), hits(m@.skip(k as int), es, q), lim);
                    } else {
                        lemma_no_priority_no_hits(m@, es, q);
                        lemma_no_priority_no_hits(mk, es, q);
                    }
                }
            }
            lemma_buckets_same(mk, m@, es, lim, 256);
        }
        self.fill(&buckets, Ghost(m@), limit)
    }

    /// The result list read off the buckets of the matches `m`: bucket after
    /// bucket in priority order until `limit` entries are taken.
    fn fill(&self, buckets: &Vec<Vec<usize>>, Ghost(m): Ghost<Seq<usize>>, limit: usize) -> (r: Vec<
        MatchedEntry,
    >)
        requires
            buckets@.len() == 256,
            forall|q: int|
                0 <= q < 256 ==> (#[trigger] buckets@[q])@ == bucket(
                    m,
                    self.entries(),
                    q,
                    limit as nat,
                ),
        ensures
            r@.len() == ranked(m, self.entries(), limit as nat).len(),
            forall|j: int|
                0 <= j < r@.len() ==> r@[j].entry@ == self.entries()[ranked(
                    m,
                    self.entries(),
                    limit as nat,
                )[j] as int],
    {
        let ghost es = self.entries();
        let ghost lim = limit as nat;
        let mut out: Vec<MatchedEntry> = Vec::new();
        let ghost mut picked: Seq<usize> = Seq::empty();
        let mut p: usize = 0;
        while p < 256 && out.len() < limit
            invariant
                p <= 256,
                es == self.entries(),
                lim == limit as nat,
                buckets@.len() == 256,
                forall|q: int| 0 <= q < 256 ==> (#[trigger] buckets@[q])@ == bucket(m, es, q, lim),
                picked == at_most(buckets_below(m, es, lim, p as nat), lim),
                out@.len() == picked.len(),
                forall|j: int| 0 <= j < out@.len() ==> out@[j].entry@ == es[picked[j] as int],
            decreases 256 - p,
        {
            let b = &buckets[p];
            let remaining = limit - out.len();
            let take = if b.len() < remaining {
                b.len()
            } else {
                remaining
            };
            proof {
                lemma_hits_valid(m, es, p as int);
                assert(b@ == bucket(m, es, p as int, lim));
            }
            let ghost before = picked;
            let mut j: usize = 0;
            while j < take
                invariant
                    j <= take <= b@.len(),
                    b@ == bucket(m, es, p as int, lim),
                    forall|t: int|
                        0 <= t < hits(m, es, p as int).len() ==> (hits(m, es, p as int)[t] as int)
                            < es.len(),
                    es == self.entries(),
                    picked == before + b@.take(j as int),
                    out@.len() == picked.len(),
                    forall|t: int| 0 <= t < out@.len() ==> out@[t].entry@ == es[picked[t] as int],
                decreases take - j,
            {
                let idx = b[j];
                assert(b@[j as int] == hits(m, es, p as int)[j as int]);
                let e = self.entries[idx].clone();
                let ghost prev = picked;
                out.push(MatchedEntry { entry: e });
                proof {
                    picked = picked.push(idx);
                    assert(before + b@.take(j + 1) =~= (before + b@.take(j as int)).push(idx));
                    assert forall|t: int| 0 <= t < out@.len() implies out@[t].entry@ == es[picked[t] as int] by {
                        if t < prev.len() {
                            assert(picked[t] == prev[t]);
                        }
                    }
                }
                j += 1;
            }
            proof {
                let bp = buckets_below(m, es, lim, p as nat);
                assert(buckets_below(m, es, lim, (p + 1) as nat) == bp + b@);
                assert(before == bp);
                if b@.len() < remaining {
                    assert(b@.take(take as int) =~= b@);
                } else {
                    assert((bp + b@).take(lim as int) =~= bp + b@.take(take as int));
                    if (bp + b@).len() == lim {
                        assert(b@.take(take as int) =~= b@);
                    }
                }
            }
            p += 1;
        }
        proof {
            if p < 256 {
                let bp = buckets_below(m, es, lim, p as nat);
                lemma_buckets_split(m, es, lim, p as nat, 256);
                let rest = choose|rest: Seq<usize>|
                    buckets_below(m, es, lim, 256) == buckets_below(m, es, lim, p as nat) + rest;
                lemma_at_most_prefix(bp, rest, lim);
            }
        }
        out
    }

    /// Sets the query the entries are matched against. The matcher works on
    /// it in the background; `results` reads what it has so far.
    pub fn update_pattern(&mut self, query: &str)
        requires
            old(self).wf(),
        ensures
            final(self).wf(),
            final(self).entries() == old(self).entries(),
            final(self).pattern() == query@,
            final(self).notifier() == old(self).notifier(),
    {
        set_pattern(&mut self.nucleo, query);
        let running = tick(&mut self.nucleo);
        proof {
            if !running {
                assert(models(self.entries@).len() == self.entries.len());
                lemma_exact_after_tick(self.nucleo, models(self.entries@));
            }
        }
    }

    /// The result list for the matches the matcher has now (see `rank`).
    pub fn results(&mut self, limit: usize) -> (r: Vec<MatchedEntry>)
        requires
            old(self).wf(),
        ensures
            final(self).wf(),
            final(self).entries() == old(self).entries(),
            final(self).pattern() == old(self).pattern(),
            final(self).notifier() == old(self).notifier(),
            old(self).settled() ==> final(self).settled() && final(self).matches() == old(
                self,
            ).matches(),
            r@.len() == ranked(final(self).matches(), final(self).entries(), limit as nat).len(),
            forall|j: int|
                0 <= j < r@.len() ==> r@[j].entry@ == final(self).entries()[ranked(
                    final(self).matches(),
                    final(self).entries(),
                    limit as nat,
                )[j] as int],
    {
        let running = tick(&mut self.nucleo);
        proof {
            if !running {
                assert(models(self.entries@).len() == self.entries.len());
                lemma_exact_after_tick(self.nucleo, models(self.entries@));
            }
        }
        let m = snapshot_matches(&self.nucleo);
        self.rank(&m, limit)
    }

    /// Whether the matcher is still working, so that `results` may not yet
    /// hold every match. The matcher takes in what its workers have finished:
    /// afterwards every match names one of the entries, and once nothing is
    /// running the matcher has settled on exactly the matching entries.
    pub fn is_matching(&mut self) -> (r: bool)
        requires
            old(self).wf(),
        ensures
            final(self).wf(),
            final(self).entries() == old(self).entries(),
            final(self).pattern() == old(self).pattern(),
            final(self).notifier() == old(self).notifier(),
            final(self).settled() == !r,
            old(self).settled() ==> !r && final(self).matches() == old(self).matches(),
            forall|k: int|
                0 <= k < final(self).matches().len() ==> (#[trigger] final(self).matches()[k] as int)
                    < final(self).entries().len(),
    {
        let running = tick(&mut self.nucleo);
        proof {
            if !running {
                assert(models(self.entries@).len() == self.entries.len());
                lemma_exact_after_tick(self.nucleo, models(self.entries@));
            }
            let items = items_of(models(self.entries@));
            assert forall|k: int| 0 <= k < matched(self.nucleo).len() implies (#[trigger] matched(
                self.nucleo,
            )[k] as int) < models(self.entries@).len() by {
                let j = choose|j: int|
                    0 <= j < injected(self.nucleo).len() && (#[trigger] injected(self.nucleo)[j]).0
                        == matched(self.nucleo)[k];
                assert(injected(self.nucleo)[j] == items[j]);
            }
        }
        running
    }

    /// Replaces the whole entry list; the same `notify` stays wired up.
    pub fn reload(&mut self, entries: Vec<Entry>)
        ensures
            final(self).wf(),
            final(self).entries() == models(entries@),
            final(self).pattern() == Seq::<char>::empty(),
            final(self).notifier() == old(self).notifier(),
            final(self).haystack() == items_of(models(entries@)),
    {
        let notify = self.notify.clone();
        *self = Self::new(entries, notify);
    }

    /// How many entries are searched.
    pub fn entry_count(&self) -> (r: usize)
        ensures
            r == self.entries().len(),
    {
        self.entries.len()
    }
}


proof fn lemma_rank_step(m: Seq<usize>, k: int, es: Seq<EntryModel>, limit: nat, p: int)
    requires
        0 <= k < m.len(),
        0 <= p < 256,
    ensures
        ({
            let i = m[k];
            let valid = (i as int) < es.len();
            let mk = m.take(k);
            let mk1 = m.take(k + 1);
            &&& valid && es[i as int].priority == p ==> hits(mk1, es, p) == hits(mk, es, p).push(i)
            &&& !(valid && es[i as int].priority == p) ==> hits(mk1, es, p) == hits(mk, es, p)
        }),
{
    assert(m.take(k + 1) =~= m.take(k).push(m[k]));
    lemma_hits_push(m.take(k), es, p, m[k]);
}

/// How many distinct priorities the entries of `entries` have.
fn count_priorities(entries: &Vec<Entry>) -> (r: usize)
    ensures
        r == distinct_priorities(models(entries@)),
{
    let ghost es = models(entries@);
    let mut seen: Vec<bool> = Vec::new();
    let mut p: usize = 0;
    while p < 256
        invariant
            p <= 256,
            seen@.len() == p,
            forall|q: int| 0 <= q < p ==> !seen@[q],
        decreases 256 - p,
    {
        seen.push(false);
        p += 1;
    }
    let mut i: usize = 0;
    while i < entries.len()
        invariant
            i <= entries.len(),
            es == models(entries@),
            seen@.len() == 256,
            forall|q: int| 0 <= q < 256 ==> seen@[q] == has_priority(es.take(i as int), q),
        decreases entries.len() - i,
    {
        let pr = entries[i].priority;
        proof {
            assert forall|q: int| 0 <= q < 256 implies has_priority(es.take(i + 1), q) == (
            has_priority(es.take(i as int), q) || q == pr) by {
                if has_priority(es.take(i + 1), q) {
                    let j = choose|j: int| 0 <= j < i + 1 && (#[trigger] es.take(i + 1)[j]).priority == q;
                    if j < i {
                        assert(es.take(i as int)[j] == es.take(i + 1)[j]);
                    }
                }
                if has_priority(es.take(i as int), q) {
                    let j = choose|j: int| 0 <= j < i && (#[trigger] es.take(i as int)[j]).priority == q;
                    assert(es.take(i as int)[j] == es.take(i + 1)[j]);
                }
                if q == pr {
                    assert(es.take(i + 1)[i as int] == es[i as int]);
                    assert(es[i as int].priority == pr);
                }
            }
        }
        let ghost before = seen@;
        seen.set(pr as usize, true);
        assert forall|q: int| 0 <= q < 256 implies seen@[q] == has_priority(es.take(i + 1), q) by {
            assert(has_priority(es.take(i + 1), q) == (has_priority(es.take(i as int), q) || q
                == pr));
            if q != pr as int {
                assert(seen@[q] == before[q]);
            } else {
                assert(seen@[q]);
            }
        }
        i += 1;
    }
    assert(es.take(entries.len() as int) =~= es);
    let mut count: usize = 0;
    let mut q: usize = 0;
    while q < 256
        invariant
            q <= 256,
            seen@.len() == 256,
            forall|k: int| 0 <= k < 256 ==> seen@[k] == has_priority(es, k),
            count == count_true(priority_flags(es), q as nat),
            count <= q,
        decreases 256 - q,
    {
        if seen[q] {
            count += 1;
        }
        q += 1;
    }
    count
}

} // verus!
