//! Append-only ledger of per-message activity events, with windowed and
//! scoped aggregate statistics.
//!
//! Ingestion is idempotent: recording a `message_id` that is already stored
//! succeeds as a no-op, so at-least-once delivery is safe. Aggregation never
//! mutates state; every query is answered from the rows as they stand.

use vstd::prelude::*;

use crate::seq_facts::{lemma_count_dup, lemma_dup_count, lemma_filter_push, lemma_perm_same_elements};

verus! {

broadcast use {
    vstd::seq_lib::group_to_multiset_ensures,
    vstd::multiset::group_multiset_axioms,
    vstd::set::group_set_axioms,
};

/// One tracked message posting. Immutable once stored; `message_id` is
/// globally unique across all events.
#[derive(Clone, Copy, Debug, PartialEq, Eq, Structural)]
pub struct MessageRecord {
    pub message_id: u64,
    pub user_id: u64,
    pub guild_id: u64,
    pub channel_id: u64,
    /// UTC instant, in seconds since the Unix epoch.
    pub timestamp: i64,
}

/// Whether `t` lies in the half-open window `[from, to)`; an omitted bound
/// removes that side of the filter.
pub open spec fn in_window(t: i64, from: Option<i64>, to: Option<i64>) -> bool {
    &&& (from is Some ==> from->0 <= t)
    &&& (to is Some ==> t < to->0)
}

/// The restrictions an aggregation query applies, as one composable
/// predicate set: a mandatory guild, an optional channel scope (typically the
/// output of hierarchy expansion), and an optional half-open time window.
pub ghost struct StatsQuery {
    pub guild_id: u64,
    pub channels: Option<Set<u64>>,
    pub from: Option<i64>,
    pub to: Option<i64>,
}

impl StatsQuery {
    /// Whether one event satisfies every filter of this query.
    pub open spec fn matches(self, e: MessageRecord) -> bool {
        &&& e.guild_id == self.guild_id
        &&& (self.channels is Some ==> self.channels->0.contains(e.channel_id))
        &&& in_window(e.timestamp, self.from, self.to)
    }
}

/// The column that an aggregation groups by: the poster when `by_user`, the
/// channel otherwise.
pub open spec fn group_key(e: MessageRecord, by_user: bool) -> u64 {
    if by_user {
        e.user_id
    } else {
        e.channel_id
    }
}

/// Exact tally of the events in `s` that satisfy `q` and group under `key`.
pub open spec fn tally(s: Seq<MessageRecord>, q: StatsQuery, by_user: bool, key: u64) -> nat {
    s.filter(|e: MessageRecord| q.matches(e) && group_key(e, by_user) == key).len()
}

/// Globally unique message identifiers: no two rows share one.
pub open spec fn unique_message_ids(s: Seq<MessageRecord>) -> bool {
    forall|i: int, j: int| 0 <= i < j < s.len() ==> s[i].message_id != s[j].message_id
}

/// How many rows of `s` carry this `message_id`.
pub open spec fn id_count(s: Seq<MessageRecord>, message_id: u64) -> nat {
    s.filter(|e: MessageRecord| e.message_id == message_id).len()
}

/// Whether some event in `s` carries this `message_id`.
pub open spec fn has_message(s: Seq<MessageRecord>, message_id: u64) -> bool {
    exists|i: int| 0 <= i < s.len() && s[i].message_id == message_id
}

/// The rows after recording `e`: unchanged when its `message_id` is already
/// present, appended otherwise.
pub open spec fn record_spec(s: Seq<MessageRecord>, e: MessageRecord) -> Seq<MessageRecord> {
    if has_message(s, e.message_id) {
        s
    } else {
        s.push(e)
    }
}

/// The message-event table: append-only ingestion plus on-demand aggregation.
pub struct MsgRepo {
    events: Vec<MessageRecord>,
}

impl View for MsgRepo {
    type V = Seq<MessageRecord>;

    closed spec fn view(&self) -> Seq<MessageRecord> {
        self.events@
    }
}

impl MsgRepo {
    /// Every stored `message_id` is globally unique.
    pub open spec fn inv(self) -> bool {
        unique_message_ids(self@)
    }

    /// An empty ledger.
    pub fn new() -> (r: Self)
        ensures
            r.inv(),
            r@ == Seq::<MessageRecord>::empty(),
    {
        MsgRepo { events: Vec::new() }
    }

    /// Records one activity event. A duplicate `message_id` is a no-op, never
    /// an error, so redelivered events cannot create a second row.
    pub fn record(
        &mut self,
        message_id: u64,
        user_id: u64,
        guild_id: u64,
        channel_id: u64,
        timestamp: i64,
    )
        requires
            old(self).inv(),
        ensures
            final(self).inv(),
            final(self)@ == record_spec(
                old(self)@,
                (MessageRecord { message_id, user_id, guild_id, channel_id, timestamp }),
            ),
    {
        let n = self.events.len();
        let mut i: usize = 0;
        while i < n
            invariant
                i <= n,
                n == self.events@.len(),
                self == old(self),
                self.inv(),
                forall|j: int| 0 <= j < i ==> self.events@[j].message_id != message_id,
            decreases n - i,
        {
            if self.events[i].message_id == message_id {
                assert(has_message(self@, message_id));
                return ;
            }
            i += 1;
        }
        assert(!has_message(self@, message_id));
        self.events.push(MessageRecord { message_id, user_id, guild_id, channel_id, timestamp });
        assert forall|a: int, b: int|
            0 <= a < b < self@.len() implies self@[a].message_id != self@[b].message_id by {
            if b + 1 < self@.len() {
                assert(old(self)@[a].message_id != old(self)@[b].message_id);
            }
        }
    }

    /// Deletes every stored event. Irreversible; meant for administrators.
    pub fn nuke(&mut self)
        ensures
            final(self).inv(),
            final(self)@ == Seq::<MessageRecord>::empty(),
    {
        self.events.clear();
    }
}

/// The channel scope as a query sees it: the set of the given identifiers.
pub open spec fn channels_view(channels: Option<&Vec<u64>>) -> Option<Set<u64>> {
    match channels {
        Option::Some(v) => Some(v@.to_set()),
        Option::None => None,
    }
}

/// The predicate set denoted by the filter arguments given at the call
/// boundary.
pub open spec fn query_of(
    guild_id: u64,
    channels: Option<&Vec<u64>>,
    from: Option<i64>,
    to: Option<i64>,
) -> StatsQuery {
    StatsQuery { guild_id, channels: channels_view(channels), from, to }
}

/// What an aggregation answer must be, up to the unspecified order among
/// equal counts: one row per key that tallies positively, carrying its exact
/// tally, sorted by count descending.
pub open spec fn stats_correct(
    s: Seq<MessageRecord>,
    q: StatsQuery,
    by_user: bool,
    r: Seq<(u64, u64)>,
) -> bool {
    &&& forall|i: int| #![trigger r[i]]
        0 <= i < r.len() ==> r[i].1 as nat == tally(s, q, by_user, r[i].0) && r[i].1 >= 1
    &&& forall|i: int, j: int| #![trigger r[i], r[j]] 0 <= i < j < r.len() ==> r[i].0 != r[j].0
    &&& forall|key: u64| #![trigger tally(s, q, by_user, key)]
        tally(s, q, by_user, key) > 0 ==> exists|i: int| 0 <= i < r.len() && r[i].0 == key
    &&& forall|i: int, j: int| #![trigger r[i], r[j]] 0 <= i <= j < r.len() ==> r[i].1 >= r[j].1
}

/// Whether `e` satisfies every filter given at the call boundary.
fn event_matches_exec(
    e: &MessageRecord,
    guild_id: u64,
    channels: Option<&Vec<u64>>,
    from: Option<i64>,
    to: Option<i64>,
) -> (r: bool)
    ensures
        r == query_of(guild_id, channels, from, to).matches(*e),
{
    if e.guild_id != guild_id {
        return false;
    }
    match channels {
        Option::Some(cs) => {
            let n = cs.len();
            let mut i: usize = 0;
            let mut found = false;
            while i < n
                invariant
                    i <= n,
                    n == cs@.len(),
                    found == exists|j: int| 0 <= j < i && cs@[j] == e.channel_id,
                decreases n - i,
            {
                if cs[i] == e.channel_id {
                    found = true;
                }
                i += 1;
            }
            if !found {
                assert(!cs@.contains(e.channel_id));
                return false;
            }
            assert(cs@.to_set().contains(e.channel_id));
        },
        Option::None => {},
    }
    match from {
        Option::Some(f) => {
            if !(f <= e.timestamp) {
                return false;
            }
        },
        Option::None => {},
    }
    match to {
        Option::Some(t) => {
            if !(e.timestamp < t) {
                return false;
            }
        },
        Option::None => {},
    }
    true
}

/// Orders key/count pairs by count, descending; a permutation of the input.
/// Which of two equal counts comes first is left open.
fn sort_pairs_desc(input: Vec<(u64, u64)>) -> (r: Vec<(u64, u64)>)
    ensures
        r@.to_multiset() == input@.to_multiset(),
        forall|i: int, j: int| #![trigger r@[i], r@[j]] 0 <= i <= j < r@.len() ==> r@[i].1 >= r@[j].1,
{
    let mut rest = input;
    let mut out: Vec<(u64, u64)> = Vec::new();
    proof {
        assert(out@.to_multiset().add(rest@.to_multiset()) =~= input@.to_multiset());
    }
    while rest.len() > 0
        invariant
            out@.to_multiset().add(rest@.to_multiset()) == input@.to_multiset(),
            forall|i: int, j: int| #![trigger out@[i], out@[j]]
                0 <= i <= j < out@.len() ==> out@[i].1 >= out@[j].1,
            forall|i: int, j: int| #![trigger out@[i], rest@[j]]
                0 <= i < out@.len() && 0 <= j < rest@.len() ==> out@[i].1 >= rest@[j].1,
        decreases rest@.len(),
    {
        let mut best: usize = 0;
        let mut k: usize = 1;
        while k < rest.len()
            invariant
                best < rest@.len(),
                k <= rest@.len(),
                rest@.len() > 0,
                forall|j: int| 0 <= j < k ==> rest@[best as int].1 >= rest@[j].1,
            decreases rest@.len() - k,
        {
            if rest[k].1 > rest[best].1 {
                best = k;
            }
            k += 1;
        }
        let ghost old_out = out@;
        let ghost old_rest = rest@;
        let x = rest.remove(best);
        out.push(x);
        proof {
            assert(rest@.to_multiset() =~= old_rest.to_multiset().remove(x));
            assert(out@.to_multiset() =~= old_out.to_multiset().insert(x));
            assert(old_rest.contains(x));
            assert(out@.to_multiset().add(rest@.to_multiset()) =~= input@.to_multiset());
            old_rest.remove_ensures(best as int);
        }
    }
    proof {
        assert forall|x: (u64, u64)| out@.to_multiset().count(x) == input@.to_multiset().count(
            x,
        ) by {
            assert(!rest@.contains(x));
        }
        assert(out@.to_multiset() =~= input@.to_multiset());
    }
    out
}

/// Orders message records newest first; a permutation of the input. Which of
/// two equal instants comes first is left open.
fn sort_records_desc(input: Vec<MessageRecord>) -> (r: Vec<MessageRecord>)
    ensures
        r@.to_multiset() == input@.to_multiset(),
        forall|i: int, j: int| #![trigger r@[i], r@[j]]
            0 <= i <= j < r@.len() ==> r@[i].timestamp >= r@[j].timestamp,
{
    let mut rest = input;
    let mut out: Vec<MessageRecord> = Vec::new();
    proof {
        assert(out@.to_multiset().add(rest@.to_multiset()) =~= input@.to_multiset());
    }
    while rest.len() > 0
        invariant
            out@.to_multiset().add(rest@.to_multiset()) == input@.to_multiset(),
            forall|i: int, j: int| #![trigger out@[i], out@[j]]
                0 <= i <= j < out@.len() ==> out@[i].timestamp >= out@[j].timestamp,
            forall|i: int, j: int| #![trigger out@[i], rest@[j]]
                0 <= i < out@.len() && 0 <= j < rest@.len() ==> out@[i].timestamp
                    >= rest@[j].timestamp,
        decreases rest@.len(),
    {
        let mut best: usize = 0;
        let mut k: usize = 1;
        while k < rest.len()
            invariant
                best < rest@.len(),
                k <= rest@.len(),
                rest@.len() > 0,
                forall|j: int| 0 <= j < k ==> rest@[best as int].timestamp >= rest@[j].timestamp,
            decreases rest@.len() - k,
        {
            if rest[k].timestamp > rest[best].timestamp {
                best = k;
            }
            k += 1;
        }
        let ghost old_out = out@;
        let ghost old_rest = rest@;
        let x = rest.remove(best);
        out.push(x);
        proof {
            assert(rest@.to_multiset() =~= old_rest.to_multiset().remove(x));
            assert(out@.to_multiset() =~= old_out.to_multiset().insert(x));
            assert(old_rest.contains(x));
            assert(out@.to_multiset().add(rest@.to_multiset()) =~= input@.to_multiset());
            old_rest.remove_ensures(best as int);
        }
    }
    proof {
        assert forall|x: MessageRecord| out@.to_multiset().count(x) == input@.to_multiset().count(
            x,
        ) by {
            assert(!rest@.contains(x));
        }
        assert(out@.to_multiset() =~= input@.to_multiset());
    }
    out
}

/// Tallies the matching events of `events` per grouping key and hands the
/// counts back sorted descending.
fn tally_events(
    events: &Vec<MessageRecord>,
    by_user: bool,
    guild_id: u64,
    channels: Option<&Vec<u64>>,
    from: Option<i64>,
    to: Option<i64>,
) -> (r: Vec<(u64, u64)>)
    ensures
        stats_correct(events@, query_of(guild_id, channels, from, to), by_user, r@),
{
    let ghost q = query_of(guild_id, channels, from, to);
    let mut pairs: Vec<(u64, u64)> = Vec::new();
    let n = events.len();
    let mut i: usize = 0;
    proof {
        assert(events@.take(0) =~= Seq::<MessageRecord>::empty());
        assert forall|key: u64| tally(events@.take(0), q, by_user, key) == 0nat by {
            Seq::<MessageRecord>::empty().lemma_all_neg_filter_empty(
                |ev: MessageRecord| q.matches(ev) && group_key(ev, by_user) == key,
            );
        }
    }
    while i < n
        invariant
            i <= n,
            n == events@.len(),
            q == query_of(guild_id, channels, from, to),
            forall|p: int| #![trigger pairs@[p]]
                0 <= p < pairs@.len() ==> pairs@[p].1 as nat == tally(
                    events@.take(i as int),
                    q,
                    by_user,
                    pairs@[p].0,
                ) && 1 <= pairs@[p].1 <= i,
            forall|p1: int, p2: int| #![trigger pairs@[p1], pairs@[p2]]
                0 <= p1 < p2 < pairs@.len() ==> pairs@[p1].0 != pairs@[p2].0,
            forall|key: u64| #![trigger tally(events@.take(i as int), q, by_user, key)]
                tally(events@.take(i as int), q, by_user, key) > 0 ==> exists|p: int|
                    0 <= p < pairs@.len() && pairs@[p].0 == key,
        decreases n - i,
    {
        let e = events[i];
        let matched = event_matches_exec(&e, guild_id, channels, from, to);
        proof {
            assert(events@.take((i + 1) as int) =~= events@.take(i as int).push(e));
            assert forall|key: u64| #![trigger tally(events@.take((i + 1) as int), q, by_user, key)]
                tally(events@.take((i + 1) as int), q, by_user, key) == tally(
                    events@.take(i as int),
                    q,
                    by_user,
                    key,
                ) + (if q.matches(e) && group_key(e, by_user) == key {
                    1nat
                } else {
                    0nat
                }) by {
                lemma_filter_push(
                    events@.take(i as int),
                    |ev: MessageRecord| q.matches(ev) && group_key(ev, by_user) == key,
                    e,
                );
            }
        }
        if matched {
            let key = if by_user {
                e.user_id
            } else {
                e.channel_id
            };
            assert(key == group_key(e, by_user));
            let m = pairs.len();
            let mut idx: usize = 0;
            while idx < m && pairs[idx].0 != key
                invariant
                    idx <= m,
                    m == pairs@.len(),
                    forall|p: int| 0 <= p < idx ==> pairs@[p].0 != key,
                decreases m - idx,
            {
                idx += 1;
            }
            let ghost old_pairs = pairs@;
            if idx < m {
                let c = pairs[idx].1;
                assert(c <= i < n <= usize::MAX);
                pairs.set(idx, (key, c + 1));
                proof {
                    assert forall|key2: u64| #![trigger tally(events@.take((i + 1) as int), q, by_user, key2)]
                        tally(events@.take((i + 1) as int), q, by_user, key2) > 0 implies exists|
                        p: int,
                    |
                        0 <= p < pairs@.len() && pairs@[p].0 == key2 by {
                        if key2 == key {
                            assert(pairs@[idx as int].0 == key2);
                        } else {
                            assert(tally(events@.take(i as int), q, by_user, key2) > 0);
                            let p = choose|p: int|
                                0 <= p < old_pairs.len() && old_pairs[p].0 == key2;
                            assert(pairs@[p].0 == key2);
                        }
                    }
                }
            } else {
                assert(tally(events@.take(i as int), q, by_user, key) == 0nat) by {
                    if tally(events@.take(i as int), q, by_user, key) > 0 {
                        let p = choose|p: int| 0 <= p < pairs@.len() && pairs@[p].0 == key;
                        assert(false);
                    }
                }
                pairs.push((key, 1));
                proof {
                    assert forall|key2: u64| #![trigger tally(events@.take((i + 1) as int), q, by_user, key2)]
                        tally(events@.take((i + 1) as int), q, by_user, key2) > 0 implies exists|
                        p: int,
                    |
                        0 <= p < pairs@.len() && pairs@[p].0 == key2 by {
                        if key2 == key {
                            assert(pairs@[old_pairs.len() as int].0 == key2);
                        } else {
                            assert(tally(events@.take(i as int), q, by_user, key2) > 0);
                            let p = choose|p: int|
                                0 <= p < old_pairs.len() && old_pairs[p].0 == key2;
                            assert(pairs@[p].0 == key2);
                        }
                    }
                }
            }
        }
        i += 1;
    }
    proof {
        assert(events@.take(n as int) =~= events@);
    }
    let r = sort_pairs_desc(pairs);
    proof {
        lemma_perm_same_elements(r@, pairs@);
        assert forall|i2: int| 0 <= i2 < r@.len() implies r@[i2].1 as nat == tally(
            events@,
            q,
            by_user,
            r@[i2].0,
        ) && r@[i2].1 >= 1 by {
            assert(r@.contains(r@[i2]));
            assert(pairs@.contains(r@[i2]));
            let p = choose|p: int| 0 <= p < pairs@.len() && pairs@[p] == r@[i2];
        }
        assert forall|a: int, b: int| #![trigger r@[a], r@[b]]
            0 <= a < b < r@.len() implies r@[a].0 != r@[b].0 by {
            if r@[a].0 == r@[b].0 {
                if r@[a] == r@[b] {
                    lemma_dup_count(r@, a, b);
                    lemma_count_dup(pairs@, r@[a]);
                    let (i3, j3) = choose|i3: int, j3: int|
                        0 <= i3 < j3 < pairs@.len() && pairs@[i3] == r@[a] && pairs@[j3] == r@[a];
                    assert(false);
                } else {
                    assert(pairs@.contains(r@[a]));
                    assert(pairs@.contains(r@[b]));
                    let pa = choose|pa: int| 0 <= pa < pairs@.len() && pairs@[pa] == r@[a];
                    let pb = choose|pb: int| 0 <= pb < pairs@.len() && pairs@[pb] == r@[b];
                    assert(false);
                }
            }
        }
        assert forall|key: u64| #![trigger tally(events@, q, by_user, key)]
            tally(events@, q, by_user, key) > 0 implies exists|i2: int|
            0 <= i2 < r@.len() && r@[i2].0 == key by {
            let p = choose|p: int| 0 <= p < pairs@.len() && pairs@[p].0 == key;
            assert(pairs@.contains(pairs@[p]));
            assert(r@.contains(pairs@[p]));
            let i2 = choose|i2: int| 0 <= i2 < r@.len() && r@[i2] == pairs@[p];
        }
    }
    r
}

/// Whether `e` belongs to this user's history in this guild.
pub open spec fn user_guild_match(e: MessageRecord, user_id: u64, guild_id: u64) -> bool {
    e.user_id == user_id && e.guild_id == guild_id
}

impl MsgRepo {
    /// Message counts per channel of one guild, restricted to the half-open
    /// window `[from, to)` where bounds are given, sorted by count
    /// descending. Channels without a matching event get no row.
    pub fn get_channel_stats(&self, guild_id: u64, from: Option<i64>, to: Option<i64>) -> (r: Vec<
        (u64, u64),
    >)
        ensures
            stats_correct(self@, (StatsQuery { guild_id, channels: None, from, to }), false, r@),
    {
        tally_events(&self.events, false, guild_id, None, from, to)
    }

    /// Message counts per user of one guild, additionally restricted to the
    /// given channels when a scope is supplied, sorted by count descending.
    pub fn get_user_stats(
        &self,
        guild_id: u64,
        channel_ids: Option<&Vec<u64>>,
        from: Option<i64>,
        to: Option<i64>,
    ) -> (r: Vec<(u64, u64)>)
        ensures
            stats_correct(
                self@,
                (StatsQuery { guild_id, channels: channels_view(channel_ids), from, to }),
                true,
                r@,
            ),
    {
        tally_events(&self.events, true, guild_id, channel_ids, from, to)
    }

    /// Every stored event of one user in one guild, newest first; meant for
    /// audit and export, never aggregated.
    pub fn get_user_messages(&self, user_id: u64, guild_id: u64) -> (r: Vec<MessageRecord>)
        ensures
            r@.to_multiset() == self@.filter(
                |e: MessageRecord| user_guild_match(e, user_id, guild_id),
            ).to_multiset(),
            forall|i: int, j: int| #![trigger r@[i], r@[j]]
                0 <= i <= j < r@.len() ==> r@[i].timestamp >= r@[j].timestamp,
            forall|i: int| #![trigger r@[i]]
                0 <= i < r@.len() ==> user_guild_match(r@[i], user_id, guild_id),
    {
        let ghost pred = |e: MessageRecord| user_guild_match(e, user_id, guild_id);
        let mut picked: Vec<MessageRecord> = Vec::new();
        let n = self.events.len();
        let mut i: usize = 0;
        proof {
            assert(self@.take(0) =~= Seq::<MessageRecord>::empty());
            Seq::<MessageRecord>::empty().lemma_all_neg_filter_empty(pred);
            assert(picked@ =~= self@.take(0).filter(pred));
        }
        while i < n
            invariant
                i <= n,
                n == self@.len(),
                pred == (|e: MessageRecord| user_guild_match(e, user_id, guild_id)),
                picked@ == self@.take(i as int).filter(pred),
            decreases n - i,
        {
            let e = self.events[i];
            proof {
                lemma_filter_push(self@.take(i as int), pred, e);
                assert(self@.take((i + 1) as int) =~= self@.take(i as int).push(e));
            }
            if e.user_id == user_id && e.guild_id == guild_id {
                picked.push(e);
            }
            i += 1;
        }
        proof {
            assert(self@.take(n as int) =~= self@);
        }
        let r = sort_records_desc(picked);
        proof {
            lemma_perm_same_elements(r@, picked@);
            assert forall|i2: int| 0 <= i2 < r@.len() implies user_guild_match(
                r@[i2],
                user_id,
                guild_id,
            ) by {
                assert(r@.contains(r@[i2]));
                assert(picked@.contains(r@[i2]));
                let p = choose|p: int| 0 <= p < picked@.len() && picked@[p] == r@[i2];
                self@.lemma_filter_pred(pred, p);
            }
        }
        r
    }
}

/// One message identifier is stored at most once, so a lookup count is one
/// exactly when the identifier is present.
proof fn lemma_id_count_unique(s: Seq<MessageRecord>, message_id: u64)
    requires
        unique_message_ids(s),
    ensures
        id_count(s, message_id) == if has_message(s, message_id) {
            1nat
        } else {
            0nat
        },
    decreases s.len(),
{
    reveal(Seq::filter);
    let pred = |e: MessageRecord| e.message_id == message_id;
    if s.len() == 0 {
        assert(!has_message(s, message_id));
    } else {
        let rest = s.drop_last();
        assert(unique_message_ids(rest)) by {
            assert forall|i: int, j: int| 0 <= i < j < rest.len() implies rest[i].message_id
                != rest[j].message_id by {
                assert(rest[i] == s[i]);
                assert(rest[j] == s[j]);
            }
        }
        lemma_id_count_unique(rest, message_id);
        if s.last().message_id == message_id {
            assert(!has_message(rest, message_id)) by {
                if has_message(rest, message_id) {
                    let w = choose|w: int| 0 <= w < rest.len() && rest[w].message_id == message_id;
                    assert(s[w].message_id == s[s.len() - 1].message_id);
                    assert(false);
                }
            }
            assert(s[s.len() - 1].message_id == message_id);
            assert(has_message(s, message_id));
        } else {
            assert(has_message(s, message_id) == has_message(rest, message_id)) by {
                if has_message(s, message_id) {
                    let w = choose|w: int| 0 <= w < s.len() && s[w].message_id == message_id;
                    assert(rest[w] == s[w]);
                }
                if has_message(rest, message_id) {
                    let w = choose|w: int| 0 <= w < rest.len() && rest[w].message_id == message_id;
                    assert(s[w] == rest[w]);
                }
            }
        }
    }
}

/// Recording is idempotent: after recording an event, its `message_id` is
/// stored exactly once, and recording the very same event again changes
/// nothing and raises no error.
pub proof fn lemma_record_idempotent(s: Seq<MessageRecord>, e: MessageRecord)
    requires
        unique_message_ids(s),
    ensures
        record_spec(record_spec(s, e), e) == record_spec(s, e),
        unique_message_ids(record_spec(s, e)),
        id_count(record_spec(s, e), e.message_id) == 1,
{
    if has_message(s, e.message_id) {
        lemma_id_count_unique(s, e.message_id);
    } else {
        let s2 = s.push(e);
        assert(s2[s.len() as int].message_id == e.message_id);
        assert(has_message(s2, e.message_id));
        assert(unique_message_ids(s2)) by {
            assert forall|i: int, j: int| 0 <= i < j < s2.len() implies s2[i].message_id
                != s2[j].message_id by {
                if j < s.len() {
                    assert(s[i].message_id != s[j].message_id);
                } else {
                    if s[i].message_id == e.message_id {
                        assert(has_message(s, e.message_id));
                    }
                }
            }
        }
        lemma_id_count_unique(s2, e.message_id);
    }
}

/// The aggregation window is half-open: an event stamped exactly at the
/// lower bound falls inside (whenever the window admits anything at all),
/// one stamped exactly at the upper bound falls outside.
pub proof fn lemma_window_half_open(from: i64, to: i64)
    ensures
        in_window(from, Some(from), Some(to)) <==> from < to,
        !in_window(to, Some(from), Some(to)),
{
}

} // verus!
