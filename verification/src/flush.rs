//! Auditable ledger of moderation "flush" actions: append, look up by either
//! of two identifiers, remove, and sweep by age.
//!
//! Unlike message ingestion, inserting a flush record is deliberately not
//! idempotent: a flush is a unique real-world event, so a duplicate key is a
//! genuine conflict that surfaces as an error.

use vstd::prelude::*;

use crate::error::BotError;
use crate::seq_facts::lemma_filter_push;

verus! {

/// One moderation action: a message relocated to the archive channel after it
/// crossed a report threshold, together with the bot's follow-up notice.
#[derive(Debug)]
pub struct FlushInfo {
    /// The flushed message; globally unique across all records.
    pub message_id: u64,
    /// The bot's follow-up notice message; globally unique across all records.
    pub notification_id: u64,
    /// Channel the message was flushed from.
    pub channel_id: u64,
    /// Destination/archive channel.
    pub toilet_id: u64,
    /// Original poster.
    pub author_id: u64,
    /// Moderator who flushed.
    pub flusher_id: u64,
    /// Report count that triggered the flush.
    pub threshold_count: u64,
    /// UTC creation instant, in seconds since the Unix epoch.
    pub created_at: i64,
    /// Optional free-form justification.
    pub reason: Option<String>,
}

/// Whether `r` is found under `id`: by its own message or by the notice.
pub open spec fn matches_id(r: FlushInfo, id: u64) -> bool {
    r.message_id == id || r.notification_id == id
}

/// The first record found under `id`, scanning in storage order.
pub open spec fn lookup_spec(s: Seq<FlushInfo>, id: u64) -> Option<FlushInfo>
    decreases s.len(),
{
    if s.len() == 0 {
        None
    } else if matches_id(s[0], id) {
        Some(s[0])
    } else {
        lookup_spec(s.drop_first(), id)
    }
}

/// The rows left after removing every record found under `id`.
pub open spec fn remove_spec(s: Seq<FlushInfo>, id: u64) -> Seq<FlushInfo> {
    s.filter(|r: FlushInfo| !matches_id(r, id))
}

/// Whether a record with these identifiers would collide with a unique
/// column: the message or the notice identifier is already taken by that
/// same column.
pub open spec fn id_conflict(s: Seq<FlushInfo>, message_id: u64, notification_id: u64) -> bool {
    exists|i: int|
        0 <= i < s.len() && (s[i].message_id == message_id || s[i].notification_id
            == notification_id)
}

/// Globally unique identifiers: no two records share a `message_id`, and no
/// two share a `notification_id`.
pub open spec fn unique_flush_ids(s: Seq<FlushInfo>) -> bool {
    forall|i: int, j: int|
        0 <= i < j < s.len() ==> s[i].message_id != s[j].message_id && s[i].notification_id
            != s[j].notification_id
}

/// The records that survive an age sweep with this cutoff: exactly those
/// created at or after it, in their stored order.
pub open spec fn retained_after(s: Seq<FlushInfo>, cutoff: i64) -> Seq<FlushInfo> {
    s.filter(|r: FlushInfo| r.created_at >= cutoff)
}

/// The flush-record table.
pub struct FlushRepo {
    records: Vec<FlushInfo>,
}

impl View for FlushRepo {
    type V = Seq<FlushInfo>;

    closed spec fn view(&self) -> Seq<FlushInfo> {
        self.records@
    }
}

impl FlushRepo {
    /// `message_id` and `notification_id` are each globally unique across all
    /// stored records.
    pub open spec fn inv(self) -> bool {
        unique_flush_ids(self@)
    }

    /// An empty ledger.
    pub fn new() -> (r: Self)
        ensures
            r.inv(),
            r@ == Seq::<FlushInfo>::empty(),
    {
        FlushRepo { records: Vec::new() }
    }

    /// Presence check keyed only on the flushed message's identifier.
    pub fn has(&self, message_id: u64) -> (r: bool)
        ensures
            r == exists|i: int| 0 <= i < self@.len() && self@[i].message_id == message_id,
    {
        let n = self.records.len();
        let mut i: usize = 0;
        while i < n
            invariant
                i <= n,
                n == self@.len(),
                forall|j: int| 0 <= j < i ==> self@[j].message_id != message_id,
            decreases n - i,
        {
            if self.records[i].message_id == message_id {
                return true;
            }
            i += 1;
        }
        false
    }

    /// Appends one flush record with an explicit creation instant. A clash on
    /// either unique identifier is a genuine conflict: the error comes back
    /// and the stored records stay exactly as they were.
    pub fn insert_at(
        &mut self,
        message_id: u64,
        notification_id: u64,
        flusher_id: u64,
        toilet_id: u64,
        author_id: u64,
        channel_id: u64,
        threshold_count: u64,
        reason: Option<String>,
        created_at: i64,
    ) -> (r: Result<(), BotError>)
        requires
            old(self).inv(),
        ensures
            final(self).inv(),
            id_conflict(old(self)@, message_id, notification_id) ==> r == Result::<
                (),
                BotError,
            >::Err(BotError::ConstraintViolation) && final(self)@ == old(self)@,
            !id_conflict(old(self)@, message_id, notification_id) ==> r == Result::<
                (),
                BotError,
            >::Ok(()) && final(self)@ == old(self)@.push(
                (FlushInfo {
                    message_id,
                    notification_id,
                    channel_id,
                    toilet_id,
                    author_id,
                    flusher_id,
                    threshold_count,
                    created_at,
                    reason,
                }),
            ),
    {
        let n = self.records.len();
        let mut i: usize = 0;
        while i < n
            invariant
                i <= n,
                n == self@.len(),
                self == old(self),
                self.inv(),
                forall|j: int|
                    0 <= j < i ==> self@[j].message_id != message_id && self@[j].notification_id
                        != notification_id,
            decreases n - i,
        {
            if self.records[i].message_id == message_id || self.records[i].notification_id
                == notification_id {
                assert(id_conflict(self@, message_id, notification_id));
                return Result::Err(BotError::ConstraintViolation);
            }
            i += 1;
        }
        assert(!id_conflict(self@, message_id, notification_id));
        self.records.push(
            FlushInfo {
                message_id,
                notification_id,
                channel_id,
                toilet_id,
                author_id,
                flusher_id,
                threshold_count,
                created_at,
                reason,
            },
        );
        assert forall|a: int, b: int| 0 <= a < b < self@.len() implies self@[a].message_id
            != self@[b].message_id && self@[a].notification_id != self@[b].notification_id by {
            if b + 1 < self@.len() {
                assert(old(self)@[a].message_id != old(self)@[b].message_id);
            }
        }
        Result::Ok(())
    }

    /// Appends one flush record stamped with the present instant. The
    /// creation time comes from the system clock, so only its existence is
    /// stated; everything else behaves as `insert_at`.
    pub fn insert(
        &mut self,
        message_id: u64,
        notification_id: u64,
        flusher_id: u64,
        toilet_id: u64,
        author_id: u64,
        channel_id: u64,
        threshold_count: u64,
        reason: Option<String>,
    ) -> (r: Result<(), BotError>)
        requires
            old(self).inv(),
        ensures
            final(self).inv(),
            id_conflict(old(self)@, message_id, notification_id) ==> r == Result::<
                (),
                BotError,
            >::Err(BotError::ConstraintViolation) && final(self)@ == old(self)@,
            !id_conflict(old(self)@, message_id, notification_id) ==> r == Result::<
                (),
                BotError,
            >::Ok(()) && exists|t: i64|
                final(self)@ == old(self)@.push(
                    (FlushInfo {
                        message_id,
                        notification_id,
                        channel_id,
                        toilet_id,
                        author_id,
                        flusher_id,
                        threshold_count,
                        created_at: t,
                        reason,
                    }),
                ),
    {
        let created_at = now_timestamp();
        let r = self.insert_at(
            message_id,
            notification_id,
            flusher_id,
            toilet_id,
            author_id,
            channel_id,
            threshold_count,
            reason,
            created_at,
        );
        r
    }

    /// Hands back the record found under `id` — by its own message or by the
    /// notice — or nothing. Absence is not an error.
    pub fn get(&self, id: u64) -> (r: Option<&FlushInfo>)
        ensures
            match r {
                Some(f) => lookup_spec(self@, id) == Some(*f),
                None => lookup_spec(self@, id) is None,
            },
    {
        let n = self.records.len();
        let mut i: usize = 0;
        while i < n
            invariant
                i <= n,
                n == self@.len(),
                forall|j: int| 0 <= j < i ==> !matches_id(self@[j], id),
            decreases n - i,
        {
            if self.records[i].message_id == id || self.records[i].notification_id == id {
                proof {
                    lemma_lookup_skip(self@, id, i as int);
                    assert(self@.skip(i as int)[0] == self@[i as int]);
                }
                return Some(&self.records[i]);
            }
            i += 1;
        }
        proof {
            lemma_lookup_skip(self@, id, n as int);
            assert(self@.skip(n as int) =~= Seq::<FlushInfo>::empty());
        }
        None
    }

    /// Deletes every record found under `id` — by its own message or by the
    /// notice; a no-op when none match.
    pub fn remove(&mut self, id: u64)
        requires
            old(self).inv(),
        ensures
            final(self).inv(),
            final(self)@ == remove_spec(old(self)@, id),
    {
        let mut rest: Vec<FlushInfo> = Vec::new();
        core::mem::swap(&mut rest, &mut self.records);
        let ghost orig = rest@;
        let ghost keep = |r: FlushInfo| !matches_id(r, id);
        let ghost mut g: int = 0;
        proof {
            assert(orig.take(0) =~= Seq::<FlushInfo>::empty());
            Seq::<FlushInfo>::empty().lemma_all_neg_filter_empty(keep);
            assert(self.records@ =~= orig.take(0).filter(keep));
        }
        while rest.len() > 0
            invariant
                0 <= g <= orig.len(),
                rest@ == orig.skip(g),
                self.records@ == orig.take(g).filter(keep),
                keep == (|r: FlushInfo| !matches_id(r, id)),
            decreases rest@.len(),
        {
            let x = rest.remove(0);
            proof {
                assert(orig.skip(g)[0] == orig[g]);
                assert(rest@ =~= orig.skip(g + 1));
                lemma_filter_push(orig.take(g), keep, orig[g]);
                assert(orig.take(g + 1) =~= orig.take(g).push(orig[g]));
            }
            if !(x.message_id == id || x.notification_id == id) {
                self.records.push(x);
            }
            proof {
                g = g + 1;
            }
        }
        proof {
            assert(orig.take(orig.len() as int) =~= orig);
            lemma_filter_keeps_unique(orig, keep);
        }
    }

    /// Deletes every record created before `cutoff` and nothing else; every
    /// younger record persists unchanged, in its place.
    pub fn prune_before(&mut self, cutoff: i64)
        requires
            old(self).inv(),
        ensures
            final(self).inv(),
            final(self)@ == retained_after(old(self)@, cutoff),
    {
        let mut rest: Vec<FlushInfo> = Vec::new();
        core::mem::swap(&mut rest, &mut self.records);
        let ghost orig = rest@;
        let ghost keep = |r: FlushInfo| r.created_at >= cutoff;
        let ghost mut g: int = 0;
        proof {
            assert(orig.take(0) =~= Seq::<FlushInfo>::empty());
            Seq::<FlushInfo>::empty().lemma_all_neg_filter_empty(keep);
            assert(self.records@ =~= orig.take(0).filter(keep));
        }
        while rest.len() > 0
            invariant
                0 <= g <= orig.len(),
                rest@ == orig.skip(g),
                self.records@ == orig.take(g).filter(keep),
                keep == (|r: FlushInfo| r.created_at >= cutoff),
            decreases rest@.len(),
        {
            let x = rest.remove(0);
            proof {
                assert(orig.skip(g)[0] == orig[g]);
                assert(rest@ =~= orig.skip(g + 1));
                lemma_filter_push(orig.take(g), keep, orig[g]);
                assert(orig.take(g + 1) =~= orig.take(g).push(orig[g]));
            }
            if x.created_at >= cutoff {
                self.records.push(x);
            }
            proof {
                g = g + 1;
            }
        }
        proof {
            assert(orig.take(orig.len() as int) =~= orig);
            lemma_filter_keeps_unique(orig, keep);
        }
    }

    /// Retention sweep: deletes every record older than `max_age` seconds,
    /// measured from the system clock's present instant, and nothing
    /// younger. The clock is outside this layer, so the cutoff is stated
    /// only to exist.
    pub fn clean(&mut self, max_age: i64)
        requires
            old(self).inv(),
            max_age >= 0,
        ensures
            final(self).inv(),
            exists|cutoff: i64| final(self)@ == #[trigger] retained_after(old(self)@, cutoff),
    {
        let now = now_timestamp();
        let cutoff = if now >= i64::MIN + max_age {
            now - max_age
        } else {
            i64::MIN
        };
        self.prune_before(cutoff);
    }
}

/// Relies on `chrono::Utc::now`: the present civil time read from the system
/// clock, reduced to whole seconds since the Unix epoch. The clock is free
/// to read anything, so nothing is claimed of the value.
#[verifier::external_body]
fn now_timestamp() -> i64 {
    chrono::Utc::now().timestamp()
}

/// Scanning past non-matching records leaves the lookup where it was.
proof fn lemma_lookup_skip(s: Seq<FlushInfo>, id: u64, i: int)
    requires
        0 <= i <= s.len(),
        forall|j: int| 0 <= j < i ==> !matches_id(s[j], id),
    ensures
        lookup_spec(s, id) == lookup_spec(s.skip(i), id),
    decreases i,
{
    if i == 0 {
        assert(s.skip(0) =~= s);
        assert(s.skip(0) == s);
    } else {
        lemma_lookup_skip(s, id, i - 1);
        let t = s.skip(i - 1);
        assert(t.len() > 0);
        assert(t[0] == s[i - 1]);
        assert(!matches_id(t[0], id));
        assert(lookup_spec(t, id) == lookup_spec(t.drop_first(), id));
        assert(t.drop_first() =~= s.skip(i));
        assert(t.drop_first() == s.skip(i));
    }
}

/// Keeping a subset of records keeps both identifier columns unique.
proof fn lemma_filter_keeps_unique(s: Seq<FlushInfo>, pred: spec_fn(FlushInfo) -> bool)
    requires
        unique_flush_ids(s),
    ensures
        unique_flush_ids(s.filter(pred)),
    decreases s.len(),
{
    reveal(Seq::filter);
    if s.len() > 0 {
        let rest = s.drop_last();
        assert(unique_flush_ids(rest)) by {
            assert forall|i: int, j: int| 0 <= i < j < rest.len() implies rest[i].message_id
                != rest[j].message_id && rest[i].notification_id != rest[j].notification_id by {
                assert(rest[i] == s[i]);
                assert(rest[j] == s[j]);
            }
        }
        lemma_filter_keeps_unique(rest, pred);
        let f = rest.filter(pred);
        if pred(s.last()) {
            assert forall|i: int| 0 <= i < f.len() implies f[i].message_id != s.last().message_id
                && f[i].notification_id != s.last().notification_id by {
                assert(f.contains(f[i]));
                rest.lemma_filter_contains_rev(pred, f[i]);
                let w = choose|w: int| 0 <= w < rest.len() && rest[w] == f[i];
                assert(s[w] == rest[w]);
                assert(s[w].message_id != s[s.len() - 1].message_id);
            }
            assert forall|a: int, b: int| 0 <= a < b < s.filter(pred).len() implies s.filter(
                pred,
            )[a].message_id != s.filter(pred)[b].message_id && s.filter(pred)[a].notification_id
                != s.filter(pred)[b].notification_id by {
                assert(s.filter(pred) == f.push(s.last()));
                if b < f.len() {
                    assert(f[a].message_id != f[b].message_id);
                }
            }
        }
    }
}

/// Flush symmetry: a freshly inserted record is found under either of its
/// identifiers, and once removed under one of them, the other finds nothing.
pub proof fn lemma_flush_symmetry(s: Seq<FlushInfo>, r: FlushInfo)
    requires
        forall|i: int|
            0 <= i < s.len() ==> !matches_id(s[i], r.message_id) && !matches_id(
                s[i],
                r.notification_id,
            ),
    ensures
        lookup_spec(s.push(r), r.message_id) == Some(r),
        lookup_spec(s.push(r), r.notification_id) == Some(r),
        lookup_spec(remove_spec(s.push(r), r.message_id), r.notification_id) is None,
{
    let s2 = s.push(r);
    assert forall|i: int| 0 <= i < s.len() implies !matches_id(s2[i], r.message_id) && !matches_id(
        s2[i],
        r.notification_id,
    ) by {
        assert(s2[i] == s[i]);
    }
    lemma_lookup_skip(s2, r.message_id, s.len() as int);
    lemma_lookup_skip(s2, r.notification_id, s.len() as int);
    let t = s2.skip(s.len() as int);
    assert(t =~= seq![r]);
    assert(t[0] == r);
    assert(lookup_spec(t, r.message_id) == Some(r));
    assert(lookup_spec(t, r.notification_id) == Some(r));
    let keep = |x: FlushInfo| !matches_id(x, r.message_id);
    let s3 = remove_spec(s2, r.message_id);
    assert forall|i: int| 0 <= i < s3.len() implies !matches_id(s3[i], r.notification_id) by {
        s2.lemma_filter_pred(keep, i);
        assert(s3.contains(s3[i]));
        s2.lemma_filter_contains_rev(keep, s3[i]);
        let w = choose|w: int| 0 <= w < s2.len() && s2[w] == s3[i];
        if w < s.len() {
            assert(s2[w] == s[w]);
        } else {
            assert(s2[w] == r);
            assert(matches_id(s3[i], r.message_id));
        }
    }
    lemma_lookup_skip(s3, r.notification_id, s3.len() as int);
    assert(s3.skip(s3.len() as int) =~= Seq::<FlushInfo>::empty());
}

} // verus!
