//! Live per-character state read by the preview painters: current solar
//! system, the displayed alert, and the last incoming hit; and the
//! per-character combat hits kept for the DPS window.
//!
//! Times are nanoseconds since a fixed origin of a monotonic clock.
use vstd::prelude::*;
use crate::names::{
    assign, distinct_keys, law_assign_then_lookup, law_without_then_lookup, lemma_first_ci_none,
    lemma_without_ci_entries, lookup, lookup_ci, text_ci_eq, without, without_ci, NameMap,
};
use crate::parse::AlertKind;
use crate::text::{to_lowercase, unicode_lowercase};

verus! {

/// Rolling window used to turn combat hits into a rate (10 s).
pub const DPS_WINDOW_NS: u64 = 10_000_000_000;

/// How long the preview chrome stays lit after an incoming hit (400 ms).
/// Long enough that a volley reads as one pulse, short enough that it goes
/// dark when the incoming stops.
pub const INCOMING_FLASH_NS: u64 = 400_000_000;

/// The alert currently shown for a character.
#[derive(Debug, Clone)]
pub struct ActiveAlert {
    pub kind: AlertKind,
    pub text: String,
    pub expires_at: u64,
}

impl ActiveAlert {
    /// Whether the alert has expired at `now`.
    pub fn expired(&self, now: u64) -> (r: bool)
        ensures
            r == (now >= self.expires_at),
    {
        now >= self.expires_at
    }
}

/// The value for `character`: the entry named exactly so, else the first
/// whose name equals the lowercased name ignoring ASCII case.
pub open spec fn lookup_character<V>(s: Seq<(Seq<char>, V)>, character: Seq<char>) -> Option<V> {
    if lookup(s, character) is Some {
        lookup(s, character)
    } else {
        lookup_ci(s, unicode_lowercase(character))
    }
}

/// The value for `character` in `m`: the entry named exactly so, else the
/// first whose name equals the lowercased name ignoring ASCII case.
pub fn lookup_name<'a, V>(m: &'a NameMap<V>, character: &str) -> (r: Option<&'a V>)
    ensures
        match r {
            Some(v) => lookup_character(m.view(), character@) == Some(*v),
            None => lookup_character(m.view(), character@) is None,
        },
{
    if let Some(v) = m.get(character) {
        return Some(v);
    }
    let needle = to_lowercase(character);
    m.get_ignore_ascii_case(needle.as_str())
}

/// The entries whose alert has not expired at `now`.
pub open spec fn unexpired(s: Seq<(Seq<char>, ActiveAlert)>, now: u64) -> Seq<
    (Seq<char>, ActiveAlert),
>
    decreases s.len(),
{
    if s.len() == 0 {
        Seq::empty()
    } else {
        let r = unexpired(s.drop_last(), now);
        if now >= s.last().1.expires_at {
            r
        } else {
            r.push(s.last())
        }
    }
}

/// The alerts after dropping the one of `character`: the entry named
/// exactly so if there is one, else every entry whose name equals the
/// lowercased name ignoring ASCII case.
pub open spec fn drop_alert_spec(s: Seq<(Seq<char>, ActiveAlert)>, character: Seq<char>) -> Seq<
    (Seq<char>, ActiveAlert),
> {
    if lookup(s, character) is Some {
        without(s, character)
    } else {
        without_ci(s, unicode_lowercase(character))
    }
}

/// Time from `t` to `now`, zero when `t` is later.
pub open spec fn elapsed(now: u64, t: u64) -> int {
    if now >= t {
        now - t
    } else {
        0
    }
}

/// An incoming hit stamped at `t` keeps the preview lit exactly while less
/// than `INCOMING_FLASH_NS` has passed since `t`: a newer stamp replaces an
/// older one, so a volley reads as one pulse that ends after the last hit.
pub proof fn law_stamp_then_taking_damage(
    s: Seq<(Seq<char>, u64)>,
    character: Seq<char>,
    t: u64,
    now: u64,
)
    requires
        distinct_keys(s),
    ensures
        (lookup_character(assign(s, character, t), character) matches Some(x) && elapsed(now, x)
            < INCOMING_FLASH_NS) == (elapsed(now, t) < INCOMING_FLASH_NS),
{
    law_assign_then_lookup(s, character, t, character);
}

/// Pruning keeps exactly the alerts that have not expired: every alert
/// left is unexpired, and every unexpired alert is left.
pub proof fn law_prune_keeps_unexpired(s: Seq<(Seq<char>, ActiveAlert)>, now: u64)
    ensures
        forall|i: int|
            0 <= i < unexpired(s, now).len() ==> now < (#[trigger] unexpired(s, now)[i]).1.expires_at,
        forall|i: int| 0 <= i < s.len() && now < (#[trigger] s[i]).1.expires_at ==> unexpired(
            s,
            now,
        ).contains(s[i]),
    decreases s.len(),
{
    if s.len() > 0 {
        let r = unexpired(s.drop_last(), now);
        law_prune_keeps_unexpired(s.drop_last(), now);
        assert forall|i: int| 0 <= i < s.len() && now < (#[trigger] s[i]).1.expires_at implies unexpired(
            s,
            now,
        ).contains(s[i]) by {
            if i < s.len() - 1 {
                assert(s.drop_last()[i] == s[i]);
                let k = choose|k: int| 0 <= k < r.len() && r[k] == s[i];
                assert(unexpired(s, now)[k] == s[i]);
            } else {
                assert(unexpired(s, now)[r.len() as int] == s[i]);
            }
        }
    }
}

/// Once the alert of a character is dropped, none is found for that
/// character, as long as, when an entry has exactly its name, no other
/// name equals its lowercase form ignoring ASCII case.
pub proof fn law_drop_alert_hides(s: Seq<(Seq<char>, ActiveAlert)>, character: Seq<char>)
    requires
        distinct_keys(s),
        lookup(s, character) is Some ==> forall|i: int|
            0 <= i < s.len() && text_ci_eq(#[trigger] s[i].0, unicode_lowercase(character))
                ==> s[i].0 == character,
    ensures
        lookup_character(drop_alert_spec(s, character), character) is None,
{
    let n = unicode_lowercase(character);
    if lookup(s, character) is Some {
        let w = without(s, character);
        law_without_then_lookup(s, character, character);
        assert forall|j: int| 0 <= j < w.len() implies !text_ci_eq((#[trigger] w[j]).0, n) by {
            let i = key_index_of(s, character);
            let sj = if j < i { j } else { j + 1 };
            assert(w[j] == s[sj]);
            if text_ci_eq(w[j].0, n) {
                assert(s[sj].0 == character);
            }
        }
        lemma_first_ci_none(w, n, 0);
    } else {
        let w = without_ci(s, n);
        lemma_without_ci_entries(s, n);
        assert(!exists|j: int| 0 <= j < w.len() && w[j].0 == character) by {
            if exists|j: int| 0 <= j < w.len() && w[j].0 == character {
                let j = choose|j: int| 0 <= j < w.len() && w[j].0 == character;
                assert(w[j].0 == character);
                assert(s.contains(w[j]));
                let k = choose|k: int| 0 <= k < s.len() && s[k] == w[j];
                assert(s[k].0 == character);
            }
        }
        lemma_first_ci_none(w, n, 0);
    }
}

/// The index of the entry named `k`, when there is one.
spec fn key_index_of<V>(s: Seq<(Seq<char>, V)>, k: Seq<char>) -> int {
    match crate::names::key_index(s, k) {
        Some(i) => i,
        None => 0,
    }
}

/// Live view the preview painters read. Written by the tailer.
pub struct LogLiveState {
    /// Character name to current solar system.
    pub systems: NameMap<String>,
    /// Character to currently displayed alert. Newest wins; expired entries
    /// are pruned by the tailer.
    pub alerts: NameMap<ActiveAlert>,
    pub resolved_chatlog_dir: Option<String>,
    pub resolved_gamelog_dir: Option<String>,
    /// Time of the last incoming hit per character.
    pub last_incoming: NameMap<u64>,
}

impl LogLiveState {
    /// A state with nothing known.
    pub fn new() -> (s: Self)
        ensures
            s.systems.view().len() == 0,
            s.alerts.view().len() == 0,
            s.last_incoming.view().len() == 0,
            s.resolved_chatlog_dir is None,
            s.resolved_gamelog_dir is None,
    {
        LogLiveState {
            systems: NameMap::new(),
            alerts: NameMap::new(),
            resolved_chatlog_dir: None,
            resolved_gamelog_dir: None,
            last_incoming: NameMap::new(),
        }
    }

    /// The solar system of `character`, matched exactly or else ignoring case.
    pub fn system_for(&self, character: &str) -> (r: Option<&str>)
        ensures
            match r {
                Some(s) => lookup_character(self.systems.view(), character@) matches Some(v)
                    && v@ == s@,
                None => lookup_character(self.systems.view(), character@) is None,
            },
    {
        match lookup_name(&self.systems, character) {
            Some(s) => Some(s.as_str()),
            None => None,
        }
    }

    /// The alert of `character` unless it has expired at `now`.
    pub fn alert_for(&self, character: &str, now: u64) -> (r: Option<&ActiveAlert>)
        ensures
            match lookup_character(self.alerts.view(), character@) {
                Some(a) => if now >= a.expires_at {
                    r is None
                } else {
                    r == Some(&a)
                },
                None => r is None,
            },
    {
        let alert = match lookup_name(&self.alerts, character) {
            Some(a) => a,
            None => return None,
        };
        if alert.expired(now) {
            None
        } else {
            Some(alert)
        }
    }

    /// Drops every alert that has expired at `now`.
    pub fn prune_expired(&mut self, now: u64)
        ensures
            final(self).alerts.view() == unexpired(old(self).alerts.view(), now),
            final(self).systems == old(self).systems,
            final(self).last_incoming == old(self).last_incoming,
            final(self).resolved_chatlog_dir == old(self).resolved_chatlog_dir,
            final(self).resolved_gamelog_dir == old(self).resolved_gamelog_dir,
    {
        let ghost orig = self.alerts.view();
        let n: usize = self.alerts.len();
        let mut i: usize = 0;
        let mut j: usize = 0;
        while i < self.alerts.len()
            invariant
                i <= self.alerts.view().len(),
                j <= orig.len(),
                orig.len() == n,
                self.alerts.view().len() - i == orig.len() - j,
                self.alerts.view().subrange(0, i as int) == unexpired(
                    orig.subrange(0, j as int),
                    now,
                ),
                self.alerts.view().subrange(i as int, self.alerts.view().len() as int)
                    == orig.subrange(j as int, orig.len() as int),
                self.systems == old(self).systems,
                self.last_incoming == old(self).last_incoming,
                self.resolved_chatlog_dir == old(self).resolved_chatlog_dir,
                self.resolved_gamelog_dir == old(self).resolved_gamelog_dir,
            decreases self.alerts.view().len() - i,
        {
            let ghost before = self.alerts.view();
            assert(orig.subrange(0, j + 1).drop_last() == orig.subrange(0, j as int));
            assert(before[i as int] == orig[j as int]) by {
                assert(before.subrange(i as int, before.len() as int)[0] == before[i as int]);
            }
            assert(before.subrange(i as int, before.len() as int).drop_first() =~= orig.subrange(
                j + 1,
                orig.len() as int,
            ));
            let (_name, a) = self.alerts.entry(i);
            if a.expired(now) {
                self.alerts.remove_at(i);
                assert(self.alerts.view().subrange(0, i as int) =~= before.subrange(0, i as int));
                assert(self.alerts.view().subrange(i as int, self.alerts.view().len() as int)
                    =~= orig.subrange(j + 1, orig.len() as int));
            } else {
                assert(before.subrange(0, i + 1) =~= before.subrange(0, i as int).push(
                    before[i as int],
                ));
                i += 1;
            }
            j += 1;
        }
        assert(orig.subrange(0, orig.len() as int) == orig);
        assert(self.alerts.view().subrange(0, i as int) == self.alerts.view());
    }

    /// Records an incoming hit on `character` at `now`.
    pub fn stamp_incoming(&mut self, character: &str, now: u64)
        ensures
            final(self).last_incoming.view() == assign(
                old(self).last_incoming.view(),
                character@,
                now,
            ),
            final(self).systems == old(self).systems,
            final(self).alerts == old(self).alerts,
            final(self).resolved_chatlog_dir == old(self).resolved_chatlog_dir,
            final(self).resolved_gamelog_dir == old(self).resolved_gamelog_dir,
    {
        self.last_incoming.insert(character.to_owned(), now);
    }

    /// Whether `character` took an incoming hit less than
    /// `INCOMING_FLASH_NS` before `now`.
    pub fn taking_damage(&self, character: &str, now: u64) -> (r: bool)
        ensures
            r == (lookup_character(self.last_incoming.view(), character@) matches Some(t)
                && elapsed(now, t) < INCOMING_FLASH_NS),
    {
        match lookup_name(&self.last_incoming, character) {
            Some(t) => {
                let since: u64 = if now >= *t {
                    now - *t
                } else {
                    0
                };
                since < INCOMING_FLASH_NS
            },
            None => false,
        }
    }

    /// Drops the alert for a character (any case). Used when that client is
    /// focused and alerts show on inactive clients only.
    pub fn drop_alert(&mut self, character: &str)
        ensures
            final(self).alerts.view() == drop_alert_spec(old(self).alerts.view(), character@),
            final(self).systems == old(self).systems,
            final(self).last_incoming == old(self).last_incoming,
            final(self).resolved_chatlog_dir == old(self).resolved_chatlog_dir,
            final(self).resolved_gamelog_dir == old(self).resolved_gamelog_dir,
    {
        if self.alerts.remove(character).is_some() {
            return;
        }
        let needle = to_lowercase(character);
        self.alerts.remove_ignore_ascii_case(needle.as_str());
    }
}

impl Default for LogLiveState {
    fn default() -> (s: Self)
        ensures
            s.systems.view().len() == 0,
            s.alerts.view().len() == 0,
            s.last_incoming.view().len() == 0,
            s.resolved_chatlog_dir is None,
            s.resolved_gamelog_dir is None,
    {
        LogLiveState::new()
    }
}

/// One combat hit: its time, its amount as decimal text, and its direction.
#[derive(Debug, Clone)]
pub struct Hit {
    pub at: u64,
    pub amount: String,
    pub incoming: bool,
}

/// The mathematical form of a hit.
pub open spec fn hit_view(h: Hit) -> (u64, Seq<char>, bool) {
    (h.at, h.amount@, h.incoming)
}

/// The mathematical form of a queue of hits.
pub open spec fn hits_view(q: Seq<Hit>) -> Seq<(u64, Seq<char>, bool)> {
    Seq::new(q.len(), |i: int| hit_view(q[i]))
}

/// The mathematical form of per-character hit queues.
pub open spec fn queues_view(s: Seq<(Seq<char>, Vec<Hit>)>) -> Seq<
    (Seq<char>, Seq<(u64, Seq<char>, bool)>),
> {
    Seq::new(s.len(), |i: int| (s[i].0, hits_view(s[i].1@)))
}

/// The queue without its leading hits older than `cutoff`.
pub open spec fn drop_stale(q: Seq<(u64, Seq<char>, bool)>, cutoff: u64) -> Seq<
    (u64, Seq<char>, bool),
>
    decreases q.len(),
{
    if q.len() > 0 && q[0].0 < cutoff {
        drop_stale(q.drop_first(), cutoff)
    } else {
        q
    }
}

/// The queues after dropping stale leading hits; characters left with no
/// hit are dropped.
pub open spec fn prune_queues(
    s: Seq<(Seq<char>, Seq<(u64, Seq<char>, bool)>)>,
    cutoff: u64,
) -> Seq<(Seq<char>, Seq<(u64, Seq<char>, bool)>)>
    decreases s.len(),
{
    if s.len() == 0 {
        Seq::empty()
    } else {
        let r = prune_queues(s.drop_last(), cutoff);
        let q = drop_stale(s.last().1, cutoff);
        if q.len() > 0 {
            r.push((s.last().0, q))
        } else {
            r
        }
    }
}

/// Hits in time order.
pub open spec fn hits_sorted(q: Seq<(u64, Seq<char>, bool)>) -> bool {
    forall|i: int, j: int| 0 <= i <= j < q.len() ==> q[i].0 <= q[j].0
}

/// Dropping stale leading hits leaves a suffix of the queue that starts
/// inside the window.
pub proof fn lemma_drop_stale(q: Seq<(u64, Seq<char>, bool)>, cutoff: u64)
    ensures
        drop_stale(q, cutoff).len() <= q.len(),
        drop_stale(q, cutoff) == q.subrange(q.len() - drop_stale(q, cutoff).len(), q.len() as int),
        drop_stale(q, cutoff).len() > 0 ==> drop_stale(q, cutoff)[0].0 >= cutoff,
    decreases q.len(),
{
    if q.len() > 0 && q[0].0 < cutoff {
        lemma_drop_stale(q.drop_first(), cutoff);
        let d = drop_stale(q.drop_first(), cutoff);
        assert(q.drop_first().subrange(q.drop_first().len() - d.len(), q.drop_first().len() as int)
            =~= q.subrange(q.len() - d.len(), q.len() as int));
    } else {
        assert(q.subrange(0, q.len() as int) =~= q);
    }
}

/// After pruning, no character is left without hits, and when each queue
/// holds its hits in time order, every hit left lies inside the window.
pub proof fn law_prune_drops_stale(s: Seq<(Seq<char>, Seq<(u64, Seq<char>, bool)>)>, cutoff: u64)
    ensures
        forall|i: int|
            0 <= i < prune_queues(s, cutoff).len() ==> (#[trigger] prune_queues(s, cutoff)[i]).1.len()
                > 0,
        (forall|i: int| 0 <= i < s.len() ==> hits_sorted(#[trigger] s[i].1)) ==> forall|
            i: int,
            j: int,
        |
            0 <= i < prune_queues(s, cutoff).len() && 0 <= j < prune_queues(s, cutoff)[i].1.len()
                ==> (#[trigger] prune_queues(s, cutoff)[i].1[j]).0 >= cutoff,
    decreases s.len(),
{
    if s.len() > 0 {
        let r = prune_queues(s.drop_last(), cutoff);
        law_prune_drops_stale(s.drop_last(), cutoff);
        let q = drop_stale(s.last().1, cutoff);
        lemma_drop_stale(s.last().1, cutoff);
        let p = prune_queues(s, cutoff);
        assert forall|i: int| 0 <= i < p.len() implies (#[trigger] p[i]).1.len() > 0 by {
            if i < r.len() {
                assert(p[i] == r[i]);
            }
        }
        if forall|i: int| 0 <= i < s.len() ==> hits_sorted(#[trigger] s[i].1) {
            assert forall|i: int| 0 <= i < s.drop_last().len() implies hits_sorted(
                #[trigger] s.drop_last()[i].1,
            ) by {
                assert(s.drop_last()[i] == s[i]);
            }
            assert forall|i: int, j: int| 0 <= i < p.len() && 0 <= j < p[i].1.len() implies (
            #[trigger] p[i].1[j]).0 >= cutoff by {
                if i < r.len() {
                    assert(p[i] == r[i]);
                    assert(r[i].1[j] == p[i].1[j]);
                } else {
                    let last = s.last().1;
                    assert(s[s.len() - 1] == s.last());
                    assert(hits_sorted(last));
                    let off = last.len() - q.len();
                    assert(q[0] == last[off]);
                    assert(q[j] == last[off + j]);
                }
            }
        }
    }
}

/// Dropping stale hits keeps every hit of a time-ordered queue that lies
/// inside the window, in order: the result is exactly the hits at or after
/// the cutoff, and a queue wholly inside the window is left as it is.
pub proof fn law_drop_stale_keeps_window(q: Seq<(u64, Seq<char>, bool)>, cutoff: u64)
    requires
        hits_sorted(q),
    ensures
        drop_stale(q, cutoff) == q.filter(|h: (u64, Seq<char>, bool)| h.0 >= cutoff),
        (forall|i: int| 0 <= i < q.len() ==> (#[trigger] q[i]).0 >= cutoff) ==> drop_stale(
            q,
            cutoff,
        ) == q,
    decreases q.len(),
{
    let f = |h: (u64, Seq<char>, bool)| h.0 >= cutoff;
    if q.len() == 0 {
        assert(q.filter(f) =~= q);
    } else {
        let t = q.drop_first();
        assert(hits_sorted(t)) by {
            assert forall|i: int, j: int| 0 <= i <= j < t.len() implies t[i].0 <= t[j].0 by {
                assert(t[i] == q[i + 1] && t[j] == q[j + 1]);
            }
        }
        law_drop_stale_keeps_window(t, cutoff);
        assert(q =~= seq![q[0]] + t);
        t.lemma_filter_prepend(q[0], f);
        if q[0].0 < cutoff {
            assert(Seq::<(u64, Seq<char>, bool)>::empty() + t.filter(f) =~= t.filter(f));
        } else {
            // The first hit is inside the window, and so are all later ones.
            assert forall|i: int| 0 <= i < q.len() implies (#[trigger] q[i]).0 >= cutoff by {
                assert(q[0].0 <= q[i].0);
            }
            assert forall|i: int| 0 <= i < t.len() implies (#[trigger] t[i]).0 >= cutoff by {
                assert(t[i] == q[i + 1]);
            }
            assert(seq![q[0]] + t.filter(f) =~= seq![q[0]] + t);
        }
    }
}

/// Pruning keeps every hit inside the window: for a character whose hits
/// are in time order, each hit at or after the cutoff is still in that
/// character's queue afterwards.
pub proof fn law_prune_keeps_window_hits(
    s: Seq<(Seq<char>, Seq<(u64, Seq<char>, bool)>)>,
    cutoff: u64,
)
    ensures
        forall|i: int, j: int|
            0 <= i < s.len() && hits_sorted(s[i].1) && 0 <= j < s[i].1.len() && (#[trigger] s[i].1[j]).0
                >= cutoff ==> exists|k: int|
                0 <= k < prune_queues(s, cutoff).len() && prune_queues(s, cutoff)[k].0 == s[i].0
                    && (#[trigger] prune_queues(s, cutoff)[k]).1.contains(s[i].1[j]),
    decreases s.len(),
{
    if s.len() > 0 {
        let d = s.drop_last();
        let r = prune_queues(d, cutoff);
        let p = prune_queues(s, cutoff);
        law_prune_keeps_window_hits(d, cutoff);
        let n = s.len() - 1;
        let q = drop_stale(s.last().1, cutoff);
        assert forall|i: int, j: int|
            0 <= i < s.len() && hits_sorted(s[i].1) && 0 <= j < s[i].1.len() && (#[trigger] s[i].1[j]).0
                >= cutoff implies exists|k: int|
            0 <= k < p.len() && p[k].0 == s[i].0 && (#[trigger] p[k]).1.contains(s[i].1[j]) by {
            if i < n {
                assert(d[i] == s[i]);
                assert(d[i].1[j] == s[i].1[j]);
                let k = choose|k: int|
                    0 <= k < r.len() && r[k].0 == d[i].0 && (#[trigger] r[k]).1.contains(d[i].1[j]);
                assert(p[k] == r[k]);
            } else {
                assert(s[i] == s.last());
                let hit = s[i].1[j];
                law_drop_stale_keeps_window(s.last().1, cutoff);
                let f = |h: (u64, Seq<char>, bool)| h.0 >= cutoff;
                s.last().1.lemma_filter_contains(f, j);
                assert(q.contains(hit));
                assert(q.len() > 0);
                assert(p[r.len() as int] == (s.last().0, q));
            }
        }
    }
}

/// The start of the DPS window ending at `now`; `now` itself when the
/// clock has not yet run for a whole window.
pub open spec fn window_start(now: u64) -> u64 {
    if now >= DPS_WINDOW_NS {
        (now - DPS_WINDOW_NS) as u64
    } else {
        now
    }
}

/// Per-character combat hits, oldest first, kept for the DPS window.
pub struct DpsTracker {
    pub hits: NameMap<Vec<Hit>>,
}

impl DpsTracker {
    /// A tracker with no hit.
    pub fn new() -> (t: Self)
        ensures
            t.hits.view().len() == 0,
    {
        DpsTracker { hits: NameMap::new() }
    }

    /// The hit queues, by character.
    pub open spec fn queues(&self) -> Seq<(Seq<char>, Seq<(u64, Seq<char>, bool)>)> {
        queues_view(self.hits.view())
    }

    /// Appends a hit to the queue of `character`.
    pub fn add(&mut self, character: &str, incoming: bool, amount: String, now: u64)
        ensures
            ({
                let h = (now, amount@, incoming);
                match crate::names::key_index(old(self).hits.view(), character@) {
                    Some(i) => final(self).queues() == old(self).queues().update(
                        i,
                        (character@, old(self).queues()[i].1.push(h)),
                    ),
                    None => final(self).queues() == old(self).queues().push(
                        (character@, seq![h]),
                    ),
                }
            }),
    {
        let ghost h = Hit { at: now, amount, incoming };
        let hit = Hit { at: now, amount, incoming };
        match self.hits.index_of(character) {
            Some(i) => {
                let mut q = self.hits.replace_at(i, Vec::new());
                q.push(hit);
                self.hits.replace_at(i, q);
                assert(self.queues() =~= old(self).queues().update(
                    i as int,
                    (character@, old(self).queues()[i as int].1.push(hit_view(h))),
                )) by {
                    assert(hits_view(q@) =~= hits_view(old(self).hits.view()[i as int].1@).push(
                        hit_view(h),
                    ));
                }
            },
            None => {
                let mut q: Vec<Hit> = Vec::new();
                q.push(hit);
                self.hits.insert(character.to_owned(), q);
                assert(self.queues() =~= old(self).queues().push((character@, seq![hit_view(h)])))
                    by {
                    assert(hits_view(q@) =~= seq![hit_view(h)]);
                }
            },
        }
    }

    /// Drops the hits that left the DPS window ending at `now`, and the
    /// characters left without hits.
    pub fn prune(&mut self, now: u64)
        ensures
            final(self).queues() == prune_queues(old(self).queues(), window_start(now)),
    {
        let cutoff: u64 = if now >= DPS_WINDOW_NS {
            now - DPS_WINDOW_NS
        } else {
            now
        };
        let ghost orig = self.queues();
        let n: usize = self.hits.len();
        let mut i: usize = 0;
        let mut j: usize = 0;
        while i < self.hits.len()
            invariant
                cutoff == window_start(now),
                i <= self.queues().len(),
                j <= orig.len(),
                orig.len() == n,
                self.queues().len() - i == orig.len() - j,
                self.queues().subrange(0, i as int) == prune_queues(
                    orig.subrange(0, j as int),
                    cutoff,
                ),
                self.queues().subrange(i as int, self.queues().len() as int) == orig.subrange(
                    j as int,
                    orig.len() as int,
                ),
            decreases self.queues().len() - i,
        {
            let ghost before = self.queues();
            assert(orig.subrange(0, j + 1).drop_last() == orig.subrange(0, j as int));
            assert(before[i as int] == orig[j as int]) by {
                assert(before.subrange(i as int, before.len() as int)[0] == before[i as int]);
            }
            assert(before.subrange(i as int, before.len() as int).drop_first() =~= orig.subrange(
                j + 1,
                orig.len() as int,
            ));
            let q = self.hits.replace_at(i, Vec::new());
            let fresh = drop_stale_hits(q, cutoff);
            if fresh.len() == 0 {
                self.hits.remove_at(i);
                assert(self.queues().subrange(0, i as int) =~= before.subrange(0, i as int));
                assert(self.queues().subrange(i as int, self.queues().len() as int)
                    =~= orig.subrange(j + 1, orig.len() as int));
            } else {
                self.hits.replace_at(i, fresh);
                assert(self.queues().subrange(0, i + 1) =~= before.subrange(0, i as int).push(
                    (before[i as int].0, drop_stale(before[i as int].1, cutoff)),
                ));
                assert(self.queues().subrange(i + 1, self.queues().len() as int)
                    =~= orig.subrange(j + 1, orig.len() as int));
                i += 1;
            }
            j += 1;
        }
        assert(orig.subrange(0, orig.len() as int) == orig);
        assert(self.queues().subrange(0, i as int) == self.queues());
    }
}

/// The queue without its leading hits older than `cutoff`.
fn drop_stale_hits(q: Vec<Hit>, cutoff: u64) -> (r: Vec<Hit>)
    ensures
        hits_view(r@) == drop_stale(hits_view(q@), cutoff),
{
    let mut k: usize = 0;
    let ghost qv = hits_view(q@);
    assert(qv.subrange(0, qv.len() as int) == qv);
    while k < q.len() && q[k].at < cutoff
        invariant
            k <= q.len(),
            qv == hits_view(q@),
            drop_stale(qv.subrange(k as int, qv.len() as int), cutoff) == drop_stale(qv, cutoff),
        decreases q.len() - k,
    {
        assert(qv.subrange(k as int, qv.len() as int).drop_first() == qv.subrange(
            k + 1,
            qv.len() as int,
        ));
        k += 1;
    }
    let mut q = q;
    let rest = q.split_off(k);
    assert(hits_view(rest@) =~= qv.subrange(k as int, qv.len() as int));
    rest
}

} // verus!
