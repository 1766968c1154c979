//! Decisions of the poll-based tailer: when to rescan and how long to sleep,
//! which log files to follow, how a followed file's read position moves,
//! which events change the live state, and the location clock that lets the
//! newest location win. EVE keeps its log files open and appends to them;
//! file-change notifications miss that on Windows, so the tailer polls.
use vstd::prelude::*;
use vstd::utf8::*;
use crate::decode::{decode_chunk_spec, decode_log_chunk, strings_view};
use crate::names::{
    assign, distinct_keys, key_index, law_assign_then_lookup, lemma_key_index, lookup, NameMap,
};
use crate::paths::{AlertToggles, LogsConfig};
use crate::parse::{
    line_splits_char, parse_line, parse_line_spec, parse_line_splits_char, should_parse_line,
    should_parse_spec, AlertKind, Event, SpecEvent,
};
use crate::state::{lookup_character, ActiveAlert, DpsTracker, LogLiveState};
use crate::text::{to_lowercase, unicode_lowercase};

verus! {

/// Whether alerts of `kind` are shown.
pub open spec fn alert_enabled_spec(t: AlertToggles, kind: AlertKind) -> bool {
    match kind {
        AlertKind::FleetInvite => t.fleet_invite,
        AlertKind::FollowWarp => t.follow_warp,
        AlertKind::Regroup => t.regroup,
        AlertKind::Compression => t.compression,
        AlertKind::Decloak => t.decloak,
        AlertKind::CrystalBroke => t.crystal_broke,
        AlertKind::ConvoRequest => t.convo_request,
    }
}

/// Whether alerts of `kind` are shown.
pub fn alert_enabled(toggles: &AlertToggles, kind: AlertKind) -> (r: bool)
    ensures
        r == alert_enabled_spec(*toggles, kind),
{
    match kind {
        AlertKind::FleetInvite => toggles.fleet_invite,
        AlertKind::FollowWarp => toggles.follow_warp,
        AlertKind::Regroup => toggles.regroup,
        AlertKind::Compression => toggles.compression,
        AlertKind::Decloak => toggles.decloak,
        AlertKind::CrystalBroke => toggles.crystal_broke,
        AlertKind::ConvoRequest => toggles.convo_request,
    }
}

/// The last known location of a character and the log timestamp it came
/// with (empty when the line had none). Timestamps are zero-padded
/// `YYYY.MM.DD HH:MM:SS` and sort lexicographically.
#[derive(Debug, Clone)]
pub struct LocationClock {
    pub timestamp: String,
    pub system: String,
}

/// Clocks by character, as texts.
pub open spec fn clocks_view(s: Seq<(Seq<char>, LocationClock)>) -> Seq<
    (Seq<char>, (Seq<char>, Seq<char>)),
> {
    Seq::new(s.len(), |i: int| (s[i].0, (s[i].1.timestamp@, s[i].1.system@)))
}

/// `a` sorts before `b`, byte by byte.
pub open spec fn bytes_lt(a: Seq<u8>, b: Seq<u8>) -> bool
    decreases a.len(),
{
    if b.len() == 0 {
        false
    } else if a.len() == 0 {
        true
    } else if a[0] != b[0] {
        a[0] < b[0]
    } else {
        bytes_lt(a.drop_first(), b.drop_first())
    }
}

/// The text `a` sorts before `b` (as `String`'s ordering, on UTF-8 bytes).
pub open spec fn text_lt(a: Seq<char>, b: Seq<char>) -> bool {
    bytes_lt(encode_utf8(a), encode_utf8(b))
}

/// Byte-wise ordering is a strict total order.
proof fn lemma_bytes_lt_order(x: Seq<u8>, y: Seq<u8>, z: Seq<u8>)
    ensures
        !bytes_lt(x, x),
        bytes_lt(x, y) ==> !bytes_lt(y, x),
        bytes_lt(x, y) && bytes_lt(y, z) ==> bytes_lt(x, z),
        x != y ==> bytes_lt(x, y) || bytes_lt(y, x),
    decreases x.len(),
{
    if x.len() > 0 {
        if y.len() > 0 && z.len() > 0 {
            lemma_bytes_lt_order(x.drop_first(), y.drop_first(), z.drop_first());
        } else if y.len() > 0 {
            lemma_bytes_lt_order(x.drop_first(), y.drop_first(), y.drop_first());
        } else {
            lemma_bytes_lt_order(x.drop_first(), x.drop_first(), x.drop_first());
        }
        if x != y && y.len() > 0 && x[0] == y[0] {
            assert(x.drop_first() != y.drop_first()) by {
                if x.drop_first() == y.drop_first() {
                    assert(x =~= y) by {
                        assert forall|i: int| 0 <= i < x.len() implies x[i] == y[i] by {
                            if i > 0 {
                                assert(x[i] == x.drop_first()[i - 1]);
                                assert(y[i] == y.drop_first()[i - 1]);
                            }
                        }
                    }
                }
            }
        }
    } else {
        assert(y.len() == 0 ==> x =~= y);
    }
}

/// Log timestamps are compared as a strict total order on their bytes, so
/// of two different timestamps exactly one is older, and "older than" chains.
pub proof fn law_timestamp_order(a: Seq<char>, b: Seq<char>, c: Seq<char>)
    ensures
        !text_lt(a, a),
        text_lt(a, b) ==> !text_lt(b, a),
        text_lt(a, b) && text_lt(b, c) ==> text_lt(a, c),
        a != b ==> text_lt(a, b) || text_lt(b, a),
{
    lemma_bytes_lt_order(encode_utf8(a), encode_utf8(b), encode_utf8(c));
    encode_utf8_decode_utf8(a);
    encode_utf8_decode_utf8(b);
}

/// A location report that replaces the known one is what the clock and the
/// live state give back for that character; a report older than the known
/// one changes nothing.
pub proof fn law_location_report_read_back(
    clocks: Seq<(Seq<char>, (Seq<char>, Seq<char>))>,
    systems: Seq<(Seq<char>, String)>,
    character: Seq<char>,
    system: String,
    ts: Seq<char>,
)
    requires
        distinct_keys(clocks),
        distinct_keys(systems),
    ensures
        location_replaces(lookup(clocks, character), system@, ts) ==> {
            &&& lookup(assign(clocks, character, (ts, system@)), character) == Some((ts, system@))
            &&& lookup_character(assign(systems, character, system), character) == Some(system)
        },
        (lookup(clocks, character) matches Some((pts, _)) && ts.len() > 0 && pts.len() > 0
            && text_lt(ts, pts)) ==> !location_replaces(lookup(clocks, character), system@, ts),
{
    law_assign_then_lookup(clocks, character, (ts, system@), character);
    law_assign_then_lookup(systems, character, system, character);
}

/// Once a report with a timestamp has been recorded, whether it moved the
/// character or only refreshed the clock, a report older than it changes
/// nothing, whatever system it names.
pub proof fn law_older_report_ignored(
    clocks: Seq<(Seq<char>, (Seq<char>, Seq<char>))>,
    character: Seq<char>,
    system: Seq<char>,
    ts: Seq<char>,
    later_system: Seq<char>,
    later_ts: Seq<char>,
)
    requires
        distinct_keys(clocks),
        later_ts.len() > 0,
        text_lt(later_ts, ts),
    ensures
        ({
            let prev = lookup(assign(clocks, character, (ts, system)), character);
            !location_replaces(prev, later_system, later_ts) && !refreshes_clock(
                prev,
                later_system,
                later_ts,
            )
        }),
{
    law_assign_then_lookup(clocks, character, (ts, system), character);
    law_timestamp_order(later_ts, ts, ts);
}

fn str_lt(a: &str, b: &str) -> (r: bool)
    ensures
        r == text_lt(a@, b@),
{
    let x = a.as_bytes();
    let y = b.as_bytes();
    let mut i: usize = 0;
    assert(x@.subrange(0, x@.len() as int) == x@);
    assert(y@.subrange(0, y@.len() as int) == y@);
    while i < x.len() && i < y.len() && x[i] == y[i]
        invariant
            i <= x@.len(),
            i <= y@.len(),
            x@ == encode_utf8(a@),
            y@ == encode_utf8(b@),
            bytes_lt(x@.subrange(i as int, x@.len() as int), y@.subrange(i as int, y@.len() as int))
                == bytes_lt(x@, y@),
        decreases x@.len() - i,
    {
        assert(x@.subrange(i as int, x@.len() as int).drop_first() == x@.subrange(
            i + 1,
            x@.len() as int,
        ));
        assert(y@.subrange(i as int, y@.len() as int).drop_first() == y@.subrange(
            i + 1,
            y@.len() as int,
        ));
        i += 1;
    }
    if i == y.len() {
        false
    } else if i == x.len() {
        true
    } else {
        x[i] < y[i]
    }
}

/// Whether a location report `(system, timestamp)` replaces the last known
/// one: it names another system and is not older than it (an empty
/// timestamp on either side is never older).
pub open spec fn location_replaces(prev: Option<(Seq<char>, Seq<char>)>, system: Seq<char>, ts: Seq<
    char,
>) -> bool {
    match prev {
        None => true,
        Some((pts, psys)) => psys != system && !(ts.len() > 0 && pts.len() > 0 && text_lt(ts, pts)),
    }
}

/// Whether a location report that names the known system only moves the
/// clock's timestamp forward: it has a timestamp and is not older than the
/// last report.
pub open spec fn refreshes_clock(prev: Option<(Seq<char>, Seq<char>)>, system: Seq<char>, ts: Seq<
    char,
>) -> bool {
    match prev {
        None => false,
        Some((pts, psys)) => psys == system && ts.len() > 0 && !(pts.len() > 0 && text_lt(ts, pts)),
    }
}

/// The timestamp text of a location report, empty when it has none.
pub open spec fn ts_text(t: Option<String>) -> Seq<char> {
    match t {
        Some(s) => s@,
        None => Seq::empty(),
    }
}

/// Records that `character` is now in `system`, unless the report is older
/// than the last one. A report of the known system changes no location but,
/// when it is newer, becomes the last report, so that an older report of
/// another system is ignored after it. A later gamelog jump overrides a
/// stale chatlog Local-channel line, and vice versa.
pub fn apply_system(
    character: &str,
    system: String,
    timestamp: Option<String>,
    clocks: &mut NameMap<LocationClock>,
    live: &mut LogLiveState,
)
    ensures
        ({
            let prev = lookup(clocks_view(old(clocks).view()), character@);
            let ts = ts_text(timestamp);
            if location_replaces(prev, system@, ts) {
                &&& clocks_view(final(clocks).view()) == assign(
                    clocks_view(old(clocks).view()),
                    character@,
                    (ts, system@),
                )
                &&& final(live).systems.view() == assign(
                    old(live).systems.view(),
                    character@,
                    system,
                )
            } else if refreshes_clock(prev, system@, ts) {
                &&& clocks_view(final(clocks).view()) == assign(
                    clocks_view(old(clocks).view()),
                    character@,
                    (ts, system@),
                )
                &&& final(live).systems == old(live).systems
            } else {
                &&& final(clocks).view() == old(clocks).view()
                &&& final(live).systems == old(live).systems
            }
        }),
        final(live).alerts == old(live).alerts,
        final(live).last_incoming == old(live).last_incoming,
        final(live).resolved_chatlog_dir == old(live).resolved_chatlog_dir,
        final(live).resolved_gamelog_dir == old(live).resolved_gamelog_dir,
{
    let ts: String = match timestamp {
        Some(t) => t,
        None => String::new(),
    };
    let ghost prev = lookup(clocks_view(clocks.view()), character@);
    let _n = clocks.len();
    let mut same = false;
    match clocks.index_of(character) {
        Some(i) => {
            let (_name, p) = clocks.entry(i);
            proof {
                lemma_key_index(clocks_view(clocks.view()), character@, i as int);
            }
            assert(prev == Some((p.timestamp@, p.system@)));
            let older = ts.as_str().as_bytes().len() > 0 && p.timestamp.as_str().as_bytes().len()
                > 0 && str_lt(ts.as_str(), p.timestamp.as_str());
            if p.system == system {
                if ts.as_str().as_bytes().len() == 0 || older {
                    return;
                }
                same = true;
            } else if older {
                return;
            }
        },
        None => {
            assert(prev is None) by {
                if exists|j: int| 0 <= j < clocks_view(clocks.view()).len() && clocks_view(
                    clocks.view(),
                )[j].0 == character@ {
                    let j = choose|j: int|
                        0 <= j < clocks_view(clocks.view()).len() && clocks_view(
                            clocks.view(),
                        )[j].0 == character@;
                    assert(clocks.view()[j].0 == character@);
                }
            }
        },
    }
    let ghost before = clocks.view();
    let sys_copy = system.clone();
    let ghost tsv = ts@;
    clocks.insert(character.to_owned(), LocationClock { timestamp: ts, system: sys_copy });
    proof {
        let cv = clocks_view(before);
        match key_index(before, character@) {
            Some(i) => {
                lemma_key_index(cv, character@, i);
                assert(clocks_view(clocks.view()) =~= assign(cv, character@, (tsv, system@)));
            },
            None => {
                assert(key_index(cv, character@) is None) by {
                    if exists|j: int| 0 <= j < cv.len() && cv[j].0 == character@ {
                        let j = choose|j: int| 0 <= j < cv.len() && cv[j].0 == character@;
                        assert(before[j].0 == character@);
                    }
                }
                assert(clocks_view(clocks.view()) =~= assign(cv, character@, (tsv, system@)));
            },
        }
    }
    if !same {
        live.systems.insert(character.to_owned(), system);
    }
}

/// The expiry time of an alert raised at `now`.
pub open spec fn alert_expiry(now: u64, alert_secs: u32) -> int {
    now + 1_000_000_000 * (if alert_secs >= 1 {
        alert_secs as int
    } else {
        1
    })
}

/// Applies one parsed event of `character` at time `now`: a location
/// change goes through the location clock; an incoming hit lights the
/// preview; a hit feeds the DPS window when enabled; an enabled alert
/// replaces the character's alert for `alert_secs` seconds (at least one).
pub fn apply_event(
    character: &str,
    event: Event,
    cfg: &LogsConfig,
    clocks: &mut NameMap<LocationClock>,
    dps: &mut DpsTracker,
    live: &mut LogLiveState,
    now: u64,
)
    requires
        event is Alert ==> alert_expiry(now, cfg.alert_secs) <= u64::MAX,
    ensures
        match event {
            Event::SystemChanged { system, timestamp } => {
                let prev = lookup(clocks_view(old(clocks).view()), character@);
                let ts = ts_text(timestamp);
                &&& final(dps).queues() == old(dps).queues()
                &&& final(live).alerts == old(live).alerts
                &&& final(live).last_incoming == old(live).last_incoming
                &&& if location_replaces(prev, system@, ts) {
                    &&& clocks_view(final(clocks).view()) == assign(
                        clocks_view(old(clocks).view()),
                        character@,
                        (ts, system@),
                    )
                    &&& final(live).systems.view() == assign(
                        old(live).systems.view(),
                        character@,
                        system,
                    )
                } else if refreshes_clock(prev, system@, ts) {
                    &&& clocks_view(final(clocks).view()) == assign(
                        clocks_view(old(clocks).view()),
                        character@,
                        (ts, system@),
                    )
                    &&& final(live).systems == old(live).systems
                } else {
                    &&& final(clocks).view() == old(clocks).view()
                    &&& final(live).systems == old(live).systems
                }
            },
            Event::Damage { incoming, amount } => {
                &&& final(clocks).view() == old(clocks).view()
                &&& final(live).systems == old(live).systems
                &&& final(live).alerts == old(live).alerts
                &&& final(live).last_incoming.view() == if incoming {
                    assign(old(live).last_incoming.view(), character@, now)
                } else {
                    old(live).last_incoming.view()
                }
                &&& if cfg.show_dps {
                    let h = (now, amount@, incoming);
                    match key_index(old(dps).hits.view(), character@) {
                        Some(i) => final(dps).queues() == old(dps).queues().update(
                            i,
                            (character@, old(dps).queues()[i].1.push(h)),
                        ),
                        None => final(dps).queues() == old(dps).queues().push(
                            (character@, seq![h]),
                        ),
                    }
                } else {
                    final(dps).queues() == old(dps).queues()
                }
            },
            Event::Alert { kind, text } => {
                &&& final(clocks).view() == old(clocks).view()
                &&& final(dps).queues() == old(dps).queues()
                &&& final(live).systems == old(live).systems
                &&& final(live).last_incoming == old(live).last_incoming
                &&& final(live).alerts.view() == if alert_enabled_spec(cfg.alerts, kind) {
                    assign(
                        old(live).alerts.view(),
                        character@,
                        ActiveAlert {
                            kind,
                            text,
                            expires_at: alert_expiry(now, cfg.alert_secs) as u64,
                        },
                    )
                } else {
                    old(live).alerts.view()
                }
            },
        },
        final(live).resolved_chatlog_dir == old(live).resolved_chatlog_dir,
        final(live).resolved_gamelog_dir == old(live).resolved_gamelog_dir,
{
    match event {
        Event::SystemChanged { system, timestamp } => {
            apply_system(character, system, timestamp, clocks, live);
        },
        Event::Damage { incoming, amount } => {
            if incoming {
                live.stamp_incoming(character, now);
            }
            if cfg.show_dps {
                dps.add(character, incoming, amount, now);
            }
        },
        Event::Alert { kind, text } => {
            if !alert_enabled(&cfg.alerts, kind) {
                return;
            }
            let secs: u64 = if cfg.alert_secs >= 1 {
                cfg.alert_secs as u64
            } else {
                1
            };
            let alert = ActiveAlert { kind, text, expires_at: now + secs * 1_000_000_000 };
            live.alerts.insert(character.to_owned(), alert);
        },
    }
}

/// A followed log file: its path, character, encoding, read position, the
/// size seen at the last poll, and the bytes carried over to the next read.
pub struct FileState {
    pub path: String,
    pub character: String,
    pub is_chatlog: bool,
    pub offset: u64,
    pub last_size: u64,
    pub partial: Vec<u8>,
}

impl FileState {
    /// A file followed from its current end.
    pub fn new(path: String, character: String, is_chatlog: bool, size: u64) -> (f: Self)
        ensures
            f.path == path,
            f.character == character,
            f.is_chatlog == is_chatlog,
            f.offset == size,
            f.last_size == size,
            f.partial@.len() == 0,
    {
        FileState { path, character, is_chatlog, offset: size, last_size: size, partial: Vec::new() }
    }

    /// Starts a poll of a file now `size` bytes long. Gives whether there
    /// is anything to read; a file that shrank was truncated, so reading
    /// restarts at its beginning with nothing carried over.
    pub fn begin_read(&mut self, size: u64) -> (changed: bool)
        ensures
            changed == (size != old(self).last_size),
            size < old(self).last_size ==> final(self).offset == 0 && final(self).partial@.len()
                == 0,
            size >= old(self).last_size ==> final(self).offset == old(self).offset
                && final(self).partial@ == old(self).partial@,
            final(self).last_size == old(self).last_size,
            final(self).path == old(self).path,
            final(self).character == old(self).character,
            final(self).is_chatlog == old(self).is_chatlog,
    {
        if size == self.last_size {
            return false;
        }
        if size < self.last_size {
            self.offset = 0;
            self.partial.clear();
        }
        true
    }

    /// The position to read from in a file of `size` bytes; a position past
    /// the end restarts at the beginning with nothing carried over.
    pub fn read_offset(&mut self, size: u64) -> (offset: u64)
        ensures
            old(self).offset > size ==> offset == 0 && final(self).partial@.len() == 0,
            old(self).offset <= size ==> offset == old(self).offset && final(self).partial@
                == old(self).partial@,
            final(self).offset == offset,
            final(self).last_size == old(self).last_size,
            final(self).path == old(self).path,
            final(self).character == old(self).character,
            final(self).is_chatlog == old(self).is_chatlog,
    {
        if self.offset > size {
            self.offset = 0;
            self.partial.clear();
        }
        self.offset
    }

    /// Ends a poll: `buf` holds the bytes read from the read position. The
    /// next read starts at `size`; the complete lines read are returned.
    pub fn finish_read(&mut self, size: u64, buf: &[u8]) -> (lines: Vec<String>)
        ensures
            final(self).offset == size,
            final(self).last_size == size,
            buf@.len() == 0 ==> lines@.len() == 0 && final(self).partial@ == old(self).partial@,
            buf@.len() > 0 ==> (strings_view(lines@), final(self).partial@) == decode_chunk_spec(
                old(self).is_chatlog,
                old(self).partial@ + buf@,
            ),
            final(self).path == old(self).path,
            final(self).character == old(self).character,
            final(self).is_chatlog == old(self).is_chatlog,
    {
        self.offset = size;
        self.last_size = size;
        if buf.len() == 0 {
            return Vec::new();
        }
        decode_log_chunk(self.is_chatlog, &mut self.partial, buf)
    }
}

/// Where the first read of a file of `size` bytes starts: its last
/// `INITIAL_TAIL` bytes, or the whole file when it is shorter.
pub fn initial_read_start(size: u64) -> (start: u64)
    ensures
        start == (if size > INITIAL_TAIL {
            size - INITIAL_TAIL
        } else {
            0
        }),
{
    if size > INITIAL_TAIL {
        size - INITIAL_TAIL
    } else {
        0
    }
}

/// The newline that ends a dangling last line, in the file's encoding.
pub open spec fn newline_bytes(is_chatlog: bool) -> Seq<u8> {
    if is_chatlog {
        seq![0x0Au8, 0x00u8]
    } else {
        seq![0x0Au8]
    }
}

/// The lines of the tail of a file read when it starts being followed; a
/// trailing line without newline counts too.
pub open spec fn initial_lines_spec(is_chatlog: bool, buf: Seq<u8>) -> Seq<Seq<char>> {
    let (l1, p1) = decode_chunk_spec(is_chatlog, buf);
    if p1.len() > 0 {
        l1 + decode_chunk_spec(is_chatlog, p1 + newline_bytes(is_chatlog)).0
    } else {
        l1
    }
}

/// The complete lines of the tail of a file, flushing a trailing partial
/// line so that a system change at the end of the file still counts.
pub fn initial_lines(is_chatlog: bool, buf: &[u8]) -> (lines: Vec<String>)
    ensures
        strings_view(lines@) == initial_lines_spec(is_chatlog, buf@),
{
    let mut partial: Vec<u8> = Vec::new();
    let mut lines = decode_log_chunk(is_chatlog, &mut partial, buf);
    assert(Seq::<u8>::empty() + buf@ =~= buf@);
    if partial.len() > 0 {
        let nl: Vec<u8> = if is_chatlog {
            vec![0x0Au8, 0x00u8]
        } else {
            vec![0x0Au8]
        };
        assert(nl@ == newline_bytes(is_chatlog));
        let ghost p1 = partial@;
        let mut more = decode_log_chunk(is_chatlog, &mut partial, nl.as_slice());
        let ghost l1 = lines@;
        let ghost l2 = more@;
        lines.append(&mut more);
        assert(strings_view(lines@) =~= strings_view(l1) + strings_view(l2));
    }
    lines
}

/// The location change of the newest line that reports one, walking from
/// the last line back.
pub open spec fn latest_system_spec(lines: Seq<Seq<char>>, is_chatlog: bool) -> Option<
    (Seq<char>, Option<Seq<char>>),
>
    decreases lines.len(),
{
    if lines.len() == 0 {
        None
    } else {
        let l = lines.last();
        let earlier = latest_system_spec(lines.drop_last(), is_chatlog);
        if should_parse_spec(l, is_chatlog) {
            match parse_line_spec(l) {
                Some(SpecEvent::SystemChanged { system, timestamp }) => Some((system, timestamp)),
                _ => earlier,
            }
        } else {
            earlier
        }
    }
}

/// Whether the walk of `latest_system_spec` reaches a line that
/// `parse_line` does not accept.
pub open spec fn latest_system_splits(lines: Seq<Seq<char>>, is_chatlog: bool) -> bool
    decreases lines.len(),
{
    if lines.len() == 0 {
        false
    } else {
        let l = lines.last();
        if !should_parse_spec(l, is_chatlog) {
            latest_system_splits(lines.drop_last(), is_chatlog)
        } else if line_splits_char(l) {
            true
        } else if parse_line_spec(l) matches Some(SpecEvent::SystemChanged { .. }) {
            false
        } else {
            latest_system_splits(lines.drop_last(), is_chatlog)
        }
    }
}

/// The newest location change among the lines, with its timestamp; alerts
/// of these historical lines do not fire.
pub fn latest_system(lines: &Vec<String>, is_chatlog: bool) -> (r: Option<(String, Option<String>)>)
    requires
        !latest_system_splits(strings_view(lines@), is_chatlog),
    ensures
        match r {
            Some((s, t)) => latest_system_spec(strings_view(lines@), is_chatlog) == Some(
                (s@, crate::parse::opt_chars(t)),
            ),
            None => latest_system_spec(strings_view(lines@), is_chatlog) is None,
        },
{
    let ghost all = strings_view(lines@);
    let mut i: usize = lines.len();
    assert(all.take(lines@.len() as int) == all);
    while i > 0
        invariant
            i <= lines@.len(),
            all == strings_view(lines@),
            latest_system_spec(all.take(i as int), is_chatlog) == latest_system_spec(
                all,
                is_chatlog,
            ),
            !latest_system_splits(all.take(i as int), is_chatlog),
        decreases i,
    {
        let line = lines[i - 1].as_str();
        assert(all.take(i as int).last() == line@);
        assert(all.take(i as int).drop_last() == all.take(i - 1));
        if should_parse_line(line, is_chatlog) {
            if let Some(Event::SystemChanged { system, timestamp }) = parse_line(line) {
                return Some((system, timestamp));
            }
        }
        i -= 1;
    }
    None
}

/// Whether `latest_system` would reach a line that `parse_line` does not
/// accept.
pub fn latest_system_splits_char(lines: &Vec<String>, is_chatlog: bool) -> (r: bool)
    ensures
        r == latest_system_splits(strings_view(lines@), is_chatlog),
{
    let ghost all = strings_view(lines@);
    let mut i: usize = lines.len();
    assert(all.take(lines@.len() as int) == all);
    while i > 0
        invariant
            i <= lines@.len(),
            all == strings_view(lines@),
            latest_system_splits(all.take(i as int), is_chatlog) == latest_system_splits(
                all,
                is_chatlog,
            ),
        decreases i,
    {
        let line = lines[i - 1].as_str();
        assert(all.take(i as int).last() == line@);
        assert(all.take(i as int).drop_last() == all.take(i - 1));
        if should_parse_line(line, is_chatlog) {
            if parse_line_splits_char(line) {
                return true;
            }
            if let Some(Event::SystemChanged { .. }) = parse_line(line) {
                return false;
            }
        }
        i -= 1;
    }
    false
}

/// Wanted files by path, with character name and encoding, as texts.
pub open spec fn wanted_view(s: Seq<(Seq<char>, (String, bool))>) -> Seq<
    (Seq<char>, (Seq<char>, bool)),
> {
    Seq::new(s.len(), |i: int| (s[i].0, (s[i].1.0@, s[i].1.1)))
}

/// The name under which a found file is followed when no character list is
/// configured: its listener as written, else the lowercase key.
pub open spec fn display_name(key: Seq<char>, listener: Option<String>) -> Seq<char> {
    match listener {
        Some(l) => l@,
        None => key,
    }
}

/// The wanted files after adding the first `n` found files, each under its
/// display name.
pub open spec fn add_all_found(
    w: Seq<(Seq<char>, (Seq<char>, bool))>,
    found: Seq<(Seq<char>, String)>,
    listeners: Seq<Option<String>>,
    chatlogs: bool,
    n: int,
) -> Seq<(Seq<char>, (Seq<char>, bool))>
    decreases n,
{
    if n <= 0 {
        w
    } else {
        let prev = add_all_found(w, found, listeners, chatlogs, n - 1);
        assign(
            prev,
            found[n - 1].1@,
            (display_name(found[n - 1].0, listeners[n - 1]), chatlogs),
        )
    }
}

/// The wanted files after adding, for each of the first `n` configured
/// names, the found file of that name (matched on its lowercase form).
pub open spec fn add_named(
    w: Seq<(Seq<char>, (Seq<char>, bool))>,
    found: Seq<(Seq<char>, String)>,
    names: Seq<String>,
    chatlogs: bool,
    n: int,
) -> Seq<(Seq<char>, (Seq<char>, bool))>
    decreases n,
{
    if n <= 0 {
        w
    } else {
        let prev = add_named(w, found, names, chatlogs, n - 1);
        match lookup(found, unicode_lowercase(names[n - 1]@)) {
            Some(path) => assign(prev, path@, (names[n - 1]@, chatlogs)),
            None => prev,
        }
    }
}

/// Adds the files to follow from one directory to `wanted` (keyed by path).
/// `found` maps lowercase listener names to the newest file. Without a
/// configured character list every found file is followed, under its
/// `Listener:` name (`listeners`, one per found file) or else its key;
/// otherwise only the files of the configured names, under those names.
pub fn collect_wanted(
    found: &NameMap<String>,
    listeners: &Vec<Option<String>>,
    names: &Vec<String>,
    chatlogs: bool,
    wanted: &mut NameMap<(String, bool)>,
)
    requires
        names@.len() == 0 ==> listeners@.len() == found.view().len(),
    ensures
        names@.len() == 0 ==> wanted_view(final(wanted).view()) == add_all_found(
            wanted_view(old(wanted).view()),
            found.view(),
            listeners@,
            chatlogs,
            found.view().len() as int,
        ),
        names@.len() > 0 ==> wanted_view(final(wanted).view()) == add_named(
            wanted_view(old(wanted).view()),
            found.view(),
            names@,
            chatlogs,
            names@.len() as int,
        ),
{
    if names.len() == 0 {
        let mut t: usize = 0;
        while t < found.len()
            invariant
                t <= found.view().len(),
                listeners@.len() == found.view().len(),
                wanted_view(wanted.view()) == add_all_found(
                    wanted_view(old(wanted).view()),
                    found.view(),
                    listeners@,
                    chatlogs,
                    t as int,
                ),
            decreases found.view().len() - t,
        {
            let (key, path) = found.entry(t);
            let name: String = match &listeners[t] {
                Some(l) => l.clone(),
                None => key.to_owned(),
            };
            let ghost before = wanted.view();
            let ghost nv = name@;
            wanted.insert(path.clone(), (name, chatlogs));
            proof {
                lemma_assign_view(before, path@, (name, chatlogs));
            }
            t += 1;
        }
        return;
    }
    let mut t: usize = 0;
    while t < names.len()
        invariant
            t <= names@.len(),
            names@.len() > 0,
            wanted_view(wanted.view()) == add_named(
                wanted_view(old(wanted).view()),
                found.view(),
                names@,
                chatlogs,
                t as int,
            ),
        decreases names@.len() - t,
    {
        let key = to_lowercase(names[t].as_str());
        if let Some(path) = found.get(key.as_str()) {
            let ghost before = wanted.view();
            let v = (names[t].clone(), chatlogs);
            wanted.insert(path.clone(), v);
            proof {
                lemma_assign_view(before, path@, v);
            }
        }
        t += 1;
    }
}

/// Setting an entry commutes with viewing the values as texts.
proof fn lemma_assign_view(s: Seq<(Seq<char>, (String, bool))>, k: Seq<char>, v: (String, bool))
    requires
        distinct_keys(s),
    ensures
        wanted_view(assign(s, k, v)) == assign(wanted_view(s), k, (v.0@, v.1)),
{
    let ws = wanted_view(s);
    match key_index(s, k) {
        Some(i) => {
            lemma_key_index(ws, k, i);
            assert(wanted_view(assign(s, k, v)) =~= assign(ws, k, (v.0@, v.1)));
        },
        None => {
            assert(key_index(ws, k) is None) by {
                if exists|j: int| 0 <= j < ws.len() && ws[j].0 == k {
                    let j = choose|j: int| 0 <= j < ws.len() && ws[j].0 == k;
                    assert(s[j].0 == k);
                }
            }
            assert(wanted_view(assign(s, k, v)) =~= assign(ws, k, (v.0@, v.1)));
        },
    }
}

/// Poll interval while log lines keep coming (500 ms).
pub const FAST_POLL_MS: u64 = 500;

/// Poll interval when the logs are quiet or the monitor is off (1 s).
pub const SLOW_POLL_MS: u64 = 1000;

/// Polls that stay fast after the last relevant line.
pub const FAST_MOMENTUM_TICKS: u32 = 10;

/// Period of the directory rescan (30 s), in nanoseconds.
pub const DIR_RESCAN_NS: u64 = 30_000_000_000;

/// Bytes read from the end of a file when it starts being followed (64 KiB).
pub const INITIAL_TAIL: u64 = 65536;

/// How the monitor's enabled setting changed since the last round.
#[derive(Debug, Clone, Copy, PartialEq, Eq, Structural)]
pub enum MonitorChange {
    /// It was switched on: announce it.
    Started,
    /// It was switched off: announce it and drop the followed files and
    /// the DPS window.
    Stopped,
    Unchanged,
}

/// The tailer loop's own state: whether the monitor was on in the last
/// round, and how many more polls stay fast.
pub struct PollState {
    pub enabled: bool,
    pub momentum: u32,
}

impl PollState {
    /// The state before the first round: off, polling slowly.
    pub fn new() -> (p: Self)
        ensures
            !p.enabled,
            p.momentum == 0,
    {
        PollState { enabled: false, momentum: 0 }
    }

    /// Notes this round's enabled setting and tells how it changed.
    pub fn set_enabled(&mut self, enabled: bool) -> (c: MonitorChange)
        ensures
            c == (if enabled == old(self).enabled {
                MonitorChange::Unchanged
            } else if enabled {
                MonitorChange::Started
            } else {
                MonitorChange::Stopped
            }),
            final(self).enabled == enabled,
            final(self).momentum == old(self).momentum,
    {
        if enabled == self.enabled {
            return MonitorChange::Unchanged;
        }
        self.enabled = enabled;
        if enabled {
            MonitorChange::Started
        } else {
            MonitorChange::Stopped
        }
    }

    /// Ends a round of reads: a relevant line keeps polling fast for
    /// `FAST_MOMENTUM_TICKS` rounds. Gives the time to sleep, in milliseconds.
    pub fn after_poll(&mut self, had_relevant: bool) -> (sleep_ms: u64)
        ensures
            final(self).momentum == (if had_relevant {
                FAST_MOMENTUM_TICKS as int
            } else if old(self).momentum > 0 {
                old(self).momentum - 1
            } else {
                0
            }),
            sleep_ms == (if final(self).momentum > 0 {
                FAST_POLL_MS
            } else {
                SLOW_POLL_MS
            }),
            final(self).enabled == old(self).enabled,
    {
        if had_relevant {
            self.momentum = FAST_MOMENTUM_TICKS;
        } else if self.momentum > 0 {
            self.momentum = self.momentum - 1;
        }
        if self.momentum > 0 {
            FAST_POLL_MS
        } else {
            SLOW_POLL_MS
        }
    }
}

/// Whether the directories are scanned again this round: the settings
/// changed, the rescan period passed since the last scan, or no file is
/// followed.
pub fn rescan_due(cfg_changed: bool, since_last_scan_ns: u64, following_none: bool) -> (r: bool)
    ensures
        r == (cfg_changed || since_last_scan_ns >= DIR_RESCAN_NS || following_none),
{
    cfg_changed || since_last_scan_ns >= DIR_RESCAN_NS || following_none
}

/// The characters whose logs are followed: the configured order, or none
/// (all found characters) when there is no order.
pub fn character_filter(order: Option<&Vec<String>>) -> (names: Vec<String>)
    ensures
        match order {
            Some(o) => strings_view(names@) == strings_view(o@),
            None => names@.len() == 0,
        },
{
    match order {
        Some(o) => {
            let mut out: Vec<String> = Vec::new();
            let mut i: usize = 0;
            while i < o.len()
                invariant
                    i <= o@.len(),
                    strings_view(out@) == strings_view(o@).take(i as int),
                decreases o@.len() - i,
            {
                let ghost before = out@;
                out.push(o[i].clone());
                assert(strings_view(out@) =~= strings_view(o@).take(i + 1)) by {
                    assert(strings_view(out@) =~= strings_view(before).push(o@[i as int]@));
                }
                i += 1;
            }
            assert(strings_view(o@).take(o@.len() as int) =~= strings_view(o@));
            out
        },
        None => Vec::new(),
    }
}

/// The indices, among the first `n` wanted files, of those not followed yet.
pub open spec fn to_open(
    wanted: Seq<(Seq<char>, (String, bool))>,
    followed: Seq<Seq<char>>,
    n: int,
) -> Seq<int>
    decreases n,
{
    if n <= 0 {
        Seq::empty()
    } else if followed.contains(wanted[n - 1].0) {
        to_open(wanted, followed, n - 1)
    } else {
        to_open(wanted, followed, n - 1).push(n - 1)
    }
}

/// The bookkeeping of a rescan: for each followed file whether it is still
/// wanted (the others are dropped), and the indices of the wanted files to
/// start following, in order.
pub fn rescan_plan(followed: &Vec<String>, wanted: &NameMap<(String, bool)>) -> (r: (
    Vec<bool>,
    Vec<usize>,
))
    ensures
        r.0@.len() == followed@.len(),
        forall|i: int|
            0 <= i < followed@.len() ==> #[trigger] r.0@[i] == (lookup(
                wanted.view(),
                followed@[i]@,
            ) is Some),
        r.1@.len() == to_open(wanted.view(), strings_view(followed@), wanted.view().len() as int).len(),
        forall|k: int|
            0 <= k < r.1@.len() ==> #[trigger] r.1@[k] as int == to_open(
                wanted.view(),
                strings_view(followed@),
                wanted.view().len() as int,
            )[k],
{
    let mut keep: Vec<bool> = Vec::new();
    let mut i: usize = 0;
    while i < followed.len()
        invariant
            i <= followed@.len(),
            keep@.len() == i,
            forall|j: int|
                0 <= j < i ==> #[trigger] keep@[j] == (lookup(wanted.view(), followed@[j]@) is Some),
        decreases followed@.len() - i,
    {
        let w = wanted.get(followed[i].as_str()).is_some();
        keep.push(w);
        i += 1;
    }
    let ghost fv = strings_view(followed@);
    let mut open: Vec<usize> = Vec::new();
    let n = wanted.len();
    let mut t: usize = 0;
    while t < n
        invariant
            n == wanted.view().len(),
            t <= n,
            fv == strings_view(followed@),
            open@.len() == to_open(wanted.view(), fv, t as int).len(),
            forall|k: int|
                0 <= k < open@.len() ==> #[trigger] open@[k] as int == to_open(
                    wanted.view(),
                    fv,
                    t as int,
                )[k],
        decreases n - t,
    {
        let (path, _) = wanted.entry(t);
        let mut seen = false;
        let mut j: usize = 0;
        while j < followed.len()
            invariant
                j <= followed@.len(),
                fv == strings_view(followed@),
                seen == fv.take(j as int).contains(path@),
            decreases followed@.len() - j,
        {
            let ghost a = fv.take(j as int);
            let ghost b = fv.take(j + 1);
            assert(b =~= a.push(followed@[j as int]@));
            assert(b.contains(path@) == (a.contains(path@) || followed@[j as int]@ == path@)) by {
                if a.contains(path@) {
                    let k = choose|k: int| 0 <= k < a.len() && a[k] == path@;
                    assert(b[k] == a[k]);
                }
                if followed@[j as int]@ == path@ {
                    assert(b[j as int] == path@);
                }
                if b.contains(path@) {
                    let k = choose|k: int| 0 <= k < b.len() && b[k] == path@;
                    if k < j {
                        assert(a[k] == b[k]);
                    }
                }
            }
            if crate::names::str_eq(followed[j].as_str(), path) {
                seen = true;
            }
            j += 1;
        }
        assert(fv.take(followed@.len() as int) =~= fv);
        let ghost before = open@;
        if !seen {
            open.push(t);
            assert forall|k: int| 0 <= k < open@.len() implies #[trigger] open@[k] as int == to_open(
                wanted.view(),
                fv,
                t + 1,
            )[k] by {
                if k < before.len() {
                    assert(open@[k] == before[k]);
                }
            }
        }
        t += 1;
    }
    (keep, open)
}

/// The line passes the pre-filter and reports a location change.
pub open spec fn reports_location(l: Seq<char>, is_chatlog: bool) -> bool {
    should_parse_spec(l, is_chatlog) && parse_line_spec(l) matches Some(
        SpecEvent::SystemChanged { .. },
    )
}

/// The location taken from the tail of a file is the one of the newest line
/// that reports a location: some line passes the filter and reports it,
/// and no later line reports one; none is taken when no line reports one.
#[verifier::rlimit(60)]
#[verifier::spinoff_prover]
pub proof fn law_newest_location_wins(lines: Seq<Seq<char>>, is_chatlog: bool)
    ensures
        match latest_system_spec(lines, is_chatlog) {
            Some((s, t)) => exists|i: int|
                0 <= i < lines.len() && should_parse_spec(#[trigger] lines[i], is_chatlog)
                    && parse_line_spec(lines[i]) == Some(
                    SpecEvent::SystemChanged { system: s, timestamp: t },
                ) && forall|j: int| i < j < lines.len() ==> !reports_location(lines[j], is_chatlog),
            None => forall|i: int| 0 <= i < lines.len() ==> !reports_location(lines[i], is_chatlog),
        },
    decreases lines.len(),
{
    if lines.len() > 0 {
        let d = lines.drop_last();
        let l = lines.last();
        law_newest_location_wins(d, is_chatlog);
        let n = lines.len() - 1;
        assert(lines[n] == l);
        if reports_location(l, is_chatlog) {
            assert(should_parse_spec(lines[n], is_chatlog));
        } else {
            match latest_system_spec(d, is_chatlog) {
                Some((s, t)) => {
                    let i = choose|i: int|
                        0 <= i < d.len() && should_parse_spec(#[trigger] d[i], is_chatlog)
                            && parse_line_spec(d[i]) == Some(
                            SpecEvent::SystemChanged { system: s, timestamp: t },
                        ) && forall|j: int| i < j < d.len() ==> !reports_location(d[j], is_chatlog);
                    assert(lines[i] == d[i]);
                    assert forall|j: int| i < j < lines.len() implies !reports_location(
                        lines[j],
                        is_chatlog,
                    ) by {
                        if j < n {
                            assert(lines[j] == d[j]);
                        }
                    }
                },
                None => {
                    assert forall|i: int| 0 <= i < lines.len() implies !reports_location(
                        lines[i],
                        is_chatlog,
                    ) by {
                        if i < n {
                            assert(lines[i] == d[i]);
                        }
                    }
                },
            }
        }
    }
}

/// The toggle of `t` whose field name is `name`; none is named otherwise.
pub open spec fn toggle_named(t: AlertToggles, name: Seq<char>) -> bool {
    if name == "fleet_invite"@ {
        t.fleet_invite
    } else if name == "follow_warp"@ {
        t.follow_warp
    } else if name == "regroup"@ {
        t.regroup
    } else if name == "compression"@ {
        t.compression
    } else if name == "decloak"@ {
        t.decloak
    } else if name == "crystal_broke"@ {
        t.crystal_broke
    } else if name == "convo_request"@ {
        t.convo_request
    } else {
        false
    }
}

/// Each alert kind is shown or hidden by its own toggle: the one whose
/// field name is the kind's name (`AlertKind::as_str`).
pub proof fn law_alert_kind_own_toggle(t: AlertToggles, kind: AlertKind)
    ensures
        alert_enabled_spec(t, kind) == toggle_named(t, crate::parse::alert_kind_name(kind)),
{
    reveal_strlit("fleet_invite");
    reveal_strlit("follow_warp");
    reveal_strlit("regroup");
    reveal_strlit("compression");
    reveal_strlit("decloak");
    reveal_strlit("crystal_broke");
    reveal_strlit("convo_request");
    let n = crate::parse::alert_kind_name(kind);
    match kind {
        AlertKind::FleetInvite => {},
        AlertKind::FollowWarp => {
            assert(n[1] != "fleet_invite"@[1]);
        },
        AlertKind::Regroup => {
            assert(n.len() != "fleet_invite"@.len());
            assert(n.len() != "follow_warp"@.len());
        },
        AlertKind::Compression => {
            assert(n.len() != "fleet_invite"@.len());
            assert(n[0] != "follow_warp"@[0]);
            assert(n.len() != "regroup"@.len());
        },
        AlertKind::Decloak => {
            assert(n.len() != "fleet_invite"@.len());
            assert(n.len() != "follow_warp"@.len());
            assert(n[0] != "regroup"@[0]);
            assert(n.len() != "compression"@.len());
        },
        AlertKind::CrystalBroke => {
            assert(n.len() != "fleet_invite"@.len());
            assert(n.len() != "follow_warp"@.len());
            assert(n.len() != "regroup"@.len());
            assert(n.len() != "compression"@.len());
            assert(n.len() != "decloak"@.len());
        },
        AlertKind::ConvoRequest => {
            assert(n.len() != "fleet_invite"@.len());
            assert(n.len() != "follow_warp"@.len());
            assert(n.len() != "regroup"@.len());
            assert(n.len() != "compression"@.len());
            assert(n.len() != "decloak"@.len());
            assert(n[1] != "crystal_broke"@[1]);
        },
    }
}

} // verus!
