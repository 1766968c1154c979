//! Line parser for EVE chatlogs and gamelogs: a cheap pre-filter and the
//! classification of a line into a location change, an alert or a combat hit.
use vstd::prelude::*;
use vstd::utf8::*;
use crate::text::{
    ascii_lower, chars_of, contains_ignore_ascii, find_ci, find_ignore_ascii, is_whitespace, is_ws,
    lemma_find_from, matches_at, trim_end,
    slice_of, string_of, strip_html, strip_html_spec, trim, trim_end_punct,
    trim_end_punct_vec, trim_start, trim_start_bom, trim_start_bom_vec, trim_start_vec, trim_vec,
};

verus! {

/// Combat-style alert kinds. Location changes are `Event::SystemChanged`,
/// not an alert.
#[derive(Debug, Clone, Copy, PartialEq, Eq, Structural, Hash)]
pub enum AlertKind {
    FleetInvite,
    FollowWarp,
    Regroup,
    Compression,
    Decloak,
    CrystalBroke,
    ConvoRequest,
}

/// The stable lower-snake-case name of each alert kind.
pub open spec fn alert_kind_name(k: AlertKind) -> Seq<char> {
    match k {
        AlertKind::FleetInvite => "fleet_invite"@,
        AlertKind::FollowWarp => "follow_warp"@,
        AlertKind::Regroup => "regroup"@,
        AlertKind::Compression => "compression"@,
        AlertKind::Decloak => "decloak"@,
        AlertKind::CrystalBroke => "crystal_broke"@,
        AlertKind::ConvoRequest => "convo_request"@,
    }
}

impl AlertKind {
    /// The name of this kind, as shown to users and in logs.
    pub fn as_str(self) -> (s: &'static str)
        ensures
            s@ == alert_kind_name(self),
    {
        match self {
            AlertKind::FleetInvite => "fleet_invite",
            AlertKind::FollowWarp => "follow_warp",
            AlertKind::Regroup => "regroup",
            AlertKind::Compression => "compression",
            AlertKind::Decloak => "decloak",
            AlertKind::CrystalBroke => "crystal_broke",
            AlertKind::ConvoRequest => "convo_request",
        }
    }
}

/// One event read from a log line.
#[derive(Debug, Clone, PartialEq)]
pub enum Event {
    /// Character jumped or the Local channel changed. `timestamp` is the
    /// zero-padded `YYYY.MM.DD HH:MM:SS` text from the line (it sorts
    /// lexicographically).
    SystemChanged { system: String, timestamp: Option<String> },
    Alert { kind: AlertKind, text: String },
    /// One combat-log hit. Incoming = `AMOUNT from ...`; outgoing =
    /// `AMOUNT to ...`. `amount` is the decimal text of the hit
    /// (digits with at most one dot), always with a nonzero digit.
    Damage { incoming: bool, amount: String },
}

/// The mathematical form of an `Event`.
pub enum SpecEvent {
    SystemChanged { system: Seq<char>, timestamp: Option<Seq<char>> },
    Alert { kind: AlertKind, text: Seq<char> },
    Damage { incoming: bool, amount: Seq<char> },
}

/// The characters of an optional string.
pub open spec fn opt_chars(o: Option<String>) -> Option<Seq<char>> {
    match o {
        Some(s) => Some(s@),
        None => None,
    }
}

impl View for Event {
    type V = SpecEvent;

    open spec fn view(&self) -> SpecEvent {
        match self {
            Event::SystemChanged { system, timestamp } => SpecEvent::SystemChanged {
                system: system@,
                timestamp: opt_chars(*timestamp),
            },
            Event::Alert { kind, text } => SpecEvent::Alert { kind: *kind, text: text@ },
            Event::Damage { incoming, amount } => SpecEvent::Damage {
                incoming: *incoming,
                amount: amount@,
            },
        }
    }
}

/// The mathematical form of an optional event.
pub open spec fn opt_event(o: Option<Event>) -> Option<SpecEvent> {
    match o {
        Some(e) => Some(e@),
        None => None,
    }
}

/// `a` if it holds a value, else `b`.
pub open spec fn first_some<T>(a: Option<T>, b: Option<T>) -> Option<T> {
    if a is Some {
        a
    } else {
        b
    }
}

/// `n` occurs in `h` ignoring ASCII case.
pub open spec fn has_ci(h: Seq<char>, n: Seq<char>) -> bool {
    find_ci(h, n) is Some
}

/// Cheap pre-filter that skips player chat and combat spam.
pub open spec fn should_parse_spec(line: Seq<char>, is_chatlog: bool) -> bool {
    if is_chatlog {
        has_ci(line, "EVE System"@)
    } else {
        ||| has_ci(line, "Jumping"@)
        ||| has_ci(line, "Undocking"@)
        ||| has_ci(line, "(notify)"@)
        ||| has_ci(line, "(question)"@)
        ||| has_ci(line, "(mining)"@)
        ||| has_ci(line, "(None)"@)
        ||| has_ci(line, "(combat)"@)
    }
}

/// Whether the characters of `h` contain `needle`, ignoring ASCII case.
fn has_marker(h: &Vec<char>, needle: &str) -> (r: bool)
    ensures
        r == has_ci(h@, needle@),
{
    let n = chars_of(needle);
    contains_ignore_ascii(h, &n)
}

/// Cheap filter: skip player chat / combat spam before `parse_line`.
pub fn should_parse_line(line: &str, is_chatlog: bool) -> (r: bool)
    ensures
        r == should_parse_spec(line@, is_chatlog),
{
    let h = chars_of(line);
    if is_chatlog {
        has_marker(&h, "EVE System")
    } else {
        has_marker(&h, "Jumping") || has_marker(&h, "Undocking") || has_marker(&h, "(notify)") || has_marker(&h, "(question)")
            || has_marker(&h, "(mining)") || has_marker(&h, "(None)") || has_marker(&h, "(combat)")
    }
}

/// A line without surrounding whitespace and leading byte-order marks.
pub open spec fn normalize_spec(line: Seq<char>) -> Seq<char> {
    trim(trim_start_bom(trim(line)))
}

fn normalize_line(line: &Vec<char>) -> (r: Vec<char>)
    ensures
        r@ == normalize_spec(line@),
{
    let a = trim_vec(line);
    let b = trim_start_bom_vec(&a);
    trim_vec(&b)
}

/// A system or item name: tags stripped, trailing dots and commas dropped, trimmed.
pub open spec fn sanitize_spec(raw: Seq<char>) -> Seq<char> {
    trim(trim_end_punct(strip_html_spec(raw)))
}

fn sanitize_system(raw: &Vec<char>) -> (r: Vec<char>)
    ensures
        r@ == sanitize_spec(raw@),
{
    let a = strip_html(raw);
    let b = trim_end_punct_vec(&a);
    trim_vec(&b)
}

/// The first index at or after `i` that holds `c`.
pub open spec fn index_of_from(s: Seq<char>, c: char, i: int) -> Option<int>
    decreases s.len() - i,
{
    if i < 0 || i >= s.len() {
        None
    } else if s[i] == c {
        Some(i)
    } else {
        index_of_from(s, c, i + 1)
    }
}

/// The first index that holds `c`.
pub open spec fn index_of(s: Seq<char>, c: char) -> Option<int> {
    index_of_from(s, c, 0)
}

/// The last index below `i` that holds `c`.
pub open spec fn last_index_below(s: Seq<char>, c: char, i: int) -> Option<int>
    decreases i,
{
    if i <= 0 || i > s.len() {
        None
    } else if s[i - 1] == c {
        Some(i - 1)
    } else {
        last_index_below(s, c, i - 1)
    }
}

/// The last index that holds `c`.
pub open spec fn last_index_of(s: Seq<char>, c: char) -> Option<int> {
    last_index_below(s, c, s.len() as int)
}

fn index_of_char(s: &Vec<char>, c: char) -> (r: Option<usize>)
    ensures
        opt_int(r) == index_of(s@, c),
        r matches Some(i) ==> i < s.len(),
{
    let mut i: usize = 0;
    while i < s.len()
        invariant
            i <= s.len(),
            index_of_from(s@, c, i as int) == index_of(s@, c),
        decreases s.len() - i,
    {
        if s[i] == c {
            return Some(i);
        }
        i += 1;
    }
    None
}

fn last_index_of_char(s: &Vec<char>, c: char) -> (r: Option<usize>)
    ensures
        opt_int(r) == last_index_of(s@, c),
        r matches Some(i) ==> i < s.len(),
{
    let mut i: usize = s.len();
    while i > 0
        invariant
            i <= s.len(),
            last_index_below(s@, c, i as int) == last_index_of(s@, c),
        decreases i,
    {
        if s[i - 1] == c {
            return Some(i - 1);
        }
        i -= 1;
    }
    None
}

/// An optional index as an optional integer.
pub open spec fn opt_int(o: Option<usize>) -> Option<int> {
    match o {
        Some(i) => Some(i as int),
        None => None,
    }
}

/// Number of UTF-8 bytes of a text.
pub open spec fn byte_len(s: Seq<char>) -> int {
    encode_utf8(s).len() as int
}

/// The trimmed text between the first `[` and the next `]`, when it is
/// at least 19 bytes long.
pub open spec fn timestamp_spec(l: Seq<char>) -> Option<Seq<char>> {
    match index_of(l, '[') {
        None => None,
        Some(start) => {
            let rest = l.subrange(start + 1, l.len() as int);
            match index_of(rest, ']') {
                None => None,
                Some(end) => {
                    let ts = trim(rest.subrange(0, end));
                    if byte_len(ts) < 19 {
                        None
                    } else {
                        Some(ts)
                    }
                },
            }
        },
    }
}

fn timestamp_of(l: &Vec<char>) -> (r: Option<String>)
    ensures
        opt_chars(r) == timestamp_spec(l@),
{
    let start = match index_of_char(l, '[') {
        Some(i) => i,
        None => return None,
    };
    let rest = slice_of(l, start + 1, l.len());
    let end = match index_of_char(&rest, ']') {
        Some(i) => i,
        None => return None,
    };
    let raw = slice_of(&rest, 0, end);
    let ts = trim_vec(&raw);
    let s = string_of(&ts);
    if s.as_str().as_bytes().len() < 19 {
        None
    } else {
        Some(s)
    }
}

/// The text after the last `)` when it is not blank, else the whole text, trimmed.
pub open spec fn last_token_spec(s: Seq<char>) -> Option<Seq<char>> {
    let whole = if trim(s).len() == 0 {
        None
    } else {
        Some(trim(s))
    };
    match last_index_of(s, ')') {
        Some(i) => if trim(s.subrange(i + 1, s.len() as int)).len() > 0 {
            Some(trim(s.subrange(i + 1, s.len() as int)))
        } else {
            whole
        },
        None => whole,
    }
}

fn last_token_after_close_paren(s: &Vec<char>) -> (r: Option<Vec<char>>)
    ensures
        match r {
            Some(v) => last_token_spec(s@) == Some(v@),
            None => last_token_spec(s@) is None,
        },
{
    if let Some(idx) = last_index_of_char(s, ')') {
        let tail = slice_of(s, idx + 1, s.len());
        let rest = trim_vec(&tail);
        if rest.len() > 0 {
            return Some(rest);
        }
    }
    let t = trim_vec(s);
    if t.len() == 0 {
        None
    } else {
        Some(t)
    }
}

/// The characters after the match of `marker` at `idx`.
pub open spec fn after_marker(l: Seq<char>, idx: int, marker: Seq<char>) -> Seq<char> {
    l.subrange(idx + marker.len(), l.len() as int)
}

/// A location change to `system` when it is not empty.
pub open spec fn system_event(system: Seq<char>, l: Seq<char>) -> Option<SpecEvent> {
    if system.len() == 0 {
        None
    } else {
        Some(SpecEvent::SystemChanged { system, timestamp: timestamp_spec(l) })
    }
}

/// `EVE System > Channel changed to Local : <system>`.
pub open spec fn local_channel_spec(l: Seq<char>) -> Option<SpecEvent> {
    let marker = "Channel changed to Local"@;
    match find_ci(l, marker) {
        None => None,
        Some(idx) => {
            let rest = trim(after_marker(l, idx, marker));
            let rest2 = if rest.len() > 0 && rest[0] == ':' {
                trim(rest.drop_first())
            } else {
                trim(rest)
            };
            system_event(sanitize_spec(rest2), l)
        },
    }
}

/// Finds `marker` in `l`, with the facts that callers need about the position.
fn find_marker(l: &Vec<char>, marker: &str) -> (r: Option<(usize, usize)>)
    ensures
        match r {
            Some((idx, end)) => find_ci(l@, marker@) == Some(idx as int) && end == idx
                + marker@.len() && end <= l.len(),
            None => find_ci(l@, marker@) is None,
        },
{
    let m = chars_of(marker);
    match find_ignore_ascii(l, &m) {
        Some(idx) => {
            Some((idx, idx + m.len()))
        },
        None => None,
    }
}

fn system_changed(system: Vec<char>, l: &Vec<char>) -> (r: Option<Event>)
    ensures
        opt_event(r) == system_event(system@, l@),
{
    if system.len() == 0 {
        None
    } else {
        Some(Event::SystemChanged { system: string_of(&system), timestamp: timestamp_of(l) })
    }
}

fn parse_local_channel(l: &Vec<char>) -> (r: Option<Event>)
    ensures
        opt_event(r) == local_channel_spec(l@),
{
    let (_idx, end) = match find_marker(l, "Channel changed to Local") {
        Some(p) => p,
        None => return None,
    };
    let tail = slice_of(l, end, l.len());
    let rest = trim_vec(&tail);
    let rest2 = if rest.len() > 0 && rest[0] == ':' {
        let t = slice_of(&rest, 1, rest.len());
        assert(t@ == rest@.drop_first());
        trim_vec(&t)
    } else {
        trim_vec(&rest)
    };
    let system = sanitize_system(&rest2);
    system_changed(system, l)
}

/// `(None) Jumping from <a> to <system>`.
pub open spec fn jump_spec(l: Seq<char>) -> Option<SpecEvent> {
    let marker = "Jumping from"@;
    match find_ci(l, marker) {
        None => None,
        Some(idx) => {
            let rest = trim(after_marker(l, idx, marker));
            match find_ci(rest, " to "@) {
                None => None,
                Some(to_idx) => system_event(
                    sanitize_spec(trim(after_marker(rest, to_idx, " to "@))),
                    l,
                ),
            }
        },
    }
}

fn parse_jump(l: &Vec<char>) -> (r: Option<Event>)
    ensures
        opt_event(r) == jump_spec(l@),
{
    let (_idx, end) = match find_marker(l, "Jumping from") {
        Some(p) => p,
        None => return None,
    };
    let tail = slice_of(l, end, l.len());
    let rest = trim_vec(&tail);
    let (_to_idx, to_end) = match find_marker(&rest, " to ") {
        Some(p) => p,
        None => return None,
    };
    let to_raw = slice_of(&rest, to_end, rest.len());
    let to = trim_vec(&to_raw);
    let system = sanitize_system(&to);
    system_changed(system, l)
}

/// `(notify) A Conduit Field activated by <a> jumps you to <system>`.
pub open spec fn conduit_spec(l: Seq<char>) -> Option<SpecEvent> {
    let marker = "jumps you to"@;
    if !has_ci(l, "Conduit Field"@) {
        None
    } else {
        match find_ci(l, marker) {
            None => None,
            Some(idx) => system_event(sanitize_spec(trim(after_marker(l, idx, marker))), l),
        }
    }
}

fn parse_conduit(l: &Vec<char>) -> (r: Option<Event>)
    ensures
        opt_event(r) == conduit_spec(l@),
{
    if !has_marker(l, "Conduit Field") {
        return None;
    }
    let (_idx, end) = match find_marker(l, "jumps you to") {
        Some(p) => p,
        None => return None,
    };
    let tail = slice_of(l, end, l.len());
    let to = trim_vec(&tail);
    let system = sanitize_system(&to);
    system_changed(system, l)
}

/// An alert of `kind` whose text is `prefix` followed by `subject`, when
/// `subject` is not empty.
pub open spec fn alert_event(kind: AlertKind, prefix: Seq<char>, subject: Seq<char>) -> Option<
    SpecEvent,
> {
    if subject.len() == 0 {
        None
    } else {
        Some(SpecEvent::Alert { kind, text: prefix + subject })
    }
}

/// The string `prefix` followed by the characters of `v`.
fn concat_text(prefix: &str, v: &Vec<char>) -> (s: String)
    ensures
        s@ == prefix@ + v@,
{
    let mut p = chars_of(prefix);
    let mut i: usize = 0;
    while i < v.len()
        invariant
            i <= v.len(),
            p@ == prefix@ + v@.take(i as int),
        decreases v.len() - i,
    {
        p.push(v[i]);
        assert(v@.take(i + 1) == v@.take(i as int).push(v@[i as int]));
        i += 1;
    }
    assert(v@.take(v.len() as int) == v@);
    string_of(&p)
}

fn alert(kind: AlertKind, prefix: &str, subject: &Vec<char>) -> (r: Option<Event>)
    ensures
        opt_event(r) == alert_event(kind, prefix@, subject@),
{
    if subject.len() == 0 {
        None
    } else {
        Some(Event::Alert { kind, text: concat_text(prefix, subject) })
    }
}

/// The name in front of `marker` in a line of someone inviting the listener.
pub open spec fn inviter_spec(l: Seq<char>, marker: Seq<char>) -> Option<Seq<char>> {
    if !has_ci(l, marker) {
        None
    } else {
        let stripped = strip_html_spec(l);
        match find_ci(stripped, marker) {
            None => None,
            Some(idx) => {
                let before = trim(stripped.subrange(0, idx));
                Some(
                    match last_token_spec(before) {
                        Some(t) => t,
                        None => before,
                    },
                )
            },
        }
    }
}

fn inviter(l: &Vec<char>, marker: &str) -> (r: Option<Vec<char>>)
    ensures
        match r {
            Some(v) => inviter_spec(l@, marker@) == Some(v@),
            None => inviter_spec(l@, marker@) is None,
        },
{
    if !has_marker(l, marker) {
        return None;
    }
    let stripped = strip_html(l);
    let (idx, _end) = match find_marker(&stripped, marker) {
        Some(p) => p,
        None => return None,
    };
    let head = slice_of(&stripped, 0, idx);
    let before = trim_vec(&head);
    match last_token_after_close_paren(&before) {
        Some(t) => Some(t),
        None => Some(before),
    }
}

/// `(question) <name> wants you to join their fleet`.
pub open spec fn fleet_invite_spec(l: Seq<char>) -> Option<SpecEvent> {
    match inviter_spec(l, "wants you to join their fleet"@) {
        None => None,
        Some(name) => alert_event(AlertKind::FleetInvite, "Fleet invite from "@, name),
    }
}

fn parse_fleet_invite(l: &Vec<char>) -> (r: Option<Event>)
    ensures
        opt_event(r) == fleet_invite_spec(l@),
{
    match inviter(l, "wants you to join their fleet") {
        None => None,
        Some(name) => alert(AlertKind::FleetInvite, "Fleet invite from ", &name),
    }
}

/// `(None) <name> is inviting you to a conversation`.
pub open spec fn convo_spec(l: Seq<char>) -> Option<SpecEvent> {
    match inviter_spec(l, "is inviting you to a conversation"@) {
        None => None,
        Some(name) => alert_event(AlertKind::ConvoRequest, "Convo from: "@, name),
    }
}

fn parse_convo(l: &Vec<char>) -> (r: Option<Event>)
    ensures
        opt_event(r) == convo_spec(l@),
{
    match inviter(l, "is inviting you to a conversation") {
        None => None,
        Some(name) => alert(AlertKind::ConvoRequest, "Convo from: ", &name),
    }
}

/// `(notify) Following <leader> in warp`.
pub open spec fn follow_warp_spec(l: Seq<char>) -> Option<SpecEvent> {
    let marker = "Following"@;
    match find_ci(l, marker) {
        None => None,
        Some(idx) => {
            let rest = trim(after_marker(l, idx, marker));
            match find_ci(rest, " in warp"@) {
                None => None,
                Some(w) => alert_event(
                    AlertKind::FollowWarp,
                    "Following "@,
                    trim(rest.subrange(0, w)),
                ),
            }
        },
    }
}

fn parse_follow_warp(l: &Vec<char>) -> (r: Option<Event>)
    ensures
        opt_event(r) == follow_warp_spec(l@),
{
    let (_idx, end) = match find_marker(l, "Following") {
        Some(p) => p,
        None => return None,
    };
    let tail = slice_of(l, end, l.len());
    let rest = trim_vec(&tail);
    let (w, _w_end) = match find_marker(&rest, " in warp") {
        Some(p) => p,
        None => return None,
    };
    let head = slice_of(&rest, 0, w);
    let leader = trim_vec(&head);
    alert(AlertKind::FollowWarp, "Following ", &leader)
}

/// `(notify) Regrouping to <target>`.
pub open spec fn regroup_spec(l: Seq<char>) -> Option<SpecEvent> {
    let marker = "Regrouping to"@;
    match find_ci(l, marker) {
        None => None,
        Some(idx) => alert_event(
            AlertKind::Regroup,
            "Regrouping to "@,
            sanitize_spec(after_marker(l, idx, marker)),
        ),
    }
}

fn parse_regroup(l: &Vec<char>) -> (r: Option<Event>)
    ensures
        opt_event(r) == regroup_spec(l@),
{
    let (_idx, end) = match find_marker(l, "Regrouping to") {
        Some(p) => p,
        None => return None,
    };
    let tail = slice_of(l, end, l.len());
    let rest = sanitize_system(&tail);
    alert(AlertKind::Regroup, "Regrouping to ", &rest)
}

/// The first whitespace index at or after `i`.
pub open spec fn ws_index_from(s: Seq<char>, i: int) -> Option<int>
    decreases s.len() - i,
{
    if i < 0 || i >= s.len() {
        None
    } else if is_ws(s[i]) {
        Some(i)
    } else {
        ws_index_from(s, i + 1)
    }
}

fn ws_index(s: &Vec<char>) -> (r: Option<usize>)
    ensures
        opt_int(r) == ws_index_from(s@, 0),
        r matches Some(i) ==> i < s.len(),
{
    let mut i: usize = 0;
    while i < s.len()
        invariant
            i <= s.len(),
            ws_index_from(s@, i as int) == ws_index_from(s@, 0),
        decreases s.len() - i,
    {
        if is_whitespace(s[i]) {
            return Some(i);
        }
        i += 1;
    }
    None
}

/// `(notify) Successfully compressed <ore> into <count> <item>`.
pub open spec fn compression_spec(l: Seq<char>) -> Option<SpecEvent> {
    let marker = "Successfully compressed"@;
    match find_ci(l, marker) {
        None => None,
        Some(idx) => {
            let rest = trim(after_marker(l, idx, marker));
            match find_ci(rest, " into "@) {
                None => None,
                Some(into) => {
                    let after = trim(after_marker(rest, into, " into "@));
                    let (count, item) = match ws_index_from(after, 0) {
                        Some(p) => (
                            trim(after.subrange(0, p)),
                            sanitize_spec(after.subrange(p + 1, after.len() as int)),
                        ),
                        None => (trim(after), sanitize_spec(Seq::empty())),
                    };
                    if count.len() == 0 || item.len() == 0 {
                        None
                    } else {
                        Some(
                            SpecEvent::Alert {
                                kind: AlertKind::Compression,
                                text: "Compressed: "@ + count + "x "@ + item,
                            },
                        )
                    }
                },
            }
        },
    }
}

fn parse_compression(l: &Vec<char>) -> (r: Option<Event>)
    ensures
        opt_event(r) == compression_spec(l@),
{
    let (_idx, end) = match find_marker(l, "Successfully compressed") {
        Some(p) => p,
        None => return None,
    };
    let tail = slice_of(l, end, l.len());
    let rest = trim_vec(&tail);
    let (_into, into_end) = match find_marker(&rest, " into ") {
        Some(p) => p,
        None => return None,
    };
    let after_raw = slice_of(&rest, into_end, rest.len());
    let after = trim_vec(&after_raw);
    let (count, item) = match ws_index(&after) {
        Some(p) => {
            let c = slice_of(&after, 0, p);
            let i = slice_of(&after, p + 1, after.len());
            (trim_vec(&c), sanitize_system(&i))
        },
        None => {
            let empty: Vec<char> = Vec::new();
            (trim_vec(&after), sanitize_system(&empty))
        },
    };
    if count.len() == 0 || item.len() == 0 {
        return None;
    }
    let mut text = chars_of("Compressed: ");
    let x = chars_of("x ");
    let ghost t0 = text@;
    append_chars(&mut text, &count);
    append_chars(&mut text, &x);
    append_chars(&mut text, &item);
    Some(Event::Alert { kind: AlertKind::Compression, text: string_of(&text) })
}

/// Appends the characters of `b` to `a`.
fn append_chars(a: &mut Vec<char>, b: &Vec<char>)
    ensures
        final(a)@ == old(a)@ + b@,
{
    let mut i: usize = 0;
    while i < b.len()
        invariant
            i <= b.len(),
            a@ == old(a)@ + b@.take(i as int),
        decreases b.len() - i,
    {
        a.push(b[i]);
        assert(b@.take(i + 1) == b@.take(i as int).push(b@[i as int]));
        i += 1;
    }
    assert(b@.take(b.len() as int) == b@);
}

/// `s` starts with `p`, compared exactly.
pub open spec fn starts_with(s: Seq<char>, p: Seq<char>) -> bool {
    p.len() <= s.len() && s.subrange(0, p.len() as int) == p
}

pub(crate) fn starts_with_str(s: &Vec<char>, p: &str) -> (r: Option<usize>)
    ensures
        match r {
            Some(n) => starts_with(s@, p@) && n == p@.len(),
            None => !starts_with(s@, p@),
        },
{
    let pv = chars_of(p);
    if pv.len() > s.len() {
        return None;
    }
    let mut i: usize = 0;
    while i < pv.len()
        invariant
            pv@ == p@,
            pv.len() <= s.len(),
            i <= pv.len(),
            forall|k: int| 0 <= k < i ==> s@[k] == pv@[k],
        decreases pv.len() - i,
    {
        if s[i] != pv[i] {
            assert(s@.subrange(0, pv.len() as int)[i as int] != pv@[i as int]);
            return None;
        }
        i += 1;
    }
    assert(s@.subrange(0, pv.len() as int) == pv@);
    Some(pv.len())
}

/// `(notify) Your cloak deactivates due to proximity to <source>`.
pub open spec fn decloak_spec(l: Seq<char>) -> Option<SpecEvent> {
    let marker = "Your cloak deactivates due to proximity to"@;
    match find_ci(l, marker) {
        None => None,
        Some(idx) => {
            let rest = trim(after_marker(l, idx, marker));
            let rest2 = if starts_with(rest, "a nearby "@) {
                rest.subrange("a nearby "@.len() as int, rest.len() as int)
            } else if starts_with(rest, "an "@) {
                rest.subrange("an "@.len() as int, rest.len() as int)
            } else {
                rest
            };
            alert_event(AlertKind::Decloak, "Decloaked by "@, sanitize_spec(rest2))
        },
    }
}

fn parse_decloak(l: &Vec<char>) -> (r: Option<Event>)
    ensures
        opt_event(r) == decloak_spec(l@),
{
    let (_idx, end) = match find_marker(l, "Your cloak deactivates due to proximity to") {
        Some(p) => p,
        None => return None,
    };
    let tail = slice_of(l, end, l.len());
    let rest = trim_vec(&tail);
    let rest2 = match starts_with_str(&rest, "a nearby ") {
        Some(n) => slice_of(&rest, n, rest.len()),
        None => match starts_with_str(&rest, "an ") {
            Some(n) => slice_of(&rest, n, rest.len()),
            None => rest,
        },
    };
    let source = sanitize_system(&rest2);
    alert(AlertKind::Decloak, "Decloaked by ", &source)
}

/// `(notify) <module> deactivates due to the destruction of the <crystal> it was fitted with`.
pub open spec fn crystal_broke_spec(l: Seq<char>) -> Option<SpecEvent> {
    let marker = "deactivates due to the destruction of the"@;
    match find_ci(l, marker) {
        None => None,
        Some(idx) => {
            let rest = trim(after_marker(l, idx, marker));
            let fitted = match find_ci(rest, " it was fitted with"@) {
                Some(f) => f,
                None => rest.len() as int,
            };
            alert_event(
                AlertKind::CrystalBroke,
                "Crystal broke: "@,
                sanitize_spec(rest.subrange(0, fitted)),
            )
        },
    }
}

fn parse_crystal_broke(l: &Vec<char>) -> (r: Option<Event>)
    ensures
        opt_event(r) == crystal_broke_spec(l@),
{
    let (_idx, end) = match find_marker(l, "deactivates due to the destruction of the") {
        Some(p) => p,
        None => return None,
    };
    let tail = slice_of(l, end, l.len());
    let rest = trim_vec(&tail);
    let fitted = match find_marker(&rest, " it was fitted with") {
        Some((f, _)) => f,
        None => rest.len(),
    };
    let head = slice_of(&rest, 0, fitted);
    let crystal = sanitize_system(&head);
    alert(AlertKind::CrystalBroke, "Crystal broke: ", &crystal)
}

/// An ASCII digit.
pub open spec fn is_digit(c: char) -> bool {
    '0' <= c && c <= '9'
}

/// The length of the leading number of `s`: digits, then at most one dot
/// that follows a digit, then digits.
pub open spec fn number_len(s: Seq<char>, seen_digit: bool, seen_dot: bool) -> int
    decreases s.len(),
{
    if s.len() == 0 {
        0
    } else if is_digit(s[0]) {
        1 + number_len(s.drop_first(), true, seen_dot)
    } else if s[0] == '.' && !seen_dot && seen_digit {
        1 + number_len(s.drop_first(), seen_digit, true)
    } else {
        0
    }
}

proof fn lemma_number_len(s: Seq<char>, seen_digit: bool, seen_dot: bool)
    ensures
        0 <= number_len(s, seen_digit, seen_dot) <= s.len(),
    decreases s.len(),
{
    if s.len() > 0 {
        lemma_number_len(s.drop_first(), true, seen_dot);
        lemma_number_len(s.drop_first(), seen_digit, true);
    }
}

fn leading_number_len(s: &Vec<char>) -> (n: usize)
    ensures
        n == number_len(s@, false, false),
{
    let mut i: usize = 0;
    let mut seen_digit = false;
    let mut seen_dot = false;
    assert(s@.subrange(0, s.len() as int) == s@);
    while i < s.len()
        invariant
            i <= s.len(),
            number_len(s@, false, false) == i + number_len(
                s@.subrange(i as int, s.len() as int),
                seen_digit,
                seen_dot,
            ),
        decreases s.len() - i,
    {
        let c = s[i];
        assert(s@.subrange(i as int, s.len() as int).drop_first() == s@.subrange(
            i + 1,
            s.len() as int,
        ));
        if '0' <= c && c <= '9' {
            seen_digit = true;
        } else if c == '.' && !seen_dot && seen_digit {
            seen_dot = true;
        } else {
            return i;
        }
        i += 1;
    }
    i
}

/// Some digit of `s` is not zero.
pub open spec fn has_nonzero_digit(s: Seq<char>) -> bool {
    exists|i: int| 0 <= i < s.len() && '1' <= #[trigger] s[i] && s[i] <= '9'
}

fn nonzero_digit(s: &Vec<char>) -> (r: bool)
    ensures
        r == has_nonzero_digit(s@),
{
    let mut i: usize = 0;
    while i < s.len()
        invariant
            i <= s.len(),
            forall|k: int| 0 <= k < i ==> !('1' <= #[trigger] s@[k] && s@[k] <= '9'),
        decreases s.len() - i,
    {
        if '1' <= s[i] && s[i] <= '9' {
            return true;
        }
        i += 1;
    }
    false
}

/// The ASCII lowercase code of a byte.
pub open spec fn lower_byte(b: u8) -> int {
    if 65 <= b <= 90 {
        b + 32
    } else {
        b as int
    }
}

/// An ASCII letter or digit.
pub open spec fn is_alnum_byte(b: u8) -> bool {
    (48 <= b <= 57) || (65 <= b <= 90) || (97 <= b <= 122)
}

/// The bytes `s` start with the word `w` (ignoring ASCII case), not
/// followed by a letter or digit.
pub open spec fn starts_word_spec(s: Seq<u8>, w: Seq<u8>) -> bool {
    &&& s.len() >= w.len()
    &&& forall|i: int| 0 <= i < w.len() ==> #[trigger] lower_byte(s[i]) == lower_byte(w[i])
    &&& (s.len() == w.len() || !is_alnum_byte(s[w.len() as int]))
}

/// The bytes of the word `from`.
pub open spec fn word_from() -> Seq<u8> {
    seq![102u8, 114u8, 111u8, 109u8]
}

/// The bytes of the word `to`.
pub open spec fn word_to() -> Seq<u8> {
    seq![116u8, 111u8]
}

/// Testing for `w` at the start of `s` cuts a character of `s` in two.
pub open spec fn splits_char(s: Seq<u8>, n: int) -> bool {
    s.len() >= n && !is_char_boundary(s, n)
}

fn starts_word(s: &str, w: &Vec<u8>) -> (r: bool)
    ensures
        r == starts_word_spec(encode_utf8(s@), w@),
{
    let b = s.as_bytes();
    if b.len() < w.len() {
        return false;
    }
    let mut i: usize = 0;
    while i < w.len()
        invariant
            w.len() <= b.len(),
            b@ == encode_utf8(s@),
            i <= w.len(),
            forall|k: int| 0 <= k < i ==> lower_byte(b@[k]) == lower_byte(w@[k]),
        decreases w.len() - i,
    {
        let x: u8 = if 65 <= b[i] && b[i] <= 90 {
            b[i] + 32
        } else {
            b[i]
        };
        let y: u8 = if 65 <= w[i] && w[i] <= 90 {
            w[i] + 32
        } else {
            w[i]
        };
        if x != y {
            assert(lower_byte(b@[i as int]) != lower_byte(w@[i as int]));
            return false;
        }
        i += 1;
    }
    if b.len() == w.len() {
        return true;
    }
    let c = b[w.len()];
    !((48 <= c && c <= 57) || (65 <= c && c <= 90) || (97 <= c && c <= 122))
}

/// The parts of a combat line that the parser reads: the amount text and
/// the text after it.
pub open spec fn combat_parts(l: Seq<char>) -> Option<(Seq<char>, Seq<char>)> {
    let marker = "(combat)"@;
    match find_ci(l, marker) {
        None => None,
        Some(idx) => {
            let after = trim(after_marker(l, idx, marker));
            let stripped = trim(strip_html_spec(after));
            let end = number_len(stripped, false, false);
            if stripped.len() == 0 || !is_digit(stripped[0]) || !has_nonzero_digit(
                stripped.subrange(0, end),
            ) {
                None
            } else {
                Some(
                    (
                        stripped.subrange(0, end),
                        trim_start(stripped.subrange(end, stripped.len() as int)),
                    ),
                )
            }
        },
    }
}

/// Reading the direction word after the amount would cut a character in two.
pub open spec fn combat_splits_char(l: Seq<char>) -> bool {
    match combat_parts(l) {
        None => false,
        Some((_amount, rest)) => {
            let b = encode_utf8(rest);
            splits_char(b, 4) || (!starts_word_spec(b, word_from()) && splits_char(b, 2))
        },
    }
}

/// `(combat) <amount> from|to ...`.
pub open spec fn combat_spec(l: Seq<char>) -> Option<SpecEvent> {
    match combat_parts(l) {
        None => None,
        Some((amount, rest)) => {
            let b = encode_utf8(rest);
            if starts_word_spec(b, word_from()) {
                Some(SpecEvent::Damage { incoming: true, amount })
            } else if starts_word_spec(b, word_to()) {
                Some(SpecEvent::Damage { incoming: false, amount })
            } else {
                None
            }
        },
    }
}

fn combat_split(l: &Vec<char>) -> (r: Option<(Vec<char>, String)>)
    ensures
        match r {
            Some((a, s)) => combat_parts(l@) == Some((a@, s@)),
            None => combat_parts(l@) is None,
        },
{
    let (_idx, end) = match find_marker(l, "(combat)") {
        Some(p) => p,
        None => return None,
    };
    let tail = slice_of(l, end, l.len());
    let after = trim_vec(&tail);
    let st = strip_html(&after);
    let stripped = trim_vec(&st);
    if stripped.len() == 0 || !('0' <= stripped[0] && stripped[0] <= '9') {
        return None;
    }
    let n = leading_number_len(&stripped);
    proof {
        lemma_number_len(stripped@, false, false);
    }
    let amount = slice_of(&stripped, 0, n);
    if !nonzero_digit(&amount) {
        return None;
    }
    let r0 = slice_of(&stripped, n, stripped.len());
    let rest = trim_start_vec(&r0);
    Some((amount, string_of(&rest)))
}

/// Whether a combat line's direction word would be read across a character.
fn combat_would_split(l: &Vec<char>) -> (r: bool)
    ensures
        r == combat_splits_char(l@),
{
    match combat_split(l) {
        None => false,
        Some((_amount, rest)) => {
            let s = rest.as_str();
            let from: Vec<u8> = vec![102u8, 114u8, 111u8, 109u8];
            assert(from@ == word_from());
            let n = s.as_bytes().len();
            (n >= 4 && !s.is_char_boundary(4)) || (!starts_word(s, &from) && n >= 2
                && !s.is_char_boundary(2))
        },
    }
}

fn parse_combat(l: &Vec<char>) -> (r: Option<Event>)
    requires
        !combat_splits_char(l@),
    ensures
        opt_event(r) == combat_spec(l@),
{
    let (amount, rest) = match combat_split(l) {
        Some(p) => p,
        None => return None,
    };
    let s = rest.as_str();
    let from: Vec<u8> = vec![102u8, 114u8, 111u8, 109u8];
    let to: Vec<u8> = vec![116u8, 111u8];
    assert(from@ == word_from());
    assert(to@ == word_to());
    if starts_word(s, &from) {
        Some(Event::Damage { incoming: true, amount: string_of(&amount) })
    } else if starts_word(s, &to) {
        Some(Event::Damage { incoming: false, amount: string_of(&amount) })
    } else {
        None
    }
}

/// The first event that a `(notify)` line yields.
pub open spec fn notify_spec(l: Seq<char>) -> Option<SpecEvent> {
    first_some(
        follow_warp_spec(l),
        first_some(
            regroup_spec(l),
            first_some(
                compression_spec(l),
                first_some(decloak_spec(l), first_some(crystal_broke_spec(l), conduit_spec(l))),
            ),
        ),
    )
}

/// The first event that a `(None)` line yields.
pub open spec fn none_channel_spec(l: Seq<char>) -> Option<SpecEvent> {
    first_some(jump_spec(l), convo_spec(l))
}

/// The event of a normalized line, by the markers it contains.
pub open spec fn classify_spec(l: Seq<char>) -> Option<SpecEvent> {
    if byte_len(l) < 25 || byte_len(l) > 1000 {
        None
    } else if has_ci(l, "EVE System"@) {
        local_channel_spec(l)
    } else if has_ci(l, "(question)"@) {
        fleet_invite_spec(l)
    } else if has_ci(l, "(notify)"@) && notify_spec(l) is Some {
        notify_spec(l)
    } else if has_ci(l, "(None)"@) && none_channel_spec(l) is Some {
        none_channel_spec(l)
    } else if has_ci(l, "(combat)"@) {
        combat_spec(l)
    } else {
        None
    }
}

/// The event that `parse_line` reads from a line.
pub open spec fn parse_line_spec(line: Seq<char>) -> Option<SpecEvent> {
    classify_spec(normalize_spec(line))
}

/// A line on which the parser would read the direction word of a combat
/// hit across a character boundary.
pub open spec fn classify_splits_char(l: Seq<char>) -> bool {
    &&& 25 <= byte_len(l) <= 1000
    &&& !has_ci(l, "EVE System"@)
    &&& !has_ci(l, "(question)"@)
    &&& !(has_ci(l, "(notify)"@) && notify_spec(l) is Some)
    &&& !(has_ci(l, "(None)"@) && none_channel_spec(l) is Some)
    &&& has_ci(l, "(combat)"@)
    &&& combat_splits_char(l)
}

/// A line that `parse_line` does not accept: see `parse_line_splits_char`.
pub open spec fn line_splits_char(line: Seq<char>) -> bool {
    classify_splits_char(normalize_spec(line))
}

fn notify_event(l: &Vec<char>) -> (r: Option<Event>)
    ensures
        opt_event(r) == notify_spec(l@),
{
    if let Some(ev) = parse_follow_warp(l) {
        return Some(ev);
    }
    if let Some(ev) = parse_regroup(l) {
        return Some(ev);
    }
    if let Some(ev) = parse_compression(l) {
        return Some(ev);
    }
    if let Some(ev) = parse_decloak(l) {
        return Some(ev);
    }
    if let Some(ev) = parse_crystal_broke(l) {
        return Some(ev);
    }
    parse_conduit(l)
}

fn none_channel_event(l: &Vec<char>) -> (r: Option<Event>)
    ensures
        opt_event(r) == none_channel_spec(l@),
{
    if let Some(ev) = parse_jump(l) {
        return Some(ev);
    }
    parse_convo(l)
}

/// Whether `parse_line` would read a combat line's direction word across a
/// character boundary; `parse_line` does not accept such lines.
pub fn parse_line_splits_char(line: &str) -> (r: bool)
    ensures
        r == line_splits_char(line@),
{
    let v = chars_of(line);
    let l = normalize_line(&v);
    let n = string_of(&l).as_str().as_bytes().len();
    if n < 25 || n > 1000 || has_marker(&l, "EVE System") || has_marker(&l, "(question)") {
        return false;
    }
    if has_marker(&l, "(notify)") && notify_event(&l).is_some() {
        return false;
    }
    if has_marker(&l, "(None)") && none_channel_event(&l).is_some() {
        return false;
    }
    has_marker(&l, "(combat)") && combat_would_split(&l)
}

/// Classifies one log line into a location change, an alert or a combat hit.
pub fn parse_line(line: &str) -> (r: Option<Event>)
    requires
        !line_splits_char(line@),
    ensures
        opt_event(r) == parse_line_spec(line@),
{
    let v = chars_of(line);
    let l = normalize_line(&v);
    let n = string_of(&l).as_str().as_bytes().len();
    if n < 25 || n > 1000 {
        return None;
    }
    if has_marker(&l, "EVE System") {
        return parse_local_channel(&l);
    }
    if has_marker(&l, "(question)") {
        return parse_fleet_invite(&l);
    }
    if has_marker(&l, "(notify)") {
        if let Some(ev) = notify_event(&l) {
            return Some(ev);
        }
    }
    if has_marker(&l, "(None)") {
        if let Some(ev) = none_channel_event(&l) {
            return Some(ev);
        }
    }
    if has_marker(&l, "(combat)") {
        return parse_combat(&l);
    }
    None
}

/// A text that occurs, ignoring ASCII case, in a slice of `s` occurs in `s`.
proof fn lemma_has_ci_within(s: Seq<char>, a: int, b: int, n: Seq<char>)
    requires
        0 <= a <= b <= s.len(),
        has_ci(s.subrange(a, b), n),
    ensures
        has_ci(s, n),
{
    let t = s.subrange(a, b);
    lemma_find_from(t, n, 0);
    let k = find_ci(t, n)->0;
    assert(matches_at(s, a + k, n)) by {
        assert forall|j: int| 0 <= j < n.len() implies #[trigger] ascii_lower(s[a + k + j])
            == ascii_lower(n[j]) by {
            assert(t[k + j] == s[a + k + j]);
        }
    }
    lemma_find_from(s, n, 0);
}

/// Trimming leading whitespace leaves a suffix.
proof fn lemma_trim_start_suffix(s: Seq<char>) -> (k: int)
    ensures
        0 <= k <= s.len(),
        trim_start(s) == s.subrange(k, s.len() as int),
    decreases s.len(),
{
    if s.len() > 0 && is_ws(s[0]) {
        let k1 = lemma_trim_start_suffix(s.drop_first());
        assert(s.drop_first().subrange(k1, s.drop_first().len() as int) =~= s.subrange(
            k1 + 1,
            s.len() as int,
        ));
        k1 + 1
    } else {
        assert(s.subrange(0, s.len() as int) =~= s);
        0
    }
}

/// Trimming trailing whitespace leaves a prefix.
proof fn lemma_trim_end_prefix(s: Seq<char>) -> (k: int)
    ensures
        0 <= k <= s.len(),
        trim_end(s) == s.subrange(0, k),
    decreases s.len(),
{
    if s.len() > 0 && is_ws(s.last()) {
        let k1 = lemma_trim_end_prefix(s.drop_last());
        assert(s.drop_last().subrange(0, k1) =~= s.subrange(0, k1));
        k1
    } else {
        assert(s.subrange(0, s.len() as int) =~= s);
        s.len() as int
    }
}

/// Dropping leading byte-order marks leaves a suffix.
proof fn lemma_trim_bom_suffix(s: Seq<char>) -> (k: int)
    ensures
        0 <= k <= s.len(),
        trim_start_bom(s) == s.subrange(k, s.len() as int),
    decreases s.len(),
{
    if s.len() > 0 && s[0] == '\u{feff}' {
        let k1 = lemma_trim_bom_suffix(s.drop_first());
        assert(s.drop_first().subrange(k1, s.drop_first().len() as int) =~= s.subrange(
            k1 + 1,
            s.len() as int,
        ));
        k1 + 1
    } else {
        assert(s.subrange(0, s.len() as int) =~= s);
        0
    }
}

/// A text found in a trimmed text is found in the text.
proof fn lemma_has_ci_trim(s: Seq<char>, n: Seq<char>)
    requires
        has_ci(trim(s), n),
    ensures
        has_ci(s, n),
{
    let a = lemma_trim_start_suffix(s);
    let t = trim_start(s);
    let b = lemma_trim_end_prefix(t);
    lemma_has_ci_within(t, 0, b, n);
    lemma_has_ci_within(s, a, s.len() as int, n);
}

/// A text found in a normalized line is found in the line.
proof fn lemma_has_ci_normalized(line: Seq<char>, n: Seq<char>)
    requires
        has_ci(normalize_spec(line), n),
    ensures
        has_ci(line, n),
{
    let a = trim(line);
    let b = trim_start_bom(a);
    lemma_has_ci_trim(b, n);
    let k = lemma_trim_bom_suffix(a);
    lemma_has_ci_within(a, k, a.len() as int, n);
    lemma_has_ci_trim(line, n);
}

/// The gamelog pre-filter drops no line that `parse_line` turns into an
/// event, except lines from the `EVE System` channel, which only chatlogs
/// carry.
pub proof fn law_gamelog_filter_keeps_events(line: Seq<char>)
    ensures
        parse_line_spec(line) is Some && !has_ci(line, "EVE System"@) ==> should_parse_spec(
            line,
            false,
        ),
{
    let l = normalize_spec(line);
    if parse_line_spec(line) is Some && !has_ci(line, "EVE System"@) {
        if has_ci(l, "EVE System"@) {
            lemma_has_ci_normalized(line, "EVE System"@);
        } else if has_ci(l, "(question)"@) {
            lemma_has_ci_normalized(line, "(question)"@);
        } else if has_ci(l, "(notify)"@) && notify_spec(l) is Some {
            lemma_has_ci_normalized(line, "(notify)"@);
        } else if has_ci(l, "(None)"@) && none_channel_spec(l) is Some {
            lemma_has_ci_normalized(line, "(None)"@);
        } else {
            assert(has_ci(l, "(combat)"@));
            lemma_has_ci_normalized(line, "(combat)"@);
        }
    }
}

/// The chatlog pre-filter drops no line in which `parse_line` finds the
/// `EVE System` channel, the only lines it reads Local channel changes from.
pub proof fn law_chatlog_filter_keeps_local(line: Seq<char>)
    ensures
        has_ci(normalize_spec(line), "EVE System"@) ==> should_parse_spec(line, true),
{
    if has_ci(normalize_spec(line), "EVE System"@) {
        lemma_has_ci_normalized(line, "EVE System"@);
    }
}

/// Trailing whitespace of a text behind a non-whitespace character.
proof fn lemma_trim_end_after(c: char, l: Seq<char>)
    requires
        !is_ws(c),
    ensures
        trim_end(seq![c] + l) == seq![c] + trim_end(l),
    decreases l.len(),
{
    let x = seq![c] + l;
    if l.len() == 0 {
        assert(x =~= seq![c]);
        assert(seq![c] + l =~= seq![c]);
    } else {
        assert(x.last() == l.last());
        if is_ws(l.last()) {
            assert(x.drop_last() =~= seq![c] + l.drop_last());
            lemma_trim_end_after(c, l.drop_last());
        }
    }
}

/// A byte-order mark at the start of a line changes nothing in what
/// `parse_line` reads from it, when the line does not start with
/// whitespace (a mark after leading whitespace is not dropped).
pub proof fn law_leading_bom_ignored(line: Seq<char>)
    requires
        line.len() == 0 || !is_ws(line[0]),
    ensures
        parse_line_spec(seq!['\u{feff}'] + line) == parse_line_spec(line),
        line_splits_char(seq!['\u{feff}'] + line) == line_splits_char(line),
{
    let b = seq!['\u{feff}'] + line;
    assert(!is_ws('\u{feff}'));
    assert(b[0] == '\u{feff}');
    assert(trim_start(b) == b);
    assert(trim_start(line) == line);
    lemma_trim_end_after('\u{feff}', line);
    let t = trim_end(line);
    let bt = seq!['\u{feff}'] + t;
    assert(bt.drop_first() =~= t);
    assert(trim_start_bom(bt) == trim_start_bom(t));
    assert(normalize_spec(b) == normalize_spec(line));
}

/// Searching down from `i`, the last `c` is at `k` when nothing between
/// them is `c`.
proof fn lemma_last_index_below(s: Seq<char>, c: char, k: int, i: int)
    requires
        0 <= k < i <= s.len(),
        s[k] == c,
        forall|j: int| k < j < i ==> s[j] != c,
    ensures
        last_index_below(s, c, i) == Some(k),
    decreases i,
{
    if i - 1 != k {
        lemma_last_index_below(s, c, k, i - 1);
    }
}

/// The name taken from text such as `[ ts ] (question) A B` is all of the
/// trimmed text after its last `)`, when that is not blank.
pub proof fn law_last_token_after_last_paren(s: Seq<char>, k: int)
    requires
        0 <= k < s.len(),
        s[k] == ')',
        forall|j: int| k < j < s.len() ==> s[j] != ')',
        trim(s.subrange(k + 1, s.len() as int)).len() > 0,
    ensures
        last_token_spec(s) == Some(trim(s.subrange(k + 1, s.len() as int))),
{
    lemma_last_index_below(s, ')', k, s.len() as int);
}

/// A fleet invite names as inviter the whole trimmed text between the last
/// `)` in front of the invite phrase (tags stripped) and the phrase, names
/// with spaces included.
pub proof fn law_fleet_invite_names_inviter(l: Seq<char>, idx: int, k: int)
    requires
        has_ci(l, "wants you to join their fleet"@),
        find_ci(strip_html_spec(l), "wants you to join their fleet"@) == Some(idx),
        0 <= idx <= strip_html_spec(l).len(),
        0 <= k < trim(strip_html_spec(l).subrange(0, idx)).len(),
        trim(strip_html_spec(l).subrange(0, idx))[k] == ')',
        forall|j: int|
            k < j < trim(strip_html_spec(l).subrange(0, idx)).len() ==> trim(
                strip_html_spec(l).subrange(0, idx),
            )[j] != ')',
        trim(
            trim(strip_html_spec(l).subrange(0, idx)).subrange(
                k + 1,
                trim(strip_html_spec(l).subrange(0, idx)).len() as int,
            ),
        ).len() > 0,
    ensures
        fleet_invite_spec(l) == Some(
            SpecEvent::Alert {
                kind: AlertKind::FleetInvite,
                text: "Fleet invite from "@ + trim(
                    trim(strip_html_spec(l).subrange(0, idx)).subrange(
                        k + 1,
                        trim(strip_html_spec(l).subrange(0, idx)).len() as int,
                    ),
                ),
            },
        ),
{
    let before = trim(strip_html_spec(l).subrange(0, idx));
    law_last_token_after_last_paren(before, k);
}

} // verus!
