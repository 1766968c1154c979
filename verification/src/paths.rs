//! Log settings and the choice of the Chatlogs / Gamelogs directories:
//! non-empty configured directories win over discovered ones.
use vstd::prelude::*;
use crate::decode::str_from_utf8;
use crate::text::{chars_of, slice_of, string_of, trim, trim_vec};
use vstd::utf8::{decode_utf8, valid_utf8};
use crate::parse::starts_with;

verus! {

/// Which alert kinds are shown.
#[derive(Debug, Clone, PartialEq, Eq)]
pub struct AlertToggles {
    pub fleet_invite: bool,
    pub follow_warp: bool,
    pub regroup: bool,
    pub compression: bool,
    pub decloak: bool,
    pub crystal_broke: bool,
    pub convo_request: bool,
}

impl Default for AlertToggles {
    fn default() -> (t: Self)
        ensures
            t.fleet_invite && t.follow_warp && t.regroup && t.compression && t.decloak
                && t.crystal_broke && t.convo_request,
    {
        AlertToggles {
            fleet_invite: true,
            follow_warp: true,
            regroup: true,
            compression: true,
            decloak: true,
            crystal_broke: true,
            convo_request: true,
        }
    }
}

/// Settings of the log monitor.
#[derive(Debug, Clone, PartialEq, Eq)]
pub struct LogsConfig {
    /// Whether the logs are tailed at all.
    pub enabled: bool,
    /// Chatlogs directory; blank means discover it.
    pub chatlog_dir: String,
    /// Gamelogs directory; blank means discover it.
    pub gamelog_dir: String,
    /// How long an alert stays up, in seconds (at least one).
    pub alert_secs: u32,
    /// Whether combat hits feed the DPS readout.
    pub show_dps: bool,
    pub alerts: AlertToggles,
}

impl Default for LogsConfig {
    fn default() -> (c: Self)
        ensures
            c.enabled,
            c.chatlog_dir@.len() == 0,
            c.gamelog_dir@.len() == 0,
            c.alert_secs == 8,
            c.show_dps,
    {
        LogsConfig {
            enabled: true,
            chatlog_dir: String::new(),
            gamelog_dir: String::new(),
            alert_secs: 8,
            show_dps: true,
            alerts: AlertToggles::default(),
        }
    }
}

/// The Chatlogs and Gamelogs directories.
#[derive(Debug, Clone, PartialEq, Eq)]
pub struct LogDirs {
    pub chatlogs: String,
    pub gamelogs: String,
}

/// A configured directory: the trimmed text, unless it is blank.
pub open spec fn nonempty_spec(s: Seq<char>) -> Option<Seq<char>> {
    if trim(s).len() == 0 {
        None
    } else {
        Some(trim(s))
    }
}

/// The configured directory, trimmed, unless it is blank.
pub fn nonempty(s: &str) -> (r: Option<String>)
    ensures
        match r {
            Some(t) => nonempty_spec(s@) == Some(t@),
            None => nonempty_spec(s@) is None,
        },
{
    let v = chars_of(s);
    let t = trim_vec(&v);
    if t.len() == 0 {
        None
    } else {
        Some(string_of(&t))
    }
}

/// Whether discovered directories are needed, that is whether one of the
/// two directories is not configured.
pub fn needs_auto_dirs(config: &LogsConfig) -> (r: bool)
    ensures
        r == (nonempty_spec(config.chatlog_dir@) is None || nonempty_spec(config.gamelog_dir@) is None),
{
    nonempty(config.chatlog_dir.as_str()).is_none() || nonempty(config.gamelog_dir.as_str()).is_none()
}

/// The configured directory, else the discovered one.
pub open spec fn choose_dir(configured: Seq<char>, auto: Seq<char>) -> Seq<char> {
    match nonempty_spec(configured) {
        Some(t) => t,
        None => auto,
    }
}

/// Resolves the log directories: a non-blank configured directory wins,
/// else the discovered one in `auto`. When both are configured `auto` is
/// not read.
pub fn resolve(config: &LogsConfig, auto: &LogDirs) -> (d: LogDirs)
    ensures
        d.chatlogs@ == choose_dir(config.chatlog_dir@, auto.chatlogs@),
        d.gamelogs@ == choose_dir(config.gamelog_dir@, auto.gamelogs@),
{
    let chat = nonempty(config.chatlog_dir.as_str());
    let game = nonempty(config.gamelog_dir.as_str());
    LogDirs {
        chatlogs: match chat {
            Some(c) => c,
            None => auto.chatlogs.clone(),
        },
        gamelogs: match game {
            Some(g) => g,
            None => auto.gamelogs.clone(),
        },
    }
}

/// The pieces of `b` between zero bytes.
pub open spec fn split_nul(b: Seq<u8>) -> Seq<Seq<u8>>
    decreases b.len(),
{
    if b.len() == 0 {
        seq![Seq::empty()]
    } else {
        let p = split_nul(b.drop_last());
        if b.last() == 0 {
            p.push(Seq::empty())
        } else {
            p.update(p.len() - 1, p.last().push(b.last()))
        }
    }
}

proof fn lemma_split_nul_len(b: Seq<u8>)
    ensures
        split_nul(b).len() >= 1,
    decreases b.len(),
{
    if b.len() > 0 {
        lemma_split_nul_len(b.drop_last());
    }
}

/// The Wine prefix that one `KEY=value` environment entry names, if it is
/// a valid UTF-8 `WINEPREFIX=` entry with a non-empty value.
pub open spec fn prefix_of_entry(kv: Seq<u8>) -> Option<Seq<char>> {
    let key = "WINEPREFIX="@;
    if valid_utf8(kv) && starts_with(decode_utf8(kv), key) && decode_utf8(kv).len() > key.len() {
        Some(decode_utf8(kv).subrange(key.len() as int, decode_utf8(kv).len() as int))
    } else {
        None
    }
}

/// The first Wine prefix that the entries name.
pub open spec fn first_prefix(entries: Seq<Seq<u8>>) -> Option<Seq<char>>
    decreases entries.len(),
{
    if entries.len() == 0 {
        None
    } else {
        match first_prefix(entries.drop_last()) {
            Some(p) => Some(p),
            None => prefix_of_entry(entries.last()),
        }
    }
}

fn entry_prefix(kv: &Vec<u8>) -> (r: Option<String>)
    ensures
        opt_view(r) == prefix_of_entry(kv@),
{
    let s = match str_from_utf8(kv.as_slice()) {
        Ok(s) => s,
        Err(_) => return None,
    };
    let t = chars_of(s);
    let key = chars_of("WINEPREFIX=");
    if t.len() <= key.len() {
        return None;
    }
    let mut i: usize = 0;
    while i < key.len()
        invariant
            key.len() < t.len(),
            key@ == "WINEPREFIX="@,
            t@ == decode_utf8(kv@),
            valid_utf8(kv@),
            i <= key.len(),
            forall|k: int| 0 <= k < i ==> t@[k] == key@[k],
        decreases key.len() - i,
    {
        if t[i] != key[i] {
            assert(t@.subrange(0, key.len() as int)[i as int] != key@[i as int]);
            return None;
        }
        i += 1;
    }
    assert(t@.subrange(0, key.len() as int) == key@);
    let v = slice_of(&t, key.len(), t.len());
    Some(string_of(&v))
}

/// An optional string as optional text.
pub open spec fn opt_view(o: Option<String>) -> Option<Seq<char>> {
    match o {
        Some(s) => Some(s@),
        None => None,
    }
}

/// The Wine prefix named by a process environment (`/proc/<pid>/environ`):
/// the first valid UTF-8 `WINEPREFIX=` entry with a non-empty value.
pub fn wine_prefix_from_environ(env: &[u8]) -> (r: Option<String>)
    ensures
        opt_view(r) == first_prefix(split_nul(env@)),
{
    let mut cur: Vec<u8> = Vec::new();
    let mut found: Option<String> = None;
    let mut i: usize = 0;
    while i < env.len()
        invariant
            i <= env@.len(),
            split_nul(env@.take(i as int)).len() >= 1,
            opt_view(found) == first_prefix(split_nul(env@.take(i as int)).drop_last()),
            cur@ == split_nul(env@.take(i as int)).last(),
        decreases env@.len() - i,
    {
        let ghost pre = env@.take(i as int);
        assert(env@.take(i + 1).drop_last() == pre);
        proof {
            lemma_split_nul_len(pre);
        }
        if env[i] == 0 {
            assert(split_nul(env@.take(i + 1)).drop_last() =~= split_nul(pre));
            assert(split_nul(pre).drop_last().push(cur@) =~= split_nul(pre));
            if found.is_none() {
                found = entry_prefix(&cur);
            }
            cur = Vec::new();
        } else {
            cur.push(env[i]);
            assert(split_nul(env@.take(i + 1)).drop_last() =~= split_nul(pre).drop_last());
        }
        i += 1;
    }
    assert(env@.take(env@.len() as int) == env@);
    let ghost p = split_nul(env@);
    assert(p.drop_last().push(p.last()) =~= p);
    if found.is_none() {
        found = entry_prefix(&cur);
    }
    found
}

} // verus!
