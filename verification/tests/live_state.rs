use eve_logs::paths::{resolve, LogDirs, LogsConfig};
use eve_logs::parse::AlertKind;
use eve_logs::state::{ActiveAlert, DpsTracker, LogLiveState, DPS_WINDOW_NS};

const MS: u64 = 1_000_000;
const SEC: u64 = 1_000_000_000;

fn auto_dirs() -> LogDirs {
    LogDirs { chatlogs: "/auto/Chatlogs".into(), gamelogs: "/auto/Gamelogs".into() }
}

#[test]
fn override_wins() {
    let cfg = LogsConfig {
        chatlog_dir: "/tmp/chat".into(),
        gamelog_dir: "/tmp/game".into(),
        ..LogsConfig::default()
    };
    let d = resolve(&cfg, &auto_dirs());
    assert_eq!(d.chatlogs, "/tmp/chat");
    assert_eq!(d.gamelogs, "/tmp/game");
}

#[test]
fn partial_override_keeps_auto_other() {
    let cfg = LogsConfig { chatlog_dir: "/tmp/chat-only".into(), ..LogsConfig::default() };
    let d = resolve(&cfg, &auto_dirs());
    assert_eq!(d.chatlogs, "/tmp/chat-only");
    assert_ne!(d.gamelogs, "/tmp/chat-only");
}

#[test]
fn blank_override_is_trimmed_or_ignored() {
    let cfg = LogsConfig {
        chatlog_dir: "  /tmp/chat \n".into(),
        gamelog_dir: "   ".into(),
        ..LogsConfig::default()
    };
    assert!(eve_logs::paths::needs_auto_dirs(&cfg));
    let d = resolve(&cfg, &auto_dirs());
    assert_eq!(d.chatlogs, "/tmp/chat");
    assert_eq!(d.gamelogs, "/auto/Gamelogs");
}

#[test]
fn lookup_is_case_insensitive() {
    let mut s = LogLiveState::default();
    s.systems.insert("Alpha".into(), "Jita".into());
    assert_eq!(s.system_for("alpha"), Some("Jita"));
    assert_eq!(s.system_for("ALPHA"), Some("Jita"));
}

#[test]
fn exact_name_wins_over_case_insensitive_match() {
    let mut s = LogLiveState::default();
    s.systems.insert("alpha".into(), "Amarr".into());
    s.systems.insert("Alpha".into(), "Jita".into());
    assert_eq!(s.system_for("Alpha"), Some("Jita"));
    assert_eq!(s.system_for("ALPHA"), Some("Amarr"));
    assert_eq!(s.system_for("Beta"), None);
}

#[test]
fn expired_alert_hidden() {
    let mut s = LogLiveState::default();
    let now = 5 * SEC;
    s.alerts.insert(
        "Alpha".into(),
        ActiveAlert {
            kind: AlertKind::FleetInvite,
            text: "Fleet invite from Bob".into(),
            expires_at: now - SEC,
        },
    );
    assert!(s.alert_for("Alpha", now).is_none());
    s.prune_expired(now);
    assert!(s.alerts.is_empty());
}

#[test]
fn live_alert_shown_until_expiry() {
    let mut s = LogLiveState::default();
    s.alerts.insert(
        "Alpha".into(),
        ActiveAlert { kind: AlertKind::Regroup, text: "Regrouping to X".into(), expires_at: 10 * SEC },
    );
    assert_eq!(s.alert_for("alpha", 9 * SEC).map(|a| a.text.as_str()), Some("Regrouping to X"));
    assert!(s.alert_for("alpha", 10 * SEC).is_none());
    s.prune_expired(9 * SEC);
    assert_eq!(s.alerts.len(), 1);
}

#[test]
fn drop_alert_is_case_insensitive() {
    let mut s = LogLiveState::default();
    s.alerts.insert(
        "Alpha".into(),
        ActiveAlert {
            kind: AlertKind::FleetInvite,
            text: "Fleet invite from Bob".into(),
            expires_at: 8 * SEC,
        },
    );
    s.drop_alert("alpha");
    assert!(s.alerts.is_empty());
}

#[test]
fn dps_expires_after_window() {
    let mut t = DpsTracker::new();
    let t0 = 0;
    t.add("Alpha", true, "1000".into(), t0);
    t.prune(t0 + DPS_WINDOW_NS + MS);
    assert!(t.hits.get("Alpha").is_none());
}

#[test]
fn dps_hits_inside_window_are_kept() {
    let mut t = DpsTracker::new();
    let t0 = 20 * SEC;
    t.add("Alpha", true, "1000".into(), t0);
    t.add("Alpha", false, "500".into(), t0 + 5 * SEC);
    t.prune(t0 + DPS_WINDOW_NS + MS);
    let q = t.hits.get("Alpha").expect("hits");
    assert_eq!(q.len(), 1);
    assert_eq!(q[0].amount, "500");
    assert!(!q[0].incoming);
}

#[test]
fn incoming_flash_coalesces_then_expires() {
    let mut s = LogLiveState::default();
    let t0 = 0;
    s.stamp_incoming("Alpha", t0);
    assert!(s.taking_damage("alpha", t0 + 100 * MS));
    s.stamp_incoming("Alpha", t0 + 300 * MS);
    assert!(s.taking_damage("Alpha", t0 + 600 * MS));
    assert!(!s.taking_damage("Alpha", t0 + 800 * MS));
}
