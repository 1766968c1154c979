use eve_logs::names::NameMap;
use eve_logs::tail::{
    character_filter, rescan_due, rescan_plan, MonitorChange, PollState, DIR_RESCAN_NS,
    FAST_MOMENTUM_TICKS, FAST_POLL_MS, SLOW_POLL_MS,
};

#[test]
fn monitor_switches_are_reported_once() {
    let mut p = PollState::new();
    assert_eq!(p.set_enabled(false), MonitorChange::Unchanged);
    assert_eq!(p.set_enabled(true), MonitorChange::Started);
    assert_eq!(p.set_enabled(true), MonitorChange::Unchanged);
    assert_eq!(p.set_enabled(false), MonitorChange::Stopped);
}

#[test]
fn relevant_lines_keep_polling_fast_for_a_while() {
    let mut p = PollState::new();
    assert_eq!(p.after_poll(false), SLOW_POLL_MS);
    assert_eq!(p.after_poll(true), FAST_POLL_MS);
    assert_eq!(p.momentum, FAST_MOMENTUM_TICKS);
    for _ in 1..FAST_MOMENTUM_TICKS {
        assert_eq!(p.after_poll(false), FAST_POLL_MS);
    }
    assert_eq!(p.after_poll(false), SLOW_POLL_MS);
    assert_eq!(p.momentum, 0);
    assert_eq!(p.after_poll(false), SLOW_POLL_MS);
}

#[test]
fn rescan_when_settings_change_period_passes_or_nothing_followed() {
    assert!(!rescan_due(false, DIR_RESCAN_NS - 1, false));
    assert!(rescan_due(false, DIR_RESCAN_NS, false));
    assert!(rescan_due(true, 0, false));
    assert!(rescan_due(false, 0, true));
}

#[test]
fn character_order_filters_followed_logs() {
    let order = vec!["Alpha".to_string(), "Beta".to_string()];
    assert_eq!(character_filter(Some(&order)), order);
    assert!(character_filter(None).is_empty());
}

#[test]
fn rescan_drops_unwanted_and_opens_new_files() {
    let mut wanted: NameMap<(String, bool)> = NameMap::new();
    wanted.insert("/logs/a.txt".into(), ("Alpha".into(), false));
    wanted.insert("/logs/b.txt".into(), ("Beta".into(), false));
    wanted.insert("/logs/c.txt".into(), ("Gamma".into(), true));
    let followed = vec!["/logs/old.txt".to_string(), "/logs/b.txt".to_string()];
    let (keep, open) = rescan_plan(&followed, &wanted);
    assert_eq!(keep, vec![false, true]);
    assert_eq!(open, vec![0, 2]);
}
