use eve_logs::identify::{
    extract_listener, is_chatlog_filename, log_file_kind, newest_logs_by_character, too_old,
    LogFile,
};
use eve_logs::names::NameMap;
use eve_logs::parse::{parse_line, Event};
use eve_logs::paths::{wine_prefix_from_environ, LogsConfig};
use eve_logs::state::{DpsTracker, LogLiveState};
use eve_logs::tail::{
    apply_event, apply_system, collect_wanted, initial_lines, latest_system, FileState,
    LocationClock,
};

fn utf16(text: &str) -> Vec<u8> {
    let mut bytes = Vec::new();
    bytes.extend_from_slice(&0xFEFFu16.to_le_bytes());
    for u in text.encode_utf16() {
        bytes.extend_from_slice(&u.to_le_bytes());
    }
    bytes
}

#[test]
fn listener_from_chatlog() {
    let bytes = utf16(
        "------------------------------------------------------------\n\
         Chatlog\n\
         Listener: Alpha\n\
         Session started: 2024.01.15 12:00:00\n\
         ------------------------------------------------------------\n",
    );
    assert_eq!(extract_listener(&bytes, true).as_deref(), Some("Alpha"));
}

#[test]
fn listener_from_gamelog() {
    let text = "------------------------------------------------------------\n\
         Gamelog\n\
         Listener: Beta\n\
         Session started: 2024.01.15 12:00:00\n\
         ------------------------------------------------------------\n";
    assert_eq!(extract_listener(text.as_bytes(), false).as_deref(), Some("Beta"));
}

#[test]
fn listener_missing_or_blank() {
    assert_eq!(extract_listener(b"Listener:   \nfoo\n", false), None);
    assert_eq!(extract_listener(b"no header here", false), None);
    assert_eq!(extract_listener(b"\r\n  Listener: Gamma \r\n", false).as_deref(), Some("Gamma"));
}

#[test]
fn newest_wins_per_character() {
    let older = "/logs/Local_20240115_110000.txt".to_string();
    let newer = "/logs/Local_20240115_120000.txt".to_string();
    let files = vec![
        LogFile { mtime: 100, path: older.clone(), listener: Some("Alpha".into()) },
        LogFile { mtime: 200, path: newer.clone(), listener: Some("Alpha".into()) },
    ];
    let map = newest_logs_by_character(&files);
    assert_eq!(map.get("alpha"), Some(&newer));
}

#[test]
fn newest_tie_keeps_first_and_skips_unnamed() {
    let files = vec![
        LogFile { mtime: 5, path: "a".into(), listener: Some("Beta".into()) },
        LogFile { mtime: 5, path: "b".into(), listener: Some("BETA".into()) },
        LogFile { mtime: 9, path: "c".into(), listener: None },
    ];
    let map = newest_logs_by_character(&files);
    assert_eq!(map.len(), 1);
    assert_eq!(map.get("beta").map(|s| s.as_str()), Some("a"));
}

#[test]
fn chatlog_file_names() {
    assert!(is_chatlog_filename("Local_20240115_120000.txt"));
    assert!(is_chatlog_filename("local_x.txt"));
    assert!(!is_chatlog_filename("Corp_20240115.txt"));
    assert!(!is_chatlog_filename("Local_x.log"));
    assert_eq!(log_file_kind("20240115_120000.txt", false), Some(false));
    assert_eq!(log_file_kind("20240115_120000.txt", true), None);
    assert_eq!(log_file_kind("Local_1.txt", true), Some(true));
    assert_eq!(log_file_kind("notes.md", false), None);
}

#[test]
fn age_limit_is_one_day() {
    assert!(!too_old(None));
    assert!(!too_old(Some((86_400, 0))));
    assert!(too_old(Some((86_400, 1))));
    assert!(too_old(Some((90_000, 0))));
}

#[test]
fn wine_prefix_from_environment_block() {
    let env = b"HOME=/home/u\0WINEPREFIX=\0WINEPREFIX=/games/pfx\0X=1";
    assert_eq!(wine_prefix_from_environ(env).as_deref(), Some("/games/pfx"));
    assert_eq!(wine_prefix_from_environ(b"A=1\0B=2"), None);
    assert_eq!(wine_prefix_from_environ(b"\xffWINEPREFIX=/bad\0WINEPREFIX=/ok").as_deref(), Some("/ok"));
}

/// Reads what was appended to an in-memory file, as the tailer does.
fn poll(state: &mut FileState, file: &[u8]) -> Vec<String> {
    let size = file.len() as u64;
    if !state.begin_read(size) {
        return Vec::new();
    }
    let offset = state.read_offset(size) as usize;
    let buf = file[offset..].to_vec();
    state.finish_read(size, &buf)
}

#[test]
fn reads_appended_lines_and_ignores_unchanged() {
    let mut file = b"[ 2024.01.15 12:00:00 ] (None) Jumping from Jita to Perimeter\n".to_vec();
    let mut state = FileState::new("log.txt".into(), "Alpha".into(), false, 0);
    let lines = poll(&mut state, &file);
    assert_eq!(lines.len(), 1);
    assert!(parse_line(&lines[0]).is_some());
    let again = poll(&mut state, &file);
    assert!(again.is_empty());
    file.extend_from_slice(b"[ 2024.01.15 12:01:00 ] (notify) Following Alice in warp\n");
    let more = poll(&mut state, &file);
    assert_eq!(more.len(), 1);
    match parse_line(&more[0]) {
        Some(Event::Alert { kind: eve_logs::parse::AlertKind::FollowWarp, .. }) => {}
        other => panic!("{other:?}"),
    }
}

#[test]
fn truncate_resets_offset() {
    let file = b"[ 2024.01.15 12:00:00 ] (notify) Following Alice in warp\n".to_vec();
    let mut state = FileState::new("log.txt".into(), "Alpha".into(), false, 0);
    let _ = poll(&mut state, &file);
    let file = b"[ 2024.01.15 12:02:00 ] (notify) Following Bob in warp\n".to_vec();
    let lines = poll(&mut state, &file);
    assert_eq!(lines.len(), 1);
    match parse_line(&lines[0]) {
        Some(Event::Alert { text, .. }) => assert!(text.contains("Bob")),
        other => panic!("{other:?}"),
    }
}

#[test]
fn initial_open_sets_system_without_alerts() {
    let buf = b"[ 2024.01.15 12:00:00 ] (notify) Following Alice in warp\n\
                [ 2024.01.15 12:01:00 ] (None) Jumping from Jita to Perimeter\n";
    let lines = initial_lines(false, buf);
    assert_eq!(lines.len(), 2);
    let mut live = LogLiveState::default();
    let mut clocks: NameMap<LocationClock> = NameMap::new();
    if let Some((system, timestamp)) = latest_system(&lines, false) {
        apply_system("Alpha", system, timestamp, &mut clocks, &mut live);
    }
    assert_eq!(live.systems.get("Alpha").map(String::as_str), Some("Perimeter"));
    assert!(live.alerts.is_empty(), "historical alerts must not fire");
    let state = FileState::new("log.txt".into(), "Alpha".into(), false, buf.len() as u64);
    assert_eq!(state.offset, buf.len() as u64);
}

#[test]
fn older_location_report_does_not_override() {
    let mut live = LogLiveState::default();
    let mut clocks: NameMap<LocationClock> = NameMap::new();
    apply_system("Alpha", "Jita".into(), Some("2024.01.15 12:05:00".into()), &mut clocks, &mut live);
    apply_system("Alpha", "Amarr".into(), Some("2024.01.15 12:01:00".into()), &mut clocks, &mut live);
    assert_eq!(live.system_for("Alpha"), Some("Jita"));
    apply_system("Alpha", "Dodixie".into(), None, &mut clocks, &mut live);
    assert_eq!(live.system_for("Alpha"), Some("Dodixie"));
}

#[test]
fn events_update_live_state() {
    let cfg = LogsConfig::default();
    let mut live = LogLiveState::default();
    let mut clocks: NameMap<LocationClock> = NameMap::new();
    let mut dps = DpsTracker::new();
    let now = 1_000;
    apply_event(
        "Alpha",
        Event::Damage { incoming: true, amount: "12.5".into() },
        &cfg,
        &mut clocks,
        &mut dps,
        &mut live,
        now,
    );
    assert!(live.taking_damage("Alpha", now));
    assert_eq!(dps.hits.get("Alpha").map(|q| q.len()), Some(1));
    apply_event(
        "Alpha",
        Event::Alert { kind: eve_logs::parse::AlertKind::Decloak, text: "Decloaked by x".into() },
        &cfg,
        &mut clocks,
        &mut dps,
        &mut live,
        now,
    );
    let a = live.alert_for("Alpha", now).expect("alert");
    assert_eq!(a.expires_at, now + 8_000_000_000);
    let mut off = LogsConfig::default();
    off.alerts.regroup = false;
    apply_event(
        "Beta",
        Event::Alert { kind: eve_logs::parse::AlertKind::Regroup, text: "Regrouping to y".into() },
        &off,
        &mut clocks,
        &mut dps,
        &mut live,
        now,
    );
    assert!(live.alert_for("Beta", now).is_none());
}

#[test]
fn wanted_files_by_configured_names() {
    let mut found: NameMap<String> = NameMap::new();
    found.insert("alpha".into(), "/l/a.txt".into());
    found.insert("beta".into(), "/l/b.txt".into());
    let mut wanted: NameMap<(String, bool)> = NameMap::new();
    collect_wanted(&found, &Vec::new(), &vec!["Beta".to_string(), "Gamma".to_string()], true, &mut wanted);
    assert_eq!(wanted.len(), 1);
    assert_eq!(wanted.get("/l/b.txt"), Some(&("Beta".to_string(), true)));
    let mut all: NameMap<(String, bool)> = NameMap::new();
    collect_wanted(&found, &vec![Some("Alpha".to_string()), None], &Vec::new(), false, &mut all);
    assert_eq!(all.get("/l/a.txt"), Some(&("Alpha".to_string(), false)));
    assert_eq!(all.get("/l/b.txt"), Some(&("beta".to_string(), false)));
}
