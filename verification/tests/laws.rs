use eve_logs::decode::{decode_log_chunk, take_complete_lines};
use eve_logs::names::NameMap;
use eve_logs::parse::{parse_line, should_parse_line, AlertKind};
use eve_logs::state::{ActiveAlert, DpsTracker, LogLiveState, DPS_WINDOW_NS, INCOMING_FLASH_NS};
use eve_logs::tail::{apply_system, initial_read_start, LocationClock};

fn alert(text: &str, expires_at: u64) -> ActiveAlert {
    ActiveAlert { kind: AlertKind::FleetInvite, text: text.into(), expires_at }
}

fn utf16_bytes(text: &str) -> Vec<u8> {
    let mut bytes = Vec::new();
    for u in text.encode_utf16() {
        bytes.extend_from_slice(&u.to_le_bytes());
    }
    bytes
}

/// Decodes `data` in one read, and split at every byte position in two.
fn check_every_split(is_chatlog: bool, data: &[u8]) -> Vec<String> {
    let mut partial = Vec::new();
    let whole = decode_log_chunk(is_chatlog, &mut partial, data);
    for cut in 0..=data.len() {
        let mut p = Vec::new();
        let mut lines = decode_log_chunk(is_chatlog, &mut p, &data[..cut]);
        lines.extend(decode_log_chunk(is_chatlog, &mut p, &data[cut..]));
        assert_eq!(lines, whole, "split at {cut}");
        assert_eq!(p, partial, "carry-over after split at {cut}");
    }
    whole
}

#[test]
fn name_map_reads_back_what_was_set() {
    let mut m: NameMap<u32> = NameMap::new();
    m.insert("Alpha".into(), 1);
    m.insert("Beta".into(), 2);
    m.insert("Alpha".into(), 3);
    assert_eq!(m.len(), 2);
    assert_eq!(m.get("Alpha"), Some(&3));
    assert_eq!(m.get("Beta"), Some(&2));
    assert_eq!(m.get("alpha"), None);
    assert_eq!(m.remove("Alpha"), Some(3));
    assert_eq!(m.get("Alpha"), None);
    assert_eq!(m.get("Beta"), Some(&2));
    assert_eq!(m.remove("Alpha"), None);
    assert_eq!(m.len(), 1);
}

#[test]
fn stamp_lights_preview_for_flash_window() {
    let mut s = LogLiveState::default();
    s.last_incoming.insert("Alpha".into(), 5);
    let t = 1_000_000_000;
    s.stamp_incoming("Alpha", t);
    assert!(s.taking_damage("Alpha", t));
    assert!(s.taking_damage("Alpha", t + INCOMING_FLASH_NS - 1));
    assert!(!s.taking_damage("Alpha", t + INCOMING_FLASH_NS));
    // A clock reading before the stamp counts as no time passed.
    assert!(s.taking_damage("Alpha", t - 1));
}

#[test]
fn prune_keeps_exactly_unexpired_alerts() {
    let mut s = LogLiveState::default();
    s.alerts.insert("Alpha".into(), alert("a", 100));
    s.alerts.insert("Beta".into(), alert("b", 300));
    s.alerts.insert("Gamma".into(), alert("c", 200));
    s.prune_expired(200);
    assert_eq!(s.alerts.len(), 1);
    assert!(s.alerts.get("Alpha").is_none());
    assert!(s.alerts.get("Gamma").is_none());
    assert_eq!(s.alerts.get("Beta").map(|a| a.text.as_str()), Some("b"));
    assert!(s.alert_for("Beta", 200).is_some());
}

#[test]
fn dropped_alert_is_not_found_again() {
    let mut s = LogLiveState::default();
    s.alerts.insert("Alpha".into(), alert("a", 100));
    s.alerts.insert("Beta".into(), alert("b", 100));
    s.drop_alert("Alpha");
    assert!(s.alert_for("Alpha", 0).is_none());
    assert!(s.alert_for("Beta", 0).is_some());
    // Another name equal ignoring case is still found after an exact drop.
    let mut t = LogLiveState::default();
    t.alerts.insert("Alpha".into(), alert("a", 100));
    t.alerts.insert("alpha".into(), alert("b", 100));
    t.drop_alert("Alpha");
    assert_eq!(t.alert_for("Alpha", 0).map(|a| a.text.as_str()), Some("b"));
}

#[test]
fn prune_leaves_only_hits_inside_window() {
    let mut t = DpsTracker::new();
    let t0 = 50 * DPS_WINDOW_NS;
    t.add("Alpha", true, "10".into(), t0);
    t.add("Alpha", false, "20".into(), t0 + 5_000_000_000);
    t.add("Beta", true, "30".into(), t0);
    t.prune(t0 + DPS_WINDOW_NS + 1);
    assert_eq!(t.hits.len(), 1);
    let q = t.hits.get("Alpha").unwrap();
    assert_eq!(q.len(), 1);
    assert_eq!(q[0].amount, "20");
    assert!(t.hits.get("Beta").is_none());
}

#[test]
fn lines_read_in_two_parts_match_one_read() {
    let whole = "one\r\ntwo\nthr";
    for cut in 0..=whole.len() {
        let (mut lines, rem) = take_complete_lines(&whole[..cut]);
        let joined = format!("{}{}", rem, &whole[cut..]);
        let (more, rest) = take_complete_lines(&joined);
        lines.extend(more);
        let (all, all_rest) = take_complete_lines(whole);
        assert_eq!(lines, all, "cut at {cut}");
        assert_eq!(rest, all_rest);
    }
    // A carriage return ending the first part and not followed by a newline
    // splits differently.
    let (a, _) = take_complete_lines("x\r");
    let (b, _) = take_complete_lines("x\ry\n");
    assert_eq!(a, vec!["x"]);
    assert_eq!(b, vec!["x\ry"]);
}

#[test]
fn gamelog_split_anywhere_reads_same_lines() {
    let data = "[ 2024.01.15 12:00:00 ] (None) Jumping from Jita to Ré\n\
                [ 2024.01.15 12:01:00 ] (notify) Following Zoë in warp\npartial é";
    let lines = check_every_split(false, data.as_bytes());
    assert_eq!(lines.len(), 2);
    assert!(lines[1].contains("Zoë"));
}

#[test]
fn chatlog_split_anywhere_reads_same_lines() {
    let mut data = vec![0xFF, 0xFE];
    data.extend(utf16_bytes(
        "[ 2024.01.15 12:34:56 ] EVE System > Channel changed to Local : Jita\r\n\
         [ 2024.01.15 12:35:00 ] EVE System > Channel changed to Local : Amarr\npart",
    ));
    let lines = check_every_split(true, &data);
    assert_eq!(lines.len(), 2);
    assert!(lines[1].ends_with("Amarr"));
}

#[test]
fn partial_line_survives_carry_over() {
    let mut p = Vec::new();
    assert!(decode_log_chunk(true, &mut p, &utf16_bytes("Zoë 𝄞")).is_empty());
    assert_eq!(decode_log_chunk(true, &mut p, &utf16_bytes("\n")), vec!["Zoë 𝄞"]);
    assert!(p.is_empty());
    let mut q = Vec::new();
    assert!(decode_log_chunk(false, &mut q, "Zoë 𝄞".as_bytes()).is_empty());
    assert_eq!(q, "Zoë 𝄞".as_bytes());
    assert_eq!(decode_log_chunk(false, &mut q, b"\n"), vec!["Zoë 𝄞"]);
}

#[test]
fn gamelog_filter_keeps_parsed_lines() {
    let lines = [
        "[ 2024.01.15 12:00:00 ] (None) Jumping from Jita to Perimeter",
        "[ 2024.01.15 12:01:00 ] (notify) Following Alice in warp",
        "[ 2024.01.15 12:02:00 ] (question) Bob wants you to join their fleet",
        "[ 2024.01.15 12:03:00 ] (combat) 63 to Infester Alvi - Light Missile - Hits",
        "[ 2024.01.15 12:04:00 ] Bob > hello in local",
    ];
    for l in lines {
        if parse_line(l).is_some() {
            assert!(should_parse_line(l, false), "{l}");
        }
    }
    assert!(parse_line(lines[4]).is_none());
    assert!(!should_parse_line(lines[4], false));
}

#[test]
fn location_report_is_read_back_and_stale_one_ignored() {
    let mut clocks: NameMap<LocationClock> = NameMap::new();
    let mut live = LogLiveState::default();
    apply_system("Alpha", "Jita".into(), Some("2024.01.15 12:00:00".into()), &mut clocks, &mut live);
    assert_eq!(live.system_for("Alpha"), Some("Jita"));
    assert_eq!(clocks.get("Alpha").map(|c| c.timestamp.as_str()), Some("2024.01.15 12:00:00"));
    apply_system("Alpha", "Amarr".into(), Some("2024.01.15 11:59:59".into()), &mut clocks, &mut live);
    assert_eq!(live.system_for("Alpha"), Some("Jita"));
    apply_system("Alpha", "Amarr".into(), Some("2024.01.15 12:00:00".into()), &mut clocks, &mut live);
    assert_eq!(live.system_for("Alpha"), Some("Amarr"));
    apply_system("Alpha", "Dodixie".into(), None, &mut clocks, &mut live);
    assert_eq!(live.system_for("Alpha"), Some("Dodixie"));
}

#[test]
fn lookup_name_prefers_exact_then_ignores_case() {
    let mut m: NameMap<u32> = NameMap::new();
    m.insert("alpha".into(), 1);
    m.insert("Alpha".into(), 2);
    assert_eq!(eve_logs::state::lookup_name(&m, "Alpha"), Some(&2));
    assert_eq!(eve_logs::state::lookup_name(&m, "ALPHA"), Some(&1));
    assert_eq!(eve_logs::state::lookup_name(&m, "Beta"), None);
}

#[test]
fn gamelog_with_invalid_bytes_splits_alike() {
    let mut data = b"[ 2024.01.15 12:00:00 ] (None) Jumping from Jita to Ra\n".to_vec();
    data.extend_from_slice(&[0xE2, 0x82, 0xFF]);
    data.extend_from_slice(b"tail\n");
    let lines = check_every_split(false, &data);
    assert_eq!(lines.len(), 2);
    assert_eq!(lines[1], "\u{FFFD}\u{FFFD}\u{FFFD}tail");
}

#[test]
fn invalid_byte_is_replaced_and_later_lines_come_out() {
    let mut partial = Vec::new();
    let lines = decode_log_chunk(false, &mut partial, b"ab\xFFcd\nef\n");
    assert_eq!(lines, vec!["ab\u{FFFD}cd", "ef"]);
    assert!(partial.is_empty());
    // A character cut off by the end of a chunk waits for the next one.
    let lines = decode_log_chunk(false, &mut partial, b"x\xC3");
    assert!(lines.is_empty());
    assert_eq!(partial, b"x\xC3");
    let lines = decode_log_chunk(false, &mut partial, b"\xA9\n");
    assert_eq!(lines, vec!["x\u{e9}"]);
    assert!(partial.is_empty());
}

#[test]
fn lookup_lowercases_beyond_ascii() {
    let mut s = LogLiveState::default();
    s.systems.insert("élan".into(), "Jita".into());
    assert_eq!(s.system_for("ÉLAN"), Some("Jita"));
    assert_eq!(s.system_for("Élan"), Some("Jita"));
}

#[test]
fn listener_header_replaces_invalid_utf8() {
    let got = eve_logs::identify::extract_listener(b"Listener: Bob\xFF\n", false);
    assert_eq!(got.as_deref(), Some("Bob\u{FFFD}"));
}

#[test]
fn same_system_report_refreshes_clock() {
    let mut clocks: NameMap<LocationClock> = NameMap::new();
    let mut live = LogLiveState::default();
    apply_system("Alpha", "Jita".into(), Some("2024.01.15 10:00:00".into()), &mut clocks, &mut live);
    apply_system("Alpha", "Jita".into(), Some("2024.01.15 12:00:00".into()), &mut clocks, &mut live);
    assert_eq!(clocks.get("Alpha").map(|c| c.timestamp.as_str()), Some("2024.01.15 12:00:00"));
    apply_system("Alpha", "Amarr".into(), Some("2024.01.15 11:00:00".into()), &mut clocks, &mut live);
    assert_eq!(live.system_for("Alpha"), Some("Jita"));
    // An older report of the same system, or one without timestamp, keeps the clock.
    apply_system("Alpha", "Jita".into(), Some("2024.01.15 11:30:00".into()), &mut clocks, &mut live);
    apply_system("Alpha", "Jita".into(), None, &mut clocks, &mut live);
    assert_eq!(clocks.get("Alpha").map(|c| c.timestamp.as_str()), Some("2024.01.15 12:00:00"));
    assert_eq!(live.systems.len(), 1);
}

#[test]
fn initial_read_covers_last_64_kib() {
    assert_eq!(initial_read_start(0), 0);
    assert_eq!(initial_read_start(65536), 0);
    assert_eq!(initial_read_start(65537), 1);
    assert_eq!(initial_read_start(1_000_000), 1_000_000 - 65536);
}

#[test]
fn leading_bom_changes_nothing() {
    let l = "[ 2024.01.15 12:34:56 ] EVE System > Channel changed to Local : Dodixie";
    let with_bom = format!("\u{FEFF}{l}");
    assert_eq!(parse_line(&with_bom), parse_line(l));
    assert!(parse_line(l).is_some());
}
