use eve_logs::decode::{decode_log_chunk, take_complete_lines};
use eve_logs::parse::{parse_line, parse_line_splits_char, should_parse_line, AlertKind, Event};

fn ts_line(body: &str) -> String {
    format!("[ 2024.01.15 12:34:56 ] {body}")
}

fn amount_of(text: &str) -> f64 {
    text.parse().unwrap()
}

#[test]
fn local_channel_change() {
    let line = ts_line("EVE System > Channel changed to Local : Jita");
    match parse_line(&line) {
        Some(Event::SystemChanged { system, timestamp }) => {
            assert_eq!(system, "Jita");
            assert_eq!(timestamp.as_deref(), Some("2024.01.15 12:34:56"));
        }
        other => panic!("{other:?}"),
    }
}

#[test]
fn local_channel_strips_html() {
    let line = ts_line("EVE System > Channel changed to Local : <b>Jita</b>");
    match parse_line(&line) {
        Some(Event::SystemChanged { system, .. }) => assert_eq!(system, "Jita"),
        other => panic!("{other:?}"),
    }
}

#[test]
fn jump_line() {
    let line = ts_line("(None) Jumping from Jita to Perimeter");
    match parse_line(&line) {
        Some(Event::SystemChanged { system, .. }) => assert_eq!(system, "Perimeter"),
        other => panic!("{other:?}"),
    }
}

#[test]
fn conduit_jump() {
    let line = ts_line("(notify) A Conduit Field activated by Alice jumps you to Jita");
    match parse_line(&line) {
        Some(Event::SystemChanged { system, .. }) => assert_eq!(system, "Jita"),
        other => panic!("{other:?}"),
    }
}

#[test]
fn fleet_invite() {
    let line =
        ts_line(r#"(question) <a href="showinfo:1376//1">Bob</a> wants you to join their fleet"#);
    match parse_line(&line) {
        Some(Event::Alert { kind, text }) => {
            assert_eq!(kind, AlertKind::FleetInvite);
            assert_eq!(text, "Fleet invite from Bob");
        }
        other => panic!("{other:?}"),
    }
}

#[test]
fn follow_warp() {
    let line = ts_line("(notify) Following Alice in warp");
    match parse_line(&line) {
        Some(Event::Alert { kind, text }) => {
            assert_eq!(kind, AlertKind::FollowWarp);
            assert_eq!(text, "Following Alice");
        }
        other => panic!("{other:?}"),
    }
}

#[test]
fn regroup() {
    let line = ts_line("(notify) Regrouping to Alice.");
    match parse_line(&line) {
        Some(Event::Alert { kind, text }) => {
            assert_eq!(kind, AlertKind::Regroup);
            assert_eq!(text, "Regrouping to Alice");
        }
        other => panic!("{other:?}"),
    }
}

#[test]
fn compression() {
    let line = ts_line("(notify) Successfully compressed Veldspar into 10 Compressed Veldspar");
    match parse_line(&line) {
        Some(Event::Alert { kind, text }) => {
            assert_eq!(kind, AlertKind::Compression);
            assert_eq!(text, "Compressed: 10x Compressed Veldspar");
        }
        other => panic!("{other:?}"),
    }
}

#[test]
fn decloak() {
    let line = ts_line("(notify) Your cloak deactivates due to proximity to a nearby stargate.");
    match parse_line(&line) {
        Some(Event::Alert { kind, text }) => {
            assert_eq!(kind, AlertKind::Decloak);
            assert_eq!(text, "Decloaked by stargate");
        }
        other => panic!("{other:?}"),
    }
}

#[test]
fn crystal_broke() {
    let line = ts_line(
        "(notify) Miner II deactivates due to the destruction of the T2 Strip Miner Crystal it was fitted with",
    );
    match parse_line(&line) {
        Some(Event::Alert { kind, text }) => {
            assert_eq!(kind, AlertKind::CrystalBroke);
            assert_eq!(text, "Crystal broke: T2 Strip Miner Crystal");
        }
        other => panic!("{other:?}"),
    }
}

#[test]
fn convo_request() {
    let line =
        ts_line("(None) <a href=showinfo:1373//123>Bob</a> is inviting you to a conversation.");
    match parse_line(&line) {
        Some(Event::Alert { kind, text }) => {
            assert_eq!(kind, AlertKind::ConvoRequest);
            assert_eq!(text, "Convo from: Bob");
        }
        other => panic!("{other:?}"),
    }
}

#[test]
fn combat_outgoing_plain() {
    let line = ts_line("(combat) 63 to Infester Alvi - Mjolnir Light Missile - Hits");
    match parse_line(&line) {
        Some(Event::Damage { incoming: false, amount }) => {
            assert!((amount_of(&amount) - 63.0).abs() < f64::EPSILON)
        }
        other => panic!("{other:?}"),
    }
}

#[test]
fn combat_incoming_with_later_to() {
    let line = ts_line("(combat) 450 from Rifter to Bob - 150mm Railgun I - Hits");
    match parse_line(&line) {
        Some(Event::Damage { incoming: true, amount }) => {
            assert!((amount_of(&amount) - 450.0).abs() < f64::EPSILON)
        }
        other => panic!("{other:?}"),
    }
}

#[test]
fn combat_html_tagged_outgoing() {
    let line = ts_line(
        "(combat) <color=0xff00ffff><b>63</b> <color=0x77ffffff><font size=10>to</font> \
         <b><color=0xffffffff>Infester Alvi</b><font size=10><color=0x77ffffff> - \
         Mjolnir Light Missile - Hits",
    );
    match parse_line(&line) {
        Some(Event::Damage { incoming: false, amount }) => {
            assert!((amount_of(&amount) - 63.0).abs() < f64::EPSILON)
        }
        other => panic!("{other:?}"),
    }
}

#[test]
fn combat_decimal_amount() {
    let line = ts_line("(combat) 12.7 from Rifter - Light Missile - Hits");
    match parse_line(&line) {
        Some(Event::Damage { incoming: true, amount }) => {
            assert!((amount_of(&amount) - 12.7).abs() < 1e-6)
        }
        other => panic!("{other:?}"),
    }
}

#[test]
fn combat_miss_without_amount_is_ignored() {
    let line = ts_line("(combat) Your Light Missile misses Rifter completely");
    assert!(parse_line(&line).is_none());
    assert!(should_parse_line(&line, false));
}

#[test]
fn notify_is_not_damage() {
    let line = ts_line("(notify) Following Alice in warp");
    match parse_line(&line) {
        Some(Event::Alert { kind: AlertKind::FollowWarp, .. }) => {}
        other => panic!("{other:?}"),
    }
}

#[test]
fn player_chat_is_ignored() {
    let line = ts_line("Bob > hello in local");
    assert!(parse_line(&line).is_none());
    assert!(!should_parse_line(&line, true));
}

#[test]
fn bom_per_line_is_stripped() {
    let line = format!("\u{FEFF}{}", ts_line("EVE System > Channel changed to Local : Dodixie"));
    match parse_line(&line) {
        Some(Event::SystemChanged { system, .. }) => assert_eq!(system, "Dodixie"),
        other => panic!("{other:?}"),
    }
}

#[test]
fn utf16_chunk_round_trip_odd_split() {
    let src = "[ 2024.01.15 12:34:56 ] EVE System > Channel changed to Local : Jita\n";
    let mut bytes = Vec::new();
    bytes.extend_from_slice(&0xFEFFu16.to_le_bytes());
    for u in src.encode_utf16() {
        bytes.extend_from_slice(&u.to_le_bytes());
    }
    let mid = 7;
    let mut partial = Vec::new();
    let first = decode_log_chunk(true, &mut partial, &bytes[..mid]);
    assert!(first.is_empty());
    let lines = decode_log_chunk(true, &mut partial, &bytes[mid..]);
    assert_eq!(lines.len(), 1);
    assert!(lines[0].contains("Jita"));
    assert!(partial.is_empty());
}

#[test]
fn utf8_partial_line_stitches() {
    let mut partial = Vec::new();
    let a = decode_log_chunk(false, &mut partial, b"[ 2024.01.15 12:34:56 ] (None) Jumping from Jita");
    assert!(a.is_empty());
    let b = decode_log_chunk(false, &mut partial, b" to Perimeter\n");
    assert_eq!(b.len(), 1);
    match parse_line(&b[0]) {
        Some(Event::SystemChanged { system, .. }) => assert_eq!(system, "Perimeter"),
        other => panic!("{other:?}"),
    }
}

#[test]
fn take_complete_lines_keeps_partial() {
    let (lines, rem) = take_complete_lines("one\ntwo");
    assert_eq!(lines, vec!["one"]);
    assert_eq!(rem, "two");
    let (lines, rem) = take_complete_lines("one\ntwo\n");
    assert_eq!(lines, vec!["one", "two"]);
    assert!(rem.is_empty());
}

#[test]
fn combat_word_cut_by_multibyte_char_is_flagged() {
    let line = ts_line("(combat) 12 \u{20ac}abc - Hits");
    assert!(parse_line_splits_char(&line));
    let fine = ts_line("(combat) 12 to Rifter - Hits");
    assert!(!parse_line_splits_char(&fine));
}
