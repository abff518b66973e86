use sharecart1000::Sharecart;

fn default_text() -> String {
    let mut s = String::from("[Main]\nMapX=0\nMapY=0\nMisc0=0\nMisc1=0\nMisc2=0\nMisc3=0\nPlayerName=\n");
    for i in 0..8 {
        s.push_str(&format!("Switch{}=FALSE\n", i));
    }
    s
}

fn entry(key: &str, value: &str) -> (String, String) {
    (key.to_string(), value.to_string())
}

fn sample() -> Sharecart {
    let mut sc = Sharecart::default();
    sc.map_x = 73;
    sc.map_y = 1023;
    sc.misc = [54, 540, 999, u16::MAX];
    sc.player_name = "Fearless Concurrency".to_string();
    sc.switch = [true, false, true, false, true, false, true, false];
    sc
}

#[test]
fn test_sharecart_10bit_safe() {
    let mut sc = Sharecart::default();

    for bit in 11..16 {
        sc.map_x |= 1 << bit;
        sc.map_y |= 1 << bit;
    }

    assert_eq!(Sharecart::default(), Sharecart::from_str(&sc.to_string()));
}

#[test]
fn test_sharecart_player_name_safe() {
    let mut sc = Sharecart::default();

    sc.player_name = "\r\n".to_string();
    assert_eq!(Sharecart::default(), Sharecart::from_str(&sc.to_string()));

    sc.player_name = "x".repeat(2_000);
    let round_trip = Sharecart::from_str(&sc.to_string());
    assert_eq!(round_trip.player_name.len(), 1023);
}

#[test]
fn default_record_is_blank() {
    let sc = Sharecart::default();
    assert_eq!(sc.map_x, 0);
    assert_eq!(sc.map_y, 0);
    assert_eq!(sc.misc, [0, 0, 0, 0]);
    assert_eq!(sc.player_name, "");
    assert_eq!(sc.switch, [false; 8]);
}

#[test]
fn empty_text_and_bare_header_decode_to_default() {
    assert_eq!(Sharecart::from_str(""), Sharecart::default());
    assert_eq!(Sharecart::from_str("[Main]"), Sharecart::default());
}

#[test]
fn text_without_main_section_decodes_to_default() {
    assert_eq!(Sharecart::from_str("[Other]\nMapX=5\n"), Sharecart::default());
    assert_eq!(Sharecart::from_str("MapX=5\n"), Sharecart::default());
}

#[test]
fn malformed_text_decodes_to_default() {
    assert_eq!(Sharecart::from_str("[Main]\n=5\n"), Sharecart::default());
    assert_eq!(Sharecart::from_str("[Main"), Sharecart::default());
}

#[test]
fn section_name_main_in_small_letters_is_read() {
    let sc = Sharecart::from_str("[main]\nMapX=7\n");
    assert_eq!(sc.map_x, 7);
}

#[test]
fn section_main_with_capital_comes_first() {
    let sc = Sharecart::from_str("[main]\nMapX=7\n[Main]\nMapX=9\n");
    assert_eq!(sc.map_x, 9);
}

#[test]
fn section_name_in_other_casing_is_not_read() {
    assert_eq!(Sharecart::from_str("[MAIN]\nMapX=7\n"), Sharecart::default());
}

#[test]
fn coordinates_from_text() {
    let mut sc = Sharecart::default();
    sc.map_x = 73;
    sc.map_y = 1023;
    assert_eq!(sc, Sharecart::from_str("[Main]\nMapX=73\nMapY=1023"));
}

#[test]
fn encode_default_record() {
    assert_eq!(Sharecart::default().to_string(), default_text());
    assert_eq!(
        Sharecart::default().to_string(),
        "[Main]\nMapX=0\nMapY=0\nMisc0=0\nMisc1=0\nMisc2=0\nMisc3=0\nPlayerName=\nSwitch0=FALSE\nSwitch1=FALSE\nSwitch2=FALSE\nSwitch3=FALSE\nSwitch4=FALSE\nSwitch5=FALSE\nSwitch6=FALSE\nSwitch7=FALSE\n"
    );
}

#[test]
fn encode_sample_record() {
    assert_eq!(
        sample().to_string(),
        "[Main]\nMapX=73\nMapY=1023\nMisc0=54\nMisc1=540\nMisc2=999\nMisc3=65535\nPlayerName=Fearless Concurrency\nSwitch0=TRUE\nSwitch1=FALSE\nSwitch2=TRUE\nSwitch3=FALSE\nSwitch4=TRUE\nSwitch5=FALSE\nSwitch6=TRUE\nSwitch7=FALSE\n"
    );
}

#[test]
fn encode_has_sixteen_lines_and_no_carriage_return() {
    let text = sample().to_string();
    assert_eq!(text.matches('\n').count(), 16);
    assert!(!text.contains('\r'));
    assert!(text.ends_with('\n'));
}

#[test]
fn sample_record_round_trips() {
    let sc = sample();
    assert_eq!(sc, Sharecart::from_str(&sc.to_string()));
}

#[test]
fn sample_record_round_trips_through_entries() {
    let sc = sample();
    let entries = vec![
        entry("MapX", "73"),
        entry("MapY", "1023"),
        entry("Misc0", "54"),
        entry("Misc1", "540"),
        entry("Misc2", "999"),
        entry("Misc3", "65535"),
        entry("PlayerName", "Fearless Concurrency"),
        entry("Switch0", "TRUE"),
        entry("Switch1", "FALSE"),
        entry("Switch2", "TRUE"),
        entry("Switch3", "FALSE"),
        entry("Switch4", "TRUE"),
        entry("Switch5", "FALSE"),
        entry("Switch6", "TRUE"),
        entry("Switch7", "FALSE"),
    ];
    assert_eq!(sc, Sharecart::from_entries(&entries));
}

#[test]
fn every_coordinate_round_trips() {
    for x in 0..1024u16 {
        let mut sc = Sharecart::default();
        sc.map_x = x;
        sc.map_y = 1023 - x;
        assert_eq!(sc, Sharecart::from_str(&sc.to_string()));
    }
}

#[test]
fn coordinate_is_read_modulo_1024() {
    for x in [0u16, 1, 1023, 1024, 1025, 2047, 2048, 40000, 65535] {
        let sc = Sharecart::from_entries(&vec![entry("MapX", &x.to_string())]);
        assert_eq!(sc.map_x, x % 1024);
        let sc = Sharecart::from_entries(&vec![entry("MapY", &x.to_string())]);
        assert_eq!(sc.map_y, x % 1024);
        let sc = Sharecart::from_str(&format!("[Main]\nMapX={}\nMapY={}\n", x, x));
        assert_eq!((sc.map_x, sc.map_y), (x % 1024, x % 1024));
    }
    assert_eq!(Sharecart::from_entries(&vec![entry("MapX", "1029")]).map_x, 5);
}

#[test]
fn coordinate_is_written_modulo_1024() {
    let mut sc = Sharecart::default();
    sc.map_x = 1029;
    sc.map_y = 65535;
    let text = sc.to_string();
    assert!(text.starts_with("[Main]\nMapX=5\nMapY=1023\n"));
}

#[test]
fn misc_keeps_the_full_range() {
    let sc = Sharecart::from_entries(&vec![
        entry("Misc0", "65535"),
        entry("Misc1", "1024"),
        entry("Misc2", "0"),
        entry("Misc3", "00042"),
    ]);
    assert_eq!(sc.misc, [65535, 1024, 0, 42]);
}

#[test]
fn number_with_plus_sign_is_read() {
    let sc = Sharecart::from_entries(&vec![entry("Misc0", "+17")]);
    assert_eq!(sc.misc[0], 17);
}

#[test]
fn text_that_is_no_number_gives_zero() {
    for bad in ["", "abc", "-1", "65536", "99999999999", "1.5", " 7", "7 ", "+", "++1", "0x10", "１２"] {
        let start = vec![
            entry("MapX", "3"),
            entry("MapY", "4"),
            entry("Misc0", "5"),
            entry("Misc1", "6"),
            entry("Misc2", "7"),
            entry("Misc3", "8"),
            entry("PlayerName", "pat"),
            entry("Switch3", "true"),
        ];
        let keys = ["MapX", "MapY", "Misc0", "Misc1", "Misc2", "Misc3"];
        for (n, key) in keys.iter().enumerate() {
            let mut entries = start.clone();
            entries.push(entry(key, bad));
            let sc = Sharecart::from_entries(&entries);
            let mut expected = Sharecart::from_entries(&start);
            match n {
                0 => expected.map_x = 0,
                1 => expected.map_y = 0,
                _ => expected.misc[n - 2] = 0,
            }
            assert_eq!(sc, expected);
        }
    }
}

#[test]
fn bad_number_in_text_leaves_other_fields() {
    let sc = Sharecart::from_str("[Main]\nMapX=oops\nMapY=12\nMisc1=70000\nMisc2=9\n");
    assert_eq!(sc.map_x, 0);
    assert_eq!(sc.map_y, 12);
    assert_eq!(sc.misc, [0, 0, 9, 0]);
}

#[test]
fn switch_is_read_without_regard_to_case() {
    for on in ["True", "TRUE", "true", "tRuE"] {
        assert!(Sharecart::from_entries(&vec![entry("Switch0", on)]).switch[0]);
        assert!(Sharecart::from_str(&format!("[Main]\nSwitch0={}\n", on)).switch[0]);
    }
    for off in ["1", "yes", "", "false", "FALSE", "truee", "tru", " true", "trüe"] {
        assert!(!Sharecart::from_entries(&vec![entry("Switch0", off)]).switch[0]);
    }
    for off in ["1", "yes", "", "FALSE"] {
        assert!(!Sharecart::from_str(&format!("[Main]\nSwitch0={}\n", off)).switch[0]);
    }
    assert!(!Sharecart::from_str("[Main]\nMapX=1\n").switch[0]);
}

#[test]
fn each_switch_has_its_own_key() {
    for i in 0..8 {
        let sc = Sharecart::from_entries(&vec![entry(&format!("Switch{}", i), "true")]);
        let mut expected = [false; 8];
        expected[i] = true;
        assert_eq!(sc.switch, expected);
    }
}

#[test]
fn keys_are_matched_without_regard_to_case() {
    let sc = Sharecart::from_entries(&vec![
        entry("mapx", "1"),
        entry("MAPY", "2"),
        entry("mIsC0", "3"),
        entry("PLAYERNAME", "pat"),
        entry("switch7", "TRUE"),
    ]);
    assert_eq!(sc.map_x, 1);
    assert_eq!(sc.map_y, 2);
    assert_eq!(sc.misc[0], 3);
    assert_eq!(sc.player_name, "pat");
    assert!(sc.switch[7]);
}

#[test]
fn unknown_keys_are_passed_over() {
    let sc = Sharecart::from_entries(&vec![
        entry("MapZ", "1"),
        entry("Misc4", "2"),
        entry("Switch8", "true"),
        entry("", "3"),
        entry("Map", "4"),
        entry("MapXX", "5"),
        entry("Måpx", "6"),
    ]);
    assert_eq!(sc, Sharecart::default());
}

#[test]
fn last_entry_of_a_key_counts() {
    let sc = Sharecart::from_entries(&vec![
        entry("MapX", "1"),
        entry("mapx", "2"),
        entry("Switch1", "true"),
        entry("SWITCH1", "no"),
        entry("MapX", "x"),
        entry("Misc2", "8"),
        entry("Misc2", "9"),
    ]);
    assert_eq!(sc.map_x, 0);
    assert!(!sc.switch[1]);
    assert_eq!(sc.misc[2], 9);
    let sc = Sharecart::from_str("[Main]\nMapX=1\nMapX=2\n");
    assert_eq!(sc.map_x, 2);
}

#[test]
fn no_entries_decode_to_default() {
    assert_eq!(Sharecart::from_entries(&Vec::new()), Sharecart::default());
}

#[test]
fn name_is_written_without_line_breaks() {
    let mut sc = Sharecart::default();
    sc.player_name = "a\rb\nc\r\nd".to_string();
    let text = sc.to_string();
    assert!(text.contains("\nPlayerName=abcd\nSwitch0="));
    assert_eq!(Sharecart::from_str(&text).player_name, "abcd");
}

#[test]
fn long_ascii_name_is_cut_to_1023_bytes() {
    let mut sc = Sharecart::default();
    sc.player_name = "x".repeat(2_000);
    let text = sc.to_string();
    let line = text.lines().find(|l| l.starts_with("PlayerName=")).unwrap();
    assert_eq!(line.len(), "PlayerName=".len() + 1023);
    let back = Sharecart::from_str(&text);
    assert_eq!(back.player_name, "x".repeat(1023));
    assert!(!back.player_name.contains('\u{FFFD}'));
}

#[test]
fn line_breaks_do_not_count_towards_the_limit_when_written() {
    let mut sc = Sharecart::default();
    sc.player_name = format!("{}{}", "\n".repeat(500), "y".repeat(1500));
    let text = sc.to_string();
    let line = text.lines().find(|l| l.starts_with("PlayerName=")).unwrap();
    assert_eq!(line, format!("PlayerName={}", "y".repeat(1023)));
}

#[test]
fn name_is_read_by_bytes_and_a_split_character_is_dropped() {
    // 1022 one-byte characters, then a two-byte character that straddles the cut.
    let value = format!("{}é{}", "a".repeat(1022), "zzz");
    let sc = Sharecart::from_entries(&vec![entry("PlayerName", &value)]);
    assert_eq!(sc.player_name, "a".repeat(1022));
    // With 1021 the character fits whole and ends the name.
    let value = format!("{}é{}", "a".repeat(1021), "zzz");
    let sc = Sharecart::from_entries(&vec![entry("PlayerName", &value)]);
    assert_eq!(sc.player_name, format!("{}é", "a".repeat(1021)));
    assert_eq!(sc.player_name.len(), 1023);
}

#[test]
fn name_is_written_by_bytes_and_a_split_character_is_dropped() {
    let mut sc = Sharecart::default();
    sc.player_name = format!("{}\u{10348}tail", "b".repeat(1020));
    let text = sc.to_string();
    let line = text.lines().find(|l| l.starts_with("PlayerName=")).unwrap();
    assert_eq!(line, format!("PlayerName={}", "b".repeat(1020)));
    sc.player_name = format!("{}\u{10348}tail", "b".repeat(1019));
    let text = sc.to_string();
    let line = text.lines().find(|l| l.starts_with("PlayerName=")).unwrap();
    assert_eq!(line, format!("PlayerName={}\u{10348}", "b".repeat(1019)));
}

#[test]
fn name_loses_replacement_characters_and_line_breaks_when_read() {
    let sc = Sharecart::from_entries(&vec![entry("PlayerName", "a\u{FFFD}b\rc\nd\u{FFFD}")]);
    assert_eq!(sc.player_name, "abcd");
    let mut sc = Sharecart::default();
    sc.player_name = "q\u{FFFD}r".to_string();
    assert!(sc.to_string().contains("\nPlayerName=qr\n"));
}

#[test]
fn name_keeps_characters_of_every_width() {
    let name = "a\u{7f}\u{80}é\u{7ff}\u{800}€\u{d7ff}\u{e000}\u{fffc}\u{fffe}\u{ffff}\u{10000}😀\u{10ffff}";
    let sc = Sharecart::from_entries(&vec![entry("PlayerName", name)]);
    assert_eq!(sc.player_name, name);
    let mut sc = Sharecart::default();
    sc.player_name = name.to_string();
    let text = sc.to_string();
    assert!(text.contains(&format!("\nPlayerName={}\n", name)));
}

#[test]
fn decoded_record_is_canonical() {
    let texts = [
        "[Main]\nMapX=65535\nMapY=4096\n".to_string(),
        format!("[Main]\nPlayerName={}\n", "é".repeat(3000)),
        format!("[Main]\nPlayerName={}\n", "\u{FFFD}x".repeat(900)),
    ];
    for text in texts.iter() {
        let sc = Sharecart::from_str(text);
        assert!(sc.map_x < 1024 && sc.map_y < 1024);
        assert!(sc.player_name.len() <= 1023);
        assert!(!sc.player_name.contains(|c| c == '\u{FFFD}' || c == '\r' || c == '\n'));
    }
}

#[test]
fn decoding_an_encoded_record_is_a_fixpoint() {
    let mut sc = sample();
    sc.map_x = 60000;
    sc.player_name = format!("\r{}\n", "ü".repeat(700));
    let once = Sharecart::from_str(&sc.to_string());
    let twice = Sharecart::from_str(&once.to_string());
    assert_eq!(once, twice);
    assert_eq!(once.map_x, 60000 % 1024);
    assert_eq!(once.player_name, "ü".repeat(511));
}
