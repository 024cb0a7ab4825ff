use libreeb::{parse_header, RawEventType, RawFileReaderError};

fn lines(text: &[&str]) -> Vec<String> {
    text.iter().map(|l| l.to_string()).collect()
}

#[test]
fn evt_key_names_the_format() {
    let h = parse_header(&lines(&["% evt 3.0\n", "% geometry 640x480\n"])).unwrap();
    assert_eq!(h.event_type, RawEventType::Evt3);
    assert_eq!(h.camera_geometry.width, 0);
    assert_eq!(
        h.header_dict,
        vec![
            ("evt".to_string(), "3.0".to_string()),
            ("geometry".to_string(), "640x480".to_string())
        ]
    );
}

#[test]
fn format_key_takes_precedence_and_is_cut_at_semicolon() {
    let h = parse_header(&lines(&[
        "% evt 3.0\n",
        "% format EVT21;endianness=little;height=320;width=320\n",
    ]))
    .unwrap();
    assert_eq!(h.event_type, RawEventType::Evt21);
}

#[test]
fn every_tag_maps() {
    let cases = [
        ("2.0", RawEventType::Evt2),
        ("EVT2", RawEventType::Evt2),
        ("2.1", RawEventType::Evt21),
        ("EVT21", RawEventType::Evt21),
        ("3.0", RawEventType::Evt3),
        ("EVT3", RawEventType::Evt3),
        ("4.0", RawEventType::Evt4),
        ("EVT4", RawEventType::Evt4),
    ];
    for (tag, expected) in cases {
        let h = parse_header(&lines(&[&format!("% evt {}\r\n", tag)])).unwrap();
        assert_eq!(h.event_type, expected);
    }
}

#[test]
fn unknown_tag_is_echoed() {
    match parse_header(&lines(&["%evt EVT9\n"])) {
        Err(RawFileReaderError::UnknownEventType(s)) => assert_eq!(s, "EVT9"),
        other => panic!("unexpected {:?}", other),
    }
}

#[test]
fn missing_tag() {
    assert!(matches!(
        parse_header(&lines(&["% date 2024-01-01\n", "% end\n"])),
        Err(RawFileReaderError::EventTypeNotFound)
    ));
    assert!(matches!(parse_header(&lines(&[])), Err(RawFileReaderError::EventTypeNotFound)));
}

#[test]
fn repeated_key_keeps_last_value_in_place() {
    let h = parse_header(&lines(&[
        "%% date 2024-01-01 10:00:00\n",
        "% evt 2.1\n",
        "% date  later\n",
        "% lonely\n",
    ]))
    .unwrap();
    assert_eq!(
        h.header_dict,
        vec![
            ("date".to_string(), " later".to_string()),
            ("evt".to_string(), "2.1".to_string())
        ]
    );
}
