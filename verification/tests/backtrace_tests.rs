use btparse::{deserialize, deserialize_str, Backtrace, Error, Frame, Kind};

#[test]
fn backtrace_deserialize_enabled() {
    let bt = std::backtrace::Backtrace::force_capture();
    let bt_parsed = deserialize(&bt).unwrap();
    assert!(!bt_parsed.frames.is_empty());
}

#[test]
fn backtrace_deserialize_disabled() {
    let bt = std::backtrace::Backtrace::capture();
    let bt_parsed = deserialize(&bt);
    match bt_parsed {
        Ok(_) => panic!("this should not parse"),
        Err(Error {
            kind: Kind::Disabled,
        }) => (),
        Err(e) => panic!("unexpected error: {:?}", e),
    }
}

#[test]
fn deserialize_simple() {
    let backtrace = r#"Backtrace [{fn: "fn1", file: "fi"le1", line: 1}, {fn: "fn2", line: 2}, {fn: "fn3", file: "file3"}, {fn: "fn4"}]"#;
    let expected = Backtrace {
        frames: vec![
            Frame {
                function: "fn1".into(),
                file: Some("fi\"le1".into()),
                line: Some(1),
            },
            Frame {
                function: "fn2".into(),
                file: None,
                line: Some(2),
            },
            Frame {
                function: "fn3".into(),
                file: Some("file3".into()),
                line: None,
            },
            Frame {
                function: "fn4".into(),
                file: None,
                line: None,
            },
        ],
    };
    let bt_parsed = deserialize_str(backtrace).unwrap();
    assert_eq!(expected.frames, bt_parsed.frames);
}
