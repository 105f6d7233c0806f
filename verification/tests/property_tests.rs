use btparse::deser::{close_bracket, delimited, frame, header};
use btparse::text::parse_usize;
use btparse::{deserialize_str, Error, Frame, Kind, LineParseError};

#[test]
fn round_trip_two_frames() {
    let rendered = "Backtrace [{fn: \"alpha\", file: \"a.rs\", line: 7}, {fn: \"beta\"}]";
    let parsed = deserialize_str(rendered).unwrap();
    assert_eq!(
        parsed.frames,
        vec![
            Frame {
                function: "alpha".into(),
                file: Some("a.rs".into()),
                line: Some(7),
            },
            Frame {
                function: "beta".into(),
                file: None,
                line: None,
            },
        ]
    );
}

#[test]
fn trailing_text_rejected() {
    let e = deserialize_str("Backtrace [{fn: \"f\"}] trailing").unwrap_err();
    match e {
        Error {
            kind: Kind::UnexpectedInput(text),
        } => assert_eq!(" trailing", text),
        _ => panic!("unexpected error kind"),
    }
}

#[test]
fn empty_input_is_unexpected() {
    let e = deserialize_str("").unwrap_err();
    match e {
        Error {
            kind: Kind::UnexpectedInput(text),
        } => assert_eq!("", text),
        _ => panic!("unexpected error kind"),
    }
}

#[test]
fn nested_delimiters_in_frame_content() {
    let input = "{fn: \"closure{{inner}}\"} rest";
    let (rest, f) = frame(input).unwrap();
    assert_eq!(" rest", rest);
    assert_eq!(
        Frame {
            function: "closure{{inner}}".into(),
            file: None,
            line: None,
        },
        f
    );
}

#[test]
fn deeply_nested_delimiters() {
    let input = "{a{b{c}d}e}f";
    let (rest, inner) = delimited(input, "{", "}").unwrap();
    assert_eq!("f", rest);
    assert_eq!("a{b{c}d}e", inner);
}

#[test]
fn unterminated_delimiter_is_reported() {
    let e = delimited("{never closed", "{", "}").unwrap_err();
    match e {
        Error {
            kind: Kind::UnexpectedInput(text),
        } => assert_eq!("{never closed", text),
        _ => panic!("unexpected error kind"),
    }
}

#[test]
fn line_parse_failure_carries_text_and_cause() {
    let e = frame("{fn: \"f\", line: 12x}").unwrap_err();
    match e {
        Error {
            kind: Kind::LineParse(text, cause),
        } => {
            assert_eq!("12x", text);
            assert_eq!(LineParseError::InvalidDigit, cause);
        }
        _ => panic!("unexpected error kind"),
    }
}

#[test]
fn line_parse_overflow() {
    let e = frame("{fn: \"f\", line: 99999999999999999999999999}").unwrap_err();
    match e {
        Error {
            kind: Kind::LineParse(text, cause),
        } => {
            assert_eq!("99999999999999999999999999", text);
            assert_eq!(LineParseError::Overflow, cause);
        }
        _ => panic!("unexpected error kind"),
    }
}

#[test]
fn number_parsing() {
    assert_eq!(Ok(42), parse_usize("42"));
    assert_eq!(Ok(7), parse_usize("+7"));
    assert_eq!(Ok(0), parse_usize("0"));
    assert_eq!(Err(LineParseError::Empty), parse_usize(""));
    assert_eq!(Err(LineParseError::InvalidDigit), parse_usize("+"));
    assert_eq!(Err(LineParseError::InvalidDigit), parse_usize("4 2"));
    assert_eq!(Err(LineParseError::Overflow), parse_usize("99999999999999999999999999"));
}

#[test]
fn close_bracket_consumes_one_bracket() {
    let rest = close_bracket("] tail").unwrap();
    assert_eq!(" tail", rest);
    let e = close_bracket("x]").unwrap_err();
    match e {
        Error {
            kind: Kind::InvalidInput { expected, found },
        } => {
            assert_eq!("]", expected);
            assert_eq!("x", found);
        }
        _ => panic!("unexpected error kind"),
    }
}

#[test]
fn header_prefix_before_bracket_is_checked() {
    let e = header("garbage [rest").unwrap_err();
    match e {
        Error {
            kind: Kind::UnexpectedInput(text),
        } => assert_eq!("garbage ", text),
        _ => panic!("unexpected error kind"),
    }
}

#[test]
fn header_label_without_bracket_is_unexpected() {
    let e = header("Backtrace ").unwrap_err();
    match e {
        Error {
            kind: Kind::UnexpectedInput(text),
        } => assert_eq!("Backtrace ", text),
        _ => panic!("unexpected error kind"),
    }
}

#[test]
fn frame_body_is_trimmed() {
    let (rest, f) = frame("{  fn: \"spaced\"  }").unwrap();
    assert_eq!("", rest);
    assert_eq!("spaced", f.function);
    assert_eq!(None, f.file);
    assert_eq!(None, f.line);
}

#[test]
fn quotes_stripped_only_as_a_pair() {
    let (_, f) = frame("{fn: \"unterminated}").unwrap();
    assert_eq!("\"unterminated", f.function);
    let (_, f) = frame("{fn: plain}").unwrap();
    assert_eq!("plain", f.function);
}
