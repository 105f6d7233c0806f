use btparse::deser::{delimited, frame, header, start, trailing_comma};
use btparse::{Error, Frame, Kind};

#[test]
fn frame_test() {
    let input = "{fn: \"function_name\", file: \"file_name\", line: 10} extra input";
    let (input, f) = frame(input).unwrap();
    assert_eq!(" extra input", input);
    assert_eq!(
        Frame {
            function: "function_name".into(),
            file: Some("file_name".into()),
            line: Some(10)
        },
        f
    );

    let input = "{fn: \"function_name\", line: 10} extra input";
    let (input, f) = frame(input).unwrap();
    assert_eq!(" extra input", input);
    assert_eq!(
        Frame {
            function: "function_name".into(),
            file: None,
            line: Some(10)
        },
        f
    );

    let input = "{fn: \"function_name\", file: \"file_name\"} extra input";
    let (input, f) = frame(input).unwrap();
    assert_eq!(" extra input", input);
    assert_eq!(
        Frame {
            function: "function_name".into(),
            file: Some("file_name".into()),
            line: None,
        },
        f
    );

    let input = "{fn: \"function_name\"} extra input";
    let (input, f) = frame(input).unwrap();
    assert_eq!(" extra input", input);
    assert_eq!(
        Frame {
            function: "function_name".into(),
            file: None,
            line: None,
        },
        f
    );

    let input = "{n: \"function_name\"} extra input";
    let e = frame(input).unwrap_err();
    match e {
        Error {
            kind: Kind::InvalidInput { found, .. },
        } => {
            assert_eq!(found, "n: \"");
        }
        _ => panic!("unexpected error kind"),
    }
}

#[test]
fn start_test() {
    let input = "hi whatsup";
    let input = start(input, "hi ").unwrap();
    assert_eq!("whatsup", input);
}

#[test]
fn delimited_test() {
    let input = "{this is delimited by {} some garbage} the remainder";
    let (input, delimited_bit) = delimited(input, "{", "}").unwrap();
    assert_eq!("this is delimited by {} some garbage", delimited_bit);
    assert_eq!(" the remainder", input);
}

#[test]
fn trailing_comma_test() {
    let input = ", hi whatsup";
    let (input, had) = trailing_comma(input);
    assert!(had);
    let (_, had) = trailing_comma(input);
    assert!(!had);
}

#[test]
fn header_test() {
    let input = header("Backtrace [").unwrap();
    assert!(input.is_empty());

    match header("<disabled>") {
        Err(Error {
            kind: Kind::Disabled,
        }) => (),
        _ => unreachable!(),
    }

    match header("disabled backtrace") {
        Err(Error {
            kind: Kind::Disabled,
        }) => (),
        _ => unreachable!(),
    }

    match header("unsupported backtrace") {
        Err(Error {
            kind: Kind::Unsupported,
        }) => (),
        _ => unreachable!(),
    }

    match header("bunch of random garbage") {
        Err(Error {
            kind: Kind::UnexpectedInput(input),
        }) => assert_eq!("bunch of random garbage", input),
        _ => unreachable!(),
    }
}
