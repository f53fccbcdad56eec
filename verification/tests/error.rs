use rucene::error::Error;

#[test]
fn error_text_begins_with_its_kind() {
    assert_eq!(Error::IllegalState("lock held".into()).to_string(), "Illegal state: lock held");
    assert_eq!(Error::IllegalArgument("x".into()).to_string(), "IllegalArgument: x");
    assert_eq!(Error::UnexpectedEOF("x".into()).to_string(), "Unexpected EOF: x");
    assert_eq!(Error::CorruptIndex("x".into()).to_string(), "Corrupt Index: x");
    assert_eq!(Error::UnsupportedOperation("x".into()).to_string(), "Unsupported Operation: x");
    assert_eq!(Error::AlreadyClosed("x".into()).to_string(), "Already Closed: x");
    assert_eq!(Error::RuntimeError("".into()).to_string(), "Runtime Error: ");
    assert_eq!(Error::ParseError("x".into()).to_string(), "Parse Error: x");
    assert_eq!(Error::SearchTimeout.to_string(), "Search Timeout");
    assert_eq!(Error::MergeAborted.to_string(), "Merge Aborted");
    assert_eq!(
        Error::Poisoned.to_string(),
        "a thread holding the locked panicked and poisoned the lock"
    );
}

#[test]
fn error_wraps_errors_from_outside() {
    let parse = "x".parse::<i32>().unwrap_err();
    let text = format!("ParseIntError: {}", parse);
    let e: Error = parse.into();
    assert!(matches!(e, Error::NumError(_)));
    assert_eq!(e.to_string(), text);
    let io = std::io::Error::new(std::io::ErrorKind::Other, "disk");
    let e = Error::from(io);
    assert_eq!(e.to_string(), "IO Error: disk");
    let utf8 = String::from_utf8(vec![0xff]).unwrap_err();
    assert!(matches!(Error::from(utf8), Error::FromUtf8Error(_)));
    let float = "x".parse::<f64>().unwrap_err();
    assert!(Error::from(float).to_string().starts_with("ParseFloatError: "));
    let poisoned = std::sync::PoisonError::new(0u8);
    assert!(matches!(Error::from(poisoned), Error::Poisoned));
}

#[test]
fn error_text_of_a_wrapped_error_is_its_kind_and_the_text_of_that_error() {
    let utf8 = String::from_utf8(vec![0xff]).unwrap_err();
    let expected = format!("FromUtf8 Error: {}", utf8);
    assert_eq!(Error::from(utf8).to_string(), expected);
    let fmt = std::fmt::Error;
    assert_eq!(Error::from(fmt).to_string(), format!("Format Error: {}", std::fmt::Error));
    let slice = std::str::from_utf8(&[0xc0]).unwrap_err();
    assert_eq!(Error::from(slice).to_string(), format!("Utf8 Error: {}", slice));
}
